[package]
name = "profiling_log"
version = "0.1.0"
edition = "2021"
publish = false

[dependencies]
xml-rs = "*"
clap = { version = "*", features = ["derive"] }
anyhow = "*"

[dev-dependencies]
prost = "*"
