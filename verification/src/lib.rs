//! Interprets a captured profiling trace: decodes length-delimited event
//! records, reconstructs the call stack, aggregates per-function timing
//! statistics, and orders them into a deterministic report.

pub mod aggregate;
pub mod decode;
pub mod events;
pub mod laws;
pub mod report;
pub mod symbols;

use vstd::prelude::*;

use crate::aggregate::{aggregate_events, stats_view, AggState, FunctionStats};
use crate::decode::{decode_events, spec_decode_events, DecodeError};
use crate::events::ProfileEvent;

verus! {

/// Decodes a whole trace buffer and aggregates it in one pass: every
/// record becomes an event, every event runs through the call-stack
/// reconstruction, and the per-function statistics table comes back in
/// first-seen order. Fails exactly when the buffer fails to decode.
pub fn analyze_trace(data: &Vec<u8>, pc_map: &Vec<(i32, String)>) -> (r: Result<
    Vec<(i32, FunctionStats)>,
    DecodeError,
>)
    ensures
        match spec_decode_events(data@, 0) {
            Ok(evs) => r matches Ok(stats) && stats_view(stats@) == crate::aggregate::spec_run(
                evs,
                AggState { stack: Seq::empty(), stats: Seq::empty() },
                pc_map@,
            ).stats,
            Err(e) => r matches Err(e2) && e2 == e,
        },
{
    let events: Vec<ProfileEvent> = match decode_events(data) {
        Ok(evs) => evs,
        Err(e) => {
            return Err(e);
        },
    };
    Ok(aggregate_events(&events, pc_map))
}

/// Invocation surface of the interpreter: a trace file path, an optional
/// symbol file path, and whether the report should include per-function
/// call-stack detail.
pub struct Args {
    /// Path to the profiling trace file.
    pub file: String,
    /// Path to the symbol file used for name and source resolution, if any.
    pub debug_xml: Option<String>,
    /// Whether to include the unique call-stack contexts of each function.
    pub show_callstacks: bool,
}

} // verus!
