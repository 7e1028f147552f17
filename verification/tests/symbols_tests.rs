//! Tests of the symbol-file logic: number parsing, namespace stripping,
//! table building from a real document, and the lookup functions.

use profiling_log::analyze_trace;
use profiling_log::aggregate::DisplayName;
use profiling_log::symbols::{parse_debug_xml, parse_i32, resolve_name, resolve_source,
    strip_globals, SymbolFileError};

#[test]
fn parse_i32_plain_and_signed() {
    assert_eq!(parse_i32("123"), Some(123));
    assert_eq!(parse_i32("-45"), Some(-45));
    assert_eq!(parse_i32("+7"), Some(7));
    assert_eq!(parse_i32("0"), Some(0));
    assert_eq!(parse_i32("007"), Some(7));
}

#[test]
fn parse_i32_rejects_junk() {
    assert_eq!(parse_i32(""), None);
    assert_eq!(parse_i32("-"), None);
    assert_eq!(parse_i32("+"), None);
    assert_eq!(parse_i32("12a"), None);
    assert_eq!(parse_i32(" 12"), None);
    assert_eq!(parse_i32("1.5"), None);
}

#[test]
fn parse_i32_range_limits() {
    assert_eq!(parse_i32("2147483647"), Some(2147483647));
    assert_eq!(parse_i32("2147483648"), None);
    assert_eq!(parse_i32("-2147483648"), Some(-2147483648));
    assert_eq!(parse_i32("-2147483649"), None);
    assert_eq!(parse_i32("99999999999999999999"), None);
}

#[test]
fn strip_globals_prefix() {
    assert_eq!(strip_globals("globals/SampleView"), String::from("SampleView"));
    assert_eq!(strip_globals("globals/"), String::from(""));
    assert_eq!(strip_globals("SampleView"), String::from("SampleView"));
    assert_eq!(strip_globals("glob"), String::from("glob"));
}

const SAMPLE_XML: &str = r#"<?xml version="1.0"?>
<debugInfo>
  <functions>
    <functionEntry name="onUpdate" parent="SampleView" startPc="268435460"/>
    <functionEntry name="main" startPc="268435500"/>
    <functionEntry name="broken" startPc="notanumber"/>
    <functionEntry name="missing"/>
  </functions>
  <pcToLineNum>
    <entry filename="Sample.mc" id="1" lineNum="12" parent="globals/SampleView" pc="268435461" symbol="onShow"/>
    <entry filename="Main.mc" id="2" lineNum="3" parent="" pc="268435462" symbol="main"/>
    <entry filename="Skip.mc" id="3" lineNum="4" symbol="skipped"/>
  </pcToLineNum>
</debugInfo>
"#;

#[test]
fn builds_name_table_from_function_entries() {
    let info = parse_debug_xml(SAMPLE_XML).unwrap();
    let joined = resolve_name(&info.pc_to_name, 268435460).unwrap();
    assert_eq!(joined, "SampleView.onUpdate");
    let plain = resolve_name(&info.pc_to_name, 268435500).unwrap();
    assert_eq!(plain, "main");
    // unparsable or missing startPc entries are skipped
    assert_eq!(info.pc_to_name.len(), 2);
}

#[test]
fn builds_source_table_with_root_token_stripped() {
    let info = parse_debug_xml(SAMPLE_XML).unwrap();
    let loc = resolve_source(&info.pc_to_source, 268435461).unwrap();
    assert_eq!(loc.file, "Sample.mc");
    assert_eq!(loc.line, 12);
    assert_eq!(loc.symbol, "SampleView.onShow");
    let loc2 = resolve_source(&info.pc_to_source, 268435462).unwrap();
    assert_eq!(loc2.symbol, "main");
    // an entry with no pc attribute is skipped
    assert_eq!(info.pc_to_source.len(), 2);
}

#[test]
fn lookup_misses_return_nothing() {
    let info = parse_debug_xml(SAMPLE_XML).unwrap();
    assert!(resolve_name(&info.pc_to_name, 1).is_none());
    assert!(resolve_source(&info.pc_to_source, 1).is_none());
}

#[test]
fn duplicate_address_keeps_last_entry() {
    let xml = r#"<d>
      <functionEntry name="first" startPc="10"/>
      <functionEntry name="second" startPc="10"/>
    </d>"#;
    let info = parse_debug_xml(xml).unwrap();
    assert_eq!(info.pc_to_name.len(), 1);
    assert_eq!(resolve_name(&info.pc_to_name, 10).unwrap(), "second");
}

#[test]
fn malformed_document_is_rejected() {
    assert_eq!(
        parse_debug_xml("<debugInfo><functions></debugInfo>").unwrap_err(),
        SymbolFileError::Malformed
    );
    assert!(parse_debug_xml("not xml at all").is_err());
}

#[test]
fn resolver_feeds_the_aggregation_pipeline() {
    let xml = r#"<d><functionEntry name="tick" parent="App" startPc="20"/></d>"#;
    let info = parse_debug_xml(xml).unwrap();
    // one record stream: enter pc 20 at t=0, exit at t=6
    let mut buf = Vec::new();
    for body in [
        [0x08u8, 0, 0x10, 20, 0x18, 2],  // t=0 pc=20 enter
        [0x08u8, 6, 0x10, 20, 0x18, 3],  // t=6 pc=20 exit
    ] {
        buf.push(body.len() as u8);
        buf.extend_from_slice(&body);
    }
    let stats = analyze_trace(&buf, &info.pc_to_name).unwrap();
    assert_eq!(stats.len(), 1);
    assert_eq!(stats[0].0, 20);
    assert_eq!(stats[0].1.display_name, DisplayName::Resolved(String::from("App.tick")));
    assert_eq!(stats[0].1.total_time_us, 6);
}

#[test]
fn invocation_arguments_carry_through() {
    let args = profiling_log::Args {
        file: String::from("trace.prf"),
        debug_xml: Some(String::from("app.prg.debug.xml")),
        show_callstacks: true,
    };
    assert_eq!(args.file, "trace.prf");
    assert_eq!(args.debug_xml.as_deref(), Some("app.prg.debug.xml"));
    assert!(args.show_callstacks);
}
