//! Tests of the call-stack reconstruction and time aggregation: the
//! end-to-end example, the clamping rules, unmatched events, the
//! address-range fallback, and call-stack keying.

use profiling_log::aggregate::{
    aggregate_events, classify_address, process_event_for_stats, DisplayName, FunctionStats,
    StackFrame,
};
use profiling_log::events::{EventType, ProfileEvent};

fn ev(ts: i64, pc: i32, kind: i32) -> ProfileEvent {
    ProfileEvent { timestamp: Some(ts), pc: Some(pc), event_type: Some(kind), extra_data: None }
}

fn stats_for<'a>(stats: &'a [(i32, FunctionStats)], pc: i32) -> &'a FunctionStats {
    &stats.iter().find(|e| e.0 == pc).unwrap().1
}

#[test]
fn end_to_end_example() {
    // events (t=0,pc=10,Enter) (t=5,pc=20,Enter) (t=8,pc=20,Exit) (t=12,pc=10,Exit)
    let events = vec![ev(0, 10, 2), ev(5, 20, 2), ev(8, 20, 3), ev(12, 10, 3)];
    let stats = aggregate_events(&events, &Vec::new());
    assert_eq!(stats.len(), 2);
    let f20 = stats_for(&stats, 20);
    assert_eq!(f20.call_count, 1);
    assert_eq!(f20.total_time_us, 3);
    assert_eq!(f20.self_time_us, 3);
    let f10 = stats_for(&stats, 10);
    assert_eq!(f10.call_count, 1);
    assert_eq!(f10.total_time_us, 12);
    assert_eq!(f10.self_time_us, 9);
}

#[test]
fn self_time_conserved_in_nested_run() {
    // one top-level call; the self times of everything inside add up to
    // its own total time
    let events = vec![
        ev(0, 1, 2),
        ev(2, 2, 2),
        ev(3, 3, 2),
        ev(7, 3, 3),
        ev(9, 2, 3),
        ev(10, 4, 2),
        ev(15, 4, 3),
        ev(20, 1, 3),
    ];
    let stats = aggregate_events(&events, &Vec::new());
    let sum: u64 = stats.iter().map(|e| e.1.self_time_us).sum();
    assert_eq!(sum, 20);
    assert_eq!(stats_for(&stats, 1).total_time_us, 20);
}

#[test]
fn legacy_enter_means_enter() {
    let events = vec![ev(0, 10, 1), ev(4, 10, 3)];
    let stats = aggregate_events(&events, &Vec::new());
    assert_eq!(stats_for(&stats, 10).call_count, 1);
    assert_eq!(stats_for(&stats, 10).total_time_us, 4);
}

#[test]
fn unknown_kind_changes_nothing() {
    let events = vec![ev(0, 10, 2), ev(1, 99, 0), ev(2, 98, 7), ev(4, 10, 3)];
    let stats = aggregate_events(&events, &Vec::new());
    assert_eq!(stats.len(), 1);
    assert_eq!(stats_for(&stats, 10).total_time_us, 4);
}

#[test]
fn negative_self_time_contributes_zero() {
    // the child's duration exceeds the parent's own window, so the
    // parent's computed self time is negative and is clamped to 0
    let events = vec![ev(0, 1, 2), ev(0, 2, 2), ev(10, 2, 3), ev(5, 1, 3)];
    let stats = aggregate_events(&events, &Vec::new());
    let parent = stats_for(&stats, 1);
    assert_eq!(parent.self_time_us, 0);
    assert_eq!(parent.total_time_us, 5);
    assert_eq!(stats_for(&stats, 2).self_time_us, 10);
}

#[test]
fn negative_duration_contributes_zero_total() {
    let events = vec![ev(10, 1, 2), ev(5, 1, 3)];
    let stats = aggregate_events(&events, &Vec::new());
    let f = stats_for(&stats, 1);
    assert_eq!(f.call_count, 1);
    assert_eq!(f.total_time_us, 0);
    assert_eq!(f.self_time_us, 0);
}

#[test]
fn unmatched_exit_is_inert() {
    let events = vec![ev(0, 99, 3), ev(1, 10, 2), ev(5, 10, 3)];
    let stats = aggregate_events(&events, &Vec::new());
    assert_eq!(stats.len(), 1);
    assert!(stats.iter().all(|e| e.0 != 99));
    assert_eq!(stats_for(&stats, 10).total_time_us, 4);
}

#[test]
fn unmatched_enter_is_dropped() {
    let closed = vec![ev(0, 10, 2), ev(5, 10, 3)];
    let with_tail = vec![ev(0, 10, 2), ev(5, 10, 3), ev(6, 42, 2), ev(7, 43, 2)];
    let a = aggregate_events(&closed, &Vec::new());
    let b = aggregate_events(&with_tail, &Vec::new());
    assert_eq!(a, b);
    assert!(b.iter().all(|e| e.0 != 42 && e.0 != 43));
}

#[test]
fn address_bucket_fallback() {
    assert_eq!(classify_address(0x40000000), DisplayName::Native(0));
    assert_eq!(classify_address(0x30000001), DisplayName::Api(0x30000001));
    assert_eq!(classify_address(0x10000005), DisplayName::App(0x10000005));
    assert_eq!(classify_address(0x5), DisplayName::Unknown(0x5));
}

#[test]
fn fallback_names_used_without_resolver() {
    let events = vec![
        ev(0, 0x40000001, 2),
        ev(1, 0x40000001, 3),
        ev(2, 0x30000001, 2),
        ev(3, 0x30000001, 3),
    ];
    let stats = aggregate_events(&events, &Vec::new());
    assert_eq!(stats_for(&stats, 0x40000001).display_name, DisplayName::Native(1));
    assert_eq!(stats_for(&stats, 0x30000001).display_name, DisplayName::Api(0x30000001));
}

#[test]
fn resolver_name_wins_over_fallback() {
    let names = vec![(10, String::from("SampleView.onUpdate"))];
    let events = vec![ev(0, 10, 2), ev(5, 10, 3)];
    let stats = aggregate_events(&events, &names);
    assert_eq!(
        stats_for(&stats, 10).display_name,
        DisplayName::Resolved(String::from("SampleView.onUpdate"))
    );
}

#[test]
fn call_stack_keying_separates_ancestor_chains() {
    let events = vec![
        // f (pc 5) called under g (pc 1)
        ev(0, 1, 2),
        ev(1, 5, 2),
        ev(2, 5, 3),
        ev(3, 1, 3),
        // f called under h (pc 2)
        ev(4, 2, 2),
        ev(5, 5, 2),
        ev(6, 5, 3),
        ev(7, 2, 3),
        // f called under g again
        ev(8, 1, 2),
        ev(9, 5, 2),
        ev(10, 5, 3),
        ev(11, 1, 3),
    ];
    let stats = aggregate_events(&events, &Vec::new());
    let f = stats_for(&stats, 5);
    assert_eq!(f.call_count, 3);
    assert_eq!(f.call_stacks.len(), 2);
    let under_g = f.call_stacks.iter().find(|c| c.0 == vec![1]).unwrap();
    assert_eq!(under_g.1, 2);
    let under_h = f.call_stacks.iter().find(|c| c.0 == vec![2]).unwrap();
    assert_eq!(under_h.1, 1);
}

#[test]
fn empty_context_for_top_level_call() {
    let events = vec![ev(0, 10, 2), ev(5, 10, 3)];
    let stats = aggregate_events(&events, &Vec::new());
    let f = stats_for(&stats, 10);
    assert_eq!(f.call_stacks.len(), 1);
    assert_eq!(f.call_stacks[0].0, Vec::<i32>::new());
    assert_eq!(f.call_stacks[0].1, 1);
}

#[test]
fn process_event_maintains_stack_directly() {
    let mut stack: Vec<StackFrame> = Vec::new();
    let mut stats: Vec<(i32, FunctionStats)> = Vec::new();
    let names: Vec<(i32, String)> = Vec::new();
    process_event_for_stats(&ev(0, 7, 2), &mut stack, &mut stats, &names);
    assert_eq!(stack.len(), 1);
    assert_eq!(stack[0].pc, 7);
    assert_eq!(stack[0].start_time, 0);
    assert_eq!(stack[0].children_time, 0);
    process_event_for_stats(&ev(3, 8, 2), &mut stack, &mut stats, &names);
    process_event_for_stats(&ev(5, 8, 3), &mut stack, &mut stats, &names);
    assert_eq!(stack.len(), 1);
    assert_eq!(stack[0].children_time, 2);
    assert!(stats.iter().any(|e| e.0 == 8));
    process_event_for_stats(&ev(9, 7, 3), &mut stack, &mut stats, &names);
    assert_eq!(stack.len(), 0);
    let f7 = &stats.iter().find(|e| e.0 == 7).unwrap().1;
    assert_eq!(f7.total_time_us, 9);
    assert_eq!(f7.self_time_us, 7);
}

#[test]
fn absent_fields_default_to_zero() {
    // an event with no kind is Unknown and does nothing; an enter with no
    // timestamp starts at 0
    let events = vec![
        ProfileEvent { timestamp: None, pc: Some(10), event_type: Some(2), extra_data: None },
        ProfileEvent { timestamp: Some(6), pc: Some(10), event_type: None, extra_data: None },
        ev(6, 10, 3),
    ];
    let stats = aggregate_events(&events, &Vec::new());
    assert_eq!(stats_for(&stats, 10).total_time_us, 6);
}

#[test]
fn event_kind_mapping() {
    assert_eq!(profiling_log::events::event_type_of(0), EventType::Unknown);
    assert_eq!(profiling_log::events::event_type_of(1), EventType::LegacyEnter);
    assert_eq!(profiling_log::events::event_type_of(2), EventType::Enter);
    assert_eq!(profiling_log::events::event_type_of(3), EventType::Exit);
    assert_eq!(profiling_log::events::event_type_of(9), EventType::Unknown);
}
