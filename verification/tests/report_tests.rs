//! Tests of the report generator: deterministic ordering, the average
//! column, and the per-function call-stack detail.

use profiling_log::aggregate::{DisplayName, FunctionStats};
use profiling_log::report::{generate_report, sorted_call_stacks};

fn fs(total: u64, self_us: u64, calls: u64) -> FunctionStats {
    FunctionStats {
        display_name: DisplayName::Unknown(0),
        call_count: calls,
        total_time_us: total,
        self_time_us: self_us,
        call_stacks: Vec::new(),
    }
}

#[test]
fn rows_sorted_by_total_time_descending() {
    let stats = vec![(1, fs(100, 10, 1)), (2, fs(50, 5, 1)), (3, fs(75, 7, 1))];
    let rows = generate_report(&stats);
    let totals: Vec<u64> = rows.iter().map(|r| r.total_time_us).collect();
    assert_eq!(totals, vec![100, 75, 50]);
}

#[test]
fn sort_ignores_first_seen_order() {
    let stats = vec![(2, fs(50, 5, 1)), (1, fs(100, 10, 1)), (3, fs(75, 7, 1))];
    let rows = generate_report(&stats);
    let totals: Vec<u64> = rows.iter().map(|r| r.total_time_us).collect();
    assert_eq!(totals, vec![100, 75, 50]);
}

#[test]
fn ties_break_by_code_address() {
    let stats = vec![(9, fs(50, 1, 1)), (3, fs(50, 2, 1)), (6, fs(50, 3, 1))];
    let rows = generate_report(&stats);
    let pcs: Vec<i32> = rows.iter().map(|r| r.pc).collect();
    assert_eq!(pcs, vec![3, 6, 9]);
}

#[test]
fn average_is_total_over_calls() {
    let stats = vec![(1, fs(10, 10, 4))];
    let rows = generate_report(&stats);
    assert_eq!(rows[0].average_time_us, 2);
}

#[test]
fn average_of_zero_calls_is_zero() {
    let stats = vec![(1, fs(10, 10, 0))];
    let rows = generate_report(&stats);
    assert_eq!(rows[0].average_time_us, 0);
}

#[test]
fn rows_carry_the_figures_over() {
    let stats = vec![(7, fs(12, 9, 1))];
    let rows = generate_report(&stats);
    assert_eq!(rows.len(), 1);
    assert_eq!(rows[0].pc, 7);
    assert_eq!(rows[0].total_time_us, 12);
    assert_eq!(rows[0].self_time_us, 9);
    assert_eq!(rows[0].call_count, 1);
    assert_eq!(rows[0].display_name, DisplayName::Unknown(0));
}

#[test]
fn call_stacks_sorted_by_count_descending() {
    let mut f = fs(10, 10, 9);
    f.call_stacks = vec![(vec![1], 1), (vec![2], 5), (vec![3], 3)];
    let sorted = sorted_call_stacks(&f);
    let counts: Vec<u64> = sorted.iter().map(|c| c.1).collect();
    assert_eq!(counts, vec![5, 3, 1]);
    assert_eq!(sorted[0].0, vec![2]);
}

#[test]
fn call_stack_ties_keep_first_seen_order() {
    let mut f = fs(10, 10, 9);
    f.call_stacks = vec![(vec![1], 2), (vec![2], 7), (vec![3], 2), (vec![4], 2)];
    let sorted = sorted_call_stacks(&f);
    let keys: Vec<Vec<i32>> = sorted.iter().map(|c| c.0.clone()).collect();
    assert_eq!(keys, vec![vec![2], vec![1], vec![3], vec![4]]);
}

#[test]
fn empty_call_stack_table_stays_empty() {
    let f = fs(1, 1, 1);
    assert_eq!(sorted_call_stacks(&f).len(), 0);
}
