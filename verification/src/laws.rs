//! Properties of the aggregation step that hold for every input: anomalies
//! are inert or clamped, caller contexts are keyed independently, and
//! well-formedness of the statistics table is preserved.

use vstd::prelude::*;

use crate::aggregate::{
    key_index, keys_unique, lemma_key_index, sat_add_u64, sat_sub_i64, spec_bump_stack, spec_run,
    spec_step, stats_wf, AggState, FunctionStatsView, StackFrame,
};
use crate::events::{EventType, ProfileEvent};

verus! {

/// Whether an event means "a function started executing".
pub open spec fn is_enter(e: ProfileEvent) -> bool {
    e.spec_kind() == EventType::LegacyEnter || e.spec_kind() == EventType::Enter
}

/// Whether an event means "a function returned".
pub open spec fn is_exit(e: ProfileEvent) -> bool {
    e.spec_kind() == EventType::Exit
}

/// The nesting depth after the first `i` events: enters opened minus exits
/// closed.
pub open spec fn depth_after(events: Seq<ProfileEvent>, i: int) -> int
    decreases i,
{
    if i <= 0 {
        0
    } else {
        depth_after(events, i - 1) + (if is_enter(events[i - 1]) {
            1int
        } else {
            -1int
        })
    }
}

/// A perfectly nested sequence of Enter/Exit pairs that forms exactly one
/// top-level invocation: every event is an enter or an exit, the depth
/// stays at least 1 strictly inside the stream, and the stream closes at
/// depth 0.
pub open spec fn well_nested_single(events: Seq<ProfileEvent>) -> bool {
    &&& events.len() >= 2
    &&& forall|i: int| 0 <= i < events.len() ==> is_enter(#[trigger] events[i]) || is_exit(events[i])
    &&& forall|i: int| 1 <= i < events.len() ==> depth_after(events, i) >= 1
    &&& depth_after(events, events.len() as int) == 0
}

/// Timestamps never decrease from one event to the next.
pub open spec fn timestamps_monotone(events: Seq<ProfileEvent>) -> bool {
    forall|i: int|
        0 <= i < events.len() - 1 ==> (#[trigger] events[i]).spec_timestamp_or_zero() <= events[
            i + 1
        ].spec_timestamp_or_zero()
}

/// Every timestamp is non-negative.
pub open spec fn timestamps_nonneg(events: Seq<ProfileEvent>) -> bool {
    forall|i: int| 0 <= i < events.len() ==> (#[trigger] events[i]).spec_timestamp_or_zero() >= 0
}

/// The sum of the self times over the whole statistics table.
pub open spec fn sum_self(stats: Seq<(i32, FunctionStatsView)>) -> int
    decreases stats.len(),
{
    if stats.len() == 0 {
        0
    } else {
        sum_self(stats.drop_last()) + stats.last().1.self_time_us
    }
}

/// The sum of the accumulated children times over the live stack.
pub open spec fn sum_children(stack: Seq<StackFrame>) -> int
    decreases stack.len(),
{
    if stack.len() == 0 {
        0
    } else {
        sum_children(stack.drop_last()) + stack.last().children_time
    }
}

/// Each frame ends its completed children before the frame above it
/// started.
pub open spec fn frames_chained(stack: Seq<StackFrame>) -> bool {
    forall|j: int|
        0 <= j < stack.len() - 1 ==> (#[trigger] stack[j]).start_time + stack[j].children_time
            <= stack[j + 1].start_time
}

proof fn lemma_sum_self_nonneg(stats: Seq<(i32, FunctionStatsView)>)
    ensures
        sum_self(stats) >= 0,
    decreases stats.len(),
{
    if stats.len() > 0 {
        lemma_sum_self_nonneg(stats.drop_last());
    }
}

proof fn lemma_self_le_sum(stats: Seq<(i32, FunctionStatsView)>, r: int)
    requires
        0 <= r < stats.len(),
    ensures
        stats[r].1.self_time_us <= sum_self(stats),
    decreases stats.len(),
{
    lemma_sum_self_nonneg(stats.drop_last());
    if r < stats.len() - 1 {
        lemma_self_le_sum(stats.drop_last(), r);
        assert(stats.drop_last()[r] == stats[r]);
    }
}

proof fn lemma_sum_self_update(stats: Seq<(i32, FunctionStatsView)>, r: int, e: (
    i32,
    FunctionStatsView,
))
    requires
        0 <= r < stats.len(),
    ensures
        sum_self(stats.update(r, e)) == sum_self(stats) - stats[r].1.self_time_us
            + e.1.self_time_us,
    decreases stats.len(),
{
    let up = stats.update(r, e);
    if r == stats.len() - 1 {
        assert(up.drop_last() =~= stats.drop_last());
        assert(up.last() == e);
    } else {
        assert(up.drop_last() =~= stats.drop_last().update(r, e));
        assert(stats.drop_last()[r] == stats[r]);
        lemma_sum_self_update(stats.drop_last(), r, e);
        assert(up.last() == stats.last());
    }
}

proof fn lemma_sum_children_update(stack: Seq<StackFrame>, r: int, f: StackFrame)
    requires
        0 <= r < stack.len(),
    ensures
        sum_children(stack.update(r, f)) == sum_children(stack) - stack[r].children_time
            + f.children_time,
    decreases stack.len(),
{
    let up = stack.update(r, f);
    if r == stack.len() - 1 {
        assert(up.drop_last() =~= stack.drop_last());
        assert(up.last() == f);
    } else {
        assert(up.drop_last() =~= stack.drop_last().update(r, f));
        assert(stack.drop_last()[r] == stack[r]);
        lemma_sum_children_update(stack.drop_last(), r, f);
        assert(up.last() == stack.last());
    }
}

proof fn lemma_children_sum_bound(stack: Seq<StackFrame>, t: int)
    requires
        stack.len() >= 1,
        frames_chained(stack),
        forall|j: int| 0 <= j < stack.len() ==> (#[trigger] stack[j]).children_time >= 0,
        stack.last().start_time + stack.last().children_time <= t,
    ensures
        0 <= sum_children(stack) <= t - stack[0].start_time,
    decreases stack.len(),
{
    assert(stack[stack.len() - 1] == stack.last());
    assert(stack.last().children_time >= 0);
    if stack.len() == 1 {
        assert(stack.drop_last().len() == 0);
        assert(sum_children(stack.drop_last()) == 0);
        assert(stack[0] == stack.last());
    } else {
        let shorter = stack.drop_last();
        assert(forall|j: int|
            0 <= j < shorter.len() ==> #[trigger] shorter[j] == stack[j]);
        lemma_children_sum_bound(shorter, stack.last().start_time as int);
        assert(shorter[0] == stack[0]);
    }
}

/// The running invariant behind self-time conservation: while the
/// top-level invocation is still open, the live stack mirrors the nesting
/// depth, frames are chained in time, and the self time booked so far is
/// exactly the children time parked on the stack.
pub open spec fn conservation_inv(events: Seq<ProfileEvent>, i: int, st: AggState) -> bool {
    &&& st.stack.len() == depth_after(events, i)
    &&& st.stack.len() >= 1
    &&& st.stack[0].start_time == events[0].spec_timestamp_or_zero()
    &&& forall|j: int| 0 <= j < st.stack.len() ==> (#[trigger] st.stack[j]).children_time >= 0
    &&& forall|j: int| 0 <= j < st.stack.len() ==> (#[trigger] st.stack[j]).start_time >= 0
    &&& frames_chained(st.stack)
    &&& st.stack.last().start_time + st.stack.last().children_time <= events[
        i - 1
    ].spec_timestamp_or_zero()
    &&& sum_self(st.stats) == sum_children(st.stack)
}

proof fn lemma_conservation_step(
    events: Seq<ProfileEvent>,
    names: Seq<(i32, String)>,
    i: int,
    st: AggState,
)
    requires
        well_nested_single(events),
        timestamps_monotone(events),
        timestamps_nonneg(events),
        1 <= i < events.len(),
        conservation_inv(events, i, st),
    ensures
        ({
            let fin = spec_run(events.subrange(i, events.len() as int), st, names);
            &&& sum_self(fin.stats) == events.last().spec_timestamp_or_zero()
                - events[0].spec_timestamp_or_zero()
            &&& fin.stack.len() == 0
        }),
    decreases events.len() - i,
{
    let n = events.len() as int;
    let e = events[i];
    let st2 = spec_step(e, st, names);
    let rest = events.subrange(i, n);
    assert(rest[0] == e);
    assert(rest.drop_first() =~= events.subrange(i + 1, n));
    let t = e.spec_timestamp_or_zero();
    let t_prev = events[i - 1].spec_timestamp_or_zero();
    assert(t_prev <= t);
    assert(t >= 0);
    assert(depth_after(events, i + 1) == depth_after(events, i) + (if is_enter(e) {
        1int
    } else {
        -1int
    }));
    if is_enter(e) {
        assert(i + 1 < n) by {
            if i + 1 == n {
                assert(depth_after(events, n) >= 2);
            }
        }
        let frame = StackFrame {
            pc: e.spec_pc_or_zero(),
            start_time: t,
            children_time: 0,
        };
        assert(st2.stack =~= st.stack.push(frame));
        assert(st2.stack.drop_last() =~= st.stack);
        assert(sum_children(st2.stack) == sum_children(st.stack));
        assert(conservation_inv(events, i + 1, st2)) by {
            assert(forall|j: int|
                0 <= j < st.stack.len() ==> #[trigger] st2.stack[j] == st.stack[j]);
            assert(st.stack.last() == st2.stack[st.stack.len() - 1]);
        }
        lemma_conservation_step(events, names, i + 1, st2);
    } else {
        // an exit: the top frame is popped and charged
        let frame = st.stack.last();
        let popped = st.stack.drop_last();
        let duration = sat_sub_i64(t, frame.start_time);
        assert(frame.start_time + frame.children_time <= t_prev);
        assert(frame.children_time >= 0);
        assert(frame.start_time >= 0);
        assert(duration == t - frame.start_time);
        assert(duration >= frame.children_time);
        let self_raw = sat_sub_i64(duration, frame.children_time);
        assert(self_raw == duration - frame.children_time);
        assert(self_raw >= 0);
        let dur_pos: u64 = if duration < 0 {
            0
        } else {
            duration as u64
        };
        let self_pos: u64 = if self_raw < 0 {
            0
        } else {
            self_raw as u64
        };
        assert(self_pos == self_raw);
        // the self sum grows by exactly the clamped-free self time
        let r = key_index(st.stats, frame.pc);
        lemma_key_index(st.stats, frame.pc);
        lemma_sum_self_nonneg(st.stats);
        lemma_children_sum_bound(st.stack, t_prev as int);
        assert(sum_children(st.stack) <= t_prev);
        if r >= 0 {
            lemma_self_le_sum(st.stats, r);
            let entry = st.stats[r].1;
            assert(entry.self_time_us <= sum_self(st.stats));
            assert(sat_add_u64(entry.self_time_us, self_pos) == entry.self_time_us + self_pos);
            lemma_sum_self_update(
                st.stats,
                r,
                (
                    frame.pc,
                    FunctionStatsView {
                        display_name: entry.display_name,
                        call_count: sat_add_u64(entry.call_count, 1),
                        total_time_us: sat_add_u64(entry.total_time_us, dur_pos),
                        self_time_us: sat_add_u64(entry.self_time_us, self_pos),
                        call_stacks: spec_bump_stack(
                            entry.call_stacks,
                            crate::aggregate::trace_of(popped),
                        ),
                    },
                ),
            );
        } else {
            assert(st2.stats.drop_last() =~= st.stats);
        }
        assert(sum_self(st2.stats) == sum_self(st.stats) + self_raw);
        if i + 1 == n {
            assert(depth_after(events, n) == 0);
            assert(st.stack.len() == 1);
            assert(popped.len() == 0);
            assert(st2.stack =~= popped);
            assert(sum_children(st.stack) == frame.children_time);
            assert(frame.start_time == events[0].spec_timestamp_or_zero());
            assert(sum_self(st2.stats) == t - events[0].spec_timestamp_or_zero());
            assert(spec_run(rest.drop_first(), st2, names) == st2);
            assert(events.last() == e);
        } else {
            assert(depth_after(events, i + 1) >= 1);
            assert(st.stack.len() >= 2);
            let parent = popped.last();
            let pi = popped.len() - 1;
            assert(parent.start_time + parent.children_time <= frame.start_time);
            let parent2 = StackFrame {
                pc: parent.pc,
                start_time: parent.start_time,
                children_time: crate::aggregate::sat_add_i64(parent.children_time, duration),
            };
            assert(parent2.children_time == parent.children_time + duration);
            assert(st2.stack =~= popped.update(pi, parent2));
            lemma_sum_children_update(popped, pi, parent2);
            assert(sum_children(st.stack) == sum_children(popped) + frame.children_time);
            assert(sum_children(st2.stack) == sum_children(popped) + duration
                - parent.children_time + parent2.children_time - duration);
            assert(sum_children(st2.stack) == sum_children(st.stack) + self_raw);
            assert(conservation_inv(events, i + 1, st2)) by {
                assert(forall|j: int|
                    0 <= j < pi ==> #[trigger] st2.stack[j] == st.stack[j]);
                assert(st2.stack[pi] == parent2);
                assert(parent2.start_time + parent2.children_time <= t);
                if pi == 0 {
                    assert(st2.stack[0].start_time == parent.start_time);
                }
            }
            lemma_conservation_step(events, names, i + 1, st2);
        }
    }
}

/// Self-time conservation: over a perfectly nested sequence of Enter/Exit
/// pairs that forms one top-level invocation, with non-negative,
/// non-decreasing timestamps, the self times booked across every function
/// add up exactly to the top-level call's own inclusive time — the last
/// timestamp minus the first.
pub proof fn lemma_self_time_conservation(events: Seq<ProfileEvent>, names: Seq<(i32, String)>)
    requires
        well_nested_single(events),
        timestamps_monotone(events),
        timestamps_nonneg(events),
    ensures
        ({
            let fin = spec_run(
                events,
                AggState { stack: Seq::empty(), stats: Seq::empty() },
                names,
            );
            &&& sum_self(fin.stats) == events.last().spec_timestamp_or_zero()
                - events[0].spec_timestamp_or_zero()
            &&& fin.stack.len() == 0
        }),
{
    let init = AggState { stack: Seq::empty(), stats: Seq::empty() };
    let e0 = events[0];
    assert(depth_after(events, 0) == 0);
    assert(depth_after(events, 1) == (if is_enter(e0) {
        1int
    } else {
        -1int
    }));
    assert(is_enter(e0));
    let st1 = spec_step(e0, init, names);
    let t0 = e0.spec_timestamp_or_zero();
    assert(st1.stack =~= Seq::empty().push(
        StackFrame { pc: e0.spec_pc_or_zero(), start_time: t0, children_time: 0 },
    ));
    assert(events.drop_first() =~= events.subrange(1, events.len() as int));
    assert(conservation_inv(events, 1, st1)) by {
        assert(st1.stack.len() == 1);
        assert(st1.stack.drop_last() =~= Seq::<StackFrame>::empty());
        assert(sum_children(Seq::<StackFrame>::empty()) == 0);
        assert(st1.stack.last().children_time == 0);
        assert(sum_children(st1.stack) == 0);
        assert(sum_self(st1.stats) == 0);
    }
    lemma_conservation_step(events, names, 1, st1);
}

/// An Exit observed against an empty stack is inert: it creates no
/// statistics entry and leaves the whole state unchanged.
pub proof fn lemma_unmatched_exit_inert(e: ProfileEvent, st: AggState, names: Seq<(i32, String)>)
    requires
        e.spec_kind() == EventType::Exit,
        st.stack.len() == 0,
    ensures
        spec_step(e, st, names) == st,
{
}

/// An Enter-kind event never touches the statistics table; only a matching
/// Exit produces statistics.
pub proof fn lemma_enter_preserves_stats(e: ProfileEvent, st: AggState, names: Seq<(i32, String)>)
    requires
        e.spec_kind() == EventType::LegacyEnter || e.spec_kind() == EventType::Enter,
    ensures
        spec_step(e, st, names).stats == st.stats,
{
}

/// Running a concatenation is running the parts in order.
pub proof fn lemma_run_append(
    a: Seq<ProfileEvent>,
    b: Seq<ProfileEvent>,
    st: AggState,
    names: Seq<(i32, String)>,
)
    ensures
        spec_run(a + b, st, names) == spec_run(b, spec_run(a, st, names), names),
    decreases a.len(),
{
    if a.len() == 0 {
        assert(a + b =~= b);
    } else {
        assert((a + b)[0] == a[0]);
        assert((a + b).drop_first() =~= a.drop_first() + b);
        lemma_run_append(a.drop_first(), b, spec_step(a[0], st, names), names);
    }
}

/// Enter-kind events still open at end-of-stream contribute nothing: a
/// trailing run of Enters leaves the statistics table exactly as it was,
/// so they have no visible effect on the report.
pub proof fn lemma_unmatched_enters_dropped(
    events: Seq<ProfileEvent>,
    tail: Seq<ProfileEvent>,
    st: AggState,
    names: Seq<(i32, String)>,
)
    requires
        forall|i: int|
            0 <= i < tail.len() ==> (#[trigger] tail[i].spec_kind() == EventType::LegacyEnter
                || tail[i].spec_kind() == EventType::Enter),
    ensures
        spec_run(events + tail, st, names).stats == spec_run(events, st, names).stats,
{
    lemma_run_append(events, tail, st, names);
    lemma_enters_keep_stats(tail, spec_run(events, st, names), names);
}

proof fn lemma_enters_keep_stats(tail: Seq<ProfileEvent>, st: AggState, names: Seq<(i32, String)>)
    requires
        forall|i: int|
            0 <= i < tail.len() ==> (#[trigger] tail[i].spec_kind() == EventType::LegacyEnter
                || tail[i].spec_kind() == EventType::Enter),
    ensures
        spec_run(tail, st, names).stats == st.stats,
    decreases tail.len(),
{
    if tail.len() > 0 {
        assert(tail[0].spec_kind() == EventType::LegacyEnter || tail[0].spec_kind()
            == EventType::Enter);
        assert(forall|i: int|
            0 <= i < tail.drop_first().len() ==> #[trigger] tail.drop_first()[i] == tail[i + 1]);
        lemma_enters_keep_stats(tail.drop_first(), spec_step(tail[0], st, names), names);
    }
}

/// An Exit whose duration minus accumulated children time is negative
/// contributes exactly 0 to the function's self time: an existing entry
/// keeps its self time, a fresh entry starts at 0.
pub proof fn lemma_negative_self_time_clamped(
    e: ProfileEvent,
    st: AggState,
    names: Seq<(i32, String)>,
)
    requires
        e.spec_kind() == EventType::Exit,
        st.stack.len() > 0,
        sat_sub_i64(
            sat_sub_i64(e.spec_timestamp_or_zero(), st.stack.last().start_time),
            st.stack.last().children_time,
        ) < 0,
    ensures
        ({
            let st2 = spec_step(e, st, names);
            let pc = st.stack.last().pc;
            let r = key_index(st.stats, pc);
            let r2 = key_index(st2.stats, pc);
            &&& 0 <= r2 < st2.stats.len()
            &&& r >= 0 ==> r2 == r && st2.stats[r2].1.self_time_us == st.stats[r].1.self_time_us
            &&& r < 0 ==> st2.stats[r2].1.self_time_us == 0
        }),
{
    let st2 = spec_step(e, st, names);
    let pc = st.stack.last().pc;
    let r = key_index(st.stats, pc);
    let r2 = key_index(st2.stats, pc);
    lemma_key_index(st.stats, pc);
    lemma_key_index(st2.stats, pc);
    if r >= 0 {
        assert(st2.stats[r].0 == pc);
        assert(r2 == r);
    } else {
        assert(st2.stats[st.stats.len() as int].0 == pc);
        assert(r2 == st.stats.len());
    }
}

/// The occurrence count of one caller context under [`spec_bump_stack`]'s
/// table, or `None` when the context has never been seen.
pub open spec fn stack_count(cs: Seq<(Seq<i32>, u64)>, key: Seq<i32>) -> Option<u64> {
    let r = key_index(cs, key);
    if r >= 0 {
        Some(cs[r].1)
    } else {
        None
    }
}

/// Caller contexts are independent keys: bumping one context increments
/// exactly its own count (starting a fresh context at 1) and leaves the
/// count of every other context untouched.
pub proof fn lemma_call_stack_keying(cs: Seq<(Seq<i32>, u64)>, key: Seq<i32>)
    requires
        keys_unique(cs),
    ensures
        ({
            let cs2 = spec_bump_stack(cs, key);
            &&& stack_count(cs2, key) == match stack_count(cs, key) {
                Some(c) => Some(sat_add_u64(c, 1)),
                None => Some(1u64),
            }
            &&& forall|other: Seq<i32>|
                other != key ==> #[trigger] stack_count(cs2, other) == stack_count(cs, other)
        }),
{
    let cs2 = spec_bump_stack(cs, key);
    let r = key_index(cs, key);
    lemma_key_index(cs, key);
    lemma_key_index(cs2, key);
    if r >= 0 {
        assert(cs2[r].0 == key);
        assert(key_index(cs2, key) == r);
    } else {
        assert(cs2[cs.len() as int].0 == key);
        assert(key_index(cs2, key) == cs.len());
    }
    assert forall|other: Seq<i32>| other != key implies #[trigger] stack_count(cs2, other)
        == stack_count(cs, other) by {
        lemma_key_index(cs, other);
        lemma_key_index(cs2, other);
        let q = key_index(cs, other);
        let q2 = key_index(cs2, other);
        if q >= 0 {
            assert(cs2[q].0 == other);
            assert(q2 == q);
        } else {
            if q2 >= 0 {
                assert(cs2[q2].0 == other);
                if q2 < cs.len() {
                    assert(cs[q2].0 == other);
                } else {
                    assert(cs2[q2].0 == key);
                }
                assert(false);
            }
        }
    }
}

/// One aggregation step keeps the statistics table well-formed: function
/// keys stay unique, and so do each function's caller contexts.
pub proof fn lemma_step_preserves_wf(e: ProfileEvent, st: AggState, names: Seq<(i32, String)>)
    requires
        stats_wf(st.stats),
    ensures
        stats_wf(spec_step(e, st, names).stats),
{
    let st2 = spec_step(e, st, names);
    if e.spec_kind() == EventType::Exit && st.stack.len() > 0 {
        let frame = st.stack.last();
        let r = key_index(st.stats, frame.pc);
        lemma_key_index(st.stats, frame.pc);
        if r >= 0 {
            let cs = st.stats[r].1.call_stacks;
            let trace = crate::aggregate::trace_of(st.stack.drop_last());
            lemma_key_index(cs, trace);
            assert(keys_unique(spec_bump_stack(cs, trace)));
        } else {
            assert(keys_unique(st2.stats));
        }
    }
}

/// A whole run keeps the statistics table well-formed.
pub proof fn lemma_run_preserves_wf(
    events: Seq<ProfileEvent>,
    st: AggState,
    names: Seq<(i32, String)>,
)
    requires
        stats_wf(st.stats),
    ensures
        stats_wf(spec_run(events, st, names).stats),
    decreases events.len(),
{
    if events.len() > 0 {
        lemma_step_preserves_wf(events[0], st, names);
        lemma_run_preserves_wf(events.drop_first(), spec_step(events[0], st, names), names);
    }
}

} // verus!
