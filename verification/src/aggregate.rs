//! Call-stack reconstruction and time aggregation: consumes events one at a
//! time, maintains the single call stack and the per-function statistics
//! table, and clamps every anomaly (an unmatched exit, a negative duration,
//! a negative self time) instead of failing, so a truncated or hand-edited
//! trace still yields a best-effort result.

use vstd::prelude::*;

use crate::events::{EventType, ProfileEvent};

verus! {

/// One live invocation on the reconstructed call stack.
#[derive(Clone, Copy, Debug, PartialEq, Eq, Structural)]
pub struct StackFrame {
    /// Code address of the function that entered.
    pub pc: i32,
    /// Timestamp of its Enter event, in microseconds.
    pub start_time: i64,
    /// Total duration of its already-completed children, accumulated while
    /// the frame is live so its own self time excludes them.
    pub children_time: i64,
}

/// How a function is shown: a resolved symbol name, or a label synthesized
/// from the fixed address-range convention of the platform's memory layout.
#[derive(Debug, PartialEq)]
pub enum DisplayName {
    /// The symbol table knows this address.
    Resolved(String),
    /// Address at or above 0x40000000: native code, keyed by the low 28
    /// bits of the address.
    Native(i32),
    /// Address in 0x30000000..0x3FFFFFFF: API code.
    Api(i32),
    /// Address in 0x10000000..0x2FFFFFFF: application code.
    App(i32),
    /// Any other address.
    Unknown(i32),
}

/// Mathematical model of a display name.
#[verifier::ext_equal]
pub enum DisplayNameView {
    Resolved(Seq<char>),
    Native(i32),
    Api(i32),
    App(i32),
    Unknown(i32),
}

impl View for DisplayName {
    type V = DisplayNameView;

    open spec fn view(&self) -> DisplayNameView {
        match self {
            DisplayName::Resolved(s) => DisplayNameView::Resolved(s@),
            DisplayName::Native(pc) => DisplayNameView::Native(*pc),
            DisplayName::Api(pc) => DisplayNameView::Api(*pc),
            DisplayName::App(pc) => DisplayNameView::App(*pc),
            DisplayName::Unknown(pc) => DisplayNameView::Unknown(*pc),
        }
    }
}

impl DisplayName {
    /// Copies the name.
    pub fn duplicate(&self) -> (r: DisplayName)
        ensures
            r@ == self@,
    {
        match self {
            DisplayName::Resolved(s) => DisplayName::Resolved(s.clone()),
            DisplayName::Native(pc) => DisplayName::Native(*pc),
            DisplayName::Api(pc) => DisplayName::Api(*pc),
            DisplayName::App(pc) => DisplayName::App(*pc),
            DisplayName::Unknown(pc) => DisplayName::Unknown(*pc),
        }
    }
}

/// The statistics of one function, keyed in the table by its code address.
/// Created on the first Exit observed for the address, updated on every
/// later Exit, never removed.
#[derive(Debug, PartialEq)]
pub struct FunctionStats {
    /// The resolved or synthesized name of the function.
    pub display_name: DisplayName,
    /// How many invocations have completed.
    pub call_count: u64,
    /// Sum of inclusive durations, each clamped at zero, saturating.
    pub total_time_us: u64,
    /// Sum of exclusive durations, each clamped at zero, saturating.
    pub self_time_us: u64,
    /// Occurrence count of each distinct caller context: the ordered list
    /// of code addresses of the frames still live when this function
    /// returned, outermost first, keyed by structural equality.
    pub call_stacks: Vec<(Vec<i32>, u64)>,
}

/// Mathematical model of [`FunctionStats`].
#[verifier::ext_equal]
pub struct FunctionStatsView {
    pub display_name: DisplayNameView,
    pub call_count: u64,
    pub total_time_us: u64,
    pub self_time_us: u64,
    pub call_stacks: Seq<(Seq<i32>, u64)>,
}

/// The model of a caller-context table held as a vector.
pub open spec fn cs_view(s: Seq<(Vec<i32>, u64)>) -> Seq<(Seq<i32>, u64)> {
    s.map_values(|e: (Vec<i32>, u64)| (e.0@, e.1))
}

impl View for FunctionStats {
    type V = FunctionStatsView;

    open spec fn view(&self) -> FunctionStatsView {
        FunctionStatsView {
            display_name: self.display_name@,
            call_count: self.call_count,
            total_time_us: self.total_time_us,
            self_time_us: self.self_time_us,
            call_stacks: cs_view(self.call_stacks@),
        }
    }
}

/// The whole aggregation state: the live call stack and the statistics
/// table in first-seen order.
#[verifier::ext_equal]
pub struct AggState {
    pub stack: Seq<StackFrame>,
    pub stats: Seq<(i32, FunctionStatsView)>,
}

/// The model of a statistics table held as a vector.
pub open spec fn stats_view(s: Seq<(i32, FunctionStats)>) -> Seq<(i32, FunctionStatsView)> {
    s.map_values(|e: (i32, FunctionStats)| (e.0, e.1@))
}

/// Index of the first entry with the given key, or -1 when there is none.
pub open spec fn key_index<K, V>(s: Seq<(K, V)>, key: K) -> int
    decreases s.len(),
{
    if s.len() == 0 {
        -1
    } else if s[0].0 == key {
        0
    } else {
        let r = key_index(s.drop_first(), key);
        if r < 0 {
            -1
        } else {
            r + 1
        }
    }
}

/// What [`key_index`] returns: the first match, or -1 when no entry has the
/// key.
pub proof fn lemma_key_index<K, V>(s: Seq<(K, V)>, key: K)
    ensures
        ({
            let r = key_index(s, key);
            &&& -1 <= r < s.len()
            &&& r == -1 ==> forall|j: int| 0 <= j < s.len() ==> s[j].0 != key
            &&& r >= 0 ==> s[r].0 == key && forall|j: int| 0 <= j < r ==> s[j].0 != key
        }),
    decreases s.len(),
{
    if s.len() > 0 && s[0].0 != key {
        lemma_key_index(s.drop_first(), key);
        let r = key_index(s.drop_first(), key);
        assert forall|j: int| 0 <= j < key_index(s, key) implies s[j].0 != key by {
            if j > 0 {
                assert(s.drop_first()[j - 1] == s[j]);
            }
        }
        if r == -1 {
            assert forall|j: int| 0 <= j < s.len() implies s[j].0 != key by {
                if j > 0 {
                    assert(s.drop_first()[j - 1] == s[j]);
                }
            }
        }
    }
}

/// No two entries share a key.
pub open spec fn keys_unique<K, V>(s: Seq<(K, V)>) -> bool {
    forall|i: int, j: int| 0 <= i < j < s.len() ==> s[i].0 != s[j].0
}

/// A well-formed statistics table: function keys unique, and each
/// function's caller contexts unique.
pub open spec fn stats_wf(stats: Seq<(i32, FunctionStatsView)>) -> bool {
    &&& keys_unique(stats)
    &&& forall|i: int| 0 <= i < stats.len() ==> keys_unique(#[trigger] stats[i].1.call_stacks)
}

/// Subtraction on 64-bit signed microsecond values, saturating at the type
/// bounds so a non-monotonic trace cannot wrap around.
pub open spec fn sat_sub_i64(a: i64, b: i64) -> i64 {
    if a - b > i64::MAX {
        i64::MAX
    } else if a - b < i64::MIN {
        i64::MIN
    } else {
        (a - b) as i64
    }
}

/// Addition on 64-bit signed microsecond values, saturating at the type
/// bounds.
pub open spec fn sat_add_i64(a: i64, b: i64) -> i64 {
    if a + b > i64::MAX {
        i64::MAX
    } else if a + b < i64::MIN {
        i64::MIN
    } else {
        (a + b) as i64
    }
}

/// Addition on unsigned accumulators, saturating at the type bound.
pub open spec fn sat_add_u64(a: u64, b: u64) -> u64 {
    if a + b > u64::MAX {
        u64::MAX
    } else {
        (a + b) as u64
    }
}

fn saturating_sub_i64(a: i64, b: i64) -> (r: i64)
    ensures
        r == sat_sub_i64(a, b),
{
    match a.checked_sub(b) {
        Some(v) => v,
        None => if b < 0 {
            i64::MAX
        } else {
            i64::MIN
        },
    }
}

fn saturating_add_i64(a: i64, b: i64) -> (r: i64)
    ensures
        r == sat_add_i64(a, b),
{
    match a.checked_add(b) {
        Some(v) => v,
        None => if b > 0 {
            i64::MAX
        } else {
            i64::MIN
        },
    }
}

/// The label synthesized for an address the symbol table does not know.
/// The range boundaries are opaque platform constants of the memory layout
/// and are preserved verbatim.
pub open spec fn spec_classify_address(pc: i32) -> DisplayNameView {
    if pc >= 0x4000_0000 {
        DisplayNameView::Native(pc & 0x0FFF_FFFF)
    } else if pc >= 0x3000_0000 {
        DisplayNameView::Api(pc)
    } else if pc >= 0x1000_0000 {
        DisplayNameView::App(pc)
    } else {
        DisplayNameView::Unknown(pc)
    }
}

/// Synthesizes the display label for an address with no symbol-table entry:
/// native code at or above 0x40000000 (keyed by the low 28 bits), API code
/// from 0x30000000, application code from 0x10000000, unknown below.
pub fn classify_address(pc: i32) -> (name: DisplayName)
    ensures
        name@ == spec_classify_address(pc),
{
    if pc >= 0x4000_0000 {
        DisplayName::Native(pc & 0x0FFF_FFFF)
    } else if pc >= 0x3000_0000 {
        DisplayName::Api(pc)
    } else if pc >= 0x1000_0000 {
        DisplayName::App(pc)
    } else {
        DisplayName::Unknown(pc)
    }
}

/// The display name a new statistics entry gets: the symbol table's name
/// when it has one, else the synthesized address-range label.
pub open spec fn spec_display_name(pc: i32, names: Seq<(i32, String)>) -> DisplayNameView {
    let r = key_index(names, pc);
    if r >= 0 {
        DisplayNameView::Resolved(names[r].1@)
    } else {
        spec_classify_address(pc)
    }
}

/// The caller context: the code addresses of the frames still on the
/// stack, outermost first.
pub open spec fn trace_of(stack: Seq<StackFrame>) -> Seq<i32> {
    stack.map_values(|f: StackFrame| f.pc)
}

/// One more occurrence of the given caller context: the existing count is
/// bumped, or a new context is appended with count 1.
pub open spec fn spec_bump_stack(cs: Seq<(Seq<i32>, u64)>, trace: Seq<i32>) -> Seq<
    (Seq<i32>, u64),
> {
    let r = key_index(cs, trace);
    if r >= 0 {
        cs.update(r, (trace, sat_add_u64(cs[r].1, 1)))
    } else {
        cs.push((trace, 1))
    }
}

/// What one event does to the aggregation state.
///
/// An Enter-kind event (wire codes 1 and 2) pushes a frame. An Exit against
/// an empty stack is dropped. An Exit otherwise pops the top frame and
/// charges it: the inclusive duration (clamped at zero) goes to the total,
/// the duration minus the frame's accumulated children time (clamped at
/// zero) goes to the self time, the caller context's occurrence count is
/// bumped, and the raw duration is added to the new top frame's children
/// time. Unknown kinds change nothing.
pub open spec fn spec_step(e: ProfileEvent, st: AggState, names: Seq<(i32, String)>) -> AggState {
    let ts = e.spec_timestamp_or_zero();
    let pc = e.spec_pc_or_zero();
    match e.spec_kind() {
        EventType::LegacyEnter | EventType::Enter => AggState {
            stack: st.stack.push(StackFrame { pc, start_time: ts, children_time: 0 }),
            stats: st.stats,
        },
        EventType::Exit => {
            if st.stack.len() == 0 {
                st
            } else {
                let frame = st.stack.last();
                let popped = st.stack.drop_last();
                let duration = sat_sub_i64(ts, frame.start_time);
                let dur_pos: u64 = if duration < 0 {
                    0
                } else {
                    duration as u64
                };
                let self_raw = sat_sub_i64(duration, frame.children_time);
                let self_pos: u64 = if self_raw < 0 {
                    0
                } else {
                    self_raw as u64
                };
                let trace = trace_of(popped);
                let r = key_index(st.stats, frame.pc);
                let stats2 = if r >= 0 {
                    let entry = st.stats[r].1;
                    st.stats.update(
                        r,
                        (
                            frame.pc,
                            FunctionStatsView {
                                display_name: entry.display_name,
                                call_count: sat_add_u64(entry.call_count, 1),
                                total_time_us: sat_add_u64(entry.total_time_us, dur_pos),
                                self_time_us: sat_add_u64(entry.self_time_us, self_pos),
                                call_stacks: spec_bump_stack(entry.call_stacks, trace),
                            },
                        ),
                    )
                } else {
                    st.stats.push(
                        (
                            frame.pc,
                            FunctionStatsView {
                                display_name: spec_display_name(frame.pc, names),
                                call_count: 1,
                                total_time_us: dur_pos,
                                self_time_us: self_pos,
                                call_stacks: seq![(trace, 1u64)],
                            },
                        ),
                    )
                };
                let stack2 = if popped.len() > 0 {
                    let parent = popped.last();
                    popped.update(
                        popped.len() - 1,
                        StackFrame {
                            pc: parent.pc,
                            start_time: parent.start_time,
                            children_time: sat_add_i64(parent.children_time, duration),
                        },
                    )
                } else {
                    popped
                };
                AggState { stack: stack2, stats: stats2 }
            }
        },
        EventType::Unknown => st,
    }
}

/// The aggregation state after a whole event sequence, starting from `st`.
pub open spec fn spec_run(events: Seq<ProfileEvent>, st: AggState, names: Seq<(i32, String)>) -> AggState
    decreases events.len(),
{
    if events.len() == 0 {
        st
    } else {
        spec_run(events.drop_first(), spec_step(events[0], st, names), names)
    }
}

fn find_stats_index(stats: &Vec<(i32, FunctionStats)>, pc: i32) -> (r: Option<usize>)
    ensures
        match r {
            Some(i) => i < stats@.len() && key_index(stats_view(stats@), pc) == i as int,
            None => key_index(stats_view(stats@), pc) == -1,
        },
{
    proof {
        lemma_key_index(stats_view(stats@), pc);
    }
    let mut i: usize = 0;
    while i < stats.len()
        invariant
            i <= stats@.len(),
            forall|j: int| 0 <= j < i ==> stats_view(stats@)[j].0 != pc,
        decreases stats@.len() - i,
    {
        if stats[i].0 == pc {
            proof {
                lemma_key_index(stats_view(stats@), pc);
                assert(stats_view(stats@)[i as int].0 == pc);
            }
            return Some(i);
        }
        assert(stats_view(stats@)[i as int].0 != pc);
        i = i + 1;
    }
    None
}

fn find_name_index(names: &Vec<(i32, String)>, pc: i32) -> (r: Option<usize>)
    ensures
        match r {
            Some(i) => i < names@.len() && key_index(names@, pc) == i as int,
            None => key_index(names@, pc) == -1,
        },
{
    proof {
        lemma_key_index(names@, pc);
    }
    let mut i: usize = 0;
    while i < names.len()
        invariant
            i <= names@.len(),
            forall|j: int| 0 <= j < i ==> names@[j].0 != pc,
        decreases names@.len() - i,
    {
        if names[i].0 == pc {
            proof {
                lemma_key_index(names@, pc);
            }
            return Some(i);
        }
        i = i + 1;
    }
    None
}

/// Whether two address lists are elementwise equal: caller contexts are
/// compared structurally, never by reference.
fn traces_equal(a: &Vec<i32>, b: &Vec<i32>) -> (r: bool)
    ensures
        r == (a@ == b@),
{
    if a.len() != b.len() {
        assert(a@ != b@) by {
            assert(a@.len() != b@.len());
        }
        return false;
    }
    let mut i: usize = 0;
    while i < a.len()
        invariant
            i <= a@.len(),
            a@.len() == b@.len(),
            forall|j: int| 0 <= j < i ==> a@[j] == b@[j],
        decreases a@.len() - i,
    {
        if a[i] != b[i] {
            return false;
        }
        i = i + 1;
    }
    proof {
        assert(a@ =~= b@);
    }
    true
}

fn find_trace_index(cs: &Vec<(Vec<i32>, u64)>, trace: &Vec<i32>) -> (r: Option<usize>)
    ensures
        match r {
            Some(i) => i < cs@.len() && key_index(cs_view(cs@), trace@) == i as int,
            None => key_index(cs_view(cs@), trace@) == -1,
        },
{
    proof {
        lemma_key_index(cs_view(cs@), trace@);
    }
    let mut i: usize = 0;
    while i < cs.len()
        invariant
            i <= cs@.len(),
            forall|j: int| 0 <= j < i ==> cs_view(cs@)[j].0 != trace@,
        decreases cs@.len() - i,
    {
        proof {
            assert(cs_view(cs@)[i as int] == (cs@[i as int].0@, cs@[i as int].1));
        }
        if traces_equal(&cs[i].0, trace) {
            proof {
                lemma_key_index(cs_view(cs@), trace@);
            }
            return Some(i);
        }
        i = i + 1;
    }
    None
}

pub(crate) proof fn lemma_remove_insert<T>(s: Seq<T>, i: int, x: T)
    requires
        0 <= i < s.len(),
    ensures
        s.remove(i).insert(i, x) =~= s.update(i, x),
{
}

/// Collects the code addresses of the frames on the stack, outermost first.
fn collect_trace(stack: &Vec<StackFrame>) -> (trace: Vec<i32>)
    ensures
        trace@ == trace_of(stack@),
{
    let mut trace: Vec<i32> = Vec::new();
    let mut i: usize = 0;
    while i < stack.len()
        invariant
            i <= stack@.len(),
            trace@.len() == i,
            forall|j: int| 0 <= j < i ==> trace@[j] == stack@[j].pc,
        decreases stack@.len() - i,
    {
        trace.push(stack[i].pc);
        i = i + 1;
    }
    proof {
        assert(trace@ =~= trace_of(stack@));
    }
    trace
}

/// Applies one event to the aggregation state, exactly as [`spec_step`]
/// describes: Enter-kind events push a frame, an Exit pops and charges the
/// top frame (every anomaly clamped, an unmatched Exit dropped), anything
/// else is ignored.
pub fn process_event_for_stats(
    event: &ProfileEvent,
    stack: &mut Vec<StackFrame>,
    stats: &mut Vec<(i32, FunctionStats)>,
    pc_map: &Vec<(i32, String)>,
)
    ensures
        ({
            let st = spec_step(
                *event,
                AggState { stack: old(stack)@, stats: stats_view(old(stats)@) },
                pc_map@,
            );
            final(stack)@ == st.stack && stats_view(final(stats)@) == st.stats
        }),
{
    let ghost st0 = AggState { stack: stack@, stats: stats_view(stats@) };
    let timestamp: i64 = match event.timestamp {
        Some(t) => t,
        None => 0,
    };
    let event_type: i32 = match event.event_type {
        Some(k) => k,
        None => 0,
    };
    let pc: i32 = match event.pc {
        Some(p) => p,
        None => 0,
    };
    if event_type == 1 || event_type == 2 {
        stack.push(StackFrame { pc, start_time: timestamp, children_time: 0 });
        return ;
    }
    if event_type != 3 {
        return ;
    }
    let frame = match stack.pop() {
        Some(f) => f,
        None => {
            return ;
        },
    };
    let ghost popped = st0.stack.drop_last();
    assert(stack@ == popped);
    let duration = saturating_sub_i64(timestamp, frame.start_time);
    let dur_pos: u64 = if duration < 0 {
        0
    } else {
        duration as u64
    };
    let self_raw = saturating_sub_i64(duration, frame.children_time);
    let self_pos: u64 = if self_raw < 0 {
        0
    } else {
        self_raw as u64
    };
    let trace = collect_trace(stack);
    match find_stats_index(stats, frame.pc) {
        Some(i) => {
            proof {
                lemma_key_index(stats_view(stats@), frame.pc);
            }
            let ghost table0 = stats@;
            let mut pair = stats.remove(i);
            pair.1.call_count = pair.1.call_count.saturating_add(1);
            pair.1.total_time_us = pair.1.total_time_us.saturating_add(dur_pos);
            pair.1.self_time_us = pair.1.self_time_us.saturating_add(self_pos);
            let ghost cs0 = cs_view(pair.1.call_stacks@);
            match find_trace_index(&pair.1.call_stacks, &trace) {
                Some(j) => {
                    proof {
                        lemma_key_index(cs0, trace@);
                    }
                    let ghost inner0 = pair.1.call_stacks@;
                    let mut centry = pair.1.call_stacks.remove(j);
                    centry.1 = centry.1.saturating_add(1);
                    pair.1.call_stacks.insert(j, centry);
                    proof {
                        lemma_remove_insert(inner0, j as int, (centry.0, centry.1));
                        assert(cs_view(pair.1.call_stacks@) =~~= spec_bump_stack(cs0, trace@));
                    }
                },
                None => {
                    pair.1.call_stacks.push((trace, 1));
                    proof {
                        assert(cs_view(pair.1.call_stacks@) =~~= spec_bump_stack(cs0, trace@));
                    }
                },
            }
            stats.insert(i, pair);
            proof {
                let st = spec_step(*event, st0, pc_map@);
                lemma_remove_insert(table0, i as int, stats@[i as int]);
                assert(stats_view(stats@) =~~= st.stats);
            }
        },
        None => {
            let display_name = match find_name_index(pc_map, frame.pc) {
                Some(k) => DisplayName::Resolved(pc_map[k].1.clone()),
                None => classify_address(frame.pc),
            };
            let entry = FunctionStats {
                display_name,
                call_count: 1,
                total_time_us: dur_pos,
                self_time_us: self_pos,
                call_stacks: vec![(trace, 1)],
            };
            stats.push((frame.pc, entry));
            proof {
                let st = spec_step(*event, st0, pc_map@);
                lemma_key_index(pc_map@, frame.pc);
                assert(stats_view(stats@) =~~= st.stats);
            }
        },
    }
    let n = stack.len();
    if n > 0 {
        let parent = stack[n - 1];
        let bumped = saturating_add_i64(parent.children_time, duration);
        stack[n - 1] = StackFrame {
            pc: parent.pc,
            start_time: parent.start_time,
            children_time: bumped,
        };
        proof {
            let st = spec_step(*event, st0, pc_map@);
            assert(stack@ =~= st.stack);
        }
    }
}

/// Runs the whole event sequence through the aggregator, starting from an
/// empty stack and an empty table, and returns the statistics table. Frames
/// still open at end-of-stream are discarded without producing statistics.
pub fn aggregate_events(events: &Vec<ProfileEvent>, pc_map: &Vec<(i32, String)>) -> (stats: Vec<
    (i32, FunctionStats),
>)
    ensures
        stats_view(stats@) == spec_run(
            events@,
            AggState { stack: Seq::empty(), stats: Seq::empty() },
            pc_map@,
        ).stats,
{
    let ghost init = AggState { stack: Seq::empty(), stats: Seq::empty() };
    let mut stack: Vec<StackFrame> = Vec::new();
    let mut stats: Vec<(i32, FunctionStats)> = Vec::new();
    proof {
        assert(events@.subrange(0, events@.len() as int) =~= events@);
        assert(AggState { stack: stack@, stats: stats_view(stats@) } =~~= init);
    }
    let mut i: usize = 0;
    while i < events.len()
        invariant
            i <= events@.len(),
            spec_run(events@, init, pc_map@) == spec_run(
                events@.subrange(i as int, events@.len() as int),
                AggState { stack: stack@, stats: stats_view(stats@) },
                pc_map@,
            ),
        decreases events@.len() - i,
    {
        let ghost pre = AggState { stack: stack@, stats: stats_view(stats@) };
        let ghost rest = events@.subrange(i as int, events@.len() as int);
        process_event_for_stats(&events[i], &mut stack, &mut stats, pc_map);
        proof {
            assert(rest[0] == events@[i as int]);
            assert(rest.drop_first() =~= events@.subrange(i + 1, events@.len() as int));
            assert(AggState { stack: stack@, stats: stats_view(stats@) } =~~= spec_step(
                events@[i as int],
                pre,
                pc_map@,
            ));
        }
        i = i + 1;
    }
    stats
}

} // verus!
