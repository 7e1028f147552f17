//! Report generation: one row per function, ordered by total time
//! descending with ties broken by code address, so the output is
//! reproducible across runs with identical input; and, as expanded detail,
//! each function's caller contexts ordered by occurrence count.

use vstd::multiset::Multiset;
use vstd::prelude::*;

use crate::aggregate::{
    cs_view, stats_view, DisplayName, DisplayNameView, FunctionStats, FunctionStatsView,
};

verus! {

/// One row of the report: the per-function figures, ready to render.
#[derive(Debug, PartialEq)]
pub struct ReportRow {
    /// The function's code address.
    pub pc: i32,
    /// The resolved or synthesized name.
    pub display_name: DisplayName,
    /// How many invocations completed.
    pub call_count: u64,
    /// Inclusive time, microseconds.
    pub total_time_us: u64,
    /// Exclusive time, microseconds.
    pub self_time_us: u64,
    /// Total time divided by call count, rounded down; 0 when the call
    /// count is 0.
    pub average_time_us: u64,
}

/// Mathematical model of a report row.
#[verifier::ext_equal]
pub struct ReportRowView {
    pub pc: i32,
    pub display_name: DisplayNameView,
    pub call_count: u64,
    pub total_time_us: u64,
    pub self_time_us: u64,
    pub average_time_us: u64,
}

impl View for ReportRow {
    type V = ReportRowView;

    open spec fn view(&self) -> ReportRowView {
        ReportRowView {
            pc: self.pc,
            display_name: self.display_name@,
            call_count: self.call_count,
            total_time_us: self.total_time_us,
            self_time_us: self.self_time_us,
            average_time_us: self.average_time_us,
        }
    }
}

/// The row a statistics entry yields.
pub open spec fn spec_row_of(pc: i32, f: FunctionStatsView) -> ReportRowView {
    ReportRowView {
        pc,
        display_name: f.display_name,
        call_count: f.call_count,
        total_time_us: f.total_time_us,
        self_time_us: f.self_time_us,
        average_time_us: if f.call_count == 0 {
            0
        } else {
            (f.total_time_us / f.call_count) as u64
        },
    }
}

/// The rows of a whole statistics table, in table order.
pub open spec fn rows_of(stats: Seq<(i32, FunctionStatsView)>) -> Seq<ReportRowView> {
    stats.map_values(|e: (i32, FunctionStatsView)| spec_row_of(e.0, e.1))
}

/// The model of a row vector.
pub open spec fn rows_view(rows: Seq<ReportRow>) -> Seq<ReportRowView> {
    rows.map_values(|r: ReportRow| r@)
}

/// The report order: more total time first, and the smaller code address
/// first among equal totals.
pub open spec fn row_precedes(a: ReportRowView, b: ReportRowView) -> bool {
    a.total_time_us > b.total_time_us || (a.total_time_us == b.total_time_us && a.pc <= b.pc)
}

/// Every row precedes every later row.
pub open spec fn rows_sorted(rows: Seq<ReportRowView>) -> bool {
    forall|i: int, j: int|
        0 <= i < j < rows.len() ==> row_precedes(#[trigger] rows[i], #[trigger] rows[j])
}

/// Whether `a` strictly precedes `b` in the report order.
fn row_before(a: &ReportRow, b: &ReportRow) -> (r: bool)
    ensures
        r == (a@.total_time_us > b@.total_time_us || (a@.total_time_us == b@.total_time_us && a@.pc
            < b@.pc)),
{
    a.total_time_us > b.total_time_us || (a.total_time_us == b.total_time_us && a.pc < b.pc)
}

/// Builds the report: one row per distinct function of the table, sorted
/// by total time descending, ties broken by code address ascending. The
/// result holds exactly the rows of the table (as a multiset), so with
/// unique function keys the output is pinned completely.
pub fn generate_report(stats: &Vec<(i32, FunctionStats)>) -> (rows: Vec<ReportRow>)
    ensures
        rows@.len() == stats@.len(),
        rows_view(rows@).to_multiset() == rows_of(stats_view(stats@)).to_multiset(),
        rows_sorted(rows_view(rows@)),
{
    let ghost all = rows_of(stats_view(stats@));
    let mut src: Vec<ReportRow> = Vec::new();
    let mut i: usize = 0;
    while i < stats.len()
        invariant
            i <= stats@.len(),
            src@.len() == i,
            all == rows_of(stats_view(stats@)),
            forall|t: int| 0 <= t < i ==> rows_view(src@)[t] == all[t],
        decreases stats@.len() - i,
    {
        let entry = &stats[i].1;
        let avg: u64 = if entry.call_count == 0 {
            0
        } else {
            entry.total_time_us / entry.call_count
        };
        let row = ReportRow {
            pc: stats[i].0,
            display_name: entry.display_name.duplicate(),
            call_count: entry.call_count,
            total_time_us: entry.total_time_us,
            self_time_us: entry.self_time_us,
            average_time_us: avg,
        };
        proof {
            assert(stats_view(stats@)[i as int] == (stats@[i as int].0, stats@[i as int].1@));
            assert(all[i as int] == spec_row_of(stats@[i as int].0, stats@[i as int].1@));
            assert(row@ =~~= all[i as int]);
        }
        src.push(row);
        i = i + 1;
    }
    proof {
        assert(rows_view(src@) =~= all);
    }
    let mut out: Vec<ReportRow> = Vec::new();
    proof {
        broadcast use vstd::seq_lib::group_to_multiset_ensures;

        assert(rows_view(out@).to_multiset().add(rows_view(src@).to_multiset())
            =~= all.to_multiset());
    }
    while src.len() > 0
        invariant
            rows_view(out@).to_multiset().add(rows_view(src@).to_multiset()) == all.to_multiset(),
            out@.len() + src@.len() == all.len(),
            rows_sorted(rows_view(out@)),
            forall|a: int, b: int|
                0 <= a < out@.len() && 0 <= b < src@.len() ==> row_precedes(
                    #[trigger] rows_view(out@)[a],
                    #[trigger] rows_view(src@)[b],
                ),
        decreases src@.len(),
    {
        let mut best: usize = 0;
        let mut j: usize = 1;
        while j < src.len()
            invariant
                best < j <= src@.len(),
                src@.len() > 0,
                forall|k: int|
                    0 <= k < j ==> row_precedes(
                        #[trigger] rows_view(src@)[best as int],
                        rows_view(src@)[k],
                    ),
            decreases src@.len() - j,
        {
            if row_before(&src[j], &src[best]) {
                best = j;
            }
            j = j + 1;
        }
        let ghost src0 = src@;
        let ghost out0 = out@;
        let picked = src.remove(best);
        out.push(picked);
        proof {
            broadcast use vstd::seq_lib::group_to_multiset_ensures;
            broadcast use vstd::multiset::group_multiset_axioms;

            assert(rows_view(src@) =~= rows_view(src0).remove(best as int));
            assert(rows_view(out@) =~= rows_view(out0).push(picked@));
            assert(rows_view(src0)[best as int] == picked@);
            assert(rows_view(src0).contains(picked@));
            assert(rows_view(src0).to_multiset().count(picked@) > 0);
            assert(rows_view(out0).push(picked@).to_multiset() == rows_view(
                out0,
            ).to_multiset().insert(picked@));
            assert(rows_view(src0).remove(best as int).to_multiset() == rows_view(
                src0,
            ).to_multiset().remove(picked@));
            assert(rows_view(out@).to_multiset().add(rows_view(src@).to_multiset())
                =~= all.to_multiset());
            assert forall|a: int, b: int|
                0 <= a < out@.len() && 0 <= b < src@.len() implies row_precedes(
                rows_view(out@)[a],
                rows_view(src@)[b],
            ) by {
                let bb: int = if b < best {
                    b
                } else {
                    b + 1
                };
                assert(rows_view(src@)[b] == rows_view(src0)[bb]);
                if a < out@.len() - 1 {
                    assert(rows_view(out@)[a] == rows_view(out0)[a]);
                    assert(row_precedes(rows_view(out0)[a], rows_view(src0)[bb]));
                } else {
                    assert(rows_view(out@)[a] == picked@);
                    assert(row_precedes(rows_view(src0)[best as int], rows_view(src0)[bb]));
                }
            }
        }
    }
    proof {
        broadcast use vstd::seq_lib::group_to_multiset_ensures;

        assert(rows_view(src@).to_multiset() =~= Multiset::<ReportRowView>::empty());
        assert(rows_view(out@).to_multiset() =~= all.to_multiset());
    }
    out
}

/// Where `x` goes when inserted into a table already ordered by count
/// descending: after every entry whose count is at least its own, so equal
/// counts keep their first-seen order.
pub open spec fn spec_insert_context(
    sorted: Seq<(Seq<i32>, u64)>,
    x: (Seq<i32>, u64),
) -> Seq<(Seq<i32>, u64)>
    decreases sorted.len(),
{
    if sorted.len() == 0 {
        seq![x]
    } else if sorted[0].1 >= x.1 {
        seq![sorted[0]] + spec_insert_context(sorted.drop_first(), x)
    } else {
        seq![x] + sorted
    }
}

/// A caller-context table ordered by occurrence count descending, equal
/// counts in their first-seen order.
pub open spec fn spec_sort_contexts(s: Seq<(Seq<i32>, u64)>) -> Seq<(Seq<i32>, u64)>
    decreases s.len(),
{
    if s.len() == 0 {
        Seq::empty()
    } else {
        spec_insert_context(spec_sort_contexts(s.drop_last()), s.last())
    }
}

proof fn lemma_insert_context_at(sorted: Seq<(Seq<i32>, u64)>, x: (Seq<i32>, u64), k: int)
    requires
        0 <= k <= sorted.len(),
        forall|i: int| 0 <= i < k ==> (#[trigger] sorted[i]).1 >= x.1,
        k < sorted.len() ==> sorted[k].1 < x.1,
    ensures
        spec_insert_context(sorted, x) =~= sorted.take(k) + seq![x] + sorted.skip(k),
    decreases sorted.len(),
{
    if sorted.len() == 0 {
        assert(spec_insert_context(sorted, x) =~= sorted.take(0) + seq![x] + sorted.skip(0));
    } else if k == 0 {
        assert(sorted[0].1 < x.1);
        assert(spec_insert_context(sorted, x) =~= sorted.take(0) + seq![x] + sorted.skip(0));
    } else {
        assert(sorted[0].1 >= x.1);
        lemma_insert_context_at(sorted.drop_first(), x, k - 1);
        assert(spec_insert_context(sorted, x) =~= sorted.take(k) + seq![x] + sorted.skip(k));
    }
}

/// Copies an address list.
fn copy_trace(t: &Vec<i32>) -> (r: Vec<i32>)
    ensures
        r@ == t@,
{
    let mut r: Vec<i32> = Vec::new();
    let mut i: usize = 0;
    while i < t.len()
        invariant
            i <= t@.len(),
            r@ =~= t@.take(i as int),
        decreases t@.len() - i,
    {
        r.push(t[i]);
        proof {
            assert(r@ =~= t@.take(i + 1));
        }
        i = i + 1;
    }
    proof {
        assert(t@.take(t@.len() as int) =~= t@);
    }
    r
}

/// The expanded detail of one function: its caller contexts and their
/// occurrence counts, ordered by count descending, equal counts in
/// first-seen order. An empty context means the function was entered with
/// no live ancestor.
pub fn sorted_call_stacks(stats: &FunctionStats) -> (r: Vec<(Vec<i32>, u64)>)
    ensures
        cs_view(r@) == spec_sort_contexts(stats@.call_stacks),
{
    let cs = &stats.call_stacks;
    let mut out: Vec<(Vec<i32>, u64)> = Vec::new();
    let mut i: usize = 0;
    while i < cs.len()
        invariant
            i <= cs@.len(),
            cs_view(out@) =~= spec_sort_contexts(cs_view(cs@).take(i as int)),
        decreases cs@.len() - i,
    {
        let x = (copy_trace(&cs[i].0), cs[i].1);
        let ghost sorted0 = cs_view(out@);
        let ghost xv = (x.0@, x.1);
        let mut k: usize = 0;
        while k < out.len() && out[k].1 >= x.1
            invariant
                k <= out@.len(),
                forall|t: int| 0 <= t < k ==> (#[trigger] cs_view(out@)[t]).1 >= xv.1,
                cs_view(out@) == sorted0,
                x.1 == xv.1,
            decreases out@.len() - k,
        {
            proof {
                assert(cs_view(out@)[k as int].1 == out@[k as int].1);
            }
            k = k + 1;
        }
        proof {
            assert(k < out@.len() ==> cs_view(out@)[k as int].1 < xv.1);
        }
        out.insert(k, x);
        proof {
            lemma_insert_context_at(sorted0, xv, k as int);
            assert(cs_view(out@) =~= sorted0.take(k as int) + seq![xv] + sorted0.skip(k as int));
            assert(cs_view(cs@).take(i + 1).drop_last() =~= cs_view(cs@).take(i as int));
            assert(cs_view(cs@).take(i + 1).last() == xv);
            assert(cs_view(out@) =~= spec_sort_contexts(cs_view(cs@).take(i + 1)));
        }
        i = i + 1;
    }
    proof {
        assert(cs_view(cs@).take(cs@.len() as int) =~= cs_view(cs@));
    }
    out
}

/// The counts of a sorted context table never increase from one entry to
/// the next, and sorting keeps exactly the entries it was given.
pub proof fn lemma_sort_contexts_sorted(s: Seq<(Seq<i32>, u64)>)
    ensures
        spec_sort_contexts(s).to_multiset() == s.to_multiset(),
        forall|i: int, j: int|
            0 <= i < j < spec_sort_contexts(s).len() ==> (#[trigger] spec_sort_contexts(s)[i]).1
                >= (#[trigger] spec_sort_contexts(s)[j]).1,
    decreases s.len(),
{
    broadcast use vstd::seq_lib::group_to_multiset_ensures;

    if s.len() == 0 {
    } else {
        lemma_sort_contexts_sorted(s.drop_last());
        lemma_insert_context_sorted(spec_sort_contexts(s.drop_last()), s.last());
        assert(s.drop_last().push(s.last()) =~= s);
    }
}

proof fn lemma_insert_context_sorted(sorted: Seq<(Seq<i32>, u64)>, x: (Seq<i32>, u64))
    requires
        forall|i: int, j: int|
            0 <= i < j < sorted.len() ==> (#[trigger] sorted[i]).1 >= (#[trigger] sorted[j]).1,
    ensures
        spec_insert_context(sorted, x).to_multiset() == sorted.push(x).to_multiset(),
        forall|i: int, j: int|
            0 <= i < j < spec_insert_context(sorted, x).len() ==> (#[trigger] spec_insert_context(
                sorted,
                x,
            )[i]).1 >= (#[trigger] spec_insert_context(sorted, x)[j]).1,
    decreases sorted.len(),
{
    broadcast use vstd::seq_lib::group_to_multiset_ensures;

    if sorted.len() == 0 {
        assert(spec_insert_context(sorted, x) =~= Seq::empty().push(x));
    } else if sorted[0].1 >= x.1 {
        lemma_insert_context_sorted(sorted.drop_first(), x);
        let tail = spec_insert_context(sorted.drop_first(), x);
        let whole = spec_insert_context(sorted, x);
        assert(whole =~= seq![sorted[0]] + tail);
        assert forall|i: int, j: int| 0 <= i < j < whole.len() implies (#[trigger] whole[i]).1
            >= (#[trigger] whole[j]).1 by {
            if i > 0 {
                assert(whole[i] == tail[i - 1]);
                assert(whole[j] == tail[j - 1]);
            } else {
                let e = whole[j];
                assert(e == tail[j - 1]);
                lemma_insert_context_element(sorted.drop_first(), x, j - 1);
                if e != x {
                    assert(sorted.drop_first().contains(e));
                    let w = choose|w: int|
                        0 <= w < sorted.drop_first().len() && sorted.drop_first()[w] == e;
                    assert(sorted[w + 1] == e);
                    assert(sorted[0].1 >= sorted[w + 1].1);
                }
            }
        }
        lemma_multiset_prepend(sorted[0], tail, sorted.drop_first().push(x));
        assert(seq![sorted[0]] + sorted.drop_first() =~= sorted);
        assert((seq![sorted[0]] + sorted.drop_first()).push(x) =~= seq![sorted[0]] + (
        sorted.drop_first().push(x)));
    } else {
        let whole = spec_insert_context(sorted, x);
        assert(whole =~= seq![x] + sorted);
        assert forall|i: int, j: int| 0 <= i < j < whole.len() implies (#[trigger] whole[i]).1
            >= (#[trigger] whole[j]).1 by {
            if i > 0 {
                assert(whole[i] == sorted[i - 1]);
                assert(whole[j] == sorted[j - 1]);
            } else {
                assert(whole[j] == sorted[j - 1]);
            }
        }
        lemma_multiset_cons(x, sorted);
        assert((seq![x] + sorted).to_multiset() =~= sorted.push(x).to_multiset());
    }
}

/// Every element of an insertion result is either `x` or one of the
/// elements inserted into; in particular the count at any position is
/// bounded by the head's count when the head dominates.
proof fn lemma_insert_context_element(sorted: Seq<(Seq<i32>, u64)>, x: (Seq<i32>, u64), i: int)
    requires
        0 <= i < spec_insert_context(sorted, x).len(),
    ensures
        spec_insert_context(sorted, x)[i] == x || sorted.contains(
            spec_insert_context(sorted, x)[i],
        ),
    decreases sorted.len(),
{
    if sorted.len() == 0 {
    } else if sorted[0].1 >= x.1 {
        if i == 0 {
            assert(sorted.contains(sorted[0]));
        } else {
            lemma_insert_context_element(sorted.drop_first(), x, i - 1);
            let e = spec_insert_context(sorted, x)[i];
            assert(e == spec_insert_context(sorted.drop_first(), x)[i - 1]);
            if e != x {
                let w = choose|w: int|
                    0 <= w < sorted.drop_first().len() && sorted.drop_first()[w] == e;
                assert(sorted[w + 1] == e);
                assert(sorted.contains(e));
            }
        }
    } else {
        if i > 0 {
            assert(sorted.contains(sorted[i - 1]));
        }
    }
}

proof fn lemma_multiset_prepend(
    h: (Seq<i32>, u64),
    a: Seq<(Seq<i32>, u64)>,
    b: Seq<(Seq<i32>, u64)>,
)
    requires
        a.to_multiset() == b.to_multiset(),
    ensures
        (seq![h] + a).to_multiset() == (seq![h] + b).to_multiset(),
{
    broadcast use vstd::seq_lib::group_to_multiset_ensures;

    lemma_multiset_cons(h, a);
    lemma_multiset_cons(h, b);
}

proof fn lemma_multiset_cons(h: (Seq<i32>, u64), a: Seq<(Seq<i32>, u64)>)
    ensures
        (seq![h] + a).to_multiset() == a.to_multiset().insert(h),
{
    broadcast use vstd::seq_lib::group_to_multiset_ensures;
    broadcast use vstd::multiset::group_multiset_axioms;

    let s = seq![h] + a;
    assert(s.remove(0) =~= a);
    assert(s[0] == h);
    assert(s.contains(h));
    assert(s.to_multiset().count(h) > 0);
    assert(a.to_multiset() == s.to_multiset().remove(h));
    assert(s.to_multiset() =~= a.to_multiset().insert(h));
}

/// No two rows name the same function.
pub open spec fn row_pcs_unique(rows: Seq<ReportRowView>) -> bool {
    forall|i: int, j: int|
        0 <= i < j < rows.len() ==> (#[trigger] rows[i]).pc != (#[trigger] rows[j]).pc
}

/// The report order is deterministic: two sorted row sequences that hold
/// the same rows of distinct functions are identical, whatever order the
/// functions were first observed in.
pub proof fn lemma_report_order_deterministic(a: Seq<ReportRowView>, b: Seq<ReportRowView>)
    requires
        a.to_multiset() == b.to_multiset(),
        rows_sorted(a),
        rows_sorted(b),
        row_pcs_unique(a),
    ensures
        a == b,
    decreases a.len(),
{
    broadcast use vstd::seq_lib::group_to_multiset_ensures;
    broadcast use vstd::multiset::group_multiset_axioms;

    vstd::seq_lib::to_multiset_len(a);
    vstd::seq_lib::to_multiset_len(b);
    if a.len() == 0 {
        assert(a =~= b);
    } else {
        assert(b.len() == a.len());
        // each head sits somewhere in the other sequence
        assert(a.contains(a[0]));
        assert(a.to_multiset().count(a[0]) > 0);
        assert(b.contains(a[0]));
        let j = choose|j: int| 0 <= j < b.len() && b[j] == a[0];
        assert(b.contains(b[0]));
        assert(b.to_multiset().count(b[0]) > 0);
        assert(a.contains(b[0]));
        let i = choose|i: int| 0 <= i < a.len() && a[i] == b[0];
        // the two heads precede each other, so they agree on total time
        // and code address
        assert(row_precedes(a[0], a[i]));
        assert(row_precedes(b[0], b[j]));
        assert(a[0].pc == b[0].pc);
        // with distinct function addresses, that makes them the same row
        assert(i == 0);
        assert(a[0] == b[0]);
        let a2 = a.drop_first();
        let b2 = b.drop_first();
        assert(a.remove(0) =~= a2);
        assert(b.remove(0) =~= b2);
        assert(a2.to_multiset() == a.to_multiset().remove(a[0]));
        assert(b2.to_multiset() == b.to_multiset().remove(b[0]));
        assert(rows_sorted(a2)) by {
            assert(forall|p: int, q: int|
                0 <= p < q < a2.len() ==> a2[p] == a[p + 1] && a2[q] == a[q + 1]);
        }
        assert(rows_sorted(b2)) by {
            assert(forall|p: int, q: int|
                0 <= p < q < b2.len() ==> b2[p] == b[p + 1] && b2[q] == b[q + 1]);
        }
        assert(row_pcs_unique(a2)) by {
            assert(forall|p: int, q: int|
                0 <= p < q < a2.len() ==> a2[p] == a[p + 1] && a2[q] == a[q + 1]);
        }
        lemma_report_order_deterministic(a2, b2);
        assert forall|k: int| 0 <= k < a.len() implies a[k] == b[k] by {
            if k > 0 {
                assert(a[k] == a2[k - 1]);
                assert(b[k] == b2[k - 1]);
            }
        }
        assert(a =~= b);
    }
}

} // verus!
