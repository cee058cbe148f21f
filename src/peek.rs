//! Peeks: snapshot reads of an arranged trace at a timestamp, with a filter,
//! an ordering and a limit.

use vstd::prelude::*;
use vstd::multiset::Multiset;
use vstd::seq_lib::lemma_multiset_commutative;
use std::cmp::Ordering;
use crate::frontier::Timestamp;
use crate::row::{
    ColumnOrder, Datum, Predicate, Row, columns_cmp, compare_columns, copy_row, filter_holds,
    lemma_columns_cmp_antisymmetric, lemma_columns_le_transitive, passes_filter,
};

verus! {

/// Signed multiplicity of a row at a time.
pub type Diff = i64;

/// One row of an arranged trace, with the `(time, diff)` changes recorded for it.
pub struct ArrangedRow {
    pub row: Row,
    pub history: Vec<(Timestamp, Diff)>,
}

/// An arranged trace: its rows in the order a cursor walks them, and its upper
/// frontier, below which no further change may appear.
pub struct Arrangement {
    pub rows: Vec<ArrangedRow>,
    pub upper: Vec<Timestamp>,
}

/// What a peek does to the rows it gathers: keep those that pass `filter`;
/// with a limit, keep the `offset + limit` smallest under `order_by`.
pub struct RowSetFinishing {
    pub filter: Vec<Predicate>,
    pub order_by: Vec<ColumnOrder>,
    pub limit: Option<usize>,
    pub offset: usize,
}

/// A peek waiting for its trace to pass its timestamp.
pub struct PendingPeek {
    /// The view to read.
    pub name: String,
    /// The session that asked; cancellation goes by it.
    pub conn_id: u32,
    /// The time at which the view is read.
    pub timestamp: Timestamp,
    pub finishing: RowSetFinishing,
}

/// Sum of the diffs in `history` at times at or below `t`.
pub open spec fn accumulated(history: Seq<(Timestamp, Diff)>, t: Timestamp) -> int
    decreases history.len(),
{
    if history.len() == 0 {
        0
    } else {
        accumulated(history.drop_last(), t) + if history.last().0 <= t {
            history.last().1 as int
        } else {
            0
        }
    }
}

/// `n` copies of `row`.
pub open spec fn repeat_row(row: Seq<Datum>, n: nat) -> Seq<Seq<Datum>>
    decreases n,
{
    if n == 0 {
        Seq::empty()
    } else {
        repeat_row(row, (n - 1) as nat).push(row)
    }
}

/// How many copies of an arranged row a peek at `t` with `filter` returns,
/// before any limit.
pub open spec fn copies_of(e: ArrangedRow, filter: Seq<Predicate>, t: Timestamp) -> int {
    if filter_holds(filter, e.row@) {
        accumulated(e.history@, t)
    } else {
        0
    }
}

/// The rows a peek at `t` gathers, in cursor order: each row that passes the
/// filter, as many times as its accumulated count at `t`.
pub open spec fn snapshot(rows: Seq<ArrangedRow>, filter: Seq<Predicate>, t: Timestamp) -> Seq<
    Seq<Datum>,
>
    decreases rows.len(),
{
    if rows.len() == 0 {
        Seq::empty()
    } else {
        let c = copies_of(rows.last(), filter, t);
        snapshot(rows.drop_last(), filter, t) + repeat_row(
            rows.last().row@,
            if c > 0 {
                c as nat
            } else {
                0
            },
        )
    }
}

/// Every row that passes the filter has a non-negative count at `t`.
pub open spec fn counts_nonnegative(rows: Seq<ArrangedRow>, filter: Seq<Predicate>, t: Timestamp) -> bool {
    forall|i: int| 0 <= i < rows.len() ==> copies_of(#[trigger] rows[i], filter, t) >= 0
}

/// The datums of each row.
pub open spec fn rows_view(rows: Seq<Row>) -> Seq<Seq<Datum>> {
    rows.map_values(|r: Row| r@)
}

/// `result` holds `m` rows of `full` and none of them is greater under `order`
/// than a row of `full` that was left out.
pub open spec fn keeps_smallest(
    full: Seq<Seq<Datum>>,
    result: Seq<Seq<Datum>>,
    order: Seq<ColumnOrder>,
    m: int,
) -> bool {
    &&& result.len() == m
    &&& result.to_multiset().subset_of(full.to_multiset())
    &&& forall|kept: Seq<Datum>, dropped: Seq<Datum>|
        #![trigger result.to_multiset().count(kept), full.to_multiset().count(dropped)]
        result.to_multiset().count(kept) > 0 && full.to_multiset().count(dropped)
            > result.to_multiset().count(dropped) ==> columns_cmp(order, kept, dropped)
            != Ordering::Greater
}

/// `result` is `full` after `finishing`: with a limit that `full` exceeds, the
/// `offset + limit` smallest rows in some order; otherwise `full` as it is.
pub open spec fn finished(
    full: Seq<Seq<Datum>>,
    result: Seq<Seq<Datum>>,
    finishing: RowSetFinishing,
) -> bool {
    if finishing.limit.is_some() && full.len() > finishing.limit.unwrap() + finishing.offset {
        keeps_smallest(
            full,
            result,
            finishing.order_by@,
            finishing.limit.unwrap() + finishing.offset,
        )
    } else {
        result == full
    }
}

/// Relies on pdqselect::select_by: it permutes the rows so that the one at `k`
/// has no row before it that the comparator finds greater and none after it that
/// it finds less.
#[verifier::external_body]
fn select_rows(rows: &mut Vec<Row>, k: usize, order: &Vec<ColumnOrder>)
    requires
        k < old(rows)@.len(),
    ensures
        final(rows)@.len() == old(rows)@.len(),
        rows_view(final(rows)@).to_multiset() == rows_view(old(rows)@).to_multiset(),
        forall|i: int|
            0 <= i < k ==> columns_cmp(order@, #[trigger] final(rows)@[i]@, final(rows)@[k as int]@)
                != Ordering::Greater,
        forall|j: int|
            k < j < final(rows)@.len() ==> columns_cmp(
                order@,
                #[trigger] final(rows)@[j]@,
                final(rows)@[k as int]@,
            ) != Ordering::Less,
{
    pdqselect::select_by(rows.as_mut_slice(), k, |a: &Row, b: &Row| compare_columns(order, a, b));
}

/// The sum of the diffs in `history` at times at or below `t`.
pub fn count_at(history: &Vec<(Timestamp, Diff)>, t: Timestamp) -> (r: i128)
    ensures
        r == accumulated(history@, t),
{
    let mut acc: i128 = 0;
    let mut i: usize = 0;
    while i < history.len()
        invariant
            i <= history@.len(),
            acc == accumulated(history@.subrange(0, i as int), t),
            -(i as int) * 0x8000_0000_0000_0000 <= acc <= (i as int) * 0x8000_0000_0000_0000,
        decreases history@.len() - i,
    {
        assert(history@.subrange(0, i + 1).drop_last() =~= history@.subrange(0, i as int));
        let (time, diff) = history[i];
        if time <= t {
            acc = acc + diff as i128;
        }
        i = i + 1;
    }
    assert(history@.subrange(0, i as int) =~= history@);
    acc
}

/// Gathers the rows a ready peek returns from its trace: each row that passes
/// the filter, as many times as its accumulated count at the peek's timestamp;
/// then, with a limit, the `offset + limit` smallest under the ordering.
pub fn collect_finished_data(peek: &PendingPeek, trace: &Arrangement) -> (results: Vec<Row>)
    requires
        counts_nonnegative(trace.rows@, peek.finishing.filter@, peek.timestamp),
    ensures
        finished(
            snapshot(trace.rows@, peek.finishing.filter@, peek.timestamp),
            rows_view(results@),
            peek.finishing,
        ),
{
    let ghost filter = peek.finishing.filter@;
    let ghost t = peek.timestamp;
    let mut results: Vec<Row> = Vec::new();
    let mut i: usize = 0;
    while i < trace.rows.len()
        invariant
            i <= trace.rows@.len(),
            filter == peek.finishing.filter@,
            t == peek.timestamp,
            rows_view(results@) == snapshot(trace.rows@.subrange(0, i as int), filter, t),
        decreases trace.rows@.len() - i,
    {
        let entry = &trace.rows[i];
        let ghost before = rows_view(results@);
        assert(trace.rows@.subrange(0, i + 1).drop_last() =~= trace.rows@.subrange(0, i as int));
        assert(trace.rows@.subrange(0, i + 1).last() == *entry);
        if passes_filter(&peek.finishing.filter, &entry.row) {
            let copies = count_at(&entry.history, peek.timestamp);
            let mut k: i128 = 0;
            assert(before =~= before + repeat_row(entry.row@, 0));
            assert(copies_of(*entry, filter, t) == copies);
            while k < copies
                invariant
                    copies_of(*entry, filter, t) == copies,
                    0 <= k <= copies || copies <= 0 && k == 0,
                    rows_view(results@) == before + repeat_row(entry.row@, k as nat),
                decreases copies - k,
            {
                let r = copy_row(&entry.row);
                let ghost prev = results@;
                results.push(r);
                assert(rows_view(results@) =~= rows_view(prev).push(r@));
                assert(before + repeat_row(entry.row@, (k + 1) as nat) =~= (before + repeat_row(
                    entry.row@,
                    k as nat,
                )).push(entry.row@));
                k = k + 1;
            }
        } else {
            assert(before =~= before + repeat_row(entry.row@, 0));
        }
        i = i + 1;
    }
    assert(trace.rows@.subrange(0, i as int) =~= trace.rows@);
    let ghost full = rows_view(results@);
    if let Some(limit) = peek.finishing.limit {
        let offset = peek.finishing.offset;
        if results.len() > offset && results.len() - offset > limit {
            let m = limit + offset;
            select_rows(&mut results, m, &peek.finishing.order_by);
            let ghost w = results@;
            results.truncate(m);
            proof {
                lemma_keeps_smallest(full, w, peek.finishing.order_by@, m as int);
                assert(rows_view(results@) =~= rows_view(w).subrange(0, m as int));
            }
        }
    }
    results
}

/// After a selection at `m`, the first `m` rows of `w` are the `m` smallest of
/// `full`.
proof fn lemma_keeps_smallest(
    full: Seq<Seq<Datum>>,
    w: Seq<Row>,
    order: Seq<ColumnOrder>,
    m: int,
)
    requires
        0 <= m < w.len(),
        rows_view(w).to_multiset() == full.to_multiset(),
        forall|i: int| 0 <= i < m ==> columns_cmp(order, #[trigger] w[i]@, w[m]@) != Ordering::Greater,
        forall|j: int| m < j < w.len() ==> columns_cmp(order, #[trigger] w[j]@, w[m]@) != Ordering::Less,
    ensures
        keeps_smallest(full, rows_view(w).subrange(0, m), order, m),
{
    let v = rows_view(w);
    let a = v.subrange(0, m);
    let b = v.subrange(m, v.len() as int);
    assert(v =~= a + b);
    lemma_multiset_commutative(a, b);
    broadcast use vstd::seq_lib::group_to_multiset_ensures;
    broadcast use vstd::multiset::group_multiset_axioms;
    assert forall|kept: Seq<Datum>, dropped: Seq<Datum>|
        a.to_multiset().count(kept) > 0 && full.to_multiset().count(dropped)
            > a.to_multiset().count(dropped) implies columns_cmp(order, kept, dropped)
        != Ordering::Greater by {
        assert(a.contains(kept));
        let i = choose|i: int| 0 <= i < a.len() && a[i] == kept;
        assert(b.to_multiset().count(dropped) > 0);
        assert(b.contains(dropped));
        let j = choose|j: int| 0 <= j < b.len() && b[j] == dropped;
        assert(w[i]@ == kept);
        assert(w[m + j]@ == dropped);
        if m + j > m {
            assert(columns_cmp(order, w[m + j]@, w[m]@) != Ordering::Less);
        }
        lemma_columns_cmp_antisymmetric(order, dropped, w[m]@);
        assert(columns_cmp(order, w[i]@, w[m]@) != Ordering::Greater);
        lemma_columns_le_transitive(order, kept, w[m]@, dropped);
    }
    assert(a.to_multiset().subset_of(full.to_multiset()));
}

/// Sum, over the arranged rows equal to `r`, of their accumulated counts at `t`.
pub open spec fn row_total(rows: Seq<ArrangedRow>, r: Seq<Datum>, t: Timestamp) -> int
    decreases rows.len(),
{
    if rows.len() == 0 {
        0
    } else {
        row_total(rows.drop_last(), r, t) + if rows.last().row@ == r {
            accumulated(rows.last().history@, t)
        } else {
            0
        }
    }
}

proof fn lemma_repeat_count(row: Seq<Datum>, n: nat, r: Seq<Datum>)
    ensures
        repeat_row(row, n).to_multiset().count(r) == if row == r {
            n as int
        } else {
            0
        },
    decreases n,
{
    broadcast use vstd::seq_lib::group_to_multiset_ensures;
    broadcast use vstd::multiset::group_multiset_axioms;
    if n == 0 {
        assert(repeat_row(row, n).to_multiset() =~= Multiset::empty());
    } else {
        lemma_repeat_count(row, (n - 1) as nat, r);
    }
}

/// The bag a peek gathers holds each row that passes the filter exactly as many
/// times as the sum of its diffs at times at or below the timestamp, and no row
/// that fails the filter.
pub proof fn lemma_snapshot_counts(
    rows: Seq<ArrangedRow>,
    filter: Seq<Predicate>,
    t: Timestamp,
    r: Seq<Datum>,
)
    requires
        counts_nonnegative(rows, filter, t),
    ensures
        snapshot(rows, filter, t).to_multiset().count(r) == if filter_holds(filter, r) {
            row_total(rows, r, t)
        } else {
            0
        },
    decreases rows.len(),
{
    broadcast use vstd::multiset::group_multiset_axioms;
    broadcast use vstd::seq_lib::group_to_multiset_ensures;
    if rows.len() == 0 {
        assert(snapshot(rows, filter, t).to_multiset().count(r) == 0);
    } else {
        let prev = rows.drop_last();
        assert forall|i: int| 0 <= i < prev.len() implies copies_of(#[trigger] prev[i], filter, t)
            >= 0 by {
            assert(prev[i] == rows[i]);
        }
        lemma_snapshot_counts(prev, filter, t, r);
        let e = rows.last();
        assert(copies_of(rows[rows.len() - 1], filter, t) >= 0);
        let c = copies_of(e, filter, t);
        let n: nat = if c > 0 {
            c as nat
        } else {
            0
        };
        assert(snapshot(rows, filter, t) == snapshot(prev, filter, t) + repeat_row(e.row@, n));
        assert(row_total(rows, r, t) == row_total(prev, r, t) + if e.row@ == r {
            accumulated(e.history@, t)
        } else {
            0
        });
        lemma_multiset_commutative(snapshot(prev, filter, t), repeat_row(e.row@, n));
        lemma_repeat_count(e.row@, n, r);
        assert(snapshot(rows, filter, t).to_multiset().count(r) == snapshot(prev, filter, t).to_multiset().count(r)
            + repeat_row(e.row@, n).to_multiset().count(r));
        if e.row@ == r && filter_holds(filter, r) {
            assert(c == accumulated(e.history@, t));
        }
    }
}

/// `history` with every time below `since` advanced to `since`.
pub open spec fn advance_history(history: Seq<(Timestamp, Diff)>, since: Timestamp) -> Seq<
    (Timestamp, Diff),
> {
    history.map_values(
        |u: (Timestamp, Diff)|
            (
                if u.0 < since {
                    since
                } else {
                    u.0
                },
                u.1,
            ),
    )
}

/// `compacted` holds the rows of `rows`, in the same order, each history
/// advanced to `since`.
pub open spec fn compacted_from(
    compacted: Seq<ArrangedRow>,
    rows: Seq<ArrangedRow>,
    since: Timestamp,
) -> bool {
    &&& compacted.len() == rows.len()
    &&& forall|i: int|
        0 <= i < rows.len() ==> (#[trigger] compacted[i]).row@ == rows[i].row@
            && compacted[i].history@ == advance_history(rows[i].history@, since)
}

/// Compacting a history up to `since` keeps its count at every time at or
/// above `since`.
pub proof fn lemma_compaction_preserves_count(
    history: Seq<(Timestamp, Diff)>,
    since: Timestamp,
    t: Timestamp,
)
    requires
        since <= t,
    ensures
        accumulated(advance_history(history, since), t) == accumulated(history, t),
    decreases history.len(),
{
    if history.len() > 0 {
        assert(advance_history(history, since).drop_last() =~= advance_history(
            history.drop_last(),
            since,
        ));
        lemma_compaction_preserves_count(history.drop_last(), since, t);
    }
}

/// Compaction up to `since` leaves the bag of every peek at a timestamp at or
/// above `since` as it was.
pub proof fn lemma_compaction_preserves_snapshot(
    rows: Seq<ArrangedRow>,
    compacted: Seq<ArrangedRow>,
    since: Timestamp,
    filter: Seq<Predicate>,
    t: Timestamp,
)
    requires
        since <= t,
        compacted_from(compacted, rows, since),
    ensures
        snapshot(compacted, filter, t) == snapshot(rows, filter, t),
    decreases rows.len(),
{
    if rows.len() > 0 {
        let n = rows.len() - 1;
        assert(compacted_from(compacted.drop_last(), rows.drop_last(), since)) by {
            assert forall|i: int| 0 <= i < n implies (#[trigger] compacted.drop_last()[i]).row@
                == rows.drop_last()[i].row@ && compacted.drop_last()[i].history@
                == advance_history(rows.drop_last()[i].history@, since) by {
                assert(compacted.drop_last()[i] == compacted[i]);
                assert(rows.drop_last()[i] == rows[i]);
            }
        }
        lemma_compaction_preserves_snapshot(rows.drop_last(), compacted.drop_last(), since, filter, t);
        assert(compacted[n].row@ == rows[n].row@);
        lemma_compaction_preserves_count(rows[n].history@, since, t);
        assert(copies_of(compacted.last(), filter, t) == copies_of(rows.last(), filter, t));
    }
}

/// A history with every time below `since` advanced to `since`.
pub fn compact_history(history: &Vec<(Timestamp, Diff)>, since: Timestamp) -> (r: Vec<
    (Timestamp, Diff),
>)
    ensures
        r@ == advance_history(history@, since),
{
    let mut r: Vec<(Timestamp, Diff)> = Vec::new();
    let mut i: usize = 0;
    while i < history.len()
        invariant
            i <= history@.len(),
            r@ == advance_history(history@.subrange(0, i as int), since),
        decreases history@.len() - i,
    {
        let (time, diff) = history[i];
        let time = if time < since {
            since
        } else {
            time
        };
        r.push((time, diff));
        assert(advance_history(history@.subrange(0, i + 1), since) =~= advance_history(
            history@.subrange(0, i as int),
            since,
        ).push((time, diff)));
        i = i + 1;
    }
    assert(history@.subrange(0, i as int) =~= history@);
    r
}

impl Arrangement {
    /// Compacts the trace up to `since`: every time below it is advanced to it.
    /// Peeks at timestamps at or above `since` see the same bag as before.
    pub fn compact(&mut self, since: Timestamp)
        ensures
            final(self).upper@ == old(self).upper@,
            compacted_from(final(self).rows@, old(self).rows@, since),
    {
        let mut rows: Vec<ArrangedRow> = Vec::new();
        let mut i: usize = 0;
        while i < self.rows.len()
            invariant
                i <= self.rows@.len(),
                rows@.len() == i,
                forall|k: int|
                    0 <= k < i ==> (#[trigger] rows@[k]).row@ == self.rows@[k].row@
                        && rows@[k].history@ == advance_history(self.rows@[k].history@, since),
            decreases self.rows@.len() - i,
        {
            let row = copy_row(&self.rows[i].row);
            let history = compact_history(&self.rows[i].history, since);
            rows.push(ArrangedRow { row, history });
            i = i + 1;
        }
        self.rows = rows;
    }
}

} // verus!
