//! Query engine for the flat series: filter, thin, sort, paginate.
//!
//! The engine never copies records while it narrows a query down; it works
//! on lightweight row references carrying the row's position (its insertion
//! identity) and its two parsed time keys. Only the final page of
//! references is materialized back into records.
//!
//! Order of operations: time-bound filtering, calendar thinning (at most
//! one row per bucket, preferring the greatest `end_time`, then the lowest
//! insertion identity), sorting by the validated column (ties broken by
//! insertion identity, so the result is fully determined), and pagination
//! (`offset = (page-1)*limit`; an out-of-range page is an empty result,
//! never an error).

use vstd::prelude::*;

use crate::bucket::{bucket_id, spec_bucket_id, BucketWidth};
use crate::error::AppError;
use crate::model::{DepthInterval, QueryParams, RunePoolInterval, SwapsInterval};
use crate::plan::{build_plan, spec_plan, time_bounds_ok, QueryPlan, Series, SortColumn, SortOrder};
use crate::store::{Keyed, Store, Table};

verus! {

/// A reference into one series table: the row's position (its insertion
/// identity) and its parsed time keys.
#[derive(Clone, Copy, Debug, PartialEq, Eq, Structural)]
pub struct RowRef {
    pub idx: usize,
    pub end_key: u64,
    pub start_key: u64,
}

/// The references of a whole table, in insertion order.
pub open spec fn refs_of<T>(rows: Seq<Keyed<T>>) -> Seq<RowRef> {
    Seq::new(
        rows.len(),
        |i: int| RowRef { idx: i as usize, end_key: rows[i].end_key, start_key: rows[i].start_key },
    )
}

/// Every reference points below `n`.
pub open spec fn refs_within(refs: Seq<RowRef>, n: int) -> bool {
    forall|i: int| 0 <= i < refs.len() ==> (#[trigger] refs[i]).idx < n
}

/// One reference per table row, in insertion order.
pub(crate) fn collect_refs<T>(table: &Table<T>) -> (out: Vec<RowRef>)
    ensures
        out@ == refs_of(table.rows@),
{
    let n = table.rows.len();
    let mut out: Vec<RowRef> = Vec::new();
    let mut i: usize = 0;
    while i < n
        invariant
            0 <= i <= n,
            n == table.rows@.len(),
            out@.len() == i,
            forall|j: int| 0 <= j < i ==> out@[j] == refs_of(table.rows@)[j],
        decreases n - i,
    {
        let row = &table.rows[i];
        out.push(RowRef { idx: i, end_key: row.end_key, start_key: row.start_key });
        i = i + 1;
    }
    proof {
        assert(out@ =~= refs_of(table.rows@));
    }
    out
}

/// The optional time bounds, combined with logical AND.
pub open spec fn in_bounds(r: RowRef, lo: Option<u64>, hi: Option<u64>) -> bool {
    &&& (lo matches Some(l) ==> r.start_key >= l)
    &&& (hi matches Some(h) ==> r.end_key <= h)
}

/// The rows that survive the time bounds, in order.
pub open spec fn spec_filter_bounds(refs: Seq<RowRef>, lo: Option<u64>, hi: Option<u64>) -> Seq<
    RowRef,
>
    decreases refs.len(),
{
    if refs.len() == 0 {
        Seq::empty()
    } else {
        let rest = spec_filter_bounds(refs.drop_last(), lo, hi);
        if in_bounds(refs.last(), lo, hi) {
            rest.push(refs.last())
        } else {
            rest
        }
    }
}

/// Keep the rows inside the optional time bounds.
pub(crate) fn filter_bounds(refs: &Vec<RowRef>, lo: Option<u64>, hi: Option<u64>) -> (out: Vec<RowRef>)
    ensures
        out@ == spec_filter_bounds(refs@, lo, hi),
{
    let n = refs.len();
    let mut out: Vec<RowRef> = Vec::new();
    let mut i: usize = 0;
    while i < n
        invariant
            0 <= i <= n,
            n == refs@.len(),
            out@ == spec_filter_bounds(refs@.take(i as int), lo, hi),
        decreases n - i,
    {
        let r = refs[i];
        let keep_lo = match lo {
            Some(l) => r.start_key >= l,
            None => true,
        };
        let keep_hi = match hi {
            Some(h) => r.end_key <= h,
            None => true,
        };
        proof {
            assert(refs@.take(i + 1).drop_last() =~= refs@.take(i as int));
            assert(refs@.take(i + 1).last() == refs@[i as int]);
        }
        if keep_lo && keep_hi {
            out.push(r);
        }
        i = i + 1;
    }
    proof {
        assert(refs@.take(n as int) =~= refs@);
    }
    out
}

/// The page `[offset, offset + limit)` of `rows`; empty when `offset` is
/// past the end, truncated when the page only partly exists.
pub open spec fn spec_paginate<A>(rows: Seq<A>, offset: u64, limit: u32) -> Seq<A> {
    if offset >= rows.len() {
        Seq::empty()
    } else if offset + limit <= rows.len() {
        rows.subrange(offset as int, offset as int + limit as int)
    } else {
        rows.subrange(offset as int, rows.len() as int)
    }
}

/// Cut the requested page out of `rows`.
pub(crate) fn paginate<A: Copy>(rows: &Vec<A>, offset: u64, limit: u32) -> (out: Vec<A>)
    ensures
        out@ == spec_paginate(rows@, offset, limit),
{
    let n = rows.len();
    let mut out: Vec<A> = Vec::new();
    if offset >= n as u64 {
        proof {
            assert(out@ =~= spec_paginate(rows@, offset, limit));
        }
        return out;
    }
    let start = offset as usize;
    let avail = n - start;
    let count: usize = if (limit as u64) <= (avail as u64) {
        limit as usize
    } else {
        avail
    };
    let mut j: usize = 0;
    while j < count
        invariant
            0 <= j <= count,
            n == rows@.len(),
            start == offset,
            start + count <= n,
            out@.len() == j,
            forall|q: int| 0 <= q < j ==> out@[q] == rows@[start + q],
        decreases count - j,
    {
        out.push(rows[start + j]);
        j = j + 1;
    }
    proof {
        assert(out@ =~= spec_paginate(rows@, offset, limit));
    }
    out
}

// ---------------------------------------------------------------------------
// Calendar thinning
// ---------------------------------------------------------------------------

/// Insertion identities strictly increase along the sequence (true of a
/// table's references and preserved by filtering and thinning).
pub open spec fn idx_increasing(refs: Seq<RowRef>) -> bool {
    forall|i: int, j: int|
        0 <= i < j < refs.len() ==> (#[trigger] refs[i]).idx < (#[trigger] refs[j]).idx
}

/// A table's references carry strictly increasing identities.
pub proof fn lemma_refs_of_increasing<T>(rows: Seq<Keyed<T>>)
    requires
        rows.len() <= usize::MAX,
    ensures
        idx_increasing(refs_of(rows)),
{
    assert forall|i: int, j: int|
        0 <= i < j < refs_of(rows).len() implies (#[trigger] refs_of(rows)[i]).idx < (
    #[trigger] refs_of(rows)[j]).idx by {
        assert(refs_of(rows)[i].idx == i as usize);
        assert(refs_of(rows)[j].idx == j as usize);
    }
}

/// Every filtered row is one of the input rows.
proof fn lemma_filter_bounds_elems(refs: Seq<RowRef>, lo: Option<u64>, hi: Option<u64>)
    ensures
        forall|j: int|
            0 <= j < spec_filter_bounds(refs, lo, hi).len() ==> exists|k: int|
                0 <= k < refs.len() && refs[k] == #[trigger] spec_filter_bounds(refs, lo, hi)[j],
    decreases refs.len(),
{
    if refs.len() > 0 {
        let s = refs.drop_last();
        lemma_filter_bounds_elems(s, lo, hi);
        let rest = spec_filter_bounds(s, lo, hi);
        let out = spec_filter_bounds(refs, lo, hi);
        assert forall|j: int|
            0 <= j < out.len() implies exists|k: int|
            0 <= k < refs.len() && refs[k] == #[trigger] out[j] by {
            if j < rest.len() {
                assert(out[j] == rest[j]);
                let k = choose|k: int| 0 <= k < s.len() && s[k] == rest[j];
                assert(refs[k] == out[j]);
            } else {
                assert(out[j] == refs[refs.len() - 1]);
            }
        }
    }
}

/// Filtering keeps identities strictly increasing, so the bucketing law
/// applies to the rows a query actually thins.
pub proof fn lemma_filter_bounds_increasing(refs: Seq<RowRef>, lo: Option<u64>, hi: Option<u64>)
    requires
        idx_increasing(refs),
    ensures
        idx_increasing(spec_filter_bounds(refs, lo, hi)),
    decreases refs.len(),
{
    if refs.len() > 0 {
        let s = refs.drop_last();
        assert(idx_increasing(s)) by {
            assert(forall|i: int| 0 <= i < s.len() ==> (#[trigger] s[i]) == refs[i]);
        }
        lemma_filter_bounds_increasing(s, lo, hi);
        lemma_filter_bounds_elems(s, lo, hi);
        let rest = spec_filter_bounds(s, lo, hi);
        let out = spec_filter_bounds(refs, lo, hi);
        assert forall|i: int, j: int|
            0 <= i < j < out.len() implies (#[trigger] out[i]).idx < (#[trigger] out[j]).idx by {
            if j < rest.len() {
                assert(out[i] == rest[i] && out[j] == rest[j]);
            } else if out.len() > rest.len() && j == rest.len() {
                assert(out[i] == rest[i]);
                let k = choose|k: int| 0 <= k < s.len() && s[k] == rest[i];
                assert(refs[k].idx < refs[refs.len() - 1].idx);
            }
        }
    }
}

/// The winning row of calendar bucket `b` among `rows`: the one with the
/// greatest `end_key`, and among those the earliest (lowest insertion
/// identity, as identities increase along `rows`).
pub open spec fn best_in_bucket(rows: Seq<RowRef>, w: BucketWidth, b: int) -> Option<RowRef>
    decreases rows.len(),
{
    if rows.len() == 0 {
        None
    } else {
        let prev = best_in_bucket(rows.drop_last(), w, b);
        let r = rows.last();
        if spec_bucket_id(w, r.end_key) != b {
            prev
        } else {
            match prev {
                None => Some(r),
                Some(w0) => if r.end_key > w0.end_key {
                    Some(r)
                } else {
                    Some(w0)
                },
            }
        }
    }
}

/// The first `i` rows, thinned to the per-bucket winners, in row order.
pub open spec fn thin_rec(rows: Seq<RowRef>, w: BucketWidth, i: int) -> Seq<RowRef>
    decreases i,
{
    if i <= 0 {
        Seq::empty()
    } else {
        let rest = thin_rec(rows, w, i - 1);
        let r = rows[i - 1];
        if best_in_bucket(rows, w, spec_bucket_id(w, r.end_key)) == Some(r) {
            rest.push(r)
        } else {
            rest
        }
    }
}

/// The rows thinned to at most one per calendar bucket.
pub open spec fn spec_thinned(rows: Seq<RowRef>, w: BucketWidth) -> Seq<RowRef> {
    thin_rec(rows, w, rows.len() as int)
}

/// Some row of `rows` falls in bucket `b`.
pub open spec fn bucket_present(rows: Seq<RowRef>, w: BucketWidth, b: int) -> bool {
    exists|i: int| 0 <= i < rows.len() && spec_bucket_id(w, (#[trigger] rows[i]).end_key) == b
}

/// What the per-bucket winner is: it exists exactly when the bucket is
/// inhabited, it is a row of that bucket, and no row of the bucket has a
/// greater `end_key`.
proof fn lemma_best_props(rows: Seq<RowRef>, w: BucketWidth, b: int)
    ensures
        bucket_present(rows, w, b) <==> (best_in_bucket(rows, w, b) is Some),
        best_in_bucket(rows, w, b) is Some ==> rows.contains(best_in_bucket(rows, w, b)->Some_0)
            && spec_bucket_id(w, (best_in_bucket(rows, w, b)->Some_0).end_key) == b && forall|i: int|
            0 <= i < rows.len() && spec_bucket_id(w, (#[trigger] rows[i]).end_key) == b
                ==> rows[i].end_key <= (best_in_bucket(rows, w, b)->Some_0).end_key,
    decreases rows.len(),
{
    if rows.len() > 0 {
        let s = rows.drop_last();
        let last = rows.last();
        lemma_best_props(s, w, b);
        if best_in_bucket(rows, w, b) is Some {
            let r = best_in_bucket(rows, w, b)->Some_0;
            if s.contains(r) {
                let k = choose|k: int| 0 <= k < s.len() && s[k] == r;
                assert(rows[k] == r);
            }
            assert(rows.contains(r) && spec_bucket_id(w, r.end_key) == b);
            assert forall|i: int|
                0 <= i < rows.len() && spec_bucket_id(w, (#[trigger] rows[i]).end_key) == b
                    implies rows[i].end_key <= r.end_key by {
                if i < rows.len() - 1 {
                    assert(s[i] == rows[i]);
                    assert(bucket_present(s, w, b));
                }
            }
        }
        if bucket_present(rows, w, b) && spec_bucket_id(w, last.end_key) != b {
            let i = choose|i: int|
                0 <= i < rows.len() && spec_bucket_id(w, (#[trigger] rows[i]).end_key) == b;
            assert(s[i] == rows[i]);
            assert(bucket_present(s, w, b));
        }
    }
}

/// Every thinned row is one of the first `i` rows and is the winner of its
/// bucket; winners among the first `i` rows all appear; and the thinned
/// prefix keeps identities increasing when `rows` does.
proof fn lemma_thin_rec_props(rows: Seq<RowRef>, w: BucketWidth, i: int)
    requires
        i <= rows.len(),
    ensures
        forall|j: int|
            0 <= j < thin_rec(rows, w, i).len() ==> exists|k: int|
                0 <= k < i && rows[k] == #[trigger] thin_rec(rows, w, i)[j],
        forall|j: int|
            0 <= j < thin_rec(rows, w, i).len() ==> best_in_bucket(
                rows,
                w,
                spec_bucket_id(w, (#[trigger] thin_rec(rows, w, i)[j]).end_key),
            ) == Some(thin_rec(rows, w, i)[j]),
        forall|k: int|
            0 <= k < i && best_in_bucket(rows, w, spec_bucket_id(w, (#[trigger] rows[k]).end_key))
                == Some(rows[k]) ==> thin_rec(rows, w, i).contains(rows[k]),
    decreases i,
{
    if i > 0 {
        lemma_thin_rec_props(rows, w, i - 1);
        let rest = thin_rec(rows, w, i - 1);
        let out = thin_rec(rows, w, i);
        let r = rows[i - 1];
        assert forall|k: int|
            0 <= k < i && best_in_bucket(rows, w, spec_bucket_id(w, (#[trigger] rows[k]).end_key))
                == Some(rows[k]) implies out.contains(rows[k]) by {
            if k == i - 1 {
                assert(out[out.len() - 1] == rows[k]);
            } else {
                assert(rest.contains(rows[k]));
                let j = choose|j: int| 0 <= j < rest.len() && rest[j] == rows[k];
                assert(out[j] == rows[k]);
            }
        }
    }
}

/// Deterministic bucketing: thinning keeps, for every calendar bucket
/// inhabited by the input rows, exactly one row — a row of that bucket
/// with the greatest `end_time` in it — and nothing else.
pub proof fn lemma_deterministic_bucketing(rows: Seq<RowRef>, w: BucketWidth)
    requires
        idx_increasing(rows),
    ensures
        // every kept row is an input row that tops its bucket
        forall|j: int|
            0 <= j < spec_thinned(rows, w).len() ==> rows.contains(
                #[trigger] spec_thinned(rows, w)[j],
            ),
        forall|j: int, i: int|
            0 <= j < spec_thinned(rows, w).len() && 0 <= i < rows.len() && spec_bucket_id(
                w,
                (#[trigger] rows[i]).end_key,
            ) == spec_bucket_id(w, (#[trigger] spec_thinned(rows, w)[j]).end_key) ==> rows[i].end_key
                <= spec_thinned(rows, w)[j].end_key,
        // at most one kept row per bucket
        forall|j1: int, j2: int|
            0 <= j1 < j2 < spec_thinned(rows, w).len() ==> spec_bucket_id(
                w,
                (#[trigger] spec_thinned(rows, w)[j1]).end_key,
            ) != spec_bucket_id(w, (#[trigger] spec_thinned(rows, w)[j2]).end_key),
        // every inhabited bucket keeps a row
        forall|i: int|
            0 <= i < rows.len() ==> exists|j: int|
                0 <= j < spec_thinned(rows, w).len() && spec_bucket_id(
                    w,
                    (#[trigger] spec_thinned(rows, w)[j]).end_key,
                ) == spec_bucket_id(w, (#[trigger] rows[i]).end_key),
{
    let out = spec_thinned(rows, w);
    let n = rows.len() as int;
    lemma_thin_rec_props(rows, w, n);
    assert forall|j: int| 0 <= j < out.len() implies rows.contains(#[trigger] out[j]) by {
        let k = choose|k: int| 0 <= k < n && rows[k] == out[j];
    }
    assert forall|j: int, i: int|
        0 <= j < out.len() && 0 <= i < rows.len() && spec_bucket_id(
            w,
            (#[trigger] rows[i]).end_key,
        ) == spec_bucket_id(w, (#[trigger] out[j]).end_key) implies rows[i].end_key
        <= out[j].end_key by {
        lemma_best_props(rows, w, spec_bucket_id(w, out[j].end_key));
    }
    assert forall|j1: int, j2: int|
        0 <= j1 < j2 < out.len() implies spec_bucket_id(w, (#[trigger] out[j1]).end_key)
        != spec_bucket_id(w, (#[trigger] out[j2]).end_key) by {
        if spec_bucket_id(w, out[j1].end_key) == spec_bucket_id(w, out[j2].end_key) {
            // both equal the winner of their shared bucket, so they are the
            // same row value; distinct positions then contradict strictly
            // increasing identities
            assert(out[j1] == out[j2]);
            let k1 = choose|k: int| 0 <= k < n && rows[k] == out[j1];
            let k2 = choose|k: int| 0 <= k < n && rows[k] == out[j2];
            lemma_thin_rec_strict(rows, w, n, j1, j2);
        }
    }
    assert forall|i: int|
        0 <= i < rows.len() implies exists|j: int|
        0 <= j < out.len() && spec_bucket_id(w, (#[trigger] out[j]).end_key) == spec_bucket_id(
            w,
            (#[trigger] rows[i]).end_key,
        ) by {
        let b = spec_bucket_id(w, rows[i].end_key);
        lemma_best_props(rows, w, b);
        assert(bucket_present(rows, w, b));
        let win = best_in_bucket(rows, w, b)->Some_0;
        let k = choose|k: int| 0 <= k < rows.len() && rows[k] == win;
        assert(out.contains(rows[k]));
        let j = choose|j: int| 0 <= j < out.len() && out[j] == rows[k];
        assert(spec_bucket_id(w, out[j].end_key) == b);
    }
}

/// Two distinct positions of the thinned prefix never hold the same value:
/// identities strictly increase along the kept rows.
proof fn lemma_thin_rec_strict(rows: Seq<RowRef>, w: BucketWidth, i: int, j1: int, j2: int)
    requires
        idx_increasing(rows),
        i <= rows.len(),
        0 <= j1 < j2 < thin_rec(rows, w, i).len(),
    ensures
        thin_rec(rows, w, i)[j1].idx < thin_rec(rows, w, i)[j2].idx,
    decreases i,
{
    if i > 0 {
        let rest = thin_rec(rows, w, i - 1);
        let out = thin_rec(rows, w, i);
        if out.len() > rest.len() && j2 == rest.len() {
            // out[j2] is rows[i-1]; out[j1] sits in rest, hence among rows[..i-1]
            lemma_thin_rec_props(rows, w, i - 1);
            let k = choose|k: int| 0 <= k < i - 1 && rows[k] == rest[j1];
            assert(rows[k].idx < rows[i - 1].idx);
        } else {
            lemma_thin_rec_strict(rows, w, i - 1, j1, j2);
        }
    }
}

/// The winner of bucket `b` among `rows`.
fn best_of(rows: &Vec<RowRef>, w: BucketWidth, b: u64) -> (r: Option<RowRef>)
    ensures
        r == best_in_bucket(rows@, w, b as int),
{
    let n = rows.len();
    let mut cur: Option<RowRef> = None;
    let mut j: usize = 0;
    while j < n
        invariant
            0 <= j <= n,
            n == rows@.len(),
            cur == best_in_bucket(rows@.take(j as int), w, b as int),
        decreases n - j,
    {
        let r = rows[j];
        proof {
            assert(rows@.take(j + 1).drop_last() =~= rows@.take(j as int));
            assert(rows@.take(j + 1).last() == rows@[j as int]);
        }
        if bucket_id(w, r.end_key) == b {
            cur = match cur {
                None => Some(r),
                Some(w0) => if r.end_key > w0.end_key {
                    Some(r)
                } else {
                    Some(w0)
                },
            };
        }
        j = j + 1;
    }
    proof {
        assert(rows@.take(n as int) =~= rows@);
    }
    cur
}

/// Thin `rows` to at most one row per calendar bucket: the greatest
/// `end_time` of the bucket, earliest insertion identity on a tie.
pub(crate) fn thin_buckets(rows: &Vec<RowRef>, w: BucketWidth) -> (out: Vec<RowRef>)
    ensures
        out@ == spec_thinned(rows@, w),
{
    let n = rows.len();
    let mut out: Vec<RowRef> = Vec::new();
    let mut i: usize = 0;
    while i < n
        invariant
            0 <= i <= n,
            n == rows@.len(),
            out@ == thin_rec(rows@, w, i as int),
        decreases n - i,
    {
        let r = rows[i];
        let b = bucket_id(w, r.end_key);
        let best = best_of(rows, w, b);
        let keep = match best {
            Some(w0) => w0 == r,
            None => false,
        };
        if keep {
            out.push(r);
        }
        i = i + 1;
    }
    out
}

// ---------------------------------------------------------------------------
// Sorting
// ---------------------------------------------------------------------------

/// The sort key a validated column selects on a row reference. The two text
/// columns exist only on the earnings series, which has its own engine;
/// here anything but `start_time` keys on `end_time`.
pub open spec fn key_of(col: SortColumn, r: RowRef) -> u64 {
    match col {
        SortColumn::StartTime => r.start_key,
        _ => r.end_key,
    }
}

/// Total order of the sort: by the selected key in the requested direction,
/// ties broken by insertion identity, so the sorted sequence is fully
/// determined.
pub open spec fn ref_le(col: SortColumn, ord: SortOrder, a: RowRef, b: RowRef) -> bool {
    if key_of(col, a) != key_of(col, b) {
        if ord == SortOrder::Asc {
            key_of(col, a) < key_of(col, b)
        } else {
            key_of(col, a) > key_of(col, b)
        }
    } else {
        a.idx <= b.idx
    }
}

/// `r` inserted before the first element it sorts at or before.
pub open spec fn insert_sorted(
    col: SortColumn,
    ord: SortOrder,
    sorted: Seq<RowRef>,
    r: RowRef,
) -> Seq<RowRef>
    decreases sorted.len(),
{
    if sorted.len() == 0 {
        seq![r]
    } else if ref_le(col, ord, r, sorted[0]) {
        seq![r] + sorted
    } else {
        seq![sorted[0]] + insert_sorted(col, ord, sorted.drop_first(), r)
    }
}

/// Insertion sort of `rows` under `ref_le`.
pub open spec fn sort_refs_spec(col: SortColumn, ord: SortOrder, rows: Seq<RowRef>) -> Seq<RowRef>
    decreases rows.len(),
{
    if rows.len() == 0 {
        Seq::empty()
    } else {
        insert_sorted(col, ord, sort_refs_spec(col, ord, rows.drop_last()), rows.last())
    }
}

/// Inserting at the first position whose element `r` sorts at or before is
/// exactly `insert_sorted`.
proof fn lemma_insert_sorted_at(
    col: SortColumn,
    ord: SortOrder,
    sorted: Seq<RowRef>,
    r: RowRef,
    p: int,
)
    requires
        0 <= p <= sorted.len(),
        forall|q: int| 0 <= q < p ==> !ref_le(col, ord, r, #[trigger] sorted[q]),
        p < sorted.len() ==> ref_le(col, ord, r, sorted[p]),
    ensures
        insert_sorted(col, ord, sorted, r) == sorted.insert(p, r),
    decreases sorted.len(),
{
    if sorted.len() == 0 {
        assert(insert_sorted(col, ord, sorted, r) =~= sorted.insert(0, r));
    } else if ref_le(col, ord, r, sorted[0]) {
        assert(p == 0);
        assert(seq![r] + sorted =~= sorted.insert(0, r));
    } else {
        assert(p > 0);
        let s1 = sorted.drop_first();
        assert forall|q: int| 0 <= q < p - 1 implies !ref_le(col, ord, r, #[trigger] s1[q]) by {
            assert(s1[q] == sorted[q + 1]);
        }
        lemma_insert_sorted_at(col, ord, s1, r, p - 1);
        assert(seq![sorted[0]] + s1.insert(p - 1, r) =~= sorted.insert(p, r));
    }
}

/// Every element of an insertion is the inserted row or an element of the
/// sorted input.
proof fn lemma_insert_sorted_elems(col: SortColumn, ord: SortOrder, sorted: Seq<RowRef>, r: RowRef)
    ensures
        insert_sorted(col, ord, sorted, r).len() == sorted.len() + 1,
        forall|j: int|
            0 <= j < sorted.len() + 1 ==> (#[trigger] insert_sorted(col, ord, sorted, r)[j]) == r
                || sorted.contains(insert_sorted(col, ord, sorted, r)[j]),
    decreases sorted.len(),
{
    let out = insert_sorted(col, ord, sorted, r);
    if sorted.len() == 0 {
    } else if ref_le(col, ord, r, sorted[0]) {
        assert forall|j: int|
            0 <= j < sorted.len() + 1 implies (#[trigger] out[j]) == r || sorted.contains(
            out[j],
        ) by {
            if j > 0 {
                assert(out[j] == sorted[j - 1]);
            }
        }
    } else {
        let s1 = sorted.drop_first();
        lemma_insert_sorted_elems(col, ord, s1, r);
        let rec = insert_sorted(col, ord, s1, r);
        assert forall|j: int|
            0 <= j < sorted.len() + 1 implies (#[trigger] out[j]) == r || sorted.contains(
            out[j],
        ) by {
            if j == 0 {
                assert(out[0] == sorted[0]);
            } else {
                assert(out[j] == rec[j - 1]);
                if rec[j - 1] != r {
                    let k = choose|k: int| 0 <= k < s1.len() && s1[k] == rec[j - 1];
                    assert(sorted[k + 1] == rec[j - 1]);
                }
            }
        }
    }
}

/// Sorting permutes: every sorted element is an input element, lengths
/// match.
proof fn lemma_sort_elems(col: SortColumn, ord: SortOrder, rows: Seq<RowRef>)
    ensures
        sort_refs_spec(col, ord, rows).len() == rows.len(),
        forall|j: int|
            0 <= j < rows.len() ==> rows.contains(#[trigger] sort_refs_spec(col, ord, rows)[j]),
    decreases rows.len(),
{
    if rows.len() > 0 {
        let s = rows.drop_last();
        lemma_sort_elems(col, ord, s);
        let rec = sort_refs_spec(col, ord, s);
        lemma_insert_sorted_elems(col, ord, rec, rows.last());
        let out = sort_refs_spec(col, ord, rows);
        assert forall|j: int| 0 <= j < rows.len() implies rows.contains(#[trigger] out[j]) by {
            if out[j] == rows.last() {
                assert(rows[rows.len() - 1] == out[j]);
            } else {
                assert(rec.contains(out[j]));
                let k1 = choose|k: int| 0 <= k < rec.len() && rec[k] == out[j];
                assert(s.contains(rec[k1]));
                let k2 = choose|k: int| 0 <= k < s.len() && s[k] == out[j];
                assert(rows[k2] == out[j]);
            }
        }
    }
}

/// Whether `a` sorts at or before `b`.
fn ref_le_exec(col: SortColumn, ord: SortOrder, a: RowRef, b: RowRef) -> (r: bool)
    ensures
        r == ref_le(col, ord, a, b),
{
    let ka = match col {
        SortColumn::StartTime => a.start_key,
        _ => a.end_key,
    };
    let kb = match col {
        SortColumn::StartTime => b.start_key,
        _ => b.end_key,
    };
    if ka != kb {
        match ord {
            SortOrder::Asc => ka < kb,
            SortOrder::Desc => ka > kb,
        }
    } else {
        a.idx <= b.idx
    }
}

/// First position of `out` whose element `r` sorts at or before.
fn insert_pos(col: SortColumn, ord: SortOrder, out: &Vec<RowRef>, r: RowRef) -> (p: usize)
    ensures
        0 <= p <= out@.len(),
        forall|q: int| 0 <= q < p ==> !ref_le(col, ord, r, #[trigger] out@[q]),
        p < out@.len() ==> ref_le(col, ord, r, out@[p as int]),
{
    let n = out.len();
    let mut p: usize = 0;
    while p < n
        invariant
            0 <= p <= n,
            n == out@.len(),
            forall|q: int| 0 <= q < p ==> !ref_le(col, ord, r, #[trigger] out@[q]),
        decreases n - p,
    {
        if ref_le_exec(col, ord, r, out[p]) {
            return p;
        }
        p = p + 1;
    }
    p
}

/// Sort row references by the validated column and direction; ties go to
/// the lower insertion identity.
fn sort_refs(col: SortColumn, ord: SortOrder, rows: &Vec<RowRef>) -> (out: Vec<RowRef>)
    ensures
        out@ == sort_refs_spec(col, ord, rows@),
{
    let n = rows.len();
    let mut out: Vec<RowRef> = Vec::new();
    let mut i: usize = 0;
    while i < n
        invariant
            0 <= i <= n,
            n == rows@.len(),
            out@ == sort_refs_spec(col, ord, rows@.take(i as int)),
        decreases n - i,
    {
        let r = rows[i];
        let p = insert_pos(col, ord, &out, r);
        proof {
            lemma_insert_sorted_at(col, ord, out@, r, p as int);
            assert(rows@.take(i + 1).drop_last() =~= rows@.take(i as int));
            assert(rows@.take(i + 1).last() == rows@[i as int]);
        }
        out.insert(p, r);
        i = i + 1;
    }
    proof {
        assert(rows@.take(n as int) =~= rows@);
    }
    out
}

/// `ref_le` is total.
proof fn lemma_ref_le_total(col: SortColumn, ord: SortOrder, a: RowRef, b: RowRef)
    ensures
        ref_le(col, ord, a, b) || ref_le(col, ord, b, a),
{
}

/// `ref_le` is transitive.
proof fn lemma_ref_le_trans(col: SortColumn, ord: SortOrder, a: RowRef, b: RowRef, c: RowRef)
    requires
        ref_le(col, ord, a, b),
        ref_le(col, ord, b, c),
    ensures
        ref_le(col, ord, a, c),
{
}

/// The rows are ordered by `ref_le`.
pub open spec fn sorted_by_ref_le(col: SortColumn, ord: SortOrder, s: Seq<RowRef>) -> bool {
    forall|i: int, j: int|
        0 <= i < j < s.len() ==> ref_le(col, ord, #[trigger] s[i], #[trigger] s[j])
}

/// Inserting into an ordered sequence keeps it ordered, keeps every old
/// element, and adds the new one.
proof fn lemma_insert_sorted_ordered(col: SortColumn, ord: SortOrder, sorted: Seq<RowRef>, r: RowRef)
    requires
        sorted_by_ref_le(col, ord, sorted),
    ensures
        sorted_by_ref_le(col, ord, insert_sorted(col, ord, sorted, r)),
        insert_sorted(col, ord, sorted, r).contains(r),
        forall|k: int|
            0 <= k < sorted.len() ==> insert_sorted(col, ord, sorted, r).contains(
                #[trigger] sorted[k],
            ),
    decreases sorted.len(),
{
    let out = insert_sorted(col, ord, sorted, r);
    lemma_insert_sorted_elems(col, ord, sorted, r);
    if sorted.len() == 0 {
        assert(out[0] == r);
    } else if ref_le(col, ord, r, sorted[0]) {
        assert forall|i: int, j: int|
            0 <= i < j < out.len() implies ref_le(col, ord, #[trigger] out[i], #[trigger] out[j])
        by {
            if i == 0 {
                assert(out[j] == sorted[j - 1]);
                if j > 1 {
                    assert(ref_le(col, ord, sorted[0], sorted[j - 1]));
                    lemma_ref_le_trans(col, ord, r, sorted[0], sorted[j - 1]);
                }
            } else {
                assert(out[i] == sorted[i - 1] && out[j] == sorted[j - 1]);
            }
        }
        assert(out[0] == r);
        assert forall|k: int|
            0 <= k < sorted.len() implies out.contains(#[trigger] sorted[k]) by {
            assert(out[k + 1] == sorted[k]);
        }
    } else {
        let s1 = sorted.drop_first();
        assert(sorted_by_ref_le(col, ord, s1)) by {
            assert(forall|i: int| 0 <= i < s1.len() ==> (#[trigger] s1[i]) == sorted[i + 1]);
        }
        lemma_insert_sorted_ordered(col, ord, s1, r);
        let rec = insert_sorted(col, ord, s1, r);
        lemma_insert_sorted_elems(col, ord, s1, r);
        lemma_ref_le_total(col, ord, r, sorted[0]);
        assert forall|i: int, j: int|
            0 <= i < j < out.len() implies ref_le(col, ord, #[trigger] out[i], #[trigger] out[j])
        by {
            if i == 0 {
                assert(out[j] == rec[j - 1]);
                if rec[j - 1] == r {
                    assert(ref_le(col, ord, sorted[0], r));
                } else {
                    assert(s1.contains(rec[j - 1]));
                    let k = choose|k: int| 0 <= k < s1.len() && s1[k] == rec[j - 1];
                    assert(s1[k] == sorted[k + 1]);
                    assert(ref_le(col, ord, sorted[0], sorted[k + 1]));
                }
            } else {
                assert(out[i] == rec[i - 1] && out[j] == rec[j - 1]);
            }
        }
        assert(rec.contains(r));
        let kr = choose|k: int| 0 <= k < rec.len() && rec[k] == r;
        assert(out[kr + 1] == r);
        assert forall|k: int|
            0 <= k < sorted.len() implies out.contains(#[trigger] sorted[k]) by {
            if k == 0 {
                assert(out[0] == sorted[0]);
            } else {
                assert(s1[k - 1] == sorted[k]);
                assert(rec.contains(s1[k - 1]));
                let q = choose|q: int| 0 <= q < rec.len() && rec[q] == s1[k - 1];
                assert(out[q + 1] == sorted[k]);
            }
        }
    }
}

/// The sort specification really sorts: the result has the input's length,
/// is ordered by the validated column (ties broken by insertion identity),
/// and holds exactly the input's rows — none invented, none dropped.
pub proof fn lemma_sort_refs_sorts(col: SortColumn, ord: SortOrder, rows: Seq<RowRef>)
    ensures
        sort_refs_spec(col, ord, rows).len() == rows.len(),
        sorted_by_ref_le(col, ord, sort_refs_spec(col, ord, rows)),
        forall|j: int|
            0 <= j < rows.len() ==> rows.contains(#[trigger] sort_refs_spec(col, ord, rows)[j]),
        forall|k: int|
            0 <= k < rows.len() ==> sort_refs_spec(col, ord, rows).contains(#[trigger] rows[k]),
    decreases rows.len(),
{
    lemma_sort_elems(col, ord, rows);
    if rows.len() > 0 {
        let s = rows.drop_last();
        lemma_sort_refs_sorts(col, ord, s);
        let rec = sort_refs_spec(col, ord, s);
        lemma_insert_sorted_ordered(col, ord, rec, rows.last());
        let out = sort_refs_spec(col, ord, rows);
        assert(rows.contains(rows.last()));
        assert forall|k: int|
            0 <= k < rows.len() implies out.contains(#[trigger] rows[k]) by {
            if k < rows.len() - 1 {
                assert(s[k] == rows[k]);
                assert(rec.contains(s[k]));
                let q = choose|q: int| 0 <= q < rec.len() && rec[q] == rows[k];
                assert(out.contains(rec[q]));
            } else {
                assert(out.contains(rows.last()));
            }
        }
    }
}

// ---------------------------------------------------------------------------
// The composed query
// ---------------------------------------------------------------------------

/// The records the selected references point at, in order.
pub open spec fn items_of<T>(rows: Seq<Keyed<T>>, sel: Seq<RowRef>) -> Seq<T> {
    sel.map_values(|r: RowRef| rows[r.idx as int].item)
}

/// The references a validated plan selects from a table's references:
/// filter, thin (when bucketing is on), sort, paginate.
pub open spec fn spec_select(plan: QueryPlan, refs: Seq<RowRef>) -> Seq<RowRef> {
    let filtered = spec_filter_bounds(refs, plan.start, plan.end);
    let thinned = match plan.bucket {
        Some(w) => spec_thinned(filtered, w),
        None => filtered,
    };
    let sorted = sort_refs_spec(plan.sort, plan.order, thinned);
    spec_paginate(sorted, plan.offset, plan.limit)
}

/// Pagination correctness: the page starting at `offset` holds exactly the
/// rows `offset..offset+limit` of the sorted sequence, truncated at its
/// end; an offset at or past the end yields an empty page, never an error.
pub proof fn lemma_pagination<A>(rows: Seq<A>, offset: u64, limit: u32)
    ensures
        offset >= rows.len() ==> spec_paginate(rows, offset, limit).len() == 0,
        offset < rows.len() ==> spec_paginate(rows, offset, limit).len() == vstd::math::min(
            limit as int,
            rows.len() - offset,
        ),
        forall|i: int|
            0 <= i < spec_paginate(rows, offset, limit).len()
                ==> #[trigger] spec_paginate(rows, offset, limit)[i] == rows[offset + i],
{
}

/// Every page a plan selects is ordered by the validated column in the
/// requested direction (ties by insertion identity): pagination cuts a
/// contiguous window out of the sorted rows.
pub proof fn lemma_select_ordered(plan: QueryPlan, refs: Seq<RowRef>)
    ensures
        sorted_by_ref_le(plan.sort, plan.order, spec_select(plan, refs)),
{
    let filtered = spec_filter_bounds(refs, plan.start, plan.end);
    let thinned = match plan.bucket {
        Some(w) => spec_thinned(filtered, w),
        None => filtered,
    };
    lemma_sort_refs_sorts(plan.sort, plan.order, thinned);
    let sorted = sort_refs_spec(plan.sort, plan.order, thinned);
    let page = spec_paginate(sorted, plan.offset, plan.limit);
    assert forall|i: int, j: int|
        0 <= i < j < page.len() implies ref_le(
        plan.sort,
        plan.order,
        #[trigger] page[i],
        #[trigger] page[j],
    ) by {
        assert(page[i] == sorted[plan.offset + i]);
        assert(page[j] == sorted[plan.offset + j]);
    }
}

/// Filtering keeps references within the table.
pub(crate) proof fn lemma_filter_bounds_within(refs: Seq<RowRef>, lo: Option<u64>, hi: Option<u64>, n: int)
    requires
        refs_within(refs, n),
    ensures
        refs_within(spec_filter_bounds(refs, lo, hi), n),
    decreases refs.len(),
{
    if refs.len() > 0 {
        let s = refs.drop_last();
        assert(refs_within(s, n)) by {
            assert(forall|i: int| 0 <= i < s.len() ==> (#[trigger] s[i]) == refs[i]);
        }
        lemma_filter_bounds_within(s, lo, hi, n);
    }
}

/// Thinning keeps references within the table.
pub(crate) proof fn lemma_thinned_within(rows: Seq<RowRef>, w: BucketWidth, n: int)
    requires
        refs_within(rows, n),
    ensures
        refs_within(spec_thinned(rows, w), n),
{
    lemma_thin_rec_props(rows, w, rows.len() as int);
    let out = spec_thinned(rows, w);
    assert forall|j: int| 0 <= j < out.len() implies (#[trigger] out[j]).idx < n by {
        let k = choose|k: int| 0 <= k < rows.len() && rows[k] == out[j];
    }
}

/// Sorting keeps references within the table.
proof fn lemma_sort_within(col: SortColumn, ord: SortOrder, rows: Seq<RowRef>, n: int)
    requires
        refs_within(rows, n),
    ensures
        refs_within(sort_refs_spec(col, ord, rows), n),
{
    lemma_sort_elems(col, ord, rows);
    let out = sort_refs_spec(col, ord, rows);
    assert forall|j: int| 0 <= j < out.len() implies (#[trigger] out[j]).idx < n by {
        assert(rows.contains(out[j]));
        let k = choose|k: int| 0 <= k < rows.len() && rows[k] == out[j];
    }
}

/// A whole plan's selection keeps references within the table.
proof fn lemma_select_within(plan: QueryPlan, refs: Seq<RowRef>, n: int)
    requires
        refs_within(refs, n),
    ensures
        refs_within(spec_select(plan, refs), n),
{
    let filtered = spec_filter_bounds(refs, plan.start, plan.end);
    lemma_filter_bounds_within(refs, plan.start, plan.end, n);
    let thinned = match plan.bucket {
        Some(w) => spec_thinned(filtered, w),
        None => filtered,
    };
    if plan.bucket is Some {
        lemma_thinned_within(filtered, plan.bucket->Some_0, n);
    }
    let sorted = sort_refs_spec(plan.sort, plan.order, thinned);
    lemma_sort_within(plan.sort, plan.order, thinned, n);
    let out = spec_paginate(sorted, plan.offset, plan.limit);
    assert forall|j: int| 0 <= j < out.len() implies (#[trigger] out[j]).idx < n by {
        assert(out[j] == sorted[plan.offset + j]);
    }
}

/// Materialize the selected depth rows, in selection order.
fn take_depth(table: &Table<DepthInterval>, refs: &Vec<RowRef>) -> (out: Vec<DepthInterval>)
    requires
        refs_within(refs@, table.rows@.len() as int),
    ensures
        out@ == items_of(table.rows@, refs@),
{
    let n = refs.len();
    let mut out: Vec<DepthInterval> = Vec::new();
    let mut i: usize = 0;
    while i < n
        invariant
            0 <= i <= n,
            n == refs@.len(),
            refs_within(refs@, table.rows@.len() as int),
            out@ == items_of(table.rows@, refs@.take(i as int)),
        decreases n - i,
    {
        let r = refs[i];
        out.push(table.rows[r.idx].item.clone());
        proof {
            assert(out@ =~= items_of(table.rows@, refs@.take(i + 1)));
        }
        i = i + 1;
    }
    proof {
        assert(refs@.take(n as int) =~= refs@);
    }
    out
}

/// Serve one depth query: validate the parameters, then filter, thin,
/// sort and paginate the stored series.
///
/// `Ok` exactly when both optional time bounds parse as epoch seconds; the
/// result is then the page `spec_select` picks, materialized in order.
/// `Err(MalformedPayload)` otherwise, and on no other input.
pub fn get_depth_history(store: &Store, params: &QueryParams) -> (r: Result<
    Vec<DepthInterval>,
    AppError,
>)
    ensures
        match r {
            Ok(out) => time_bounds_ok(*params) && out@ == items_of(
                store.depth.rows@,
                spec_select(
                    spec_plan(Series::Depth, *params),
                    refs_of(store.depth.rows@),
                ),
            ),
            Err(e) => e == AppError::MalformedPayload && !time_bounds_ok(*params),
        },
{
    let plan = match build_plan(Series::Depth, params) {
        Ok(p) => p,
        Err(e) => {
            return Err(e);
        },
    };
    let refs0 = collect_refs(&store.depth);
    let refs1 = filter_bounds(&refs0, plan.start, plan.end);
    let refs2 = match plan.bucket {
        Some(w) => thin_buckets(&refs1, w),
        None => refs1,
    };
    let refs3 = sort_refs(plan.sort, plan.order, &refs2);
    let refs4 = paginate(&refs3, plan.offset, plan.limit);
    proof {
        let n = store.depth.rows@.len() as int;
        assert(refs_within(refs0@, n));
        lemma_select_within(plan, refs0@, n);
    }
    let out = take_depth(&store.depth, &refs4);
    Ok(out)
}

/// Materialize the selected swaps rows, in selection order.
fn take_swaps(table: &Table<SwapsInterval>, refs: &Vec<RowRef>) -> (out: Vec<SwapsInterval>)
    requires
        refs_within(refs@, table.rows@.len() as int),
    ensures
        out@ == items_of(table.rows@, refs@),
{
    let n = refs.len();
    let mut out: Vec<SwapsInterval> = Vec::new();
    let mut i: usize = 0;
    while i < n
        invariant
            0 <= i <= n,
            n == refs@.len(),
            refs_within(refs@, table.rows@.len() as int),
            out@ == items_of(table.rows@, refs@.take(i as int)),
        decreases n - i,
    {
        let r = refs[i];
        out.push(table.rows[r.idx].item.clone());
        proof {
            assert(out@ =~= items_of(table.rows@, refs@.take(i + 1)));
        }
        i = i + 1;
    }
    proof {
        assert(refs@.take(n as int) =~= refs@);
    }
    out
}

/// Serve one swaps query: validate the parameters, then filter, thin,
/// sort and paginate the stored series.
///
/// `Ok` exactly when both optional time bounds parse as epoch seconds; the
/// result is then the page `spec_select` picks, materialized in order.
/// `Err(MalformedPayload)` otherwise, and on no other input.
pub fn get_swaps_history(store: &Store, params: &QueryParams) -> (r: Result<
    Vec<SwapsInterval>,
    AppError,
>)
    ensures
        match r {
            Ok(out) => time_bounds_ok(*params) && out@ == items_of(
                store.swaps.rows@,
                spec_select(
                    spec_plan(Series::Swaps, *params),
                    refs_of(store.swaps.rows@),
                ),
            ),
            Err(e) => e == AppError::MalformedPayload && !time_bounds_ok(*params),
        },
{
    let plan = match build_plan(Series::Swaps, params) {
        Ok(p) => p,
        Err(e) => {
            return Err(e);
        },
    };
    let refs0 = collect_refs(&store.swaps);
    let refs1 = filter_bounds(&refs0, plan.start, plan.end);
    let refs2 = match plan.bucket {
        Some(w) => thin_buckets(&refs1, w),
        None => refs1,
    };
    let refs3 = sort_refs(plan.sort, plan.order, &refs2);
    let refs4 = paginate(&refs3, plan.offset, plan.limit);
    proof {
        let n = store.swaps.rows@.len() as int;
        assert(refs_within(refs0@, n));
        lemma_select_within(plan, refs0@, n);
    }
    let out = take_swaps(&store.swaps, &refs4);
    Ok(out)
}

/// Materialize the selected RUNE-pool rows, in selection order.
fn take_rune(table: &Table<RunePoolInterval>, refs: &Vec<RowRef>) -> (out: Vec<RunePoolInterval>)
    requires
        refs_within(refs@, table.rows@.len() as int),
    ensures
        out@ == items_of(table.rows@, refs@),
{
    let n = refs.len();
    let mut out: Vec<RunePoolInterval> = Vec::new();
    let mut i: usize = 0;
    while i < n
        invariant
            0 <= i <= n,
            n == refs@.len(),
            refs_within(refs@, table.rows@.len() as int),
            out@ == items_of(table.rows@, refs@.take(i as int)),
        decreases n - i,
    {
        let r = refs[i];
        out.push(table.rows[r.idx].item.clone());
        proof {
            assert(out@ =~= items_of(table.rows@, refs@.take(i + 1)));
        }
        i = i + 1;
    }
    proof {
        assert(refs@.take(n as int) =~= refs@);
    }
    out
}

/// Serve one RUNE-pool query: validate the parameters, then filter, thin,
/// sort and paginate the stored series.
///
/// `Ok` exactly when both optional time bounds parse as epoch seconds; the
/// result is then the page `spec_select` picks, materialized in order.
/// `Err(MalformedPayload)` otherwise, and on no other input.
pub fn get_rune_pool_history(store: &Store, params: &QueryParams) -> (r: Result<
    Vec<RunePoolInterval>,
    AppError,
>)
    ensures
        match r {
            Ok(out) => time_bounds_ok(*params) && out@ == items_of(
                store.rune.rows@,
                spec_select(
                    spec_plan(Series::RunePool, *params),
                    refs_of(store.rune.rows@),
                ),
            ),
            Err(e) => e == AppError::MalformedPayload && !time_bounds_ok(*params),
        },
{
    let plan = match build_plan(Series::RunePool, params) {
        Ok(p) => p,
        Err(e) => {
            return Err(e);
        },
    };
    let refs0 = collect_refs(&store.rune);
    let refs1 = filter_bounds(&refs0, plan.start, plan.end);
    let refs2 = match plan.bucket {
        Some(w) => thin_buckets(&refs1, w),
        None => refs1,
    };
    let refs3 = sort_refs(plan.sort, plan.order, &refs2);
    let refs4 = paginate(&refs3, plan.offset, plan.limit);
    proof {
        let n = store.rune.rows@.len() as int;
        assert(refs_within(refs0@, n));
        lemma_select_within(plan, refs0@, n);
    }
    let out = take_rune(&store.rune, &refs4);
    Ok(out)
}

} // verus!
