//! Earnings query engine: left join, filter, sort, paginate, assemble.
//!
//! The earnings series is nested: each parent interval owns an ordered list
//! of pool children. A query walks the parent rows (filtered and thinned
//! like any flat series), left-joins them with their pool rows — a parent
//! with no children still appears once, with an absent child — then
//! filters by exact pool name, sorts the joined rows, cuts the requested
//! page, and reassembles nested intervals from the flat row stream.

use vstd::prelude::*;

use crate::bucket::BucketWidth;
use crate::engine::{
    collect_refs, filter_bounds, lemma_filter_bounds_within, lemma_thinned_within, paginate,
    refs_of, refs_within, spec_filter_bounds, spec_paginate, spec_thinned, thin_buckets, RowRef,
};
use crate::error::AppError;
use crate::model::{EarningInterval, Pool, QueryParams};
use crate::plan::{build_plan, spec_plan, str_eq, time_bounds_ok, QueryPlan, Series, SortColumn,
    SortOrder};
use crate::store::{Keyed, PoolRow, Store};

verus! {

/// A reference into the earnings join: the parent row's position, and the
/// position of one of its pool rows — absent when the parent has none.
#[derive(Clone, Copy, Debug)]
pub struct JoinRef {
    pub parent: usize,
    pub pool_row: Option<usize>,
    pub end_key: u64,
    pub start_key: u64,
}

/// Every reference stays inside the parent table and the pool table.
pub open spec fn jrefs_within(refs: Seq<JoinRef>, parents: int, pools: int) -> bool {
    forall|i: int|
        0 <= i < refs.len() ==> (#[trigger] refs[i]).parent < parents && (refs[i].pool_row is Some
            ==> refs[i].pool_row->Some_0 < pools)
}

/// The positions of the first `j` pool rows owned by parent `parent`, in
/// insertion order.
pub open spec fn pool_idxs(pools: Seq<PoolRow>, parent: usize, j: int) -> Seq<int>
    decreases j,
{
    if j <= 0 {
        Seq::empty()
    } else {
        let rest = pool_idxs(pools, parent, j - 1);
        if pools[j - 1].interval_id == parent {
            rest.push(j - 1)
        } else {
            rest
        }
    }
}

/// The joined rows one parent contributes: one per owned pool row, or a
/// single row with an absent child when it owns none.
pub open spec fn join_of_parent(pools: Seq<PoolRow>, pr: RowRef) -> Seq<JoinRef> {
    let idxs = pool_idxs(pools, pr.idx, pools.len() as int);
    if idxs.len() == 0 {
        seq![JoinRef { parent: pr.idx, pool_row: None, end_key: pr.end_key, start_key: pr.start_key }]
    } else {
        idxs.map_values(
            |j: int| JoinRef {
                parent: pr.idx,
                pool_row: Some(j as usize),
                end_key: pr.end_key,
                start_key: pr.start_key,
            },
        )
    }
}

/// The whole left join, parents in order, each parent's pools in order.
pub open spec fn spec_join(pools: Seq<PoolRow>, parents: Seq<RowRef>) -> Seq<JoinRef>
    decreases parents.len(),
{
    if parents.len() == 0 {
        Seq::empty()
    } else {
        spec_join(pools, parents.drop_last()) + join_of_parent(pools, parents.last())
    }
}

/// Pool positions returned by `pool_idxs` stay inside the pool table.
proof fn lemma_pool_idxs_within(pools: Seq<PoolRow>, parent: usize, j: int)
    requires
        j <= pools.len(),
    ensures
        forall|k: int|
            0 <= k < pool_idxs(pools, parent, j).len() ==> 0 <= #[trigger] pool_idxs(
                pools,
                parent,
                j,
            )[k] < j,
    decreases j,
{
    if j > 0 {
        lemma_pool_idxs_within(pools, parent, j - 1);
        let rest = pool_idxs(pools, parent, j - 1);
        let out = pool_idxs(pools, parent, j);
        assert forall|k: int| 0 <= k < out.len() implies 0 <= #[trigger] out[k] < j by {
            if k < rest.len() {
                assert(out[k] == rest[k]);
            }
        }
    }
}

/// The join stays inside both tables.
proof fn lemma_join_within(pools: Seq<PoolRow>, parents: Seq<RowRef>, n: int)
    requires
        refs_within(parents, n),
    ensures
        jrefs_within(spec_join(pools, parents), n, pools.len() as int),
    decreases parents.len(),
{
    if parents.len() > 0 {
        let s = parents.drop_last();
        assert(refs_within(s, n)) by {
            assert(forall|i: int| 0 <= i < s.len() ==> (#[trigger] s[i]) == parents[i]);
        }
        lemma_join_within(pools, s, n);
        lemma_pool_idxs_within(pools, parents.last().idx, pools.len() as int);
        let out = spec_join(pools, parents);
        let part = join_of_parent(pools, parents.last());
        assert(parents.contains(parents.last()));
        assert forall|i: int|
            0 <= i < out.len() implies (#[trigger] out[i]).parent < n && (out[i].pool_row is Some
                ==> out[i].pool_row->Some_0 < pools.len()) by {
            if i < out.len() - part.len() {
                assert(out[i] == spec_join(pools, s)[i]);
            } else {
                assert(out[i] == part[i - (out.len() - part.len())]);
            }
        }
    }
}

/// Build the left join of the selected parents with their pool rows.
#[verifier::rlimit(50)]
fn join_parents(pools: &Vec<PoolRow>, parents: &Vec<RowRef>) -> (out: Vec<JoinRef>)
    ensures
        out@ == spec_join(pools@, parents@),
{
    let np = parents.len();
    let m = pools.len();
    let mut out: Vec<JoinRef> = Vec::new();
    let mut i: usize = 0;
    while i < np
        invariant
            0 <= i <= np,
            np == parents@.len(),
            m == pools@.len(),
            out@ == spec_join(pools@, parents@.take(i as int)),
        decreases np - i,
    {
        let pr = parents[i];
        let mut found = false;
        let mut j: usize = 0;
        while j < m
            invariant
                0 <= j <= m,
                m == pools@.len(),
                found == (pool_idxs(pools@, pr.idx, j as int).len() > 0),
                out@ == spec_join(pools@, parents@.take(i as int)) + pool_idxs(
                    pools@,
                    pr.idx,
                    j as int,
                ).map_values(
                    |q: int| JoinRef {
                        parent: pr.idx,
                        pool_row: Some(q as usize),
                        end_key: pr.end_key,
                        start_key: pr.start_key,
                    },
                ),
            decreases m - j,
        {
            if pools[j].interval_id == pr.idx {
                out.push(
                    JoinRef {
                        parent: pr.idx,
                        pool_row: Some(j),
                        end_key: pr.end_key,
                        start_key: pr.start_key,
                    },
                );
                found = true;
                proof {
                    assert(out@ =~= spec_join(pools@, parents@.take(i as int)) + pool_idxs(
                        pools@,
                        pr.idx,
                        j + 1,
                    ).map_values(
                        |q: int| JoinRef {
                            parent: pr.idx,
                            pool_row: Some(q as usize),
                            end_key: pr.end_key,
                            start_key: pr.start_key,
                        },
                    ));
                }
            }
            j = j + 1;
        }
        if !found {
            out.push(
                JoinRef { parent: pr.idx, pool_row: None, end_key: pr.end_key, start_key: pr.start_key },
            );
        }
        proof {
            assert(parents@.take(i + 1).drop_last() =~= parents@.take(i as int));
            assert(parents@.take(i + 1).last() == parents@[i as int]);
            assert(out@ =~= spec_join(pools@, parents@.take(i + 1)));
        }
        i = i + 1;
    }
    proof {
        assert(parents@.take(np as int) =~= parents@);
    }
    out
}

/// Whether a joined row passes the exact pool-name filter: with no filter
/// every row passes; with one, only rows whose child exists and whose pool
/// name matches exactly.
pub open spec fn pool_matches(pools: Seq<PoolRow>, filt: Option<String>, jr: JoinRef) -> bool {
    match filt {
        None => true,
        Some(name) => jr.pool_row matches Some(j) && 0 <= j < pools.len()
            && (pools[j as int].item.pool matches Some(p) && p@ == name@),
    }
}

/// The joined rows that pass the pool filter, in order.
pub open spec fn spec_pool_filter(
    pools: Seq<PoolRow>,
    filt: Option<String>,
    refs: Seq<JoinRef>,
) -> Seq<JoinRef>
    decreases refs.len(),
{
    if refs.len() == 0 {
        Seq::empty()
    } else {
        let rest = spec_pool_filter(pools, filt, refs.drop_last());
        if pool_matches(pools, filt, refs.last()) {
            rest.push(refs.last())
        } else {
            rest
        }
    }
}

/// Keep the joined rows whose pool name matches the filter exactly.
fn filter_pool(pools: &Vec<PoolRow>, filt: &Option<String>, refs: &Vec<JoinRef>) -> (out: Vec<
    JoinRef,
>)
    requires
        jrefs_within(refs@, usize::MAX as int, pools@.len() as int),
    ensures
        out@ == spec_pool_filter(pools@, *filt, refs@),
{
    let n = refs.len();
    let mut out: Vec<JoinRef> = Vec::new();
    let mut i: usize = 0;
    while i < n
        invariant
            0 <= i <= n,
            n == refs@.len(),
            jrefs_within(refs@, usize::MAX as int, pools@.len() as int),
            out@ == spec_pool_filter(pools@, *filt, refs@.take(i as int)),
        decreases n - i,
    {
        let jr = refs[i];
        let keep = match filt {
            None => true,
            Some(name) => match jr.pool_row {
                Some(j) => match &pools[j].item.pool {
                    Some(p) => str_eq(p.as_str(), name.as_str()),
                    None => false,
                },
                None => false,
            },
        };
        proof {
            assert(refs@.take(i + 1).drop_last() =~= refs@.take(i as int));
            assert(refs@.take(i + 1).last() == refs@[i as int]);
        }
        if keep {
            out.push(jr);
        }
        i = i + 1;
    }
    proof {
        assert(refs@.take(n as int) =~= refs@);
    }
    out
}

/// The pool filter keeps references inside both tables.
proof fn lemma_pool_filter_within(
    pools: Seq<PoolRow>,
    filt: Option<String>,
    refs: Seq<JoinRef>,
    n: int,
)
    requires
        jrefs_within(refs, n, pools.len() as int),
    ensures
        jrefs_within(spec_pool_filter(pools, filt, refs), n, pools.len() as int),
    decreases refs.len(),
{
    if refs.len() > 0 {
        let s = refs.drop_last();
        assert(jrefs_within(s, n, pools.len() as int)) by {
            assert(forall|i: int| 0 <= i < s.len() ==> (#[trigger] s[i]) == refs[i]);
        }
        lemma_pool_filter_within(pools, filt, s, n);
    }
}

// ---------------------------------------------------------------------------
// Sorting joined rows
// ---------------------------------------------------------------------------

/// Strict lexicographic order on text, by character code, a proper prefix
/// ordering before anything it prefixes. This is how the two text sort
/// columns of the earnings series compare, matching plain text comparison
/// of the stored decimal strings.
pub open spec fn lex_lt(a: Seq<char>, b: Seq<char>) -> bool
    decreases a.len(),
{
    if b.len() == 0 {
        false
    } else if a.len() == 0 {
        true
    } else if (a[0] as u32) < (b[0] as u32) {
        true
    } else if (a[0] as u32) > (b[0] as u32) {
        false
    } else {
        lex_lt(a.drop_first(), b.drop_first())
    }
}

/// Whether `a` orders strictly before `b` lexicographically.
fn str_lt(a: &str, b: &str) -> (r: bool)
    ensures
        r == lex_lt(a@, b@),
{
    let na = a.unicode_len();
    let nb = b.unicode_len();
    let mut i: usize = 0;
    proof {
        assert(a@.skip(0) =~= a@);
        assert(b@.skip(0) =~= b@);
    }
    while i < na && i < nb
        invariant
            0 <= i <= na,
            i <= nb,
            na == a@.len(),
            nb == b@.len(),
            lex_lt(a@, b@) == lex_lt(a@.skip(i as int), b@.skip(i as int)),
        decreases na - i,
    {
        let ca = a.get_char(i);
        let cb = b.get_char(i);
        proof {
            assert(a@.skip(i as int).drop_first() =~= a@.skip(i + 1));
            assert(b@.skip(i as int).drop_first() =~= b@.skip(i + 1));
            assert(a@.skip(i as int)[0] == a@[i as int]);
            assert(b@.skip(i as int)[0] == b@[i as int]);
        }
        if (ca as u32) < (cb as u32) {
            return true;
        }
        if (ca as u32) > (cb as u32) {
            return false;
        }
        i = i + 1;
    }
    proof {
        assert(a@.skip(i as int).len() == na - i);
        assert(b@.skip(i as int).len() == nb - i);
    }
    na < nb
}

/// Tie-break order on join identities: parent position first, then the
/// pool row's position, an absent child before any present one.
pub open spec fn jid_le(a: JoinRef, b: JoinRef) -> bool {
    if a.parent != b.parent {
        a.parent < b.parent
    } else {
        match (a.pool_row, b.pool_row) {
            (Option::None, _) => true,
            (Option::Some(_), Option::None) => false,
            (Option::Some(x), Option::Some(y)) => x <= y,
        }
    }
}

/// The numeric sort key of a joined row.
pub open spec fn jkey_num(col: SortColumn, jr: JoinRef) -> u64 {
    match col {
        SortColumn::StartTime => jr.start_key,
        _ => jr.end_key,
    }
}

/// The text sort key of a joined row: a parent column of the earnings row.
pub open spec fn jtext(earn: Seq<Keyed<EarningInterval>>, col: SortColumn, jr: JoinRef) -> Seq<
    char,
> {
    if col == SortColumn::Earnings {
        earn[jr.parent as int].item.earnings@
    } else {
        earn[jr.parent as int].item.rune_price_usd@
    }
}

/// Total order of the earnings sort: the validated column in the requested
/// direction — numeric for the time columns, lexicographic for the text
/// columns — with ties broken by join identity, so the sorted sequence is
/// fully determined.
pub open spec fn jref_le(
    earn: Seq<Keyed<EarningInterval>>,
    col: SortColumn,
    ord: SortOrder,
    a: JoinRef,
    b: JoinRef,
) -> bool {
    match col {
        SortColumn::StartTime | SortColumn::EndTime => {
            let ka = jkey_num(col, a);
            let kb = jkey_num(col, b);
            if ka != kb {
                if ord == SortOrder::Asc {
                    ka < kb
                } else {
                    ka > kb
                }
            } else {
                jid_le(a, b)
            }
        },
        _ => {
            let ta = jtext(earn, col, a);
            let tb = jtext(earn, col, b);
            if ta != tb {
                if ord == SortOrder::Asc {
                    lex_lt(ta, tb)
                } else {
                    lex_lt(tb, ta)
                }
            } else {
                jid_le(a, b)
            }
        },
    }
}

/// `r` inserted before the first joined row it sorts at or before.
pub open spec fn jinsert_sorted(
    earn: Seq<Keyed<EarningInterval>>,
    col: SortColumn,
    ord: SortOrder,
    sorted: Seq<JoinRef>,
    r: JoinRef,
) -> Seq<JoinRef>
    decreases sorted.len(),
{
    if sorted.len() == 0 {
        seq![r]
    } else if jref_le(earn, col, ord, r, sorted[0]) {
        seq![r] + sorted
    } else {
        seq![sorted[0]] + jinsert_sorted(earn, col, ord, sorted.drop_first(), r)
    }
}

/// Insertion sort of the joined rows under `jref_le`.
pub open spec fn sort_jrefs_spec(
    earn: Seq<Keyed<EarningInterval>>,
    col: SortColumn,
    ord: SortOrder,
    rows: Seq<JoinRef>,
) -> Seq<JoinRef>
    decreases rows.len(),
{
    if rows.len() == 0 {
        Seq::empty()
    } else {
        jinsert_sorted(earn, col, ord, sort_jrefs_spec(earn, col, ord, rows.drop_last()), rows.last())
    }
}

/// Inserting at the first position whose element `r` sorts at or before is
/// exactly `jinsert_sorted`.
proof fn lemma_jinsert_sorted_at(
    earn: Seq<Keyed<EarningInterval>>,
    col: SortColumn,
    ord: SortOrder,
    sorted: Seq<JoinRef>,
    r: JoinRef,
    p: int,
)
    requires
        0 <= p <= sorted.len(),
        forall|q: int| 0 <= q < p ==> !jref_le(earn, col, ord, r, #[trigger] sorted[q]),
        p < sorted.len() ==> jref_le(earn, col, ord, r, sorted[p]),
    ensures
        jinsert_sorted(earn, col, ord, sorted, r) == sorted.insert(p, r),
    decreases sorted.len(),
{
    if sorted.len() == 0 {
        assert(jinsert_sorted(earn, col, ord, sorted, r) =~= sorted.insert(0, r));
    } else if jref_le(earn, col, ord, r, sorted[0]) {
        assert(p == 0);
        assert(seq![r] + sorted =~= sorted.insert(0, r));
    } else {
        assert(p > 0);
        let s1 = sorted.drop_first();
        assert forall|q: int| 0 <= q < p - 1 implies !jref_le(earn, col, ord, r, #[trigger] s1[q])
        by {
            assert(s1[q] == sorted[q + 1]);
        }
        lemma_jinsert_sorted_at(earn, col, ord, s1, r, p - 1);
        assert(seq![sorted[0]] + s1.insert(p - 1, r) =~= sorted.insert(p, r));
    }
}

/// Every element of an insertion is the inserted row or one of the input.
proof fn lemma_jinsert_elems(
    earn: Seq<Keyed<EarningInterval>>,
    col: SortColumn,
    ord: SortOrder,
    sorted: Seq<JoinRef>,
    r: JoinRef,
)
    ensures
        jinsert_sorted(earn, col, ord, sorted, r).len() == sorted.len() + 1,
        forall|j: int|
            0 <= j < sorted.len() + 1 ==> (#[trigger] jinsert_sorted(earn, col, ord, sorted, r)[j])
                == r || sorted.contains(jinsert_sorted(earn, col, ord, sorted, r)[j]),
    decreases sorted.len(),
{
    let out = jinsert_sorted(earn, col, ord, sorted, r);
    if sorted.len() == 0 {
    } else if jref_le(earn, col, ord, r, sorted[0]) {
        assert forall|j: int|
            0 <= j < sorted.len() + 1 implies (#[trigger] out[j]) == r || sorted.contains(
            out[j],
        ) by {
            if j > 0 {
                assert(out[j] == sorted[j - 1]);
            }
        }
    } else {
        let s1 = sorted.drop_first();
        lemma_jinsert_elems(earn, col, ord, s1, r);
        let rec = jinsert_sorted(earn, col, ord, s1, r);
        assert forall|j: int|
            0 <= j < sorted.len() + 1 implies (#[trigger] out[j]) == r || sorted.contains(
            out[j],
        ) by {
            if j == 0 {
                assert(out[0] == sorted[0]);
            } else {
                assert(out[j] == rec[j - 1]);
                if rec[j - 1] != r {
                    let k = choose|k: int| 0 <= k < s1.len() && s1[k] == rec[j - 1];
                    assert(sorted[k + 1] == rec[j - 1]);
                }
            }
        }
    }
}

/// Sorting joined rows keeps them within both tables.
proof fn lemma_jsort_within(
    earn: Seq<Keyed<EarningInterval>>,
    col: SortColumn,
    ord: SortOrder,
    rows: Seq<JoinRef>,
    n: int,
    m: int,
)
    requires
        jrefs_within(rows, n, m),
    ensures
        sort_jrefs_spec(earn, col, ord, rows).len() == rows.len(),
        jrefs_within(sort_jrefs_spec(earn, col, ord, rows), n, m),
    decreases rows.len(),
{
    if rows.len() > 0 {
        let s = rows.drop_last();
        assert(jrefs_within(s, n, m)) by {
            assert(forall|i: int| 0 <= i < s.len() ==> (#[trigger] s[i]) == rows[i]);
        }
        lemma_jsort_within(earn, col, ord, s, n, m);
        let rec = sort_jrefs_spec(earn, col, ord, s);
        lemma_jinsert_elems(earn, col, ord, rec, rows.last());
        let out = sort_jrefs_spec(earn, col, ord, rows);
        assert(rows.contains(rows.last()));
        assert forall|j: int|
            0 <= j < out.len() implies (#[trigger] out[j]).parent < n && (out[j].pool_row is Some
                ==> out[j].pool_row->Some_0 < m) by {
            if out[j] != rows.last() {
                assert(rec.contains(out[j]));
                let k = choose|k: int| 0 <= k < rec.len() && rec[k] == out[j];
            }
        }
    }
}

/// Whether joined row `a` sorts at or before `b`.
fn jref_le_exec(
    earn: &Vec<Keyed<EarningInterval>>,
    col: SortColumn,
    ord: SortOrder,
    a: JoinRef,
    b: JoinRef,
) -> (r: bool)
    requires
        a.parent < earn@.len(),
        b.parent < earn@.len(),
    ensures
        r == jref_le(earn@, col, ord, a, b),
{
    let tie = if a.parent != b.parent {
        a.parent < b.parent
    } else {
        match (a.pool_row, b.pool_row) {
            (None, _) => true,
            (Some(_), None) => false,
            (Some(x), Some(y)) => x <= y,
        }
    };
    match col {
        SortColumn::StartTime | SortColumn::EndTime => {
            let ka = if matches!(col, SortColumn::StartTime) {
                a.start_key
            } else {
                a.end_key
            };
            let kb = if matches!(col, SortColumn::StartTime) {
                b.start_key
            } else {
                b.end_key
            };
            if ka != kb {
                match ord {
                    SortOrder::Asc => ka < kb,
                    SortOrder::Desc => ka > kb,
                }
            } else {
                tie
            }
        },
        _ => {
            let ta = if matches!(col, SortColumn::Earnings) {
                &earn[a.parent].item.earnings
            } else {
                &earn[a.parent].item.rune_price_usd
            };
            let tb = if matches!(col, SortColumn::Earnings) {
                &earn[b.parent].item.earnings
            } else {
                &earn[b.parent].item.rune_price_usd
            };
            if !str_eq(ta.as_str(), tb.as_str()) {
                match ord {
                    SortOrder::Asc => str_lt(ta.as_str(), tb.as_str()),
                    SortOrder::Desc => str_lt(tb.as_str(), ta.as_str()),
                }
            } else {
                tie
            }
        },
    }
}

/// First position of `out` whose element `r` sorts at or before.
fn jinsert_pos(
    earn: &Vec<Keyed<EarningInterval>>,
    col: SortColumn,
    ord: SortOrder,
    out: &Vec<JoinRef>,
    r: JoinRef,
) -> (p: usize)
    requires
        r.parent < earn@.len(),
        jrefs_within(out@, earn@.len() as int, usize::MAX as int),
    ensures
        0 <= p <= out@.len(),
        forall|q: int| 0 <= q < p ==> !jref_le(earn@, col, ord, r, #[trigger] out@[q]),
        p < out@.len() ==> jref_le(earn@, col, ord, r, out@[p as int]),
{
    let n = out.len();
    let mut p: usize = 0;
    while p < n
        invariant
            0 <= p <= n,
            n == out@.len(),
            r.parent < earn@.len(),
            jrefs_within(out@, earn@.len() as int, usize::MAX as int),
            forall|q: int| 0 <= q < p ==> !jref_le(earn@, col, ord, r, #[trigger] out@[q]),
        decreases n - p,
    {
        if jref_le_exec(earn, col, ord, r, out[p]) {
            return p;
        }
        p = p + 1;
    }
    p
}

/// Sort the joined rows by the validated column and direction.
fn sort_jrefs(
    earn: &Vec<Keyed<EarningInterval>>,
    col: SortColumn,
    ord: SortOrder,
    rows: &Vec<JoinRef>,
) -> (out: Vec<JoinRef>)
    requires
        jrefs_within(rows@, earn@.len() as int, usize::MAX as int),
    ensures
        out@ == sort_jrefs_spec(earn@, col, ord, rows@),
{
    let n = rows.len();
    let mut out: Vec<JoinRef> = Vec::new();
    let mut i: usize = 0;
    while i < n
        invariant
            0 <= i <= n,
            n == rows@.len(),
            jrefs_within(rows@, earn@.len() as int, usize::MAX as int),
            jrefs_within(out@, earn@.len() as int, usize::MAX as int),
            out@ == sort_jrefs_spec(earn@, col, ord, rows@.take(i as int)),
        decreases n - i,
    {
        let r = rows[i];
        let p = jinsert_pos(earn, col, ord, &out, r);
        proof {
            lemma_jinsert_sorted_at(earn@, col, ord, out@, r, p as int);
            assert(rows@.take(i + 1).drop_last() =~= rows@.take(i as int));
            assert(rows@.take(i + 1).last() == rows@[i as int]);
        }
        let ghost before_ins = out@;
        out.insert(p, r);
        proof {
            assert forall|q: int|
                0 <= q < out@.len() implies (#[trigger] out@[q]).parent < earn@.len() && (
            out@[q].pool_row is Some ==> out@[q].pool_row->Some_0 < usize::MAX as int) by {
                if q < p {
                    assert(out@[q] == before_ins[q]);
                } else if q > p {
                    assert(out@[q] == before_ins[q - 1]);
                }
            }
        }
        i = i + 1;
    }
    proof {
        assert(rows@.take(n as int) =~= rows@);
    }
    out
}

// ---------------------------------------------------------------------------
// Materializing joined rows
// ---------------------------------------------------------------------------

/// One flat row of the earnings join: the parent columns plus the joined
/// pool child, absent when the parent owns none (or the left join found no
/// match).
#[derive(Debug, PartialEq, Eq)]
pub struct EarningJoinRow {
    pub avg_node_count: String,
    pub block_rewards: String,
    pub bonding_earnings: String,
    pub earnings: String,
    pub end_time: String,
    pub liquidity_earnings: String,
    pub liquidity_fees: String,
    pub rune_price_usd: String,
    pub start_time: String,
    pub pool: Option<Pool>,
}

/// The flat row a join reference stands for.
pub open spec fn join_row_of(
    earn: Seq<Keyed<EarningInterval>>,
    pools: Seq<PoolRow>,
    jr: JoinRef,
) -> EarningJoinRow {
    EarningJoinRow {
        avg_node_count: earn[jr.parent as int].item.avg_node_count,
        block_rewards: earn[jr.parent as int].item.block_rewards,
        bonding_earnings: earn[jr.parent as int].item.bonding_earnings,
        earnings: earn[jr.parent as int].item.earnings,
        end_time: earn[jr.parent as int].item.end_time,
        liquidity_earnings: earn[jr.parent as int].item.liquidity_earnings,
        liquidity_fees: earn[jr.parent as int].item.liquidity_fees,
        rune_price_usd: earn[jr.parent as int].item.rune_price_usd,
        start_time: earn[jr.parent as int].item.start_time,
        pool: match jr.pool_row {
            Some(j) => Some(pools[j as int].item),
            None => None,
        },
    }
}

/// Materialize the selected page of the join, in order.
fn take_join_rows(
    earn: &Vec<Keyed<EarningInterval>>,
    pools: &Vec<PoolRow>,
    refs: &Vec<JoinRef>,
) -> (out: Vec<EarningJoinRow>)
    requires
        jrefs_within(refs@, earn@.len() as int, pools@.len() as int),
    ensures
        out@ == refs@.map_values(|jr: JoinRef| join_row_of(earn@, pools@, jr)),
{
    let n = refs.len();
    let mut out: Vec<EarningJoinRow> = Vec::new();
    let mut i: usize = 0;
    while i < n
        invariant
            0 <= i <= n,
            n == refs@.len(),
            jrefs_within(refs@, earn@.len() as int, pools@.len() as int),
            out@.len() == i,
            forall|k: int|
                0 <= k < i ==> out@[k] == join_row_of(earn@, pools@, #[trigger] refs@[k]),
        decreases n - i,
    {
        let jr = refs[i];
        let parent = &earn[jr.parent].item;
        let pool = match jr.pool_row {
            Some(j) => Some(pools[j].item.clone()),
            None => None,
        };
        out.push(
            EarningJoinRow {
                avg_node_count: parent.avg_node_count.clone(),
                block_rewards: parent.block_rewards.clone(),
                bonding_earnings: parent.bonding_earnings.clone(),
                earnings: parent.earnings.clone(),
                end_time: parent.end_time.clone(),
                liquidity_earnings: parent.liquidity_earnings.clone(),
                liquidity_fees: parent.liquidity_fees.clone(),
                rune_price_usd: parent.rune_price_usd.clone(),
                start_time: parent.start_time.clone(),
                pool,
            },
        );
        i = i + 1;
    }
    proof {
        assert(out@ =~= refs@.map_values(|jr: JoinRef| join_row_of(earn@, pools@, jr)));
    }
    out
}

// ---------------------------------------------------------------------------
// The result assembler
// ---------------------------------------------------------------------------

/// Some row of `rows` carries this `start_time`.
pub open spec fn has_start(rows: Seq<EarningJoinRow>, st: Seq<char>) -> bool {
    exists|i: int| 0 <= i < rows.len() && (#[trigger] rows[i]).start_time@ == st
}

/// The distinct `start_time`s of `rows`, in first-occurrence order.
pub open spec fn row_starts(rows: Seq<EarningJoinRow>) -> Seq<Seq<char>>
    decreases rows.len(),
{
    if rows.len() == 0 {
        Seq::empty()
    } else {
        let rest = row_starts(rows.drop_last());
        if rest.contains(rows.last().start_time@) {
            rest
        } else {
            rest.push(rows.last().start_time@)
        }
    }
}

/// Index of the first row carrying `st` (the row count when none does).
pub open spec fn first_idx(rows: Seq<EarningJoinRow>, st: Seq<char>) -> int
    decreases rows.len(),
{
    if rows.len() == 0 {
        0
    } else if has_start(rows.drop_last(), st) {
        first_idx(rows.drop_last(), st)
    } else if rows.last().start_time@ == st {
        rows.len() - 1
    } else {
        rows.len() as int
    }
}

/// The pool entries the rows carrying `st` contribute, in row order; a row
/// whose child columns are absent contributes none.
pub open spec fn pools_for(rows: Seq<EarningJoinRow>, st: Seq<char>) -> Seq<Pool>
    decreases rows.len(),
{
    if rows.len() == 0 {
        Seq::empty()
    } else {
        let rest = pools_for(rows.drop_last(), st);
        if rows.last().start_time@ == st {
            match rows.last().pool {
                Some(p) => rest.push(p),
                None => rest,
            }
        } else {
            rest
        }
    }
}

/// The interval's parent columns equal the row's parent columns.
pub open spec fn parent_matches(e: EarningInterval, r: EarningJoinRow) -> bool {
    &&& e.avg_node_count == r.avg_node_count
    &&& e.block_rewards == r.block_rewards
    &&& e.bonding_earnings == r.bonding_earnings
    &&& e.earnings == r.earnings
    &&& e.end_time == r.end_time
    &&& e.liquidity_earnings == r.liquidity_earnings
    &&& e.liquidity_fees == r.liquidity_fees
    &&& e.rune_price_usd == r.rune_price_usd
    &&& e.start_time == r.start_time
}

/// Everything the assembly guarantees of the interval at index `i`: its
/// `start_time` is the `i`-th distinct one, its parent columns come from
/// the first row carrying it, and its pool list is exactly the present
/// children of its rows, in row order.
pub open spec fn assembled_at(out: Seq<EarningInterval>, rows: Seq<EarningJoinRow>, i: int) -> bool {
    &&& out[i].start_time@ == row_starts(rows)[i]
    &&& 0 <= first_idx(rows, row_starts(rows)[i]) < rows.len()
    &&& parent_matches(out[i], rows[first_idx(rows, row_starts(rows)[i])])
    &&& out[i].pools@ == pools_for(rows, row_starts(rows)[i])
}

/// What it means for `out` to be the assembly of the joined rows: exactly
/// one interval per distinct `start_time`, in first-occurrence order, its
/// parent columns taken from the first row observed, its pool list the
/// present children of its rows, appended in row order.
pub open spec fn is_assembly_of(out: Seq<EarningInterval>, rows: Seq<EarningJoinRow>) -> bool {
    &&& out.len() == row_starts(rows).len()
    &&& forall|i: int| 0 <= i < out.len() ==> #[trigger] assembled_at(out, rows, i)
}

/// A `start_time` is listed exactly when some row carries it.
proof fn lemma_row_starts_has(rows: Seq<EarningJoinRow>, st: Seq<char>)
    ensures
        row_starts(rows).contains(st) <==> has_start(rows, st),
    decreases rows.len(),
{
    if rows.len() > 0 {
        let s = rows.drop_last();
        lemma_row_starts_has(s, st);
        let rest = row_starts(s);
        let out = row_starts(rows);
        if has_start(rows, st) {
            let i = choose|i: int| 0 <= i < rows.len() && (#[trigger] rows[i]).start_time@ == st;
            if i < rows.len() - 1 {
                assert(s[i] == rows[i]);
                assert(has_start(s, st));
                let k = choose|k: int| 0 <= k < rest.len() && rest[k] == st;
                assert(out[k] == st);
            } else {
                if !rest.contains(st) {
                    assert(out[out.len() - 1] == st);
                }
            }
        }
        if out.contains(st) {
            let k = choose|k: int| 0 <= k < out.len() && out[k] == st;
            if k < rest.len() {
                assert(rest[k] == st);
                let i = choose|i: int| 0 <= i < s.len() && (#[trigger] s[i]).start_time@ == st;
                assert(rows[i].start_time@ == st);
            } else {
                assert(rows[rows.len() - 1].start_time@ == st);
            }
        }
    }
}

/// No `start_time` is listed twice.
proof fn lemma_row_starts_distinct(rows: Seq<EarningJoinRow>)
    ensures
        forall|i: int, j: int|
            0 <= i < j < row_starts(rows).len() ==> #[trigger] row_starts(rows)[i]
                != #[trigger] row_starts(rows)[j],
    decreases rows.len(),
{
    if rows.len() > 0 {
        let s = rows.drop_last();
        lemma_row_starts_distinct(s);
        let rest = row_starts(s);
        let out = row_starts(rows);
        assert forall|i: int, j: int|
            0 <= i < j < out.len() implies #[trigger] out[i] != #[trigger] out[j] by {
            if j == out.len() - 1 && out.len() > rest.len() {
                if out[i] == out[j] {
                    assert(rest[i] == rows.last().start_time@);
                    assert(rest.contains(rows.last().start_time@));
                }
            } else {
                assert(out[i] == rest[i] && out[j] == rest[j]);
            }
        }
    }
}

/// Rows that never carry `st` contribute no pools for it.
proof fn lemma_pools_for_absent(rows: Seq<EarningJoinRow>, st: Seq<char>)
    requires
        !has_start(rows, st),
    ensures
        pools_for(rows, st) == Seq::<Pool>::empty(),
    decreases rows.len(),
{
    if rows.len() > 0 {
        let s = rows.drop_last();
        assert(!has_start(s, st)) by {
            if has_start(s, st) {
                let i = choose|i: int| 0 <= i < s.len() && (#[trigger] s[i]).start_time@ == st;
                assert(rows[i].start_time@ == st);
            }
        }
        assert(rows.last().start_time@ != st) by {
            if rows.last().start_time@ == st {
                assert(rows[rows.len() - 1].start_time@ == st);
            }
        }
        lemma_pools_for_absent(s, st);
    }
}

/// First interval index carrying this `start_time`, if any.
fn find_start(out: &Vec<EarningInterval>, st: &String) -> (r: Option<usize>)
    ensures
        match r {
            Some(j) => j < out@.len() && out@[j as int].start_time@ == st@,
            None => forall|q: int| 0 <= q < out@.len() ==> (#[trigger] out@[q]).start_time@ != st@,
        },
{
    let m = out.len();
    let mut j: usize = 0;
    while j < m
        invariant
            0 <= j <= m,
            m == out@.len(),
            forall|q: int| 0 <= q < j ==> (#[trigger] out@[q]).start_time@ != st@,
        decreases m - j,
    {
        if str_eq(out[j].start_time.as_str(), st.as_str()) {
            return Some(j);
        }
        j = j + 1;
    }
    None
}

/// Reconstruct nested earnings intervals from the ordered joined rows.
///
/// Rows are grouped by `start_time`: the first row observed for a value
/// seeds a new interval from its parent columns, and every row (the
/// seeding one included) appends one pool entry when its child columns are
/// present. Exactly one interval per distinct `start_time` results, in
/// first-occurrence order, pools in row order.
#[verifier::rlimit(100)]
pub fn assemble_earnings(rows: &Vec<EarningJoinRow>) -> (out: Vec<EarningInterval>)
    ensures
        is_assembly_of(out@, rows@),
{
    let n = rows.len();
    let mut out: Vec<EarningInterval> = Vec::new();
    let mut i: usize = 0;
    while i < n
        invariant
            0 <= i <= n,
            n == rows@.len(),
            is_assembly_of(out@, rows@.take(i as int)),
        decreases n - i,
    {
        let ghost pre = rows@.take(i as int);
        let ghost cur = rows@.take(i + 1);
        proof {
            assert(cur.drop_last() =~= pre);
            assert(cur.last() == rows@[i as int]);
            lemma_row_starts_distinct(pre);
        }
        let r = &rows[i];
        let ghost st = r.start_time@;
        match find_start(&out, &r.start_time) {
            Some(j) => {
                let ghost old_out = out@;
                proof {
                    assert(assembled_at(old_out, pre, j as int));
                    assert(row_starts(pre)[j as int] == st);
                    assert(row_starts(pre).contains(st)) by {
                        assert(row_starts(pre)[j as int] == st);
                    }
                    assert(row_starts(cur) == row_starts(pre));
                    lemma_row_starts_has(pre, st);
                }
                match &r.pool {
                    Some(p) => {
                        let mut e = out.remove(j);
                        e.pools.push(p.clone());
                        out.insert(j, e);
                    },
                    None => {},
                }
                proof {
                    assert(out@.len() == old_out.len());
                    assert(out@.len() == row_starts(cur).len());
                    assert forall|q: int|
                        0 <= q < out@.len() implies #[trigger] assembled_at(out@, cur, q) by {
                        assert(assembled_at(old_out, pre, q));
                        let stq = row_starts(pre)[q];
                        assert(row_starts(cur)[q] == stq);
                        assert(row_starts(pre).contains(stq));
                        lemma_row_starts_has(pre, stq);
                        assert(has_start(pre, stq));
                        assert(first_idx(cur, stq) == first_idx(pre, stq));
                        let fi = first_idx(pre, stq);
                        assert(cur[fi] == pre[fi]);
                        if q != j {
                            assert(out@[q] == old_out[q]);
                            assert(stq != st);
                            assert(pools_for(cur, stq) == pools_for(pre, stq));
                        } else {
                            assert(stq == st);
                            assert(pools_for(cur, st) == match cur.last().pool {
                                Some(p) => pools_for(pre, st).push(p),
                                None => pools_for(pre, st),
                            });
                        }
                    }
                    assert(is_assembly_of(out@, cur));
                }
            },
            None => {
                proof {
                    lemma_row_starts_has(pre, st);
                    assert(!row_starts(pre).contains(st)) by {
                        if row_starts(pre).contains(st) {
                            let k = choose|k: int|
                                0 <= k < row_starts(pre).len() && row_starts(pre)[k] == st;
                            assert(assembled_at(out@, pre, k));
                            assert(out@[k].start_time@ == st);
                        }
                    }
                    assert(row_starts(cur) == row_starts(pre).push(st));
                    lemma_pools_for_absent(pre, st);
                }
                let mut ps: Vec<Pool> = Vec::new();
                match &r.pool {
                    Some(p) => {
                        ps.push(p.clone());
                    },
                    None => {},
                }
                let ghost old_out = out@;
                out.push(
                    EarningInterval {
                        avg_node_count: r.avg_node_count.clone(),
                        block_rewards: r.block_rewards.clone(),
                        bonding_earnings: r.bonding_earnings.clone(),
                        earnings: r.earnings.clone(),
                        end_time: r.end_time.clone(),
                        liquidity_earnings: r.liquidity_earnings.clone(),
                        liquidity_fees: r.liquidity_fees.clone(),
                        rune_price_usd: r.rune_price_usd.clone(),
                        start_time: r.start_time.clone(),
                        pools: ps,
                    },
                );
                proof {
                    assert(out@.len() == row_starts(cur).len());
                    assert forall|q: int|
                        0 <= q < out@.len() implies #[trigger] assembled_at(out@, cur, q) by {
                        if q < old_out.len() {
                            assert(out@[q] == old_out[q]);
                            assert(assembled_at(old_out, pre, q));
                            let stq = row_starts(pre)[q];
                            assert(row_starts(cur)[q] == stq);
                            assert(row_starts(pre).contains(stq));
                            lemma_row_starts_has(pre, stq);
                            assert(has_start(pre, stq));
                            assert(first_idx(cur, stq) == first_idx(pre, stq));
                            let fi = first_idx(pre, stq);
                            assert(cur[fi] == pre[fi]);
                            assert(stq != st);
                            assert(pools_for(cur, stq) == pools_for(pre, stq));
                        } else {
                            assert(row_starts(cur)[q] == st);
                            assert(!has_start(pre, st));
                            assert(first_idx(cur, st) == cur.len() - 1);
                            assert(cur[cur.len() - 1] == rows@[i as int]);
                            assert(pools_for(pre, st) == Seq::<Pool>::empty());
                            assert(pools_for(cur, st) == match cur.last().pool {
                                Some(p) => pools_for(pre, st).push(p),
                                None => pools_for(pre, st),
                            });
                            assert(out@[q].pools@ =~= pools_for(cur, st));
                        }
                    }
                    assert(is_assembly_of(out@, cur));
                }
            },
        }
        i = i + 1;
    }
    proof {
        assert(rows@.take(n as int) =~= rows@);
    }
    out
}

// ---------------------------------------------------------------------------
// The composed earnings query
// ---------------------------------------------------------------------------

/// The parent rows a validated plan selects: the earnings references,
/// bound-filtered and thinned like any flat series.
pub open spec fn spec_earn_parents(store: Store, plan: QueryPlan) -> Seq<RowRef> {
    let filtered = spec_filter_bounds(refs_of(store.earnings.rows@), plan.start, plan.end);
    match plan.bucket {
        Some(w) => spec_thinned(filtered, w),
        None => filtered,
    }
}

/// The joined rows a validated plan selects: join, pool filter, sort,
/// paginate.
pub open spec fn spec_earn_selected(store: Store, plan: QueryPlan) -> Seq<JoinRef> {
    let joined = spec_join(store.pools@, spec_earn_parents(store, plan));
    let filtered = spec_pool_filter(store.pools@, plan.pool, joined);
    let sorted = sort_jrefs_spec(store.earnings.rows@, plan.sort, plan.order, filtered);
    spec_paginate(sorted, plan.offset, plan.limit)
}

/// The selected page of the join, materialized.
pub open spec fn spec_earn_rows(store: Store, plan: QueryPlan) -> Seq<EarningJoinRow> {
    spec_earn_selected(store, plan).map_values(
        |jr: JoinRef| join_row_of(store.earnings.rows@, store.pools@, jr),
    )
}

/// Serve one earnings query: validate the parameters; filter and thin the
/// parent rows; left-join them with their pool children; filter by exact
/// pool name; sort the joined rows; cut the requested page; and assemble
/// nested intervals from it.
///
/// `Ok` exactly when both optional time bounds parse as epoch seconds; the
/// result is then the assembly of the joined page that `spec_earn_rows`
/// picks. `Err(MalformedPayload)` otherwise, and on no other input.
pub fn get_earning_history(store: &Store, params: &QueryParams) -> (r: Result<
    Vec<EarningInterval>,
    AppError,
>)
    ensures
        match r {
            Ok(out) => time_bounds_ok(*params) && is_assembly_of(
                out@,
                spec_earn_rows(*store, spec_plan(Series::Earnings, *params)),
            ),
            Err(e) => e == AppError::MalformedPayload && !time_bounds_ok(*params),
        },
{
    let plan = match build_plan(Series::Earnings, params) {
        Ok(p) => p,
        Err(e) => {
            return Err(e);
        },
    };
    let ne = store.earnings.rows.len();
    let mp = store.pools.len();
    let ghost n = store.earnings.rows@.len() as int;
    let ghost m = store.pools@.len() as int;
    proof {
        assert(n == ne as int);
        assert(m == mp as int);
    }
    let prefs0 = collect_refs(&store.earnings);
    let prefs1 = filter_bounds(&prefs0, plan.start, plan.end);
    let prefs2 = match plan.bucket {
        Some(w) => thin_buckets(&prefs1, w),
        None => prefs1,
    };
    proof {
        assert(refs_within(prefs0@, n));
        lemma_filter_bounds_within(prefs0@, plan.start, plan.end, n);
        if plan.bucket is Some {
            lemma_thinned_within(prefs1@, plan.bucket->Some_0, n);
        }
        assert(refs_within(prefs2@, n));
    }
    let joined = join_parents(&store.pools, &prefs2);
    proof {
        lemma_join_within(store.pools@, prefs2@, n);
        assert forall|k: int|
            0 <= k < joined@.len() implies (#[trigger] joined@[k]).parent < usize::MAX as int && (
        joined@[k].pool_row is Some ==> joined@[k].pool_row->Some_0 < m) by {
            assert(jrefs_within(spec_join(store.pools@, prefs2@), n, m));
            assert(joined@ == spec_join(store.pools@, prefs2@));
            assert(jrefs_within(joined@, n, m));
            assert(joined@[k].parent < n);
        }
    }
    let filtered = filter_pool(&store.pools, &plan.pool, &joined);
    proof {
        lemma_pool_filter_within(store.pools@, plan.pool, joined@, n);
        assert forall|k: int|
            0 <= k < filtered@.len() implies (#[trigger] filtered@[k]).parent < n && (
        filtered@[k].pool_row is Some ==> filtered@[k].pool_row->Some_0 < usize::MAX as int) by {
            assert(filtered@[k].pool_row is Some ==> filtered@[k].pool_row->Some_0 < m);
        }
    }
    let sorted = sort_jrefs(&store.earnings.rows, plan.sort, plan.order, &filtered);
    proof {
        lemma_jsort_within(store.earnings.rows@, plan.sort, plan.order, filtered@, n, m);
        assert(sorted@ == sort_jrefs_spec(store.earnings.rows@, plan.sort, plan.order, filtered@));
        assert(jrefs_within(sorted@, n, m));
    }
    let page = paginate(&sorted, plan.offset, plan.limit);
    proof {
        assert forall|k: int|
            0 <= k < page@.len() implies (#[trigger] page@[k]).parent < n && (page@[k].pool_row
            is Some ==> page@[k].pool_row->Some_0 < m) by {
            assert(page@[k] == sorted@[plan.offset + k]);
        }
    }
    let jrows = take_join_rows(&store.earnings.rows, &store.pools, &page);
    let out = assemble_earnings(&jrows);
    Ok(out)
}

} // verus!
