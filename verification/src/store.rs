//! In-memory store model and the upsert writer.
//!
//! One table per series, each a sequence of rows in insertion order. A row
//! carries its record together with the numeric values of its `start_time`
//! and `end_time` fields, parsed once when the row is written; `end_key` is
//! the uniqueness key of the table. Rows are write-once: an insert that finds
//! an existing `end_key` is skipped, never overwritten, so persisting the
//! same batch twice leaves the store unchanged.
//!
//! Earnings are persisted in two phases: the parent row first, and its pool
//! children only if the parent was newly created. A skipped parent adds no
//! pool rows, so a pool row can never be an orphan.

use vstd::prelude::*;

use crate::error::AppError;
use crate::model::{DepthInterval, EarningInterval, Pool, RunePoolInterval, SwapsInterval};
use crate::timeparse::{dec_val, parse_u64, parses_to_u64};

verus! {

/// A stored row: the record plus its times parsed to epoch seconds.
#[derive(Debug, PartialEq, Eq)]
pub struct Keyed<T> {
    /// Parsed `end_time`: the uniqueness key within the table.
    pub end_key: u64,
    /// Parsed `start_time`.
    pub start_key: u64,
    /// The record as it arrived from the source.
    pub item: T,
}

/// Some row of `rows` has `end_key` equal to `k`.
pub open spec fn seq_has_key<T>(rows: Seq<Keyed<T>>, k: u64) -> bool {
    exists|i: int| 0 <= i < rows.len() && rows[i].end_key == k
}

/// All `end_key`s of `rows` are pairwise distinct.
pub open spec fn keys_distinct<T>(rows: Seq<Keyed<T>>) -> bool {
    forall|i: int, j: int|
        0 <= i < j < rows.len()
            ==> (#[trigger] rows[i]).end_key != (#[trigger] rows[j]).end_key
}

/// One write-once insert: append `row` unless its key is already present.
pub open spec fn upsert_one<T>(rows: Seq<Keyed<T>>, row: Keyed<T>) -> Seq<Keyed<T>> {
    if seq_has_key(rows, row.end_key) {
        rows
    } else {
        rows.push(row)
    }
}

/// Write-once inserts of a whole batch, first record first.
pub open spec fn upsert_seq<T>(rows: Seq<Keyed<T>>, batch: Seq<Keyed<T>>) -> Seq<Keyed<T>>
    decreases batch.len(),
{
    if batch.len() == 0 {
        rows
    } else {
        upsert_seq(upsert_one(rows, batch[0]), batch.drop_first())
    }
}

/// One series table: rows in insertion order, `end_key` unique.
#[derive(Debug, PartialEq, Eq)]
pub struct Table<T> {
    pub rows: Vec<Keyed<T>>,
}

impl<T> Table<T> {
    /// Table invariant: no two rows share an `end_key`.
    pub open spec fn wf(self) -> bool {
        keys_distinct(self.rows@)
    }

    /// An empty table.
    pub fn new() -> (t: Self)
        ensures
            t.rows@ == Seq::<Keyed<T>>::empty(),
            t.wf(),
    {
        Table { rows: Vec::new() }
    }

    /// Number of stored rows.
    pub fn len(&self) -> (n: usize)
        ensures
            n == self.rows@.len(),
    {
        self.rows.len()
    }

    /// Whether a row with `end_key == k` is already stored.
    pub fn contains_end(&self, k: u64) -> (r: bool)
        ensures
            r == seq_has_key(self.rows@, k),
    {
        let n = self.rows.len();
        let mut i: usize = 0;
        while i < n
            invariant
                0 <= i <= n,
                n == self.rows@.len(),
                forall|j: int| 0 <= j < i ==> (#[trigger] self.rows@[j]).end_key != k,
            decreases n - i,
        {
            if self.rows[i].end_key == k {
                return true;
            }
            i = i + 1;
        }
        false
    }

    /// Write-once insert of one row; reports whether it was newly created.
    pub fn upsert(&mut self, row: Keyed<T>) -> (inserted: bool)
        requires
            old(self).wf(),
        ensures
            final(self).wf(),
            inserted == !seq_has_key(old(self).rows@, row.end_key),
            final(self).rows@ == upsert_one(old(self).rows@, row),
    {
        if self.contains_end(row.end_key) {
            false
        } else {
            let ghost prev = self.rows@;
            proof {
                assert forall|i: int, j: int|
                    0 <= i < j < prev.push(row).len()
                        implies (#[trigger] prev.push(row)[i]).end_key
                            != (#[trigger] prev.push(row)[j]).end_key
                by {
                    if j == prev.len() {
                        if prev[i].end_key == row.end_key {
                            assert(seq_has_key(prev, row.end_key));
                        }
                    }
                }
            }
            self.rows.push(row);
            true
        }
    }

    /// Write-once insert of a whole batch; returns how many rows were new.
    pub fn upsert_batch(&mut self, batch: Vec<Keyed<T>>) -> (count: usize)
        requires
            old(self).wf(),
        ensures
            final(self).wf(),
            final(self).rows@ == upsert_seq(old(self).rows@, batch@),
            count == final(self).rows@.len() - old(self).rows@.len(),
    {
        let ghost orig_batch = batch@;
        let mut batch = batch;
        let old_len = self.rows.len();
        while batch.len() > 0
            invariant
                self.wf(),
                old_len == old(self).rows@.len(),
                old(self).rows@.len() <= self.rows@.len(),
                upsert_seq(old(self).rows@, orig_batch)
                    == upsert_seq(self.rows@, batch@),
            decreases batch@.len(),
        {
            let ghost before = batch@;
            let row = batch.remove(0);
            proof {
                assert(batch@ =~= before.drop_first());
            }
            self.upsert(row);
        }
        self.rows.len() - old_len
    }
}

/// A pool child row, owned by the earnings row at index `interval_id`.
#[derive(Debug, PartialEq, Eq)]
pub struct PoolRow {
    pub interval_id: usize,
    pub item: Pool,
}

/// The whole store: one table per series plus the pool children.
#[derive(Debug, PartialEq, Eq)]
pub struct Store {
    pub depth: Table<DepthInterval>,
    pub swaps: Table<SwapsInterval>,
    pub earnings: Table<EarningInterval>,
    pub rune: Table<RunePoolInterval>,
    pub pools: Vec<PoolRow>,
}

impl Store {
    /// Store invariant: every table is well formed and every pool row
    /// references an existing parent earnings row — never an orphan.
    pub open spec fn wf(self) -> bool {
        &&& self.depth.wf()
        &&& self.swaps.wf()
        &&& self.earnings.wf()
        &&& self.rune.wf()
        &&& forall|i: int|
            0 <= i < self.pools@.len()
                ==> (#[trigger] self.pools@[i]).interval_id < self.earnings.rows@.len()
    }

    /// An empty store.
    pub fn new() -> (s: Self)
        ensures
            s.wf(),
            s.depth.rows@.len() == 0,
            s.swaps.rows@.len() == 0,
            s.earnings.rows@.len() == 0,
            s.rune.rows@.len() == 0,
            s.pools@.len() == 0,
    {
        Store {
            depth: Table::new(),
            swaps: Table::new(),
            earnings: Table::new(),
            rune: Table::new(),
            pools: Vec::new(),
        }
    }
}

// ---------------------------------------------------------------------------
// Per-series keying
// ---------------------------------------------------------------------------

/// Both time fields of a depth record parse as epoch seconds.
pub open spec fn depth_times_ok(d: DepthInterval) -> bool {
    parses_to_u64(d.end_time@) && parses_to_u64(d.start_time@)
}

/// The stored row a depth record becomes.
pub open spec fn keyed_depth(d: DepthInterval) -> Keyed<DepthInterval> {
    Keyed {
        end_key: dec_val(d.end_time@) as u64,
        start_key: dec_val(d.start_time@) as u64,
        item: d,
    }
}

/// Both time fields of a swaps record parse as epoch seconds.
pub open spec fn swaps_times_ok(s: SwapsInterval) -> bool {
    parses_to_u64(s.end_time@) && parses_to_u64(s.start_time@)
}

/// The stored row a swaps record becomes.
pub open spec fn keyed_swaps(s: SwapsInterval) -> Keyed<SwapsInterval> {
    Keyed {
        end_key: dec_val(s.end_time@) as u64,
        start_key: dec_val(s.start_time@) as u64,
        item: s,
    }
}

/// Both time fields of an earnings record parse as epoch seconds.
pub open spec fn earn_times_ok(e: EarningInterval) -> bool {
    parses_to_u64(e.end_time@) && parses_to_u64(e.start_time@)
}

/// The stored row an earnings record becomes.
pub open spec fn keyed_earn(e: EarningInterval) -> Keyed<EarningInterval> {
    Keyed {
        end_key: dec_val(e.end_time@) as u64,
        start_key: dec_val(e.start_time@) as u64,
        item: e,
    }
}

/// Both time fields of a RUNE-pool record parse as epoch seconds.
pub open spec fn rune_times_ok(r: RunePoolInterval) -> bool {
    parses_to_u64(r.end_time@) && parses_to_u64(r.start_time@)
}

/// The stored row a RUNE-pool record becomes.
pub open spec fn keyed_rune(r: RunePoolInterval) -> Keyed<RunePoolInterval> {
    Keyed {
        end_key: dec_val(r.end_time@) as u64,
        start_key: dec_val(r.start_time@) as u64,
        item: r,
    }
}

/// Parse the two time fields shared by every series record.
///
/// `Ok((end_key, start_key))` exactly when both parse as `u64` decimals.
fn parse_times(end_time: &String, start_time: &String) -> (r: Result<(u64, u64), AppError>)
    ensures
        match r {
            Ok(ks) => parses_to_u64(end_time@) && parses_to_u64(start_time@)
                && ks.0 == dec_val(end_time@) && ks.1 == dec_val(start_time@),
            Err(e) => e == AppError::MalformedPayload
                && !(parses_to_u64(end_time@) && parses_to_u64(start_time@)),
        },
{
    let end_key = match parse_u64(end_time.as_str()) {
        Some(v) => v,
        None => {
            return Err(AppError::MalformedPayload);
        },
    };
    let start_key = match parse_u64(start_time.as_str()) {
        Some(v) => v,
        None => {
            return Err(AppError::MalformedPayload);
        },
    };
    Ok((end_key, start_key))
}

// ---------------------------------------------------------------------------
// Flat-series writers
// ---------------------------------------------------------------------------

/// Persist one depth record: write-once insert keyed on its `end_time`.
///
/// `Ok(true)` means newly created, `Ok(false)` a duplicate that was skipped;
/// `Err(MalformedPayload)` exactly when a time field is not a decimal.
pub fn insert_depth_interval(store: &mut Store, depth: DepthInterval) -> (r: Result<
    bool,
    AppError,
>)
    requires
        old(store).wf(),
    ensures
        final(store).wf(),
        final(store).swaps == old(store).swaps,
        final(store).earnings == old(store).earnings,
        final(store).rune == old(store).rune,
        final(store).pools == old(store).pools,
        match r {
            Ok(inserted) => depth_times_ok(depth) && inserted == !seq_has_key(
                old(store).depth.rows@,
                keyed_depth(depth).end_key,
            ) && final(store).depth.rows@ == upsert_one(
                old(store).depth.rows@,
                keyed_depth(depth),
            ),
            Err(e) => e == AppError::MalformedPayload && !depth_times_ok(depth) && final(store).depth == old(store).depth,
        },
{
    let ks = match parse_times(&depth.end_time, &depth.start_time) {
        Ok(v) => v,
        Err(e) => {
            return Err(e);
        },
    };
    let inserted = store.depth.upsert(Keyed { end_key: ks.0, start_key: ks.1, item: depth });
    Ok(inserted)
}

/// Persist one swaps record; same write-once contract as the depth writer.
pub fn insert_swaps_interval(store: &mut Store, swap: SwapsInterval) -> (r: Result<
    bool,
    AppError,
>)
    requires
        old(store).wf(),
    ensures
        final(store).wf(),
        final(store).depth == old(store).depth,
        final(store).earnings == old(store).earnings,
        final(store).rune == old(store).rune,
        final(store).pools == old(store).pools,
        match r {
            Ok(inserted) => swaps_times_ok(swap) && inserted == !seq_has_key(
                old(store).swaps.rows@,
                keyed_swaps(swap).end_key,
            ) && final(store).swaps.rows@ == upsert_one(
                old(store).swaps.rows@,
                keyed_swaps(swap),
            ),
            Err(e) => e == AppError::MalformedPayload && !swaps_times_ok(swap) && final(store).swaps == old(store).swaps,
        },
{
    let ks = match parse_times(&swap.end_time, &swap.start_time) {
        Ok(v) => v,
        Err(e) => {
            return Err(e);
        },
    };
    let inserted = store.swaps.upsert(Keyed { end_key: ks.0, start_key: ks.1, item: swap });
    Ok(inserted)
}

/// Persist one RUNE-pool record; same write-once contract as the depth writer.
pub fn insert_runepool_interval(store: &mut Store, runepool: RunePoolInterval) -> (r: Result<
    bool,
    AppError,
>)
    requires
        old(store).wf(),
    ensures
        final(store).wf(),
        final(store).depth == old(store).depth,
        final(store).swaps == old(store).swaps,
        final(store).earnings == old(store).earnings,
        final(store).pools == old(store).pools,
        match r {
            Ok(inserted) => rune_times_ok(runepool) && inserted == !seq_has_key(
                old(store).rune.rows@,
                keyed_rune(runepool).end_key,
            ) && final(store).rune.rows@ == upsert_one(
                old(store).rune.rows@,
                keyed_rune(runepool),
            ),
            Err(e) => e == AppError::MalformedPayload && !rune_times_ok(runepool) && final(store).rune == old(store).rune,
        },
{
    let ks = match parse_times(&runepool.end_time, &runepool.start_time) {
        Ok(v) => v,
        Err(e) => {
            return Err(e);
        },
    };
    let inserted = store.rune.upsert(Keyed { end_key: ks.0, start_key: ks.1, item: runepool });
    Ok(inserted)
}

// ---------------------------------------------------------------------------
// Earnings writer: two-phase parent/child persistence
// ---------------------------------------------------------------------------

/// The pool child rows an earnings record contributes when its parent row is
/// newly created at index `parent_id`.
pub open spec fn pool_rows_of(e: EarningInterval, parent_id: usize) -> Seq<PoolRow> {
    e.pools@.map_values(|p: Pool| PoolRow { interval_id: parent_id, item: p })
}

/// One two-phase earnings insert: on a fresh `end_key` the parent row is
/// appended and every pool child follows, referencing the parent's index; on
/// a duplicate key nothing changes at all.
pub open spec fn earn_insert_step(
    rows: Seq<Keyed<EarningInterval>>,
    pools: Seq<PoolRow>,
    e: EarningInterval,
) -> (Seq<Keyed<EarningInterval>>, Seq<PoolRow>) {
    if seq_has_key(rows, keyed_earn(e).end_key) {
        (rows, pools)
    } else {
        (rows.push(keyed_earn(e)), pools + pool_rows_of(e, rows.len() as usize))
    }
}

/// Append one pool child row owned by the earnings row at `interval_id`.
pub fn insert_pool(store: &mut Store, pool: Pool, interval_id: usize)
    requires
        old(store).wf(),
        interval_id < old(store).earnings.rows@.len(),
    ensures
        final(store).wf(),
        final(store).depth == old(store).depth,
        final(store).swaps == old(store).swaps,
        final(store).earnings == old(store).earnings,
        final(store).rune == old(store).rune,
        final(store).pools@ == old(store).pools@.push(PoolRow { interval_id, item: pool }),
{
    store.pools.push(PoolRow { interval_id, item: pool });
}

/// Persist one earnings record with its pool children.
///
/// The parent row is written once, keyed on its `end_time`; pool children
/// are written only when the parent was newly created, so a skipped parent
/// contributes zero pool rows — a pool row can never be an orphan.
pub fn insert_earning_interval(store: &mut Store, earning: EarningInterval) -> (r: Result<
    bool,
    AppError,
>)
    requires
        old(store).wf(),
    ensures
        final(store).wf(),
        final(store).depth == old(store).depth,
        final(store).swaps == old(store).swaps,
        final(store).rune == old(store).rune,
        match r {
            Ok(inserted) => earn_times_ok(earning) && inserted == !seq_has_key(
                old(store).earnings.rows@,
                keyed_earn(earning).end_key,
            ) && final(store).earnings.rows@ == earn_insert_step(
                old(store).earnings.rows@,
                old(store).pools@,
                earning,
            ).0 && final(store).pools@ == earn_insert_step(
                old(store).earnings.rows@,
                old(store).pools@,
                earning,
            ).1,
            Err(e) => e == AppError::MalformedPayload && !earn_times_ok(earning) && final(store).earnings == old(store).earnings && final(store).pools == old(store).pools,
        },
        // A skipped or rejected record inserts no children.
        r != Ok::<bool, AppError>(true) ==> final(store).pools@ == old(store).pools@,
{
    let ks = match parse_times(&earning.end_time, &earning.start_time) {
        Ok(v) => v,
        Err(e) => {
            return Err(e);
        },
    };
    if store.earnings.contains_end(ks.0) {
        return Ok(false);
    }
    // Children first (they reference the index the parent is about to take),
    // then the parent row itself; the store invariant holds again once the
    // parent is in place.
    let parent_id = store.earnings.len();
    let n = earning.pools.len();
    let mut j: usize = 0;
    while j < n
        invariant
            0 <= j <= n,
            n == earning.pools@.len(),
            store.depth == old(store).depth,
            store.swaps == old(store).swaps,
            store.earnings == old(store).earnings,
            store.rune == old(store).rune,
            parent_id == store.earnings.rows@.len(),
            store.pools@ == old(store).pools@ + earning.pools@.take(j as int).map_values(
                |p: Pool| PoolRow { interval_id: parent_id, item: p },
            ),
        decreases n - j,
    {
        let p = earning.pools[j].clone();
        store.pools.push(PoolRow { interval_id: parent_id, item: p });
        proof {
            assert(earning.pools@.take(j + 1).drop_last() =~= earning.pools@.take(j as int));
            assert(store.pools@ =~= old(store).pools@ + earning.pools@.take(j + 1).map_values(
                |p: Pool| PoolRow { interval_id: parent_id, item: p },
            ));
        }
        j = j + 1;
    }
    proof {
        assert(earning.pools@.take(n as int) =~= earning.pools@);
    }
    let inserted = store.earnings.upsert(Keyed { end_key: ks.0, start_key: ks.1, item: earning });
    proof {
        assert(inserted);
        assert forall|i: int| 0 <= i < store.pools@.len() implies (
        #[trigger] store.pools@[i]).interval_id < store.earnings.rows@.len() by {
            if i < old(store).pools@.len() {
                assert(old(store).wf());
            }
        }
    }
    Ok(true)
}

// ---------------------------------------------------------------------------
// Batch persistence
// ---------------------------------------------------------------------------

/// Persist a whole depth batch, first record first; returns how many rows
/// were newly created.
///
/// The batch is validated before anything is written: on a malformed time
/// field the store is left untouched and `Err(MalformedPayload)` is
/// returned.
pub fn persist_depth(store: &mut Store, batch: &Vec<DepthInterval>) -> (r: Result<usize, AppError>)
    requires
        old(store).wf(),
    ensures
        final(store).wf(),
        final(store).swaps == old(store).swaps,
        final(store).earnings == old(store).earnings,
        final(store).rune == old(store).rune,
        final(store).pools == old(store).pools,
        match r {
            Ok(n) => (forall|i: int|
                0 <= i < batch@.len() ==> depth_times_ok(#[trigger] batch@[i])) && final(store).depth.rows@ == upsert_seq(
                old(store).depth.rows@,
                batch@.map_values(|d: DepthInterval| keyed_depth(d)),
            ) && n == final(store).depth.rows@.len() - old(store).depth.rows@.len(),
            Err(e) => e == AppError::MalformedPayload && (exists|i: int|
                0 <= i < batch@.len() && !depth_times_ok(#[trigger] batch@[i])) && final(store).depth == old(store).depth,
        },
{
    let m = batch.len();
    let mut keyed: Vec<Keyed<DepthInterval>> = Vec::new();
    let mut i: usize = 0;
    while i < m
        invariant
            old(store).wf(),
            *store == *old(store),
            0 <= i <= m,
            m == batch@.len(),
            keyed@.len() == i,
            forall|k: int|
                0 <= k < i ==> depth_times_ok(#[trigger] batch@[k]) && keyed@[k]
                    == keyed_depth(batch@[k]),
        decreases m - i,
    {
        match parse_times(&batch[i].end_time, &batch[i].start_time) {
            Ok(ks) => {
                keyed.push(Keyed { end_key: ks.0, start_key: ks.1, item: batch[i].clone() });
            },
            Err(e) => {
                return Err(e);
            },
        }
        i = i + 1;
    }
    proof {
        assert(keyed@ =~= batch@.map_values(|d: DepthInterval| keyed_depth(d)));
    }
    let n = store.depth.upsert_batch(keyed);
    Ok(n)
}

/// Persist a whole swaps batch; same contract shape as `persist_depth`.
pub fn persist_swaps(store: &mut Store, batch: &Vec<SwapsInterval>) -> (r: Result<usize, AppError>)
    requires
        old(store).wf(),
    ensures
        final(store).wf(),
        final(store).depth == old(store).depth,
        final(store).earnings == old(store).earnings,
        final(store).rune == old(store).rune,
        final(store).pools == old(store).pools,
        match r {
            Ok(n) => (forall|i: int|
                0 <= i < batch@.len() ==> swaps_times_ok(#[trigger] batch@[i])) && final(store).swaps.rows@ == upsert_seq(
                old(store).swaps.rows@,
                batch@.map_values(|s: SwapsInterval| keyed_swaps(s)),
            ) && n == final(store).swaps.rows@.len() - old(store).swaps.rows@.len(),
            Err(e) => e == AppError::MalformedPayload && (exists|i: int|
                0 <= i < batch@.len() && !swaps_times_ok(#[trigger] batch@[i])) && final(store).swaps == old(store).swaps,
        },
{
    let m = batch.len();
    let mut keyed: Vec<Keyed<SwapsInterval>> = Vec::new();
    let mut i: usize = 0;
    while i < m
        invariant
            old(store).wf(),
            *store == *old(store),
            0 <= i <= m,
            m == batch@.len(),
            keyed@.len() == i,
            forall|k: int|
                0 <= k < i ==> swaps_times_ok(#[trigger] batch@[k]) && keyed@[k]
                    == keyed_swaps(batch@[k]),
        decreases m - i,
    {
        match parse_times(&batch[i].end_time, &batch[i].start_time) {
            Ok(ks) => {
                keyed.push(Keyed { end_key: ks.0, start_key: ks.1, item: batch[i].clone() });
            },
            Err(e) => {
                return Err(e);
            },
        }
        i = i + 1;
    }
    proof {
        assert(keyed@ =~= batch@.map_values(|s: SwapsInterval| keyed_swaps(s)));
    }
    let n = store.swaps.upsert_batch(keyed);
    Ok(n)
}

/// Persist a whole RUNE-pool batch; same contract shape as `persist_depth`.
pub fn persist_runepool(store: &mut Store, batch: &Vec<RunePoolInterval>) -> (r: Result<
    usize,
    AppError,
>)
    requires
        old(store).wf(),
    ensures
        final(store).wf(),
        final(store).depth == old(store).depth,
        final(store).swaps == old(store).swaps,
        final(store).earnings == old(store).earnings,
        final(store).pools == old(store).pools,
        match r {
            Ok(n) => (forall|i: int|
                0 <= i < batch@.len() ==> rune_times_ok(#[trigger] batch@[i])) && final(store).rune.rows@ == upsert_seq(
                old(store).rune.rows@,
                batch@.map_values(|x: RunePoolInterval| keyed_rune(x)),
            ) && n == final(store).rune.rows@.len() - old(store).rune.rows@.len(),
            Err(e) => e == AppError::MalformedPayload && (exists|i: int|
                0 <= i < batch@.len() && !rune_times_ok(#[trigger] batch@[i])) && final(store).rune == old(store).rune,
        },
{
    let m = batch.len();
    let mut keyed: Vec<Keyed<RunePoolInterval>> = Vec::new();
    let mut i: usize = 0;
    while i < m
        invariant
            old(store).wf(),
            *store == *old(store),
            0 <= i <= m,
            m == batch@.len(),
            keyed@.len() == i,
            forall|k: int|
                0 <= k < i ==> rune_times_ok(#[trigger] batch@[k]) && keyed@[k]
                    == keyed_rune(batch@[k]),
        decreases m - i,
    {
        match parse_times(&batch[i].end_time, &batch[i].start_time) {
            Ok(ks) => {
                keyed.push(Keyed { end_key: ks.0, start_key: ks.1, item: batch[i].clone() });
            },
            Err(e) => {
                return Err(e);
            },
        }
        i = i + 1;
    }
    proof {
        assert(keyed@ =~= batch@.map_values(|x: RunePoolInterval| keyed_rune(x)));
    }
    let n = store.rune.upsert_batch(keyed);
    Ok(n)
}

/// Two-phase earnings inserts of a whole batch, first record first.
pub open spec fn persist_earn_seq(
    rows: Seq<Keyed<EarningInterval>>,
    pools: Seq<PoolRow>,
    batch: Seq<EarningInterval>,
) -> (Seq<Keyed<EarningInterval>>, Seq<PoolRow>)
    decreases batch.len(),
{
    if batch.len() == 0 {
        (rows, pools)
    } else {
        let st = earn_insert_step(rows, pools, batch[0]);
        persist_earn_seq(st.0, st.1, batch.drop_first())
    }
}

/// Persist a whole earnings batch with pool children; returns how many
/// parent rows were newly created.
///
/// Validated before anything is written, like `persist_depth`.
pub fn persist_earnings(store: &mut Store, batch: Vec<EarningInterval>) -> (r: Result<
    usize,
    AppError,
>)
    requires
        old(store).wf(),
    ensures
        final(store).wf(),
        final(store).depth == old(store).depth,
        final(store).swaps == old(store).swaps,
        final(store).rune == old(store).rune,
        match r {
            Ok(n) => (forall|i: int|
                0 <= i < batch@.len() ==> earn_times_ok(#[trigger] batch@[i])) && final(store).earnings.rows@ == persist_earn_seq(
                old(store).earnings.rows@,
                old(store).pools@,
                batch@,
            ).0 && final(store).pools@ == persist_earn_seq(
                old(store).earnings.rows@,
                old(store).pools@,
                batch@,
            ).1 && n == final(store).earnings.rows@.len() - old(store).earnings.rows@.len(),
            Err(e) => e == AppError::MalformedPayload && (exists|i: int|
                0 <= i < batch@.len() && !earn_times_ok(#[trigger] batch@[i])) && final(store).earnings == old(store).earnings && final(store).pools == old(store).pools,
        },
{
    // Validation pass: nothing is written unless every record's times parse.
    let m = batch.len();
    let mut v: usize = 0;
    while v < m
        invariant
            old(store).wf(),
            *store == *old(store),
            0 <= v <= m,
            m == batch@.len(),
            forall|k: int| 0 <= k < v ==> earn_times_ok(#[trigger] batch@[k]),
        decreases m - v,
    {
        match parse_times(&batch[v].end_time, &batch[v].start_time) {
            Ok(_) => {},
            Err(e) => {
                return Err(e);
            },
        }
        v = v + 1;
    }
    // Write pass.
    let ghost orig = batch@;
    let mut batch = batch;
    let old_len = store.earnings.len();
    while batch.len() > 0
        invariant
            store.wf(),
            store.depth == old(store).depth,
            store.swaps == old(store).swaps,
            store.rune == old(store).rune,
            old_len == old(store).earnings.rows@.len(),
            old(store).earnings.rows@.len() <= store.earnings.rows@.len(),
            forall|k: int| 0 <= k < batch@.len() ==> earn_times_ok(#[trigger] batch@[k]),
            persist_earn_seq(old(store).earnings.rows@, old(store).pools@, orig)
                == persist_earn_seq(store.earnings.rows@, store.pools@, batch@),
        decreases batch@.len(),
    {
        let ghost before = batch@;
        let e = batch.remove(0);
        proof {
            assert(batch@ =~= before.drop_first());
            assert(earn_times_ok(before[0]));
        }
        let res = insert_earning_interval(store, e);
        proof {
            assert(res matches Ok(_));
        }
    }
    let n = store.earnings.len() - old_len;
    Ok(n)
}

// ---------------------------------------------------------------------------
// Idempotence of the write-once policy
// ---------------------------------------------------------------------------

/// A key present in `rows` is still present after a write-once insert.
proof fn lemma_upsert_one_preserves_key<T>(rows: Seq<Keyed<T>>, row: Keyed<T>, k: u64)
    requires
        seq_has_key(rows, k),
    ensures
        seq_has_key(upsert_one(rows, row), k),
{
    let i = choose|i: int| 0 <= i < rows.len() && rows[i].end_key == k;
    if !seq_has_key(rows, row.end_key) {
        assert(rows.push(row)[i].end_key == k);
    }
}

/// A key present in `rows` is still present after a whole batch.
proof fn lemma_upsert_seq_preserves_key<T>(rows: Seq<Keyed<T>>, batch: Seq<Keyed<T>>, k: u64)
    requires
        seq_has_key(rows, k),
    ensures
        seq_has_key(upsert_seq(rows, batch), k),
    decreases batch.len(),
{
    if batch.len() > 0 {
        lemma_upsert_one_preserves_key(rows, batch[0], k);
        lemma_upsert_seq_preserves_key(upsert_one(rows, batch[0]), batch.drop_first(), k);
    }
}

/// After a batch is persisted, every key of the batch is present.
proof fn lemma_upsert_seq_adds_keys<T>(rows: Seq<Keyed<T>>, batch: Seq<Keyed<T>>)
    ensures
        forall|i: int|
            0 <= i < batch.len() ==> seq_has_key(
                upsert_seq(rows, batch),
                (#[trigger] batch[i]).end_key,
            ),
    decreases batch.len(),
{
    if batch.len() > 0 {
        let rows1 = upsert_one(rows, batch[0]);
        assert(seq_has_key(rows1, batch[0].end_key)) by {
            if !seq_has_key(rows, batch[0].end_key) {
                assert(rows1[rows.len() as int].end_key == batch[0].end_key);
            } else {
                lemma_upsert_one_preserves_key(rows, batch[0], batch[0].end_key);
            }
        }
        lemma_upsert_seq_preserves_key(rows1, batch.drop_first(), batch[0].end_key);
        lemma_upsert_seq_adds_keys(rows1, batch.drop_first());
        assert forall|i: int|
            0 <= i < batch.len() implies seq_has_key(
            upsert_seq(rows, batch),
            (#[trigger] batch[i]).end_key,
        ) by {
            if i > 0 {
                assert(batch.drop_first()[i - 1] == batch[i]);
            }
        }
    }
}

/// Persisting a batch whose keys are all present already changes nothing.
proof fn lemma_upsert_seq_noop<T>(rows: Seq<Keyed<T>>, batch: Seq<Keyed<T>>)
    requires
        forall|i: int|
            0 <= i < batch.len() ==> seq_has_key(rows, (#[trigger] batch[i]).end_key),
    ensures
        upsert_seq(rows, batch) == rows,
    decreases batch.len(),
{
    if batch.len() > 0 {
        assert(seq_has_key(rows, batch[0].end_key));
        assert forall|i: int|
            0 <= i < batch.drop_first().len() implies seq_has_key(
            rows,
            (#[trigger] batch.drop_first()[i]).end_key,
        ) by {
            assert(batch.drop_first()[i] == batch[i + 1]);
        }
        lemma_upsert_seq_noop(rows, batch.drop_first());
    }
}

/// Idempotence of the write-once policy: persisting the same batch twice
/// leaves row counts and contents exactly as after the first time.
pub proof fn lemma_upsert_seq_idempotent<T>(rows: Seq<Keyed<T>>, batch: Seq<Keyed<T>>)
    ensures
        upsert_seq(upsert_seq(rows, batch), batch) == upsert_seq(rows, batch),
{
    lemma_upsert_seq_adds_keys(rows, batch);
    lemma_upsert_seq_noop(upsert_seq(rows, batch), batch);
}

/// The parent rows a two-phase earnings batch produces are exactly the
/// write-once inserts of its keyed records.
proof fn lemma_persist_earn_rows(
    rows: Seq<Keyed<EarningInterval>>,
    pools: Seq<PoolRow>,
    batch: Seq<EarningInterval>,
)
    ensures
        persist_earn_seq(rows, pools, batch).0 == upsert_seq(
            rows,
            batch.map_values(|e: EarningInterval| keyed_earn(e)),
        ),
    decreases batch.len(),
{
    let keyed = batch.map_values(|e: EarningInterval| keyed_earn(e));
    if batch.len() > 0 {
        let st = earn_insert_step(rows, pools, batch[0]);
        assert(st.0 == upsert_one(rows, keyed[0]));
        lemma_persist_earn_rows(st.0, st.1, batch.drop_first());
        assert(batch.drop_first().map_values(|e: EarningInterval| keyed_earn(e))
            =~= keyed.drop_first());
    }
}

/// A two-phase earnings batch whose parent keys are all present changes
/// neither the parent rows nor the pool children.
proof fn lemma_persist_earn_noop(
    rows: Seq<Keyed<EarningInterval>>,
    pools: Seq<PoolRow>,
    batch: Seq<EarningInterval>,
)
    requires
        forall|i: int|
            0 <= i < batch.len() ==> seq_has_key(rows, keyed_earn(#[trigger] batch[i]).end_key),
    ensures
        persist_earn_seq(rows, pools, batch) == (rows, pools),
    decreases batch.len(),
{
    if batch.len() > 0 {
        assert(seq_has_key(rows, keyed_earn(batch[0]).end_key));
        assert(earn_insert_step(rows, pools, batch[0]) == (rows, pools));
        assert forall|i: int|
            0 <= i < batch.drop_first().len() implies seq_has_key(
            rows,
            keyed_earn(#[trigger] batch.drop_first()[i]).end_key,
        ) by {
            assert(batch.drop_first()[i] == batch[i + 1]);
        }
        lemma_persist_earn_noop(rows, pools, batch.drop_first());
    }
}

/// Idempotence of the two-phase earnings writer: persisting the same batch
/// twice leaves both the parent rows and the pool children unchanged —
/// in particular, re-persisting inserts no duplicate pools.
pub proof fn lemma_persist_earn_idempotent(
    rows: Seq<Keyed<EarningInterval>>,
    pools: Seq<PoolRow>,
    batch: Seq<EarningInterval>,
)
    ensures
        persist_earn_seq(
            persist_earn_seq(rows, pools, batch).0,
            persist_earn_seq(rows, pools, batch).1,
            batch,
        ) == persist_earn_seq(rows, pools, batch),
{
    let st = persist_earn_seq(rows, pools, batch);
    lemma_persist_earn_rows(rows, pools, batch);
    let keyed = batch.map_values(|e: EarningInterval| keyed_earn(e));
    lemma_upsert_seq_adds_keys(rows, keyed);
    assert forall|i: int|
        0 <= i < batch.len() implies seq_has_key(
        st.0,
        keyed_earn(#[trigger] batch[i]).end_key,
    ) by {
        assert(keyed[i] == keyed_earn(batch[i]));
    }
    lemma_persist_earn_noop(st.0, st.1, batch);
}

} // verus!
