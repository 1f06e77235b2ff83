//! Ingestion scheduler: owns the fetch cursor and decides, once per cycle,
//! whether to persist the fetched batch or to sleep.
//!
//! The caller runs the loop and performs the outside work (fetching,
//! persisting, sleeping); every decision is taken here, from plain values:
//! the current time, the cursor, and the `end_time` of the last fetched
//! record. A cycle that fails keeps the cursor unchanged — the caller simply
//! retries on the next tick — and the cursor advances exactly once per
//! completed cycle, to the end of the batch it persisted.

use vstd::prelude::*;

use crate::timeparse::{dec_val, parse_u64, parses_to_u64};

verus! {

/// Width of one source bucket, in seconds: the source serves hourly
/// intervals.
pub const ONE_BUCKET: u64 = 3600;

/// How many records one fetch requests from the source.
pub const FETCH_COUNT: u64 = 400;

/// What the ingestion loop should do with the cycle's batch.
#[derive(Clone, Copy, Debug, PartialEq, Eq, Structural)]
pub enum CycleAction {
    /// The batch is at least one bucket old: persist it and advance the
    /// cursor to the batch's final `end_time`.
    Persist,
    /// Too fresh (or nothing fetched): keep the cursor and retry after this
    /// many seconds.
    Sleep(u64),
}

/// The cursor the scheduler starts from: the `start_time` of the most
/// recently persisted row if it parses, and `now` less one bucket when the
/// store is empty or the stored value is unreadable. A cursor-parse failure
/// is non-fatal by design.
pub open spec fn spec_bootstrap(latest_start: Option<&String>, now: u64) -> u64
    recommends
        now >= ONE_BUCKET,
{
    match latest_start {
        Some(s) => if parses_to_u64(s@) {
            dec_val(s@) as u64
        } else {
            (now - ONE_BUCKET) as u64
        },
        None => (now - ONE_BUCKET) as u64,
    }
}

/// The decision for one cycle, given the time and the `end_time` of the
/// batch's final record (`None` when the fetch came back empty).
///
/// Persist exactly when the final record has aged at least one bucket;
/// otherwise sleep for `max(ONE_BUCKET - gap, ONE_BUCKET)` seconds, where
/// `gap` is `now` minus that `end_time`. An empty batch means the loop has
/// caught up: sleep one bucket and retry — never stop.
pub open spec fn spec_decide(now: u64, last_end: Option<u64>) -> CycleAction {
    match last_end {
        None => CycleAction::Sleep(ONE_BUCKET),
        Some(t) => if t + ONE_BUCKET <= now {
            CycleAction::Persist
        } else if t <= now {
            CycleAction::Sleep(ONE_BUCKET)
        } else {
            CycleAction::Sleep((ONE_BUCKET + (t - now)) as u64)
        },
    }
}

/// The cursor after one completed cycle: the batch's final `end_time` when
/// the cycle persisted, the old cursor in every other case.
pub open spec fn spec_cycle_cursor(cursor: u64, now: u64, last_end: Option<u64>) -> u64 {
    match last_end {
        Some(t) => if spec_decide(now, last_end) == CycleAction::Persist {
            t
        } else {
            cursor
        },
        None => cursor,
    }
}

/// Owner of the time cursor that marks where the next fetch starts.
pub struct Scheduler {
    /// Epoch-second timestamp the next fetch starts from.
    pub cursor: u64,
}

impl Scheduler {
    /// Read the starting cursor from the most recently persisted row.
    ///
    /// `latest_start` is the `start_time` of the row with the greatest
    /// `end_time` in the depth series, if any. An absent or unparsable
    /// value falls back to `now` less one bucket.
    pub fn bootstrap(latest_start: Option<&String>, now: u64) -> (s: Scheduler)
        requires
            now >= ONE_BUCKET,
        ensures
            s.cursor == spec_bootstrap(latest_start, now),
    {
        let cursor = match latest_start {
            Some(text) => match parse_u64(text.as_str()) {
                Some(v) => v,
                None => now - ONE_BUCKET,
            },
            None => now - ONE_BUCKET,
        };
        Scheduler { cursor }
    }

    /// Decide what to do with this cycle's batch; the cursor is untouched.
    pub fn decide(&self, now: u64, last_end: Option<u64>) -> (a: CycleAction)
        requires
            last_end matches Some(t) ==> t <= u64::MAX - ONE_BUCKET,
        ensures
            a == spec_decide(now, last_end),
    {
        match last_end {
            None => CycleAction::Sleep(ONE_BUCKET),
            Some(t) => {
                if t <= u64::MAX - ONE_BUCKET && t + ONE_BUCKET <= now {
                    CycleAction::Persist
                } else if t <= now {
                    CycleAction::Sleep(ONE_BUCKET)
                } else {
                    CycleAction::Sleep(ONE_BUCKET + (t - now))
                }
            },
        }
    }

    /// Advance the cursor after a cycle whose batch was persisted in full:
    /// the next fetch starts at the end of what this one covered.
    pub fn complete_cycle(&mut self, last_end: u64)
        ensures
            final(self).cursor == last_end,
    {
        self.cursor = last_end;
    }
}

/// Cursor monotonicity: as long as the source honours its contract — the
/// final record of a batch fetched from `cursor` ends at or after `cursor` —
/// the cursor after any completed cycle is at least the cursor before it.
/// (A source that returned records ending before the requested cursor could
/// move it backwards; such a batch is outside the fetcher contract.)
pub proof fn lemma_cursor_monotonic(cursor: u64, now: u64, last_end: Option<u64>)
    requires
        last_end matches Some(t) ==> t >= cursor,
    ensures
        spec_cycle_cursor(cursor, now, last_end) >= cursor,
{
}

} // verus!
