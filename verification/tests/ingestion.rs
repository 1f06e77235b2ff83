use midgard_history::error::AppError;
use midgard_history::model::{DepthInterval, EarningInterval, Pool, RunePoolInterval, SwapsInterval};
use midgard_history::sched::{CycleAction, Scheduler, FETCH_COUNT, ONE_BUCKET};
use midgard_history::store::{
    insert_depth_interval, insert_earning_interval, insert_pool, insert_runepool_interval,
    insert_swaps_interval, persist_depth, persist_earnings, persist_runepool, persist_swaps, Store,
};
use midgard_history::timeparse::parse_u64;

fn depth(start: u64, end: u64) -> DepthInterval {
    DepthInterval {
        asset_depth: format!("ad{}", end),
        asset_price: format!("ap{}", end),
        asset_price_usd: format!("apu{}", end),
        end_time: format!("{}", end),
        liquidity_units: format!("lu{}", end),
        luvi: format!("lv{}", end),
        members_count: format!("mc{}", end),
        rune_depth: format!("rd{}", end),
        start_time: format!("{}", start),
        synth_supply: format!("ss{}", end),
        synth_units: format!("su{}", end),
        units: format!("u{}", end),
    }
}

fn swaps(start: u64, end: u64) -> SwapsInterval {
    SwapsInterval {
        average_slip: "1".to_string(),
        end_time: format!("{}", end),
        from_trade_average_slip: "2".to_string(),
        from_trade_count: "3".to_string(),
        from_trade_fees: "4".to_string(),
        from_trade_volume: "5".to_string(),
        from_trade_volume_usd: "6".to_string(),
        rune_price_usd: "7".to_string(),
        start_time: format!("{}", start),
        synth_mint_average_slip: "8".to_string(),
        synth_mint_count: "9".to_string(),
        synth_mint_fees: "10".to_string(),
        synth_mint_volume: "11".to_string(),
        synth_mint_volume_usd: "12".to_string(),
        synth_redeem_average_slip: "13".to_string(),
        synth_redeem_count: "14".to_string(),
        synth_redeem_fees: "15".to_string(),
        synth_redeem_volume: "16".to_string(),
        synth_redeem_volume_usd: "17".to_string(),
        to_asset_average_slip: "18".to_string(),
        to_asset_count: "19".to_string(),
        to_asset_fees: "20".to_string(),
        to_asset_volume: "21".to_string(),
        to_asset_volume_usd: "22".to_string(),
        to_rune_average_slip: "23".to_string(),
        to_rune_count: "24".to_string(),
        to_rune_fees: "25".to_string(),
        to_rune_volume: "26".to_string(),
        to_rune_volume_usd: "27".to_string(),
        total_count: "28".to_string(),
        total_fees: "29".to_string(),
        total_volume: "30".to_string(),
        total_volume_usd: "31".to_string(),
    }
}

fn runepool(start: u64, end: u64) -> RunePoolInterval {
    RunePoolInterval {
        count: format!("c{}", end),
        end_time: format!("{}", end),
        start_time: format!("{}", start),
        units: format!("u{}", end),
    }
}

fn pool(name: &str) -> Pool {
    Pool {
        asset_liquidity_fees: Some("1".to_string()),
        earnings: Some("2".to_string()),
        pool: Some(name.to_string()),
        rewards: Some("3".to_string()),
        rune_liquidity_fees: Some("4".to_string()),
        saver_earning: Some("5".to_string()),
        total_liquidity_fees_rune: Some("6".to_string()),
    }
}

fn earning(start: u64, end: u64, pools: Vec<Pool>) -> EarningInterval {
    EarningInterval {
        avg_node_count: format!("an{}", end),
        block_rewards: format!("br{}", end),
        bonding_earnings: format!("be{}", end),
        earnings: format!("{}", end),
        end_time: format!("{}", end),
        liquidity_earnings: format!("le{}", end),
        liquidity_fees: format!("lf{}", end),
        rune_price_usd: format!("rp{}", end),
        start_time: format!("{}", start),
        pools,
    }
}

#[test]
fn parse_u64_accepts_plain_decimals() {
    assert_eq!(parse_u64("0"), Some(0));
    assert_eq!(parse_u64("1700000000"), Some(1_700_000_000));
    assert_eq!(parse_u64("007"), Some(7));
    assert_eq!(parse_u64("18446744073709551615"), Some(u64::MAX));
}

#[test]
fn parse_u64_rejects_everything_else() {
    assert_eq!(parse_u64(""), None);
    assert_eq!(parse_u64("-1"), None);
    assert_eq!(parse_u64("12a"), None);
    assert_eq!(parse_u64(" 12"), None);
    assert_eq!(parse_u64("1.5"), None);
    // one past u64::MAX
    assert_eq!(parse_u64("18446744073709551616"), None);
}

#[test]
fn insert_skips_duplicate_end_time() {
    let mut store = Store::new();
    assert_eq!(insert_depth_interval(&mut store, depth(100, 200)), Ok(true));
    assert_eq!(insert_depth_interval(&mut store, depth(999, 200)), Ok(false));
    assert_eq!(store.depth.rows.len(), 1);
    // the first write is never overwritten
    assert_eq!(store.depth.rows[0].item.start_time, "100");
    assert_eq!(store.depth.rows[0].end_key, 200);
    assert_eq!(store.depth.rows[0].start_key, 100);
}

#[test]
fn insert_rejects_malformed_times() {
    let mut store = Store::new();
    let mut bad = depth(100, 200);
    bad.end_time = "soon".to_string();
    assert_eq!(
        insert_depth_interval(&mut store, bad),
        Err(AppError::MalformedPayload)
    );
    assert_eq!(store.depth.rows.len(), 0);
}

#[test]
fn persist_depth_twice_changes_nothing() {
    let mut store = Store::new();
    let batch = vec![depth(100, 200), depth(200, 300), depth(100, 200)];
    assert_eq!(persist_depth(&mut store, &batch), Ok(2));
    let after_first = store.depth.rows.len();
    let snapshot: Vec<(u64, u64)> = store
        .depth
        .rows
        .iter()
        .map(|r| (r.end_key, r.start_key))
        .collect();
    // same batch again: no new rows, contents untouched
    assert_eq!(persist_depth(&mut store, &batch), Ok(0));
    assert_eq!(store.depth.rows.len(), after_first);
    let again: Vec<(u64, u64)> = store
        .depth
        .rows
        .iter()
        .map(|r| (r.end_key, r.start_key))
        .collect();
    assert_eq!(snapshot, again);
}

#[test]
fn persist_is_atomic_on_malformed_batches() {
    let mut store = Store::new();
    let mut bad = depth(300, 400);
    bad.start_time = "x".to_string();
    let batch = vec![depth(100, 200), bad];
    assert_eq!(persist_depth(&mut store, &batch), Err(AppError::MalformedPayload));
    assert_eq!(store.depth.rows.len(), 0);
}

#[test]
fn persist_swaps_and_runepool_count_new_rows() {
    let mut store = Store::new();
    assert_eq!(persist_swaps(&mut store, &vec![swaps(1, 2), swaps(2, 3)]), Ok(2));
    assert_eq!(persist_swaps(&mut store, &vec![swaps(2, 3), swaps(3, 4)]), Ok(1));
    assert_eq!(insert_swaps_interval(&mut store, swaps(9, 9)), Ok(true));
    assert_eq!(store.swaps.rows.len(), 4);

    assert_eq!(persist_runepool(&mut store, &vec![runepool(1, 2)]), Ok(1));
    assert_eq!(insert_runepool_interval(&mut store, runepool(1, 2)), Ok(false));
    assert_eq!(store.rune.rows.len(), 1);
}

#[test]
fn earning_insert_writes_parent_then_children() {
    let mut store = Store::new();
    let e = earning(100, 500, vec![pool("BTC.BTC"), pool("ETH.ETH")]);
    assert_eq!(insert_earning_interval(&mut store, e), Ok(true));
    assert_eq!(store.earnings.rows.len(), 1);
    assert_eq!(store.pools.len(), 2);
    assert_eq!(store.pools[0].interval_id, 0);
    assert_eq!(store.pools[1].interval_id, 0);
    assert_eq!(store.pools[0].item.pool, Some("BTC.BTC".to_string()));
}

#[test]
fn skipped_earning_parent_inserts_zero_pools() {
    let mut store = Store::new();
    let first = earning(100, 500, vec![pool("BTC.BTC")]);
    assert_eq!(insert_earning_interval(&mut store, first), Ok(true));
    assert_eq!(store.pools.len(), 1);
    // same end_time conflicts: parent skipped, zero pool rows inserted
    let second = earning(999, 500, vec![pool("ETH.ETH"), pool("DOGE.DOGE")]);
    assert_eq!(insert_earning_interval(&mut store, second), Ok(false));
    assert_eq!(store.earnings.rows.len(), 1);
    assert_eq!(store.pools.len(), 1);
    assert_eq!(store.pools[0].item.pool, Some("BTC.BTC".to_string()));
}

#[test]
fn persist_earnings_twice_adds_no_duplicate_pools() {
    let mut store = Store::new();
    let batch = || {
        vec![
            earning(100, 500, vec![pool("BTC.BTC"), pool("ETH.ETH")]),
            earning(200, 600, vec![]),
        ]
    };
    assert_eq!(persist_earnings(&mut store, batch()), Ok(2));
    assert_eq!(store.earnings.rows.len(), 2);
    assert_eq!(store.pools.len(), 2);
    assert_eq!(persist_earnings(&mut store, batch()), Ok(0));
    assert_eq!(store.earnings.rows.len(), 2);
    assert_eq!(store.pools.len(), 2);
}

#[test]
fn insert_pool_references_its_parent() {
    let mut store = Store::new();
    assert_eq!(insert_earning_interval(&mut store, earning(1, 2, vec![])), Ok(true));
    insert_pool(&mut store, pool("BTC.BTC"), 0);
    assert_eq!(store.pools.len(), 1);
    assert_eq!(store.pools[0].interval_id, 0);
}

#[test]
fn bootstrap_reads_the_persisted_cursor() {
    let s = Scheduler::bootstrap(Some(&"12345".to_string()), 1_000_000);
    assert_eq!(s.cursor, 12345);
}

#[test]
fn bootstrap_falls_back_on_missing_or_unreadable_cursor() {
    let now = 1_000_000;
    let none = Scheduler::bootstrap(None, now);
    assert_eq!(none.cursor, now - ONE_BUCKET);
    let bad = Scheduler::bootstrap(Some(&"not-a-number".to_string()), now);
    assert_eq!(bad.cursor, now - ONE_BUCKET);
}

#[test]
fn decide_persists_only_batches_a_full_bucket_old() {
    let s = Scheduler::bootstrap(None, 1_000_000);
    let now = 1_000_000;
    // aged a full bucket: persist
    assert_eq!(s.decide(now, Some(now - ONE_BUCKET)), CycleAction::Persist);
    assert_eq!(s.decide(now, Some(now - ONE_BUCKET - 1)), CycleAction::Persist);
    // too fresh: sleep one bucket and retry the same cursor
    assert_eq!(s.decide(now, Some(now - ONE_BUCKET + 1)), CycleAction::Sleep(ONE_BUCKET));
    assert_eq!(s.decide(now, Some(now)), CycleAction::Sleep(ONE_BUCKET));
    // a record ending in the future: wait out the bucket plus the lead
    assert_eq!(s.decide(now, Some(now + 10)), CycleAction::Sleep(ONE_BUCKET + 10));
}

#[test]
fn empty_batch_means_caught_up_not_stopped() {
    let s = Scheduler::bootstrap(None, 1_000_000);
    assert_eq!(s.decide(1_000_000, None), CycleAction::Sleep(ONE_BUCKET));
}

#[test]
fn completed_cycle_advances_the_cursor_monotonically() {
    let mut s = Scheduler::bootstrap(Some(&"5000".to_string()), 1_000_000);
    let before = s.cursor;
    // the fetcher returns records at or after the cursor, so the batch end
    // is at least the cursor; after a persisted cycle the cursor moved up
    let last_end = before + 400 * ONE_BUCKET;
    assert_eq!(s.decide(last_end + ONE_BUCKET, Some(last_end)), CycleAction::Persist);
    s.complete_cycle(last_end);
    assert!(s.cursor >= before);
    assert_eq!(s.cursor, last_end);
}

#[test]
fn fetch_count_matches_the_source_page_size() {
    assert_eq!(FETCH_COUNT, 400);
}

#[test]
fn error_messages_name_the_failure() {
    assert_eq!(AppError::StoreUnavailable.message(), "store unavailable");
    assert_eq!(AppError::SourceUnavailable.message(), "source unavailable");
    assert_eq!(AppError::MalformedPayload.message(), "malformed payload");
    assert_eq!(AppError::CursorParseFailure.message(), "cursor parse failure");
}
