use midgard_history::bucket::{bucket_id, BucketWidth};
use midgard_history::earn::{assemble_earnings, get_earning_history, EarningJoinRow};
use midgard_history::engine::{get_depth_history, get_rune_pool_history, get_swaps_history};
use midgard_history::error::AppError;
use midgard_history::model::{DepthInterval, EarningInterval, Pool, QueryParams, RunePoolInterval};
use midgard_history::plan::{build_plan, Series, SortColumn, SortOrder};
use midgard_history::store::{
    insert_depth_interval, insert_earning_interval, insert_runepool_interval, persist_depth,
    persist_swaps, Store,
};

fn depth(start: u64, end: u64) -> DepthInterval {
    DepthInterval {
        asset_depth: format!("ad{}", end),
        asset_price: format!("ap{}", end),
        asset_price_usd: format!("apu{}", end),
        end_time: format!("{}", end),
        liquidity_units: format!("lu{}", end),
        luvi: format!("lv{}", end),
        members_count: format!("mc{}", end),
        rune_depth: format!("rd{}", end),
        start_time: format!("{}", start),
        synth_supply: format!("ss{}", end),
        synth_units: format!("su{}", end),
        units: format!("u{}", end),
    }
}

fn swaps(start: u64, end: u64) -> midgard_history::model::SwapsInterval {
    midgard_history::model::SwapsInterval {
        average_slip: "1".to_string(),
        end_time: format!("{}", end),
        from_trade_average_slip: "2".to_string(),
        from_trade_count: "3".to_string(),
        from_trade_fees: "4".to_string(),
        from_trade_volume: "5".to_string(),
        from_trade_volume_usd: "6".to_string(),
        rune_price_usd: "7".to_string(),
        start_time: format!("{}", start),
        synth_mint_average_slip: "8".to_string(),
        synth_mint_count: "9".to_string(),
        synth_mint_fees: "10".to_string(),
        synth_mint_volume: "11".to_string(),
        synth_mint_volume_usd: "12".to_string(),
        synth_redeem_average_slip: "13".to_string(),
        synth_redeem_count: "14".to_string(),
        synth_redeem_fees: "15".to_string(),
        synth_redeem_volume: "16".to_string(),
        synth_redeem_volume_usd: "17".to_string(),
        to_asset_average_slip: "18".to_string(),
        to_asset_count: "19".to_string(),
        to_asset_fees: "20".to_string(),
        to_asset_volume: "21".to_string(),
        to_asset_volume_usd: "22".to_string(),
        to_rune_average_slip: "23".to_string(),
        to_rune_count: "24".to_string(),
        to_rune_fees: "25".to_string(),
        to_rune_volume: "26".to_string(),
        to_rune_volume_usd: "27".to_string(),
        total_count: "28".to_string(),
        total_fees: "29".to_string(),
        total_volume: "30".to_string(),
        total_volume_usd: "31".to_string(),
    }
}

fn runepool(start: u64, end: u64) -> RunePoolInterval {
    RunePoolInterval {
        count: format!("c{}", end),
        end_time: format!("{}", end),
        start_time: format!("{}", start),
        units: format!("u{}", end),
    }
}

fn pool(name: &str) -> Pool {
    Pool {
        asset_liquidity_fees: Some("1".to_string()),
        earnings: Some("2".to_string()),
        pool: Some(name.to_string()),
        rewards: Some("3".to_string()),
        rune_liquidity_fees: Some("4".to_string()),
        saver_earning: Some("5".to_string()),
        total_liquidity_fees_rune: Some("6".to_string()),
    }
}

fn earning(start: u64, end: u64, pools: Vec<Pool>) -> EarningInterval {
    EarningInterval {
        avg_node_count: format!("an{}", end),
        block_rewards: format!("br{}", end),
        bonding_earnings: format!("be{}", end),
        earnings: format!("{}", end),
        end_time: format!("{}", end),
        liquidity_earnings: format!("le{}", end),
        liquidity_fees: format!("lf{}", end),
        rune_price_usd: format!("rp{}", end),
        start_time: format!("{}", start),
        pools,
    }
}

fn join_row(start: u64, end: u64, pool_name: Option<&str>) -> EarningJoinRow {
    EarningJoinRow {
        avg_node_count: format!("an{}", end),
        block_rewards: format!("br{}", end),
        bonding_earnings: format!("be{}", end),
        earnings: format!("{}", end),
        end_time: format!("{}", end),
        liquidity_earnings: format!("le{}", end),
        liquidity_fees: format!("lf{}", end),
        rune_price_usd: format!("rp{}", end),
        start_time: format!("{}", start),
        pool: pool_name.map(pool),
    }
}

fn params() -> QueryParams {
    QueryParams::all_defaults()
}

fn ends(rows: &[DepthInterval]) -> Vec<String> {
    rows.iter().map(|r| r.end_time.clone()).collect()
}

// --------------------------------------------------------------------------
// Planning
// --------------------------------------------------------------------------

#[test]
fn plan_defaults_per_series() {
    let p = build_plan(Series::Depth, &params()).unwrap();
    assert_eq!(p.limit, 400);
    assert_eq!(p.offset, 0);
    assert_eq!(p.sort, SortColumn::EndTime);
    assert_eq!(p.order, SortOrder::Desc);
    assert_eq!(p.bucket, None);
    assert_eq!(p.pool, None);
    let e = build_plan(Series::Earnings, &params()).unwrap();
    assert_eq!(e.limit, 27);
}

#[test]
fn plan_computes_the_page_offset() {
    let mut q = params();
    q.page = Some(3);
    q.limit = Some(7);
    let p = build_plan(Series::Swaps, &q).unwrap();
    assert_eq!(p.offset, 14);
    assert_eq!(p.limit, 7);
}

#[test]
fn plan_rejects_malformed_time_bounds() {
    let mut q = params();
    q.start_time = Some("yesterday".to_string());
    assert_eq!(build_plan(Series::Depth, &q).unwrap_err(), AppError::MalformedPayload);
    let mut q2 = params();
    q2.end_time = Some("-5".to_string());
    assert_eq!(build_plan(Series::Depth, &q2).unwrap_err(), AppError::MalformedPayload);
}

#[test]
fn plan_parses_bounds_order_and_interval() {
    let mut q = params();
    q.start_time = Some("100".to_string());
    q.end_time = Some("900".to_string());
    q.order = Some("asc".to_string());
    q.interval = Some("week".to_string());
    let p = build_plan(Series::RunePool, &q).unwrap();
    assert_eq!(p.start, Some(100));
    assert_eq!(p.end, Some(900));
    assert_eq!(p.order, SortOrder::Asc);
    assert_eq!(p.bucket, Some(BucketWidth::Week));
    let mut q2 = params();
    q2.order = Some("ASC".to_string());
    q2.interval = Some("quarter".to_string());
    let p2 = build_plan(Series::RunePool, &q2).unwrap();
    assert_eq!(p2.order, SortOrder::Asc);
    // an unknown interval token means no thinning
    assert_eq!(p2.bucket, None);
}

#[test]
fn sort_allowlist_is_per_series() {
    let mut q = params();
    q.sort_by = Some("earnings".to_string());
    // earnings column exists only on the earnings series
    assert_eq!(build_plan(Series::Earnings, &q).unwrap().sort, SortColumn::Earnings);
    assert_eq!(build_plan(Series::Depth, &q).unwrap().sort, SortColumn::EndTime);
    let mut q2 = params();
    q2.sort_by = Some("start_time".to_string());
    assert_eq!(build_plan(Series::Depth, &q2).unwrap().sort, SortColumn::StartTime);
}

#[test]
fn unknown_sort_column_falls_back_without_error() {
    let mut store = Store::new();
    for e in [200u64, 400, 300] {
        insert_depth_interval(&mut store, depth(e - 100, e)).unwrap();
    }
    let mut q = params();
    q.sort_by = Some("unknown_column".to_string());
    let fallback = get_depth_history(&store, &q).unwrap();
    let default = get_depth_history(&store, &params()).unwrap();
    assert_eq!(ends(&fallback), ends(&default));
    assert_eq!(ends(&fallback), vec!["400", "300", "200"]);
}

// --------------------------------------------------------------------------
// Calendar buckets
// --------------------------------------------------------------------------

#[test]
fn bucket_identifiers_follow_the_calendar() {
    let t: u64 = 1_700_000_000; // late in the day, 2023-11-14 UTC
    assert_eq!(bucket_id(BucketWidth::Day, t), 19675);
    assert_eq!(bucket_id(BucketWidth::Week, t), 2811);
    assert_eq!(bucket_id(BucketWidth::Month, t), 646);
    assert_eq!(bucket_id(BucketWidth::Year, t), 2023);
    // same day, same buckets
    assert_eq!(bucket_id(BucketWidth::Day, t - 1), 19675);
    // day boundary
    assert_eq!(bucket_id(BucketWidth::Day, 86_399), 0);
    assert_eq!(bucket_id(BucketWidth::Day, 86_400), 1);
    // year boundary, leap year ahead
    assert_eq!(bucket_id(BucketWidth::Year, 1_704_067_199), 2023);
    assert_eq!(bucket_id(BucketWidth::Year, 1_704_067_200), 2024);
    assert_eq!(bucket_id(BucketWidth::Month, 1_704_067_199), 647);
    assert_eq!(bucket_id(BucketWidth::Month, 1_704_067_200), 648);
}

// --------------------------------------------------------------------------
// Flat queries
// --------------------------------------------------------------------------

#[test]
fn three_days_thin_to_three_rows() {
    let mut store = Store::new();
    // two rows on day 19675, one on day 0, two on day 1
    for (s, e) in [
        (1u64, 1_699_999_999u64),
        (2, 1_700_000_000),
        (3, 86_399),
        (4, 86_400),
        (5, 86_500),
    ] {
        insert_depth_interval(&mut store, depth(s, e)).unwrap();
    }
    let mut q = params();
    q.interval = Some("day".to_string());
    let rows = get_depth_history(&store, &q).unwrap();
    // exactly one row per distinct day, each the greatest end_time of its
    // day, in the default descending order
    assert_eq!(ends(&rows), vec!["1700000000", "86500", "86399"]);
}

#[test]
fn pagination_returns_the_requested_page() {
    let mut store = Store::new();
    let batch: Vec<DepthInterval> = (0..25u64).map(|i| depth(900 + i, 1000 + i)).collect();
    persist_depth(&mut store, &batch).unwrap();
    let mut q = params();
    q.page = Some(2);
    q.limit = Some(10);
    q.order = Some("asc".to_string());
    let rows = get_depth_history(&store, &q).unwrap();
    // rows 11..=20 of the ascending series
    let expect: Vec<String> = (1010..1020u64).map(|e| format!("{}", e)).collect();
    assert_eq!(ends(&rows), expect);
}

#[test]
fn out_of_range_page_is_empty_not_an_error() {
    let mut store = Store::new();
    let batch: Vec<DepthInterval> = (0..25u64).map(|i| depth(900 + i, 1000 + i)).collect();
    persist_depth(&mut store, &batch).unwrap();
    let mut q = params();
    q.page = Some(10);
    q.limit = Some(10);
    let rows = get_depth_history(&store, &q).unwrap();
    assert!(rows.is_empty());
}

#[test]
fn time_bounds_filter_with_logical_and() {
    let mut store = Store::new();
    for (s, e) in [(100u64, 200u64), (300, 400), (500, 600), (700, 800)] {
        insert_depth_interval(&mut store, depth(s, e)).unwrap();
    }
    let mut q = params();
    q.start_time = Some("300".to_string());
    q.end_time = Some("600".to_string());
    let rows = get_depth_history(&store, &q).unwrap();
    assert_eq!(ends(&rows), vec!["600", "400"]);
}

#[test]
fn swaps_and_runepool_share_the_engine() {
    let mut store = Store::new();
    persist_swaps(&mut store, &vec![swaps(1, 10), swaps(2, 20)]).unwrap();
    let got = get_swaps_history(&store, &params()).unwrap();
    assert_eq!(got.len(), 2);
    assert_eq!(got[0].end_time, "20");
    assert_eq!(got[1].end_time, "10");

    insert_runepool_interval(&mut store, runepool(5, 50)).unwrap();
    insert_runepool_interval(&mut store, runepool(6, 60)).unwrap();
    let mut q = params();
    q.order = Some("asc".to_string());
    let rp = get_rune_pool_history(&store, &q).unwrap();
    assert_eq!(rp[0].end_time, "50");
    assert_eq!(rp[1].end_time, "60");
}

#[test]
fn malformed_query_bound_is_surfaced() {
    let store = Store::new();
    let mut q = params();
    q.end_time = Some("never".to_string());
    assert_eq!(get_depth_history(&store, &q).unwrap_err(), AppError::MalformedPayload);
}

// --------------------------------------------------------------------------
// Earnings assembly
// --------------------------------------------------------------------------

#[test]
fn assembler_groups_rows_by_start_time() {
    let rows = vec![
        join_row(100, 500, Some("BTC.BTC")),
        join_row(100, 500, Some("ETH.ETH")),
        join_row(200, 600, None),
    ];
    let out = assemble_earnings(&rows);
    assert_eq!(out.len(), 2);
    assert_eq!(out[0].start_time, "100");
    assert_eq!(out[0].pools.len(), 2);
    assert_eq!(out[0].pools[0].pool, Some("BTC.BTC".to_string()));
    assert_eq!(out[0].pools[1].pool, Some("ETH.ETH".to_string()));
    assert_eq!(out[1].start_time, "200");
    assert_eq!(out[1].pools.len(), 0);
}

#[test]
fn assembler_takes_parent_fields_from_the_first_row() {
    let mut second = join_row(100, 500, Some("ETH.ETH"));
    second.avg_node_count = "different".to_string();
    let rows = vec![join_row(100, 500, Some("BTC.BTC")), second];
    let out = assemble_earnings(&rows);
    assert_eq!(out.len(), 1);
    assert_eq!(out[0].avg_node_count, "an500");
    assert_eq!(out[0].pools.len(), 2);
}

#[test]
fn earnings_query_joins_and_assembles() {
    let mut store = Store::new();
    insert_earning_interval(
        &mut store,
        earning(100, 1000, vec![pool("BTC.BTC"), pool("ETH.ETH")]),
    )
    .unwrap();
    insert_earning_interval(&mut store, earning(200, 2000, vec![])).unwrap();
    let out = get_earning_history(&store, &params()).unwrap();
    // default order: end_time descending, so the childless interval first
    assert_eq!(out.len(), 2);
    assert_eq!(out[0].start_time, "200");
    assert_eq!(out[0].pools.len(), 0);
    assert_eq!(out[1].start_time, "100");
    assert_eq!(out[1].pools.len(), 2);
}

#[test]
fn earnings_pool_filter_matches_exactly() {
    let mut store = Store::new();
    insert_earning_interval(
        &mut store,
        earning(100, 1000, vec![pool("BTC.BTC"), pool("ETH.ETH")]),
    )
    .unwrap();
    insert_earning_interval(&mut store, earning(200, 2000, vec![])).unwrap();
    let mut q = params();
    q.pool = Some("BTC.BTC".to_string());
    let out = get_earning_history(&store, &q).unwrap();
    // only the joined rows whose pool matches survive; the childless
    // parent disappears, as does the ETH row
    assert_eq!(out.len(), 1);
    assert_eq!(out[0].start_time, "100");
    assert_eq!(out[0].pools.len(), 1);
    assert_eq!(out[0].pools[0].pool, Some("BTC.BTC".to_string()));
}

#[test]
fn earnings_sort_by_text_column() {
    let mut store = Store::new();
    insert_earning_interval(&mut store, earning(100, 300, vec![])).unwrap();
    insert_earning_interval(&mut store, earning(200, 1000, vec![])).unwrap();
    let mut q = params();
    q.sort_by = Some("earnings".to_string());
    q.order = Some("asc".to_string());
    let out = get_earning_history(&store, &q).unwrap();
    // the earnings column is decimal-preserving text and sorts
    // lexicographically: "1000" orders before "300"
    assert_eq!(out.len(), 2);
    assert_eq!(out[0].earnings, "1000");
    assert_eq!(out[1].earnings, "300");
}

#[test]
fn empty_store_queries_are_empty() {
    let store = Store::new();
    assert!(get_depth_history(&store, &params()).unwrap().is_empty());
    assert!(get_swaps_history(&store, &params()).unwrap().is_empty());
    assert!(get_rune_pool_history(&store, &params()).unwrap().is_empty());
    assert!(get_earning_history(&store, &params()).unwrap().is_empty());
}

#[test]
fn zero_limit_gives_empty_pages() {
    let mut store = Store::new();
    insert_depth_interval(&mut store, depth(1, 2)).unwrap();
    let mut q = params();
    q.limit = Some(0);
    assert!(get_depth_history(&store, &q).unwrap().is_empty());
}

#[test]
fn page_zero_is_treated_as_the_first_page() {
    let mut store = Store::new();
    insert_depth_interval(&mut store, depth(1, 2)).unwrap();
    let mut q = params();
    q.page = Some(0);
    let p = build_plan(Series::Depth, &q).unwrap();
    assert_eq!(p.offset, 0);
    assert_eq!(get_depth_history(&store, &q).unwrap().len(), 1);
}

#[test]
fn month_thinning_keeps_one_row_per_month() {
    let mut store = Store::new();
    // 2023-11, 2023-12 and 2024-01, with two rows in December
    for (s, e) in [
        (1u64, 1_700_000_000u64),
        (2, 1_704_067_199),
        (3, 1_704_000_000),
        (4, 1_704_067_200),
    ] {
        insert_depth_interval(&mut store, depth(s, e)).unwrap();
    }
    let mut q = params();
    q.interval = Some("month".to_string());
    let rows = get_depth_history(&store, &q).unwrap();
    assert_eq!(ends(&rows), vec!["1704067200", "1704067199", "1700000000"]);
}

#[test]
fn pool_filter_without_match_is_empty() {
    let mut store = Store::new();
    insert_earning_interval(&mut store, earning(100, 1000, vec![pool("BTC.BTC")])).unwrap();
    let mut q = params();
    q.pool = Some("DOGE.DOGE".to_string());
    assert!(get_earning_history(&store, &q).unwrap().is_empty());
}
