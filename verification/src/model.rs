//! Record shapes of the four tracked series.
//!
//! Every numeric field is decimal-preserving text: values are stored exactly
//! as the source reported them, never as binary floats, so re-ingestion can
//! never introduce rounding drift. Each record covers one interval
//! `[start_time, end_time)` of the series, with `end_time` acting as the
//! write-once uniqueness key.
//!
//! `Clone` is implemented by hand so that verified code knows a clone equals
//! the original.

use vstd::prelude::*;

verus! {

/// One liquidity-depth interval.
#[derive(Debug, PartialEq, Eq)]
pub struct DepthInterval {
    pub asset_depth: String,
    pub asset_price: String,
    pub asset_price_usd: String,
    pub end_time: String,
    pub liquidity_units: String,
    pub luvi: String,
    pub members_count: String,
    pub rune_depth: String,
    pub start_time: String,
    pub synth_supply: String,
    pub synth_units: String,
    pub units: String,
}

impl Clone for DepthInterval {
    fn clone(&self) -> (res: Self)
        ensures
            res == *self,
    {
        DepthInterval {
            asset_depth: self.asset_depth.clone(),
            asset_price: self.asset_price.clone(),
            asset_price_usd: self.asset_price_usd.clone(),
            end_time: self.end_time.clone(),
            liquidity_units: self.liquidity_units.clone(),
            luvi: self.luvi.clone(),
            members_count: self.members_count.clone(),
            rune_depth: self.rune_depth.clone(),
            start_time: self.start_time.clone(),
            synth_supply: self.synth_supply.clone(),
            synth_units: self.synth_units.clone(),
            units: self.units.clone(),
        }
    }
}

/// One swap-activity interval.
#[derive(Debug, PartialEq, Eq)]
pub struct SwapsInterval {
    pub average_slip: String,
    pub end_time: String,
    pub from_trade_average_slip: String,
    pub from_trade_count: String,
    pub from_trade_fees: String,
    pub from_trade_volume: String,
    pub from_trade_volume_usd: String,
    pub rune_price_usd: String,
    pub start_time: String,
    pub synth_mint_average_slip: String,
    pub synth_mint_count: String,
    pub synth_mint_fees: String,
    pub synth_mint_volume: String,
    pub synth_mint_volume_usd: String,
    pub synth_redeem_average_slip: String,
    pub synth_redeem_count: String,
    pub synth_redeem_fees: String,
    pub synth_redeem_volume: String,
    pub synth_redeem_volume_usd: String,
    pub to_asset_average_slip: String,
    pub to_asset_count: String,
    pub to_asset_fees: String,
    pub to_asset_volume: String,
    pub to_asset_volume_usd: String,
    pub to_rune_average_slip: String,
    pub to_rune_count: String,
    pub to_rune_fees: String,
    pub to_rune_volume: String,
    pub to_rune_volume_usd: String,
    pub total_count: String,
    pub total_fees: String,
    pub total_volume: String,
    pub total_volume_usd: String,
}

impl Clone for SwapsInterval {
    fn clone(&self) -> (res: Self)
        ensures
            res == *self,
    {
        SwapsInterval {
            average_slip: self.average_slip.clone(),
            end_time: self.end_time.clone(),
            from_trade_average_slip: self.from_trade_average_slip.clone(),
            from_trade_count: self.from_trade_count.clone(),
            from_trade_fees: self.from_trade_fees.clone(),
            from_trade_volume: self.from_trade_volume.clone(),
            from_trade_volume_usd: self.from_trade_volume_usd.clone(),
            rune_price_usd: self.rune_price_usd.clone(),
            start_time: self.start_time.clone(),
            synth_mint_average_slip: self.synth_mint_average_slip.clone(),
            synth_mint_count: self.synth_mint_count.clone(),
            synth_mint_fees: self.synth_mint_fees.clone(),
            synth_mint_volume: self.synth_mint_volume.clone(),
            synth_mint_volume_usd: self.synth_mint_volume_usd.clone(),
            synth_redeem_average_slip: self.synth_redeem_average_slip.clone(),
            synth_redeem_count: self.synth_redeem_count.clone(),
            synth_redeem_fees: self.synth_redeem_fees.clone(),
            synth_redeem_volume: self.synth_redeem_volume.clone(),
            synth_redeem_volume_usd: self.synth_redeem_volume_usd.clone(),
            to_asset_average_slip: self.to_asset_average_slip.clone(),
            to_asset_count: self.to_asset_count.clone(),
            to_asset_fees: self.to_asset_fees.clone(),
            to_asset_volume: self.to_asset_volume.clone(),
            to_asset_volume_usd: self.to_asset_volume_usd.clone(),
            to_rune_average_slip: self.to_rune_average_slip.clone(),
            to_rune_count: self.to_rune_count.clone(),
            to_rune_fees: self.to_rune_fees.clone(),
            to_rune_volume: self.to_rune_volume.clone(),
            to_rune_volume_usd: self.to_rune_volume_usd.clone(),
            total_count: self.total_count.clone(),
            total_fees: self.total_fees.clone(),
            total_volume: self.total_volume.clone(),
            total_volume_usd: self.total_volume_usd.clone(),
        }
    }
}

/// Per-pool breakdown attached to one earning interval.
///
/// Fields are optional because the joined query that feeds the result
/// assembler left-joins pools onto their parent: a parent with no children
/// contributes a row whose child columns are all absent.
#[derive(Debug, PartialEq, Eq)]
pub struct Pool {
    pub asset_liquidity_fees: Option<String>,
    pub earnings: Option<String>,
    pub pool: Option<String>,
    pub rewards: Option<String>,
    pub rune_liquidity_fees: Option<String>,
    pub saver_earning: Option<String>,
    pub total_liquidity_fees_rune: Option<String>,
}

/// Clone an optional text field, preserving its value.
fn clone_opt(s: &Option<String>) -> (res: Option<String>)
    ensures
        res == *s,
{
    match s {
        Some(v) => Some(v.clone()),
        None => None,
    }
}

impl Clone for Pool {
    fn clone(&self) -> (res: Self)
        ensures
            res == *self,
    {
        Pool {
            asset_liquidity_fees: clone_opt(&self.asset_liquidity_fees),
            earnings: clone_opt(&self.earnings),
            pool: clone_opt(&self.pool),
            rewards: clone_opt(&self.rewards),
            rune_liquidity_fees: clone_opt(&self.rune_liquidity_fees),
            saver_earning: clone_opt(&self.saver_earning),
            total_liquidity_fees_rune: clone_opt(&self.total_liquidity_fees_rune),
        }
    }
}

/// One earnings interval: flat parent fields plus the ordered list of pool
/// children it owns. A `Pool` has no lifecycle of its own.
#[derive(Debug, PartialEq, Eq)]
pub struct EarningInterval {
    pub avg_node_count: String,
    pub block_rewards: String,
    pub bonding_earnings: String,
    pub earnings: String,
    pub end_time: String,
    pub liquidity_earnings: String,
    pub liquidity_fees: String,
    pub rune_price_usd: String,
    pub start_time: String,
    pub pools: Vec<Pool>,
}

/// One RUNE-pool membership interval.
#[derive(Debug, PartialEq, Eq)]
pub struct RunePoolInterval {
    pub count: String,
    pub end_time: String,
    pub start_time: String,
    pub units: String,
}

impl Clone for RunePoolInterval {
    fn clone(&self) -> (res: Self)
        ensures
            res == *self,
    {
        RunePoolInterval {
            count: self.count.clone(),
            end_time: self.end_time.clone(),
            start_time: self.start_time.clone(),
            units: self.units.clone(),
        }
    }
}

/// Raw caller-supplied query parameters, all optional.
///
/// Nothing here is trusted: the query planner validates every field against
/// per-series defaults and allowlists before anything reaches the store.
#[derive(Debug)]
pub struct QueryParams {
    pub page: Option<u32>,
    pub limit: Option<u32>,
    pub start_time: Option<String>,
    pub end_time: Option<String>,
    pub sort_by: Option<String>,
    pub order: Option<String>,
    pub pool: Option<String>,
    pub interval: Option<String>,
}

impl QueryParams {
    /// Parameters of the plain request: every option left at its default.
    pub fn all_defaults() -> (r: QueryParams)
        ensures
            r.page == None::<u32>,
            r.limit == None::<u32>,
            r.start_time == None::<String>,
            r.end_time == None::<String>,
            r.sort_by == None::<String>,
            r.order == None::<String>,
            r.pool == None::<String>,
            r.interval == None::<String>,
    {
        QueryParams {
            page: None,
            limit: None,
            start_time: None,
            end_time: None,
            sort_by: None,
            order: None,
            pool: None,
            interval: None,
        }
    }
}

} // verus!
