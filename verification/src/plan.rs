//! Query planning: raw caller parameters to a validated plan.
//!
//! Every caller-supplied value is validated or defaulted here, before
//! anything touches the store: page and limit get their per-series
//! defaults, time bounds must parse as epoch seconds, the sort column is
//! checked against a fixed per-series allowlist (an unrecognized token
//! falls back to the series default instead of being passed through), and
//! the bucketing interval must be one of the known calendar widths.
//! Caller text never becomes anything but a bound value in the plan.

use vstd::prelude::*;

use crate::bucket::BucketWidth;
use crate::error::AppError;
use crate::model::QueryParams;
use crate::timeparse::{dec_val, parse_u64, parses_to_u64};

verus! {

/// The four tracked series.
#[derive(Clone, Copy, Debug, PartialEq, Eq, Structural)]
pub enum Series {
    Depth,
    Swaps,
    Earnings,
    RunePool,
}

/// Columns a query may sort by; the allowlist is per series.
#[derive(Clone, Copy, Debug, PartialEq, Eq, Structural)]
pub enum SortColumn {
    StartTime,
    EndTime,
    /// Earnings series only.
    Earnings,
    /// Earnings series only.
    RunePriceUsd,
}

/// Sort direction; descending unless the caller asks for ascending.
#[derive(Clone, Copy, Debug, PartialEq, Eq, Structural)]
pub enum SortOrder {
    Asc,
    Desc,
}

/// A validated query: everything the engine needs, nothing raw.
#[derive(Debug)]
pub struct QueryPlan {
    /// Rows per page.
    pub limit: u32,
    /// Rows skipped before the page starts: `(page - 1) * limit`.
    pub offset: u64,
    /// Keep rows with `start_time >= start`.
    pub start: Option<u64>,
    /// Keep rows with `end_time <= end`.
    pub end: Option<u64>,
    /// Validated sort column.
    pub sort: SortColumn,
    /// Sort direction.
    pub order: SortOrder,
    /// Calendar thinning, if requested.
    pub bucket: Option<BucketWidth>,
    /// Exact pool-name filter; earnings series only.
    pub pool: Option<String>,
}

/// Default page size: 400 rows, except 27 for the earnings series.
pub open spec fn default_limit(series: Series) -> u32 {
    if series == Series::Earnings {
        27
    } else {
        400
    }
}

/// The requested page, at least 1.
pub open spec fn spec_page(params: QueryParams) -> u32 {
    match params.page {
        Some(p) => if p >= 1 {
            p
        } else {
            1
        },
        None => 1,
    }
}

/// The requested page size, defaulted per series.
pub open spec fn spec_limit(series: Series, params: QueryParams) -> u32 {
    match params.limit {
        Some(l) => l,
        None => default_limit(series),
    }
}

/// The per-series sort allowlist: the column a token names, if any.
pub open spec fn allowed_column(series: Series, s: Seq<char>) -> Option<SortColumn> {
    if s == "start_time"@ {
        Some(SortColumn::StartTime)
    } else if s == "end_time"@ {
        Some(SortColumn::EndTime)
    } else if series == Series::Earnings && s == "earnings"@ {
        Some(SortColumn::Earnings)
    } else if series == Series::Earnings && s == "rune_price_usd"@ {
        Some(SortColumn::RunePriceUsd)
    } else {
        None
    }
}

/// The sort column a query uses: the named column when the allowlist knows
/// it, the series default (`end_time`) for anything else or when absent.
pub open spec fn spec_sort_column(series: Series, params: QueryParams) -> SortColumn {
    match params.sort_by {
        Some(s) => match allowed_column(series, s@) {
            Some(c) => c,
            None => SortColumn::EndTime,
        },
        None => SortColumn::EndTime,
    }
}

/// The sort direction: ascending only on an explicit `asc`/`ASC`.
pub open spec fn spec_order(params: QueryParams) -> SortOrder {
    match params.order {
        Some(o) => if o@ == "asc"@ || o@ == "ASC"@ {
            SortOrder::Asc
        } else {
            SortOrder::Desc
        },
        None => SortOrder::Desc,
    }
}

/// The calendar width an interval token names; anything unrecognized means
/// no thinning.
pub open spec fn spec_bucket(params: QueryParams) -> Option<BucketWidth> {
    match params.interval {
        Some(iv) => if iv@ == "day"@ {
            Some(BucketWidth::Day)
        } else if iv@ == "week"@ {
            Some(BucketWidth::Week)
        } else if iv@ == "month"@ {
            Some(BucketWidth::Month)
        } else if iv@ == "year"@ {
            Some(BucketWidth::Year)
        } else {
            None
        },
        None => None,
    }
}

/// Both time bounds, where given, parse as epoch seconds: exactly the
/// inputs `build_plan` accepts.
pub open spec fn time_bounds_ok(params: QueryParams) -> bool {
    &&& (params.start_time matches Some(s) ==> parses_to_u64(s@))
    &&& (params.end_time matches Some(s) ==> parses_to_u64(s@))
}

/// The plan a parameter set validates to (meaningful when
/// `time_bounds_ok` holds).
pub open spec fn spec_plan(series: Series, params: QueryParams) -> QueryPlan {
    QueryPlan {
        limit: spec_limit(series, params),
        offset: ((spec_page(params) - 1) * spec_limit(series, params)) as u64,
        start: match params.start_time {
            Some(s) => Some(dec_val(s@) as u64),
            None => None,
        },
        end: match params.end_time {
            Some(s) => Some(dec_val(s@) as u64),
            None => None,
        },
        sort: spec_sort_column(series, params),
        order: spec_order(params),
        bucket: spec_bucket(params),
        pool: if series == Series::Earnings {
            params.pool
        } else {
            None
        },
    }
}

/// Character-for-character string equality.
pub fn str_eq(a: &str, b: &str) -> (r: bool)
    ensures
        r == (a@ == b@),
{
    let na = a.unicode_len();
    let nb = b.unicode_len();
    if na != nb {
        return false;
    }
    let mut i: usize = 0;
    while i < na
        invariant
            0 <= i <= na,
            na == a@.len(),
            na == b@.len(),
            forall|j: int| 0 <= j < i ==> a@[j] == b@[j],
        decreases na - i,
    {
        if a.get_char(i) != b.get_char(i) {
            return false;
        }
        i = i + 1;
    }
    proof {
        assert(a@ =~= b@);
    }
    true
}

/// Validate raw parameters into a plan for one series.
///
/// Returns `Err(MalformedPayload)` exactly when a given time bound is not a
/// decimal epoch second; every other field is defaulted or falls back, never
/// rejected.
pub fn build_plan(series: Series, params: &QueryParams) -> (r: Result<QueryPlan, AppError>)
    ensures
        match r {
            Ok(p) => time_bounds_ok(*params) && p == spec_plan(series, *params),
            Err(e) => e == AppError::MalformedPayload && !time_bounds_ok(*params),
        },
{
    let start = match &params.start_time {
        Some(s) => match parse_u64(s.as_str()) {
            Some(v) => Some(v),
            None => {
                return Err(AppError::MalformedPayload);
            },
        },
        None => None,
    };
    let end = match &params.end_time {
        Some(s) => match parse_u64(s.as_str()) {
            Some(v) => Some(v),
            None => {
                return Err(AppError::MalformedPayload);
            },
        },
        None => None,
    };
    let page = match params.page {
        Some(p) => if p >= 1 {
            p
        } else {
            1
        },
        None => 1,
    };
    let limit = match params.limit {
        Some(l) => l,
        None => {
            if matches!(series, Series::Earnings) {
                27
            } else {
                400
            }
        },
    };
    proof {
        assert((page - 1) as int * limit as int <= 0xFFFF_FFFFu64 as int * 0xFFFF_FFFFu64 as int)
            by (nonlinear_arith)
            requires
                0 <= (page - 1) as int <= 0xFFFF_FFFFu64 as int,
                0 <= limit as int <= 0xFFFF_FFFFu64 as int,
        ;
    }
    let offset: u64 = ((page - 1) as u64) * (limit as u64);
    let sort = match &params.sort_by {
        Some(s) => {
            if str_eq(s.as_str(), "start_time") {
                SortColumn::StartTime
            } else if str_eq(s.as_str(), "end_time") {
                SortColumn::EndTime
            } else if matches!(series, Series::Earnings) && str_eq(s.as_str(), "earnings") {
                SortColumn::Earnings
            } else if matches!(series, Series::Earnings) && str_eq(s.as_str(), "rune_price_usd") {
                SortColumn::RunePriceUsd
            } else {
                SortColumn::EndTime
            }
        },
        None => SortColumn::EndTime,
    };
    let order = match &params.order {
        Some(o) => {
            if str_eq(o.as_str(), "asc") || str_eq(o.as_str(), "ASC") {
                SortOrder::Asc
            } else {
                SortOrder::Desc
            }
        },
        None => SortOrder::Desc,
    };
    let bucket = match &params.interval {
        Some(iv) => {
            if str_eq(iv.as_str(), "day") {
                Some(BucketWidth::Day)
            } else if str_eq(iv.as_str(), "week") {
                Some(BucketWidth::Week)
            } else if str_eq(iv.as_str(), "month") {
                Some(BucketWidth::Month)
            } else if str_eq(iv.as_str(), "year") {
                Some(BucketWidth::Year)
            } else {
                None
            }
        },
        None => None,
    };
    let pool = if matches!(series, Series::Earnings) {
        match &params.pool {
            Some(p) => Some(p.clone()),
            None => None,
        }
    } else {
        None
    };
    Ok(QueryPlan { limit, offset, start, end, sort, order, bucket, pool })
}

} // verus!
