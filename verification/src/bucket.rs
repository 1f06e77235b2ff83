//! Calendar buckets for down-sampling a series.
//!
//! A bucket identifier maps an epoch-second timestamp to the calendar window
//! it falls in: day, ISO week (Monday-aligned), month or year, all in the
//! proleptic Gregorian calendar at UTC. Two timestamps share a bucket
//! exactly when their identifiers are equal, so thinning a series to one
//! row per bucket is a pure function of the stored `end_time`s.

use vstd::prelude::*;

verus! {

/// Seconds in one civil day.
pub const SECS_PER_DAY: u64 = 86400;

/// Gregorian leap-year rule.
pub open spec fn is_leap(y: int) -> bool {
    y % 4 == 0 && (y % 100 != 0 || y % 400 == 0)
}

/// Length of year `y` in days.
pub open spec fn days_in_year(y: int) -> int {
    if is_leap(y) {
        366
    } else {
        365
    }
}

/// Year and day-of-year of an epoch day count, stepping one year at a time
/// from 1970.
pub open spec fn spec_civil(days: int, y: int) -> (int, int)
    decreases days,
{
    if days < 0 || days < days_in_year(y) {
        (y, days)
    } else {
        spec_civil(days - days_in_year(y), y + 1)
    }
}

/// Length of month `m` (1-based) of year `y` in days.
pub open spec fn days_in_month(y: int, m: int) -> int {
    if m == 2 {
        if is_leap(y) {
            29
        } else {
            28
        }
    } else if m == 4 || m == 6 || m == 9 || m == 11 {
        30
    } else {
        31
    }
}

/// Month (1-based) holding day-of-year `doy`, scanning from month `m`.
pub open spec fn spec_month_of(y: int, doy: int, m: int) -> int
    decreases 12 - m,
{
    if m >= 12 || doy < days_in_month(y, m) {
        m
    } else {
        spec_month_of(y, doy - days_in_month(y, m), m + 1)
    }
}

/// The calendar windows a series can be thinned to.
#[derive(Clone, Copy, Debug, PartialEq, Eq, Structural)]
pub enum BucketWidth {
    Day,
    Week,
    Month,
    Year,
}

/// The calendar bucket of epoch second `t`: timestamps map to the same
/// identifier exactly when they fall in the same calendar window.
pub open spec fn spec_bucket_id(w: BucketWidth, t: u64) -> int {
    match w {
        BucketWidth::Day => t as int / 86400,
        // Epoch day 0 was a Thursday; +3 aligns weeks to Monday.
        BucketWidth::Week => (t as int / 86400 + 3) / 7,
        BucketWidth::Month => {
            let yd = spec_civil(t as int / 86400, 1970);
            (yd.0 - 1970) * 12 + (spec_month_of(yd.0, yd.1, 1) - 1)
        },
        BucketWidth::Year => spec_civil(t as int / 86400, 1970).0,
    }
}

/// Gregorian leap-year rule.
fn leap_year(y: u64) -> (r: bool)
    ensures
        r == is_leap(y as int),
{
    y % 4 == 0 && (y % 100 != 0 || y % 400 == 0)
}

/// Year and day-of-year of an epoch day count.
fn civil_of_day(days: u64) -> (r: (u64, u64))
    ensures
        (r.0 as int, r.1 as int) == spec_civil(days as int, 1970),
        1970 <= r.0,
        (r.0 as int - 1970) * 365 <= days as int,
        (r.1 as int) < days_in_year(r.0 as int),
{
    let mut y: u64 = 1970;
    let mut d: u64 = days;
    let mut diy: u64 = 365;
    while d >= diy
        invariant
            1970 <= y,
            d <= days,
            diy == days_in_year(y as int),
            spec_civil(days as int, 1970) == spec_civil(d as int, y as int),
            (y as int - 1970) * 365 <= days as int - d as int,
        decreases d,
    {
        proof {
            assert(y < u64::MAX) by (nonlinear_arith)
                requires
                    y as int >= 1970,
                    (y as int - 1970) * 365 <= u64::MAX as int,
            ;
            assert((y as int + 1 - 1970) * 365 <= days as int - (d as int - diy as int))
                by (nonlinear_arith)
                requires
                    (y as int - 1970) * 365 <= days as int - d as int,
                    diy as int >= 365,
            ;
        }
        d = d - diy;
        y = y + 1;
        diy = if leap_year(y) {
            366
        } else {
            365
        };
    }
    (y, d)
}

/// Length of month `m` (1-based) of year `y` in days.
fn month_len(y: u64, m: u64) -> (r: u64)
    requires
        1 <= m <= 12,
    ensures
        r == days_in_month(y as int, m as int),
{
    if m == 2 {
        if leap_year(y) {
            29
        } else {
            28
        }
    } else if m == 4 || m == 6 || m == 9 || m == 11 {
        30
    } else {
        31
    }
}

/// Month (1-based) holding day-of-year `doy`.
fn month_of(y: u64, doy: u64) -> (m: u64)
    ensures
        m as int == spec_month_of(y as int, doy as int, 1),
        1 <= m <= 12,
{
    let mut m: u64 = 1;
    let mut d: u64 = doy;
    loop
        invariant
            1 <= m <= 12,
            d <= doy,
            spec_month_of(y as int, doy as int, 1) == spec_month_of(y as int, d as int, m as int),
        decreases 12 - m,
    {
        if m >= 12 {
            return m;
        }
        let len = month_len(y, m);
        if d < len {
            return m;
        }
        d = d - len;
        m = m + 1;
    }
}

/// The calendar bucket of epoch second `t`.
pub fn bucket_id(w: BucketWidth, t: u64) -> (b: u64)
    ensures
        b as int == spec_bucket_id(w, t),
{
    let days = t / SECS_PER_DAY;
    match w {
        BucketWidth::Day => days,
        BucketWidth::Week => (days + 3) / 7,
        BucketWidth::Month => {
            let yd = civil_of_day(days);
            let m = month_of(yd.0, yd.1);
            proof {
                assert((yd.0 as int - 1970) * 12 + 11 <= u64::MAX as int) by (nonlinear_arith)
                    requires
                        yd.0 as int >= 1970,
                        (yd.0 as int - 1970) * 365 <= u64::MAX as int,
                ;
            }
            (yd.0 - 1970) * 12 + (m - 1)
        },
        BucketWidth::Year => {
            let yd = civil_of_day(days);
            yd.0
        },
    }
}

} // verus!
