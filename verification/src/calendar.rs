//! Proleptic Gregorian calendar arithmetic: leap years, month lengths and the
//! conversion between civil dates and a day count relative to 1970-01-01.
use vstd::prelude::*;
use vstd::arithmetic::div_mod::lemma_fundamental_div_mod_converse;

verus! {

/// Gregorian leap-year rule.
pub open spec fn is_leap(y: int) -> bool {
    (y % 4 == 0 && y % 100 != 0) || y % 400 == 0
}

/// Number of days in month `m` of year `y`; 0 for a month outside 1..=12.
pub open spec fn month_days(y: int, m: int) -> int {
    if m == 1 || m == 3 || m == 5 || m == 7 || m == 8 || m == 10 || m == 12 {
        31
    } else if m == 4 || m == 6 || m == 9 || m == 11 {
        30
    } else if m == 2 {
        if is_leap(y) { 29 } else { 28 }
    } else {
        0
    }
}

/// A real calendar date.
pub open spec fn is_valid_date(y: int, m: int, d: int) -> bool {
    1 <= m <= 12 && 1 <= d <= month_days(y, m)
}

/// Day of a March-based year on which shifted month `mp` (0 = March) starts.
pub open spec fn month_start(mp: int) -> int {
    (153 * mp + 2) / 5
}

/// Day of a 400-year era on which year `yoe` of the era starts (years begin in March).
pub open spec fn year_start(yoe: int) -> int {
    365 * yoe + yoe / 4 - yoe / 100
}

/// The day count of a civil date, relative to 1970-01-01, by the era /
/// year-of-era / day-of-year decomposition with years that begin in March.
/// For a valid date this is the number of days from 1970-01-01 to that date
/// (see `lemma_epoch_day`, `lemma_civil_days_successor` and the round-trip laws).
pub open spec fn civil_to_days(y: int, m: int, d: int) -> int {
    let yy = if m <= 2 { y - 1 } else { y };
    let era = yy / 400;
    let yoe = yy - era * 400;
    let mp = if m > 2 { m - 3 } else { m + 9 };
    let doy = month_start(mp) + d - 1;
    let doe = year_start(yoe) + doy;
    era * 146097 + doe - 719468
}

/// The civil date `(year, month, day)` of a day count relative to 1970-01-01.
pub open spec fn days_to_civil(z: int) -> (int, int, int) {
    let zz = z + 719468;
    let era = zz / 146097;
    let doe = zz - era * 146097;
    let yoe = (doe - doe / 1460 + doe / 36524 - doe / 146096) / 365;
    let yy = yoe + era * 400;
    let doy = doe - year_start(yoe);
    let mp = (5 * doy + 2) / 153;
    let d = doy - month_start(mp) + 1;
    let m = if mp < 10 { mp + 3 } else { mp - 9 };
    (if m <= 2 { yy + 1 } else { yy }, m, d)
}

proof fn lemma_div_by(x: int, k: int, q: int)
    requires
        0 < k,
        q * k <= x < q * k + k,
    ensures
        x / k == q,
        x % k == x - q * k,
{
    lemma_fundamental_div_mod_converse(x, k, q, x - q * k);
}

/// Length of shifted month `mp` (0 = March, ..., 11 = February).
spec fn shifted_month_len(mp: int, leap: bool) -> int {
    if mp == 11 {
        if leap { 29 } else { 28 }
    } else if mp == 1 || mp == 3 || mp == 6 || mp == 8 {
        30
    } else {
        31
    }
}

/// Whether the March-based year `yoe = 100c + 4q + r` of an era ends with a 29 February.
spec fn era_year_leap(c: int, q: int, r: int) -> bool {
    r == 3 && (q < 24 || c == 3)
}

/// Decoding of a day of the era to the year of the era.
proof fn lemma_year_of_era(c: int, q: int, r: int, doy: int)
    requires
        0 <= c <= 3,
        0 <= q <= 24,
        0 <= r <= 3,
        0 <= doy,
        doy < 365 || (doy == 365 && era_year_leap(c, q, r)),
    ensures
        ({
            let yoe = 100 * c + 4 * q + r;
            let doe = year_start(yoe) + doy;
            &&& year_start(yoe) == 36524 * c + 1461 * q + 365 * r
            &&& 0 <= doe <= 146096
            &&& (doe - doe / 1460 + doe / 36524 - doe / 146096) / 365 == yoe
        }),
{
    let yoe = 100 * c + 4 * q + r;
    lemma_div_by(yoe, 4, 25 * c + q);
    lemma_div_by(yoe, 100, c);
    let doe = 36524 * c + 1461 * q + 365 * r + doy;
    assert(year_start(yoe) == 36524 * c + 1461 * q + 365 * r);
    let t = 24 * c + q + 365 * r + doy;
    if doe == 146096 {
        lemma_div_by(doe, 146096, 1);
        lemma_div_by(doe, 36524, 4);
        lemma_div_by(doe, 1460, 100);
        lemma_div_by(145999, 365, 399);
    } else {
        lemma_div_by(doe, 146096, 0);
        lemma_div_by(doe, 36524, c);
        if t >= 1460 {
            lemma_div_by(doe, 1460, 25 * c + q + 1);
            lemma_div_by(365 * yoe + doy - 1, 365, yoe);
        } else {
            lemma_div_by(doe, 1460, 25 * c + q);
            lemma_div_by(365 * yoe + doy, 365, yoe);
        }
    }
}

/// Every day of a 400-year era lies in exactly one March-based year of the era.
proof fn lemma_split_day_of_era(doe: int) -> (res: (int, int, int, int))
    requires
        0 <= doe <= 146096,
    ensures
        ({
            let (c, q, r, doy) = res;
            &&& 0 <= c <= 3
            &&& 0 <= q <= 24
            &&& 0 <= r <= 3
            &&& 0 <= doy
            &&& (doy < 365 || (doy == 365 && era_year_leap(c, q, r)))
            &&& doe == 36524 * c + 1461 * q + 365 * r + doy
        }),
{
    let c = if doe >= 109572 { 3 } else { doe / 36524 };
    if doe < 109572 {
        assert(c == doe / 36524);
        if doe < 36524 { lemma_div_by(doe, 36524, 0); }
        else if doe < 73048 { lemma_div_by(doe, 36524, 1); }
        else { lemma_div_by(doe, 36524, 2); }
    }
    let e = doe - 36524 * c;
    assert(0 <= e <= 36524);
    assert(e == 36524 ==> c == 3);
    let q = if e >= 35064 { 24 } else { e / 1461 };
    if e < 35064 {
        let qq = e / 1461;
        vstd::arithmetic::div_mod::lemma_fundamental_div_mod(e, 1461);
        assert(0 <= e % 1461 < 1461) by {
            vstd::arithmetic::div_mod::lemma_mod_bound(e, 1461);
        }
        assert(0 <= qq < 24) by (nonlinear_arith)
            requires
                e == 1461 * qq + e % 1461,
                0 <= e % 1461 < 1461,
                0 <= e < 35064;
        lemma_div_by(e, 1461, qq);
    }
    let h = e - 1461 * q;
    assert(0 <= h <= 1460);
    assert(h == 1460 ==> (q < 24 || c == 3));
    let r = if h >= 1095 { 3 } else if h >= 730 { 2 } else if h >= 365 { 1 } else { 0 };
    let doy = h - 365 * r;
    (c, q, r, doy)
}

/// The leap status of the year that ends a March-based year of the era.
proof fn lemma_era_year_leap(era: int, c: int, q: int, r: int)
    requires
        0 <= c <= 3,
        0 <= q <= 24,
        0 <= r <= 3,
    ensures
        is_leap(era * 400 + 100 * c + 4 * q + r + 1) == era_year_leap(c, q, r),
{
    let y = era * 400 + 100 * c + 4 * q + r + 1;
    let k4 = era * 100 + 25 * c + q;
    let k100 = era * 4 + c;
    if r == 3 {
        lemma_div_by(y, 4, k4 + 1);
        if q == 24 {
            lemma_div_by(y, 100, k100 + 1);
            if c == 3 {
                lemma_div_by(y, 400, era + 1);
            } else {
                lemma_div_by(y, 400, era);
            }
        } else {
            lemma_div_by(y, 100, k100);
        }
    } else {
        lemma_div_by(y, 4, k4);
    }
}

/// Decoding of a day of a March-based year to the shifted month and the day of month.
proof fn lemma_month_of_year(mp: int, d: int, leap: bool)
    requires
        0 <= mp <= 11,
        1 <= d <= shifted_month_len(mp, leap),
    ensures
        ({
            let doy = month_start(mp) + d - 1;
            &&& 0 <= doy
            &&& (doy < 365 || (doy == 365 && leap))
            &&& (5 * doy + 2) / 153 == mp
        }),
{
    let doy = month_start(mp) + d - 1;
    if mp == 0 { lemma_div_by(153 * mp + 2, 5, 0); }
    else if mp == 1 { lemma_div_by(153 * mp + 2, 5, 31); }
    else if mp == 2 { lemma_div_by(153 * mp + 2, 5, 61); }
    else if mp == 3 { lemma_div_by(153 * mp + 2, 5, 92); }
    else if mp == 4 { lemma_div_by(153 * mp + 2, 5, 122); }
    else if mp == 5 { lemma_div_by(153 * mp + 2, 5, 153); }
    else if mp == 6 { lemma_div_by(153 * mp + 2, 5, 184); }
    else if mp == 7 { lemma_div_by(153 * mp + 2, 5, 214); }
    else if mp == 8 { lemma_div_by(153 * mp + 2, 5, 245); }
    else if mp == 9 { lemma_div_by(153 * mp + 2, 5, 275); }
    else if mp == 10 { lemma_div_by(153 * mp + 2, 5, 306); }
    else { lemma_div_by(153 * mp + 2, 5, 337); }
    lemma_div_by(5 * doy + 2, 153, mp);
}

/// Every day of a March-based year lies in exactly one shifted month.
proof fn lemma_split_day_of_year(doy: int, leap: bool)
    requires
        0 <= doy,
        doy < 365 || (doy == 365 && leap),
    ensures
        ({
            let mp = (5 * doy + 2) / 153;
            let d = doy - month_start(mp) + 1;
            &&& 0 <= mp <= 11
            &&& 1 <= d <= shifted_month_len(mp, leap)
        }),
{
    let mp = if doy >= 337 { 11 } else if doy >= 306 { 10 } else if doy >= 275 { 9 }
        else if doy >= 245 { 8 } else if doy >= 214 { 7 } else if doy >= 184 { 6 }
        else if doy >= 153 { 5 } else if doy >= 122 { 4 } else if doy >= 92 { 3 }
        else if doy >= 61 { 2 } else if doy >= 31 { 1 } else { 0 };
    lemma_div_by(5 * doy + 2, 153, mp);
    if mp == 0 { lemma_div_by(153 * mp + 2, 5, 0); }
    else if mp == 1 { lemma_div_by(153 * mp + 2, 5, 31); }
    else if mp == 2 { lemma_div_by(153 * mp + 2, 5, 61); }
    else if mp == 3 { lemma_div_by(153 * mp + 2, 5, 92); }
    else if mp == 4 { lemma_div_by(153 * mp + 2, 5, 122); }
    else if mp == 5 { lemma_div_by(153 * mp + 2, 5, 153); }
    else if mp == 6 { lemma_div_by(153 * mp + 2, 5, 184); }
    else if mp == 7 { lemma_div_by(153 * mp + 2, 5, 214); }
    else if mp == 8 { lemma_div_by(153 * mp + 2, 5, 245); }
    else if mp == 9 { lemma_div_by(153 * mp + 2, 5, 275); }
    else if mp == 10 { lemma_div_by(153 * mp + 2, 5, 306); }
    else { lemma_div_by(153 * mp + 2, 5, 337); }
}

/// Splits a year of the era into centuries, four-year blocks and years.
proof fn lemma_split_year_of_era(yoe: int) -> (res: (int, int, int))
    requires
        0 <= yoe < 400,
    ensures
        ({
            let (c, q, r) = res;
            &&& 0 <= c <= 3
            &&& 0 <= q <= 24
            &&& 0 <= r <= 3
            &&& yoe == 100 * c + 4 * q + r
        }),
{
    let c = if yoe >= 300 { 3 } else if yoe >= 200 { 2 } else if yoe >= 100 { 1 } else { 0 };
    let w = yoe - 100 * c;
    let q = if w >= 96 { 24 } else if w >= 92 { 23 } else if w >= 88 { 22 } else if w >= 84 { 21 }
        else if w >= 80 { 20 } else if w >= 76 { 19 } else if w >= 72 { 18 } else if w >= 68 { 17 }
        else if w >= 64 { 16 } else if w >= 60 { 15 } else if w >= 56 { 14 } else if w >= 52 { 13 }
        else if w >= 48 { 12 } else if w >= 44 { 11 } else if w >= 40 { 10 } else if w >= 36 { 9 }
        else if w >= 32 { 8 } else if w >= 28 { 7 } else if w >= 24 { 6 } else if w >= 20 { 5 }
        else if w >= 16 { 4 } else if w >= 12 { 3 } else if w >= 8 { 2 } else if w >= 4 { 1 }
        else { 0 };
    (c, q, w - 4 * q)
}

/// Splits a year into its 400-year era and the year of the era.
proof fn lemma_era_of_year(yy: int)
    ensures
        0 <= yy - (yy / 400) * 400 < 400,
{
    vstd::arithmetic::div_mod::lemma_fundamental_div_mod(yy, 400);
    vstd::arithmetic::div_mod::lemma_mod_bound(yy, 400);
}

/// Month lengths of the March-based year agree with the civil calendar.
proof fn lemma_shifted_month_len(y: int, m: int)
    requires
        1 <= m <= 12,
    ensures
        month_days(y, m) == shifted_month_len(
            if m > 2 { m - 3 } else { m + 9 },
            is_leap(if m <= 2 { y } else { y + 1 }),
        ),
{
}

/// Converting a valid civil date to its day count and back gives the same date.
pub proof fn lemma_civil_round_trip(y: int, m: int, d: int)
    requires
        is_valid_date(y, m, d),
    ensures
        days_to_civil(civil_to_days(y, m, d)) == (y, m, d),
{
    let yy = if m <= 2 { y - 1 } else { y };
    let era = yy / 400;
    lemma_era_of_year(yy);
    let yoe = yy - era * 400;
    let (c, q, r) = lemma_split_year_of_era(yoe);
    let mp = if m > 2 { m - 3 } else { m + 9 };
    lemma_era_year_leap(era, c, q, r);
    let leap = era_year_leap(c, q, r);
    assert(is_leap(yy + 1) == leap);
    lemma_shifted_month_len(y, m);
    lemma_month_of_year(mp, d, leap);
    let doy = month_start(mp) + d - 1;
    lemma_year_of_era(c, q, r, doy);
    let doe = year_start(yoe) + doy;
    let zz = era * 146097 + doe;
    lemma_div_by(zz, 146097, era);
    assert(civil_to_days(y, m, d) + 719468 == zz);
}

/// Every day count is the day count of exactly the valid civil date it converts to.
pub proof fn lemma_days_round_trip(z: int)
    ensures
        is_valid_date(days_to_civil(z).0, days_to_civil(z).1, days_to_civil(z).2),
        civil_to_days(days_to_civil(z).0, days_to_civil(z).1, days_to_civil(z).2) == z,
{
    let zz = z + 719468;
    let era = zz / 146097;
    vstd::arithmetic::div_mod::lemma_fundamental_div_mod(zz, 146097);
    vstd::arithmetic::div_mod::lemma_mod_bound(zz, 146097);
    let doe = zz - era * 146097;
    let (c, q, r, doy) = lemma_split_day_of_era(doe);
    lemma_year_of_era(c, q, r, doy);
    let yoe = 100 * c + 4 * q + r;
    let leap = era_year_leap(c, q, r);
    lemma_era_year_leap(era, c, q, r);
    lemma_split_day_of_year(doy, leap);
    let mp = (5 * doy + 2) / 153;
    let d = doy - month_start(mp) + 1;
    let m = if mp < 10 { mp + 3 } else { mp - 9 };
    let yy = yoe + era * 400;
    let y = if m <= 2 { yy + 1 } else { yy };
    assert(days_to_civil(z) == (y, m, d));
    lemma_shifted_month_len(y, m);
    lemma_div_by(yy, 400, era);
}

/// Whether `year` is a Gregorian leap year.
#[verifier::spinoff_prover]
pub fn is_leap_year(year: i32) -> (r: bool)
    ensures
        r == is_leap(year as int),
{
    let r4 = year % 4;
    let r100 = year % 100;
    let r400 = year % 400;
    assert(r4 == 0 <==> (year as int) % 4 == 0);
    assert(r100 == 0 <==> (year as int) % 100 == 0);
    assert(r400 == 0 <==> (year as int) % 400 == 0);
    (r4 == 0 && r100 != 0) || r400 == 0
}

/// Number of days in `month` of `year`, or 0 when `month` is not in 1..=12.
pub fn days_in_month(year: i32, month: u32) -> (r: u32)
    ensures
        r == month_days(year as int, month as int),
{
    match month {
        1 | 3 | 5 | 7 | 8 | 10 | 12 => 31,
        4 | 6 | 9 | 11 => 30,
        2 => if is_leap_year(year) { 29 } else { 28 },
        _ => 0,
    }
}

/// The day count of any `i32` year, `u32` month and `u32` day lies within ±2^40.
pub proof fn lemma_civil_to_days_bound(y: int, m: int, d: int)
    requires
        i32::MIN <= y <= i32::MAX,
        0 <= m <= u32::MAX,
        0 <= d <= u32::MAX,
    ensures
        -0x100_0000_0000 < civil_to_days(y, m, d) < 0x100_0000_0000,
{
    let yy = if m <= 2 { y - 1 } else { y };
    let era = yy / 400;
    lemma_era_of_year(yy);
    assert(-5368710 <= era <= 5368709) by (nonlinear_arith)
        requires
            0 <= yy - era * 400 < 400,
            i32::MIN - 1 <= yy <= i32::MAX,
    ;
    let yoe = yy - era * 400;
    let mp = if m > 2 { m - 3 } else { m + 9 };
    vstd::arithmetic::div_mod::lemma_fundamental_div_mod(153 * mp + 2, 5);
    vstd::arithmetic::div_mod::lemma_mod_bound(153 * mp + 2, 5);
    vstd::arithmetic::div_mod::lemma_fundamental_div_mod(yoe, 4);
    vstd::arithmetic::div_mod::lemma_mod_bound(yoe, 4);
    vstd::arithmetic::div_mod::lemma_fundamental_div_mod(yoe, 100);
    vstd::arithmetic::div_mod::lemma_mod_bound(yoe, 100);
}

/// Day count of the civil date relative to 1970-01-01 (negative before it).
pub fn days_from_civil(year: i32, month: u32, day: u32) -> (r: i64)
    ensures
        r == civil_to_days(year as int, month as int, day as int),
        -0x100_0000_0000 < r < 0x100_0000_0000,
{
    proof {
        lemma_civil_to_days_bound(year as int, month as int, day as int);
    }
    let mut y = year as i64;
    let m = month as i64;
    let d = day as i64;
    y -= if m <= 2 { 1 } else { 0 };
    let era = if y >= 0 { y } else { y - 399 } / 400;
    proof {
        vstd::arithmetic::div_mod::lemma_fundamental_div_mod(y as int, 400);
        vstd::arithmetic::div_mod::lemma_mod_bound(y as int, 400);
        if y < 0 {
            let k = (399 - y) / 400;
            vstd::arithmetic::div_mod::lemma_fundamental_div_mod((399 - y) as int, 400);
            vstd::arithmetic::div_mod::lemma_mod_bound((399 - y) as int, 400);
            lemma_div_by(y as int, 400, -k);
        }
    }
    let yoe = y - era * 400;
    let mp = m + if m > 2 { -3 } else { 9 };
    let doy = (153 * mp + 2) / 5 + d - 1;
    let doe = yoe * 365 + yoe / 4 - yoe / 100 + doy;
    era * 146097 + doe - 719468
}

/// Civil date `(year, month, day)` of a day count relative to 1970-01-01;
/// the year is truncated to `i32` as by `as`.
#[verifier::spinoff_prover]
pub fn civil_from_days(days: i64) -> (r: (i32, u32, u32))
    requires
        days + 719468 <= i64::MAX,
    ensures
        r.0 == days_to_civil(days as int).0 as i32,
        r.1 == days_to_civil(days as int).1,
        r.2 == days_to_civil(days as int).2,
        is_valid_date(days_to_civil(days as int).0, r.1 as int, r.2 as int),
{
    proof {
        lemma_days_round_trip(days as int);
    }
    let z = days + 719468;
    let era = if z >= 0 { z } else { z - 146096 } / 146097;
    proof {
        vstd::arithmetic::div_mod::lemma_fundamental_div_mod(z as int, 146097);
        vstd::arithmetic::div_mod::lemma_mod_bound(z as int, 146097);
        if z < 0 {
            let k = (146096 - z) / 146097;
            vstd::arithmetic::div_mod::lemma_fundamental_div_mod((146096 - z) as int, 146097);
            vstd::arithmetic::div_mod::lemma_mod_bound((146096 - z) as int, 146097);
            lemma_div_by(z as int, 146097, -k);
        }
    }
    let doe = z - era * 146097;
    let yoe = (doe - doe / 1460 + doe / 36524 - doe / 146096) / 365;
    let y = yoe + era * 400;
    let doy = doe - (365 * yoe + yoe / 4 - yoe / 100);
    let mp = (5 * doy + 2) / 153;
    let d = doy - (153 * mp + 2) / 5 + 1;
    let m = mp + if mp < 10 { 3 } else { -9 };
    let year = y + if m <= 2 { 1 } else { 0 };
    (year as i32, m as u32, d as u32)
}

/// Day count of 1 March of March-based year `yy` (relative to 1970-01-01).
spec fn year_base(yy: int) -> int {
    (yy / 400) * 146097 + year_start(yy - (yy / 400) * 400) - 719468
}

/// A March-based year is 366 days long when the year it ends in is a leap year.
proof fn lemma_year_base_step(yy: int)
    ensures
        year_base(yy + 1) == year_base(yy) + 365 + if is_leap(yy + 1) { 1int } else { 0int },
{
    let era = yy / 400;
    lemma_era_of_year(yy);
    let yoe = yy - era * 400;
    let (c, q, r) = lemma_split_year_of_era(yoe);
    lemma_era_year_leap(era, c, q, r);
    lemma_div_by(yoe, 4, 25 * c + q);
    lemma_div_by(yoe, 100, c);
    if yoe < 399 {
        lemma_div_by(yy + 1, 400, era);
        if r == 3 {
            lemma_div_by(yoe + 1, 4, 25 * c + q + 1);
            if q == 24 {
                lemma_div_by(yoe + 1, 100, c + 1);
            } else {
                lemma_div_by(yoe + 1, 100, c);
            }
        } else {
            lemma_div_by(yoe + 1, 4, 25 * c + q);
            lemma_div_by(yoe + 1, 100, c);
        }
    } else {
        lemma_div_by(yy + 1, 400, era + 1);
    }
}

proof fn lemma_year_base_grows(a: int, b: int)
    requires
        a < b,
    ensures
        year_base(b) >= year_base(a + 1),
        year_base(a + 1) >= year_base(a) + 365 + if is_leap(a + 1) { 1int } else { 0int },
    decreases b - a,
{
    lemma_year_base_step(a);
    if a + 1 < b {
        lemma_year_base_grows(a + 1, b);
        lemma_year_base_step(a + 1);
    }
}

proof fn lemma_month_start_values(mp: int)
    requires
        0 <= mp <= 11,
    ensures
        mp == 0 ==> month_start(mp) == 0,
        mp == 1 ==> month_start(mp) == 31,
        mp == 2 ==> month_start(mp) == 61,
        mp == 3 ==> month_start(mp) == 92,
        mp == 4 ==> month_start(mp) == 122,
        mp == 5 ==> month_start(mp) == 153,
        mp == 6 ==> month_start(mp) == 184,
        mp == 7 ==> month_start(mp) == 214,
        mp == 8 ==> month_start(mp) == 245,
        mp == 9 ==> month_start(mp) == 275,
        mp == 10 ==> month_start(mp) == 306,
        mp == 11 ==> month_start(mp) == 337,
{
    if mp == 0 { lemma_div_by(153 * mp + 2, 5, 0); }
    else if mp == 1 { lemma_div_by(153 * mp + 2, 5, 31); }
    else if mp == 2 { lemma_div_by(153 * mp + 2, 5, 61); }
    else if mp == 3 { lemma_div_by(153 * mp + 2, 5, 92); }
    else if mp == 4 { lemma_div_by(153 * mp + 2, 5, 122); }
    else if mp == 5 { lemma_div_by(153 * mp + 2, 5, 153); }
    else if mp == 6 { lemma_div_by(153 * mp + 2, 5, 184); }
    else if mp == 7 { lemma_div_by(153 * mp + 2, 5, 214); }
    else if mp == 8 { lemma_div_by(153 * mp + 2, 5, 245); }
    else if mp == 9 { lemma_div_by(153 * mp + 2, 5, 275); }
    else if mp == 10 { lemma_div_by(153 * mp + 2, 5, 306); }
    else { lemma_div_by(153 * mp + 2, 5, 337); }
}

/// Civil dates in lexicographic (year, month, day) order.
pub open spec fn date_before(y1: int, m1: int, d1: int, y2: int, m2: int, d2: int) -> bool {
    y1 < y2 || (y1 == y2 && m1 < m2) || (y1 == y2 && m1 == m2 && d1 < d2)
}

/// For valid dates the day count follows calendar order.
pub proof fn lemma_civil_to_days_ordered(y1: int, m1: int, d1: int, y2: int, m2: int, d2: int)
    requires
        is_valid_date(y1, m1, d1),
        is_valid_date(y2, m2, d2),
    ensures
        date_before(y1, m1, d1, y2, m2, d2) <==> civil_to_days(y1, m1, d1) < civil_to_days(y2, m2, d2),
        (y1 == y2 && m1 == m2 && d1 == d2) <==> civil_to_days(y1, m1, d1) == civil_to_days(y2, m2, d2),
{
    if date_before(y1, m1, d1, y2, m2, d2) {
        lemma_civil_days_before(y1, m1, d1, y2, m2, d2);
    }
    if date_before(y2, m2, d2, y1, m1, d1) {
        lemma_civil_days_before(y2, m2, d2, y1, m1, d1);
    }
}

proof fn lemma_civil_days_before(y1: int, m1: int, d1: int, y2: int, m2: int, d2: int)
    requires
        is_valid_date(y1, m1, d1),
        is_valid_date(y2, m2, d2),
        date_before(y1, m1, d1, y2, m2, d2),
    ensures
        civil_to_days(y1, m1, d1) < civil_to_days(y2, m2, d2),
{
    let yy1 = if m1 <= 2 { y1 - 1 } else { y1 };
    let yy2 = if m2 <= 2 { y2 - 1 } else { y2 };
    let mp1 = if m1 > 2 { m1 - 3 } else { m1 + 9 };
    let mp2 = if m2 > 2 { m2 - 3 } else { m2 + 9 };
    assert(12 * yy1 + mp1 == 12 * y1 + m1 - 3);
    assert(12 * yy2 + mp2 == 12 * y2 + m2 - 3);
    lemma_shifted_month_len(y1, m1);
    lemma_shifted_month_len(y2, m2);
    lemma_month_start_values(mp1);
    lemma_month_start_values(mp2);
    assert(civil_to_days(y1, m1, d1) == year_base(yy1) + month_start(mp1) + d1 - 1);
    assert(civil_to_days(y2, m2, d2) == year_base(yy2) + month_start(mp2) + d2 - 1);
    if yy1 < yy2 {
        lemma_year_base_grows(yy1, yy2);
        assert(month_start(mp1) + d1 - 1 < 365 + if is_leap(yy1 + 1) { 1int } else { 0int });
    } else {
        assert(yy1 == yy2);
    }
}

/// The civil date after `(y, m, d)`.
pub open spec fn next_date(y: int, m: int, d: int) -> (int, int, int) {
    if d < month_days(y, m) {
        (y, m, d + 1)
    } else if m < 12 {
        (y, m + 1, 1)
    } else {
        (y + 1, 1, 1)
    }
}

/// 1970-01-01 is day 0.
pub proof fn lemma_epoch_day()
    ensures
        civil_to_days(1970, 1, 1) == 0,
{
    lemma_div_by(1969, 400, 4);
    lemma_div_by(369, 4, 92);
    lemma_div_by(369, 100, 3);
    lemma_month_start_values(10);
}

/// The day after a valid date is a valid date whose day count is one more.
pub proof fn lemma_civil_days_successor(y: int, m: int, d: int)
    requires
        is_valid_date(y, m, d),
    ensures
        is_valid_date(next_date(y, m, d).0, next_date(y, m, d).1, next_date(y, m, d).2),
        civil_to_days(next_date(y, m, d).0, next_date(y, m, d).1, next_date(y, m, d).2) == civil_to_days(y, m, d) + 1,
{
    let yy = if m <= 2 { y - 1 } else { y };
    let mp = if m > 2 { m - 3 } else { m + 9 };
    lemma_month_start_values(mp);
    assert(civil_to_days(y, m, d) == year_base(yy) + month_start(mp) + d - 1);
    if d < month_days(y, m) {
    } else if m == 2 {
        lemma_year_base_step(y - 1);
        lemma_month_start_values(0);
        assert(civil_to_days(y, 3, 1) == year_base(y) + month_start(0));
    } else if m < 12 {
        lemma_month_start_values(mp + 1);
        lemma_shifted_month_len(y, m);
        assert(civil_to_days(y, m + 1, 1) == year_base(yy) + month_start(mp + 1));
    } else {
        lemma_month_start_values(10);
        assert(civil_to_days(y + 1, 1, 1) == year_base(y) + month_start(10));
    }
}

} // verus!
