//! Proleptic Gregorian calendar arithmetic over a fixed UTC offset.
//!
//! Epoch seconds plus a fixed offset are turned into a local calendar
//! stamp (year, month, day, hour, minute). Day numbers are counted from
//! 0000-01-01 of the proleptic Gregorian calendar; the Unix epoch
//! 1970-01-01 is day number 719528.

use vstd::prelude::*;
use vstd::arithmetic::div_mod::{
    lemma_fundamental_div_mod, lemma_fundamental_div_mod_converse, lemma_div_is_ordered,
    lemma_mod_bound,
};

verus! {

pub open spec fn is_leap_year(y: int) -> bool {
    (y % 4 == 0 && y % 100 != 0) || y % 400 == 0
}

pub open spec fn days_in_year(y: int) -> int {
    if is_leap_year(y) { 366 } else { 365 }
}

/// Number of days from 0000-01-01 up to the first day of year `y`
/// (negative for years before 0), in closed form: 365 per year plus
/// one per leap year in between.
pub open spec fn days_before_year(y: int) -> int {
    365 * y + (y + 3) / 4 - (y + 99) / 100 + (y + 399) / 400
}

pub open spec fn days_in_month(y: int, m: int) -> int {
    if m == 2 {
        if is_leap_year(y) { 29 } else { 28 }
    } else if m == 4 || m == 6 || m == 9 || m == 11 {
        30
    } else {
        31
    }
}

/// Days from the first day of year `y` up to the first day of month `m`.
pub open spec fn days_before_month(y: int, m: int) -> int
    decreases m,
{
    if m <= 1 { 0 } else { days_before_month(y, m - 1) + days_in_month(y, m - 1) }
}

pub open spec fn is_valid_date(y: int, m: int, d: int) -> bool {
    1 <= m <= 12 && 1 <= d <= days_in_month(y, m)
}

/// Day number (days since 0000-01-01) of a calendar date.
pub open spec fn day_number(y: int, m: int, d: int) -> int {
    days_before_year(y) + days_before_month(y, m) + d - 1
}

/// Day number of 1970-01-01, the Unix epoch.
pub open spec fn epoch_day_number() -> int {
    719528
}

/// Walks forward from year `y`, consuming whole years out of `rem` days.
pub open spec fn year_scan(y: int, rem: int) -> (int, int)
    decreases rem,
{
    if rem >= days_in_year(y) {
        year_scan(y + 1, rem - days_in_year(y))
    } else {
        (y, rem)
    }
}

/// Walks forward from month `m` of year `y`, consuming whole months out
/// of `rem` days.
pub open spec fn month_scan(y: int, m: int, rem: int) -> (int, int)
    decreases 12 - m,
{
    if m < 12 && rem >= days_in_month(y, m) {
        month_scan(y, m + 1, rem - days_in_month(y, m))
    } else {
        (m, rem)
    }
}

/// Calendar date (year, month, day) of an absolute day number.
pub open spec fn civil_of_day_number(z: int) -> (int, int, int) {
    let era: int = z / 146097;
    let rem: int = z % 146097;
    let ys: (int, int) = year_scan(400 * era, rem);
    let ms: (int, int) = month_scan(ys.0, 1, ys.1);
    (ys.0, ms.0, ms.1 + 1)
}

/// Local calendar stamp (year, month, day, hour, minute) of a UTC epoch
/// second, after applying a fixed offset in seconds.
pub open spec fn local_civil(epoch: int, offset: int) -> (int, int, int, int, int) {
    let t: int = epoch + offset;
    let z: int = t / 86400 + epoch_day_number();
    let sod: int = t % 86400;
    let ymd: (int, int, int) = civil_of_day_number(z);
    (ymd.0, ymd.1, ymd.2, sod / 3600, (sod % 3600) / 60)
}

/// Shifting the numerator by `q` multiples of `b` shifts the quotient by `q`.
proof fn lemma_div_shift(a: int, b: int, q: int)
    requires
        b > 0,
    ensures
        (a + q * b) / b == a / b + q,
        (a + q * b) % b == a % b,
{
    lemma_fundamental_div_mod(a, b);
    lemma_mod_bound(a, b);
    assert(a + q * b == (a / b + q) * b + a % b) by (nonlinear_arith)
        requires a == b * (a / b) + a % b,
    ;
    lemma_fundamental_div_mod_converse(a + q * b, b, a / b + q, a % b);
}

/// One step of the closed-form leap-year count: going from year `y` to
/// `y + 1` adds exactly `days_in_year(y)` days.
pub proof fn lemma_year_step(y: int)
    ensures
        days_before_year(y + 1) == days_before_year(y) + days_in_year(y),
{
    lemma_unit_step(y, 4);
    lemma_unit_step(y, 100);
    lemma_unit_step(y, 400);
}

/// `(y + b) / b - (y + b - 1) / b` is 1 exactly when `b` divides `y`.
proof fn lemma_unit_step(y: int, b: int)
    requires
        b > 0,
    ensures
        (y + b) / b - (y + b - 1) / b == if y % b == 0 { 1int } else { 0int },
{
    lemma_fundamental_div_mod(y, b);
    lemma_mod_bound(y, b);
    let q: int = y / b;
    let r: int = y % b;
    assert(y + b == (q + 1) * b + r) by (nonlinear_arith)
        requires y == b * q + r,
    ;
    lemma_fundamental_div_mod_converse(y + b, b, q + 1, r);
    if r == 0 {
        assert(y + b - 1 == q * b + (b - 1)) by (nonlinear_arith)
            requires y == b * q + r && r == 0,
        ;
        lemma_fundamental_div_mod_converse(y + b - 1, b, q, b - 1);
    } else {
        assert(y + b - 1 == (q + 1) * b + (r - 1)) by (nonlinear_arith)
            requires y == b * q + r,
        ;
        lemma_fundamental_div_mod_converse(y + b - 1, b, q + 1, r - 1);
    }
}

/// A 400-year era holds exactly 146097 days.
pub proof fn lemma_era_start(e: int)
    ensures
        days_before_year(400 * e) == 146097 * e,
{
    lemma_div_shift(3, 4, 100 * e);
    lemma_div_shift(99, 100, 4 * e);
    lemma_div_shift(399, 400, e);
    assert(400 * e + 3 == 3 + (100 * e) * 4) by (nonlinear_arith);
    assert(400 * e + 99 == 99 + (4 * e) * 100) by (nonlinear_arith);
    assert(400 * e + 399 == 399 + e * 400) by (nonlinear_arith);
    assert(365 * (400 * e) + 100 * e - 4 * e + e == 146097 * e) by (nonlinear_arith);
}

/// The year scan lands on the year whose span contains the given day
/// offset, preserving the total day count.
pub proof fn lemma_year_scan(y0: int, rem: int)
    requires
        rem >= 0,
    ensures
        ({
            let ys = year_scan(y0, rem);
            &&& days_before_year(ys.0) + ys.1 == days_before_year(y0) + rem
            &&& 0 <= ys.1 < days_in_year(ys.0)
            &&& ys.0 >= y0
        }),
    decreases rem,
{
    if rem >= days_in_year(y0) {
        lemma_year_step(y0);
        lemma_year_scan(y0 + 1, rem - days_in_year(y0));
    }
}

/// The twelve months of a year cover exactly its days.
pub proof fn lemma_months_total(y: int)
    ensures
        days_before_month(y, 13) == days_in_year(y),
{
    reveal_with_fuel(days_before_month, 14);
    assert(days_before_month(y, 13) == days_in_year(y));
}

/// The month scan lands on the month whose span contains the given day
/// offset within the year, preserving the total day count.
pub proof fn lemma_month_scan(y: int, m: int, rem: int)
    requires
        1 <= m <= 12,
        0 <= rem,
        days_before_month(y, m) + rem < days_in_year(y),
    ensures
        ({
            let ms = month_scan(y, m, rem);
            &&& days_before_month(y, ms.0) + ms.1 == days_before_month(y, m) + rem
            &&& 1 <= ms.0 <= 12
            &&& 0 <= ms.1 < days_in_month(y, ms.0)
        }),
    decreases 12 - m,
{
    if m < 12 && rem >= days_in_month(y, m) {
        lemma_month_scan(y, m + 1, rem - days_in_month(y, m));
    } else if m == 12 && rem >= days_in_month(y, m) {
        lemma_months_total(y);
        assert(days_before_month(y, 13) == days_before_month(y, 12) + days_in_month(y, 12));
    }
}

/// The computed calendar date of a day number is a valid date whose day
/// number is the one given: the conversion is exact for every day number.
pub proof fn lemma_civil_of_day_number(z: int)
    ensures
        ({
            let ymd = civil_of_day_number(z);
            &&& is_valid_date(ymd.0, ymd.1, ymd.2)
            &&& day_number(ymd.0, ymd.1, ymd.2) == z
        }),
{
    let era: int = z / 146097;
    let rem: int = z % 146097;
    lemma_fundamental_div_mod(z, 146097);
    lemma_mod_bound(z, 146097);
    lemma_era_start(era);
    lemma_year_scan(400 * era, rem);
    let ys = year_scan(400 * era, rem);
    lemma_month_scan(ys.0, 1, ys.1);
}

/// A calendar moment in the resolved timezone, to the minute.
#[derive(Clone, Copy, Debug, PartialEq, Eq, Structural)]
pub struct LocalStamp {
    pub year: i64,
    pub month: u8,
    pub day: u8,
    pub hour: u8,
    pub minute: u8,
}

/// The stamp carries exactly the local calendar fields of the given
/// epoch second under the given offset.
pub open spec fn stamp_matches(r: LocalStamp, epoch: int, offset: int) -> bool {
    let c = local_civil(epoch, offset);
    &&& r.year == c.0
    &&& r.month == c.1
    &&& r.day == c.2
    &&& r.hour == c.3
    &&& r.minute == c.4
}

fn leap_year_flag(y: i64) -> (b: bool)
    requires
        -800_000_000_000 <= y <= 800_000_000_000,
    ensures
        b == is_leap_year(y as int),
{
    let yy: u64 = (y + 800_000_000_000) as u64;
    proof {
        vstd::arithmetic::div_mod::lemma_mod_multiples_vanish(200_000_000_000, y as int, 4);
        vstd::arithmetic::div_mod::lemma_mod_multiples_vanish(8_000_000_000, y as int, 100);
        vstd::arithmetic::div_mod::lemma_mod_multiples_vanish(2_000_000_000, y as int, 400);
    }
    (yy % 4 == 0 && yy % 100 != 0) || yy % 400 == 0
}

fn year_len(y: i64) -> (n: u64)
    requires
        -800_000_000_000 <= y <= 800_000_000_000,
    ensures
        n == days_in_year(y as int),
{
    if leap_year_flag(y) { 366 } else { 365 }
}

fn month_len(y: i64, m: u8) -> (n: u64)
    requires
        -800_000_000_000 <= y <= 800_000_000_000,
        1 <= m <= 12,
    ensures
        n == days_in_month(y as int, m as int),
{
    if m == 2 {
        if leap_year_flag(y) { 29 } else { 28 }
    } else if m == 4 || m == 6 || m == 9 || m == 11 {
        30
    } else {
        31
    }
}

/// Converts a UTC epoch second to the calendar stamp it has in the
/// fixed-offset timezone. Exact for every 64-bit epoch value.
pub fn local_stamp(epoch: i64, offset_seconds: i32) -> (r: LocalStamp)
    requires
        -86400 < offset_seconds < 86400,
    ensures
        stamp_matches(r, epoch as int, offset_seconds as int),
        is_valid_date(r.year as int, r.month as int, r.day as int),
        r.hour < 24,
        r.minute < 60,
{
    let t: i128 = epoch as i128 + offset_seconds as i128;
    proof {
        assert(t + 9_223_372_036_854_892_800i128 >= 0);
        assert(t + 9_223_372_036_854_892_800i128 <= 18_446_744_073_709_755_006);
    }
    let u: u128 = (t + 9_223_372_036_854_892_800i128) as u128;
    let days_sh: u128 = u / 86400;
    let sod: u128 = u % 86400;
    proof {
        let ti: int = t as int;
        lemma_fundamental_div_mod(ti, 86400);
        lemma_mod_bound(ti, 86400);
        assert(u as int == ti + 9_223_372_036_854_892_800);
        assert(u as int == (ti / 86400 + 106_751_991_167_302) * 86400 + ti % 86400);
        lemma_fundamental_div_mod_converse(
            u as int, 86400, ti / 86400 + 106_751_991_167_302, ti % 86400);
        assert(u <= 18_446_744_073_709_755_006);
        lemma_div_is_ordered(u as int, 18_446_744_073_709_755_006, 86400);
    }
    let z: i64 = (days_sh as i64) - 106_751_991_167_302 + 719_528;
    let zz: u64 = (z + 146_097_000_000_000i64) as u64;
    let era_sh: u64 = zz / 146097;
    let rem0: u64 = zz % 146097;
    proof {
        let ze: int = z as int;
        lemma_fundamental_div_mod(ze, 146097);
        lemma_mod_bound(ze, 146097);
        assert(zz as int == (ze / 146097 + 1_000_000_000) * 146097 + ze % 146097);
        lemma_fundamental_div_mod_converse(
            zz as int, 146097, ze / 146097 + 1_000_000_000, ze % 146097);
        assert(39_345_009_552_226 <= zz <= 252_849_621_979_422);
        lemma_div_is_ordered(zz as int, 252_849_621_979_422, 146097);
        lemma_div_is_ordered(39_345_009_552_226, zz as int, 146097);
    }
    let era: i64 = (era_sh as i64) - 1_000_000_000;
    let y0: i64 = 400 * era;
    let mut y: i64 = y0;
    let mut rem: u64 = rem0;
    while rem >= year_len(y)
        invariant
            -292_277_100_000 <= y0 <= 292_280_000_000,
            rem0 < 146097,
            y0 <= y,
            rem as int <= rem0 as int - 365 * (y - y0),
            year_scan(y0 as int, rem0 as int) == year_scan(y as int, rem as int),
        decreases rem,
    {
        let len: u64 = year_len(y);
        rem = rem - len;
        y = y + 1;
    }
    proof {
        lemma_year_scan(y0 as int, rem0 as int);
        assert(year_scan(y as int, rem as int) == (y as int, rem as int));
    }
    let rem_y: u64 = rem;
    let mut m: u8 = 1;
    let mut dd: u64 = rem_y;
    proof {
        assert(days_before_month(y as int, 1) == 0);
        lemma_month_scan(y as int, 1, rem_y as int);
    }
    while m < 12 && dd >= month_len(y, m)
        invariant
            -292_277_100_000 <= y <= 292_280_000_401,
            1 <= m <= 12,
            rem_y < days_in_year(y as int),
            dd <= rem_y,
            month_scan(y as int, 1, rem_y as int) == month_scan(y as int, m as int, dd as int),
        decreases 12 - m,
    {
        let len: u64 = month_len(y, m);
        dd = dd - len;
        m = m + 1;
    }
    proof {
        assert(month_scan(y as int, m as int, dd as int) == (m as int, dd as int));
    }
    let hh: u8 = (sod / 3600) as u8;
    let mi: u8 = ((sod % 3600) / 60) as u8;
    proof {
        lemma_div_is_ordered(sod as int, 86399, 3600);
        lemma_mod_bound(sod as int, 3600);
        lemma_div_is_ordered((sod as int) % 3600, 3599, 60);
    }
    LocalStamp { year: y, month: m, day: (dd as u8) + 1, hour: hh, minute: mi }
}

} // verus!
