//! Calendar arithmetic: days since 1970-01-01, and back.
//!
//! Howard Hinnant's arithmetic: the year is shifted to start in March so that
//! the leap day lands at the end of it and the whole thing is division rather
//! than a table of month lengths.

use vstd::prelude::*;
use vstd::arithmetic::div_mod::lemma_fundamental_div_mod_converse_div;

verus! {

/// The largest year these functions are asked about, either way of zero.
pub const YEAR_RANGE: i64 = 1_000_000_000_000;

/// The largest day count, either way of the epoch, that [`civil_from_days`] takes.
pub const DAY_RANGE: i64 = 100_000_000_000_000;

/// Whether a year of the proleptic Gregorian calendar has a 29 February.
pub open spec fn is_leap(year: int) -> bool {
    (year % 4 == 0 && year % 100 != 0) || year % 400 == 0
}

/// How many days a month of a year has.
pub open spec fn month_len(year: int, month: int) -> int {
    if month == 2 {
        if is_leap(year) { 29 } else { 28 }
    } else if month == 4 || month == 6 || month == 9 || month == 11 {
        30
    } else {
        31
    }
}

/// A day that is on the calendar.
pub open spec fn valid_date(year: int, month: int, day: int) -> bool {
    1 <= month <= 12 && 1 <= day <= month_len(year, month)
}

/// The day after a day.
pub open spec fn next_day(year: int, month: int, day: int) -> (int, int, int) {
    if day < month_len(year, month) {
        (year, month, day + 1)
    } else if month < 12 {
        (year, month + 1, 1)
    } else {
        (year + 1, 1, 1)
    }
}

/// Days before the first of a month, counted in a year that starts in March.
pub open spec fn march_offset(month: int) -> int {
    let mp = if month > 2 { month - 3 } else { month + 9 };
    (153 * mp + 2) / 5
}

/// Days since 1970-01-01 of a day given by year, month and day.
pub open spec fn days_of(year: int, month: int, day: int) -> int {
    let y = if month <= 2 { year - 1 } else { year };
    let era = y / 400;
    let yoe = y - era * 400;
    let doe = yoe * 365 + yoe / 4 - yoe / 100 + march_offset(month) + day - 1;
    era * 146097 + doe - 719468
}

/// The year of a day of an era (a day counted from a 1 March at the start of
/// a 400-year cycle).
pub open spec fn year_of_era(doe: int) -> int {
    (doe - doe / 1460 + doe / 36524 - doe / 146096) / 365
}

/// The day given by a count of days since 1970-01-01.
pub open spec fn civil_of(days: int) -> (int, int, int) {
    let z = days + 719468;
    let era = z / 146097;
    let doe = z - era * 146097;
    let yoe = year_of_era(doe);
    let doy = doe - (365 * yoe + yoe / 4 - yoe / 100);
    let mp = (5 * doy + 2) / 153;
    let day = doy - (153 * mp + 2) / 5 + 1;
    let month = if mp < 10 { mp + 3 } else { mp - 9 };
    (yoe + era * 400 + if month <= 2 { 1int } else { 0int }, month, day)
}

proof fn div_is(x: int, d: int, q: int)
    requires
        d > 0,
        q * d <= x < q * d + d,
    ensures
        x / d == q,
{
    lemma_fundamental_div_mod_converse_div(x, d, q, x - q * d);
}

/// Floor of a division by a positive divisor, on machine integers, for a
/// dividend of either sign.
fn floor_div(x: i64, d: i64) -> (q: i64)
    requires
        d > 0,
        -YEAR_RANGE * 1000 <= x <= YEAR_RANGE * 1000,
        d <= 200_000,
    ensures
        q == x / d,
{
    if x >= 0 {
        x / d
    } else {
        let q = -((d - 1 - x) / d);
        proof {
            let k: int = (d - 1 - x) as int / d as int;
            assert(k * d <= d - 1 - x < k * d + d) by {
                vstd::arithmetic::div_mod::lemma_fundamental_div_mod((d - 1 - x) as int, d as int);
            }
            assert((-k) * d <= x < (-k) * d + d) by (nonlinear_arith)
                requires k * d <= d - 1 - x < k * d + d;
            div_is(x as int, d as int, -k);
        }
        q
    }
}

/// Days since 1970-01-01, from a calendar date.
pub fn days_from_civil(ymd: (i64, i64, i64)) -> (days: i64)
    requires
        -YEAR_RANGE <= ymd.0 <= YEAR_RANGE,
        1 <= ymd.1 <= 12,
        1 <= ymd.2 <= 31,
    ensures
        days == days_of(ymd.0 as int, ymd.1 as int, ymd.2 as int),
{
    let (year, month, day) = ymd;
    let year = year - if month <= 2 { 1i64 } else { 0i64 };
    let era = floor_div(year, 400);
    let year_of_era = year - era * 400;
    assert(0 <= year_of_era < 400) by {
        vstd::arithmetic::div_mod::lemma_fundamental_div_mod(year as int, 400);
    }
    let day_of_year = (153 * (month + if month > 2 { -3i64 } else { 9i64 }) + 2) / 5 + day - 1;
    let day_of_era = year_of_era * 365 + year_of_era / 4 - year_of_era / 100 + day_of_year;
    era * 146_097 + day_of_era - 719_468
}

/// And back the other way.
pub fn civil_from_days(days: i64) -> (ymd: (i64, i64, i64))
    requires
        -DAY_RANGE <= days <= DAY_RANGE,
    ensures
        (ymd.0 as int, ymd.1 as int, ymd.2 as int) == civil_of(days as int),
        valid_date(ymd.0 as int, ymd.1 as int, ymd.2 as int),
        days_of(ymd.0 as int, ymd.1 as int, ymd.2 as int) == days,
{
    let z = days + 719_468;
    let era = floor_div(z, 146_097);
    let day_of_era = z - era * 146_097;
    proof {
        vstd::arithmetic::div_mod::lemma_fundamental_div_mod(z as int, 146097);
        lemma_civil_of_valid(days as int);
    }
    let year_of_era = (day_of_era - day_of_era / 1460 + day_of_era / 36_524 - day_of_era / 146_096)
        / 365;
    let day_of_year = day_of_era - (365 * year_of_era + year_of_era / 4 - year_of_era / 100);
    let mp = (5 * day_of_year + 2) / 153;
    let day = day_of_year - (153 * mp + 2) / 5 + 1;
    let month = mp + if mp < 10 { 3i64 } else { -9i64 };
    (year_of_era + era * 400 + if month <= 2 { 1i64 } else { 0i64 }, month, day)
}

/// Days from the start of an era to 1 March of one of its years.
spec fn year_start(yoe: int) -> int {
    365 * yoe + yoe / 4 - yoe / 100
}

/// The year of an era a day of it falls in, found by walking the years.
proof fn locate(doe: int, y: int) -> (r: int)
    requires
        0 <= y < 400,
        year_start(y) <= doe < 146097,
    ensures
        y <= r < 400,
        year_start(r) <= doe < year_start(r) + 365 + if is_leap(r + 1) { 1int } else { 0int },
    decreases 400 - y,
{
    div_is(y, 400, 0);
    if y < 399 {
        div_is(y + 1, 400, 0);
    }
    lemma_year_len(y + 1);
    if y == 399 {
        div_is(399, 4, 99);
        div_is(399, 100, 3);
        div_is(400, 400, 1);
        y
    } else if doe < year_start(y) + 365 + if is_leap(y + 1) { 1int } else { 0int } {
        y
    } else {
        locate(doe, y + 1)
    }
}

/// Facts about the year of an era and the day within it, for a day of an era.
proof fn lemma_year_of_era(doe: int)
    requires
        0 <= doe < 146097,
    ensures
        0 <= year_of_era(doe) < 400,
        0 <= doe - (365 * year_of_era(doe) + year_of_era(doe) / 4 - year_of_era(doe) / 100),
        doe - (365 * year_of_era(doe) + year_of_era(doe) / 4 - year_of_era(doe) / 100)
            < 365 + if is_leap(year_of_era(doe) + 1) { 1int } else { 0int },
{
    div_is(0, 4, 0);
    div_is(0, 100, 0);
    let y = locate(doe, 0);
    lemma_year_of_era_inverse(y, doe - year_start(y));
}

/// Where a day of a March-based year falls: its month counted from March,
/// and the day within that month.
proof fn lemma_month_of_doy(doy: int)
    requires
        0 <= doy < 366,
    ensures
        0 <= (5 * doy + 2) / 153 <= 11,
        (153 * ((5 * doy + 2) / 153) + 2) / 5 <= doy,
        doy - (153 * ((5 * doy + 2) / 153) + 2) / 5 < 31,
        (5 * doy + 2) / 153 == 1 || (5 * doy + 2) / 153 == 3 || (5 * doy + 2) / 153 == 6
            || (5 * doy + 2) / 153 == 8 ==> doy - (153 * ((5 * doy + 2) / 153) + 2) / 5 < 30,
        (5 * doy + 2) / 153 == 11 ==> (153 * ((5 * doy + 2) / 153) + 2) / 5 == 337,
{
}

proof fn lemma_civil_of_valid(days: int)
    ensures
        valid_date(civil_of(days).0, civil_of(days).1, civil_of(days).2),
        days_of(civil_of(days).0, civil_of(days).1, civil_of(days).2) == days,
{
    let z = days + 719468;
    let era = z / 146097;
    let doe = z - era * 146097;
    vstd::arithmetic::div_mod::lemma_fundamental_div_mod(z, 146097);
    lemma_year_of_era(doe);
    let yoe = year_of_era(doe);
    let doy = doe - (365 * yoe + yoe / 4 - yoe / 100);
    lemma_month_of_doy(doy);
    let mp = (5 * doy + 2) / 153;
    let day = doy - (153 * mp + 2) / 5 + 1;
    let month = if mp < 10 { mp + 3 } else { mp - 9 };
    let year = yoe + era * 400 + if month <= 2 { 1int } else { 0int };
    assert(civil_of(days) == (year, month, day));
    let y = if month <= 2 { year - 1 } else { year };
    assert(y == yoe + era * 400);
    div_is(y, 400, era);
    assert(march_offset(month) == (153 * mp + 2) / 5);
    if month == 2 {
        assert(is_leap(year) == is_leap(yoe + 1)) by {
            assert(year == (yoe + 1) + era * 400);
            vstd::arithmetic::div_mod::lemma_mod_multiples_vanish(era * 100, yoe + 1, 4);
            vstd::arithmetic::div_mod::lemma_mod_multiples_vanish(era * 4, yoe + 1, 100);
            vstd::arithmetic::div_mod::lemma_mod_multiples_vanish(era, yoe + 1, 400);
        }
    }
}

/// The year of an era is read back from a day of it.
proof fn lemma_year_of_era_inverse(yoe: int, doy: int)
    requires
        0 <= yoe < 400,
        0 <= doy < 365 + if is_leap(yoe + 1) { 1int } else { 0int },
    ensures
        year_of_era(365 * yoe + yoe / 4 - yoe / 100 + doy) == yoe,
{
    // Within the era: centuries, four-year spans, and years of a span.
    let c = yoe / 100;
    let q = (yoe - 100 * c) / 4;
    let r = yoe - 100 * c - 4 * q;
    div_is(yoe, 100, c);
    div_is(yoe - 100 * c, 4, q);
    assert(0 <= c < 4 && 0 <= q < 25 && 0 <= r < 4);
    div_is(yoe, 4, 25 * c + q);
    let doe = 365 * yoe + yoe / 4 - yoe / 100 + doy;
    assert(doe == 36524 * c + 1461 * q + 365 * r + doy);
    // A 366th day only in a leap year, which ends a span of four.
    assert(doy == 365 ==> r == 3) by {
        if doy == 365 {
            assert(is_leap(yoe + 1));
            assert((yoe + 1) % 4 == 0);
            if r != 3 {
                assert(yoe + 1 == 4 * (25 * c + q) + (r + 1));
                div_is(yoe + 1, 4, 25 * c + q);
            }
        }
    }
    // The last day of the era is the only one the century count reaches four on.
    assert(doy == 365 && q == 24 && r == 3 ==> c == 3) by {
        if doy == 365 && q == 24 && r == 3 {
            assert(is_leap(yoe + 1));
            assert(yoe + 1 == 100 * (c + 1));
            if c < 3 {
                div_is(yoe + 1, 400, 0);
                div_is(yoe + 1, 100, c + 1);
            }
        }
    }
    let t2 = 24 * c + q + 365 * r + doy;
    let t3 = 1461 * q + 365 * r + doy;
    let k2: int = if t2 >= 1460 { 1 } else { 0 };
    let k3: int = if t3 == 36524 { 1 } else { 0 };
    let g: int = if doe == 146096 { 1 } else { 0 };
    div_is(doe, 1460, 25 * c + q + k2);
    div_is(doe, 36524, c + k3);
    div_is(doe, 146096, g);
    let s = doe - doe / 1460 + doe / 36524 - doe / 146096;
    assert(s == 365 * yoe + doy - k2 + k3 - g);
    div_is(s, 365, yoe);
}

/// The month is read back from a day of a March-based year.
proof fn lemma_month_inverse(month: int, day: int, leap: bool)
    requires
        1 <= month <= 12,
        1 <= day <= (if month == 2 { if leap { 29int } else { 28int } } else if month == 4 || month == 6
            || month == 9 || month == 11 { 30int } else { 31int }),
    ensures
        ({
            let mp = if month > 2 { month - 3 } else { month + 9 };
            let doy = march_offset(month) + day - 1;
            &&& (5 * doy + 2) / 153 == mp
            &&& 0 <= doy < 365 + if leap { 1int } else { 0int }
        }),
{
}

/// A day on the calendar, counted and read back, is the same day.
pub proof fn lemma_civil_of_days_of(year: int, month: int, day: int)
    requires
        valid_date(year, month, day),
    ensures
        civil_of(days_of(year, month, day)) == (year, month, day),
{
    let y = if month <= 2 { year - 1 } else { year };
    let era = y / 400;
    let yoe = y - era * 400;
    vstd::arithmetic::div_mod::lemma_fundamental_div_mod(y, 400);
    assert(is_leap(year) == is_leap(yoe + 1) || month > 2) by {
        if month <= 2 {
            assert(year == (yoe + 1) + era * 400);
            vstd::arithmetic::div_mod::lemma_mod_multiples_vanish(era * 100, yoe + 1, 4);
            vstd::arithmetic::div_mod::lemma_mod_multiples_vanish(era * 4, yoe + 1, 100);
            vstd::arithmetic::div_mod::lemma_mod_multiples_vanish(era, yoe + 1, 400);
        }
    }
    assert(is_leap(year + 1) == is_leap(yoe + 1) || month <= 2) by {
        if month > 2 {
            assert(year + 1 == (yoe + 1) + era * 400);
            vstd::arithmetic::div_mod::lemma_mod_multiples_vanish(era * 100, yoe + 1, 4);
            vstd::arithmetic::div_mod::lemma_mod_multiples_vanish(era * 4, yoe + 1, 100);
            vstd::arithmetic::div_mod::lemma_mod_multiples_vanish(era, yoe + 1, 400);
        }
    }
    lemma_month_inverse(month, day, is_leap(yoe + 1));
    let doy = march_offset(month) + day - 1;
    lemma_year_of_era_inverse(yoe, doy);
    let doe = yoe * 365 + yoe / 4 - yoe / 100 + doy;
    let z = days_of(year, month, day) + 719468;
    assert(z == era * 146097 + doe);
    div_is(z, 146097, era);
}

/// Days from 1970-01-01 to 1 March of a year, less the 719468 days before it.
spec fn march_first(y: int) -> int {
    let era = y / 400;
    let yoe = y - era * 400;
    era * 146097 + yoe * 365 + yoe / 4 - yoe / 100
}

/// A March-based year is 365 days long, or 366 when the February ending it is
/// a leap one.
proof fn lemma_year_len(y: int)
    ensures
        march_first(y) - march_first(y - 1) == 365 + if is_leap(y) { 1int } else { 0int },
{
    let e = (y - 1) / 400;
    let k = (y - 1) - e * 400;
    vstd::arithmetic::div_mod::lemma_fundamental_div_mod(y - 1, 400);
    if k < 399 {
        div_is(y, 400, e);
        let k1 = k + 1;
        let a = k / 4;
        let b = k / 100;
        vstd::arithmetic::div_mod::lemma_fundamental_div_mod(k, 4);
        vstd::arithmetic::div_mod::lemma_fundamental_div_mod(k, 100);
        vstd::arithmetic::div_mod::lemma_fundamental_div_mod(k1, 4);
        vstd::arithmetic::div_mod::lemma_fundamental_div_mod(k1, 100);
        vstd::arithmetic::div_mod::lemma_fundamental_div_mod(k1, 400);
        assert(y == k1 + e * 400);
        vstd::arithmetic::div_mod::lemma_mod_multiples_vanish(e * 100, k1, 4);
        vstd::arithmetic::div_mod::lemma_mod_multiples_vanish(e * 4, k1, 100);
        vstd::arithmetic::div_mod::lemma_mod_multiples_vanish(e, k1, 400);
        if k1 % 4 == 0 {
            div_is(k1, 4, a + 1);
        } else {
            div_is(k1, 4, a);
        }
        if k1 % 100 == 0 {
            div_is(k1, 100, b + 1);
        } else {
            div_is(k1, 100, b);
        }
        div_is(k1, 400, 0);
    } else {
        div_is(y, 400, e + 1);
        div_is(399, 4, 99);
        div_is(399, 100, 3);
        vstd::arithmetic::div_mod::lemma_mod_multiples_vanish(e + 1, 0, 400);
        assert(y % 400 == 0) by {
            vstd::arithmetic::div_mod::lemma_fundamental_div_mod_converse_mod(y, 400, e + 1, 0);
        }
    }
}

/// The day after a day is counted one more.
pub proof fn lemma_days_of_next_day(year: int, month: int, day: int)
    requires
        valid_date(year, month, day),
    ensures
        valid_date(next_day(year, month, day).0, next_day(year, month, day).1, next_day(year, month, day).2),
        days_of(next_day(year, month, day).0, next_day(year, month, day).1, next_day(year, month, day).2)
            == days_of(year, month, day) + 1,
{
    assert(forall|y: int, m: int, d: int| 1 <= m <= 12 ==> #[trigger] days_of(y, m, d) == march_first(
        if m <= 2 { y - 1 } else { y },
    ) + march_offset(m) + d - 1 - 719468);
    if day == month_len(year, month) && month == 2 {
        lemma_year_len(year);
    }
}

/// The first day counted is 1 January 1970.
pub proof fn lemma_epoch()
    ensures
        days_of(1970, 1, 1) == 0,
        civil_of(0) == (1970int, 1int, 1int),
{
    lemma_civil_of_days_of(1970, 1, 1);
}

/// A day of a month is counted from the first of it.
pub proof fn lemma_days_of_day(year: int, month: int, day: int)
    ensures
        days_of(year, month, day) == days_of(year, month, 1) + day - 1,
{
}

/// The first of a month is counted a whole month after the first of the one
/// before, and 1 January a whole December after 1 December.
pub proof fn lemma_days_of_month_step(year: int, month: int)
    requires
        1 <= month <= 12,
    ensures
        month < 12 ==> days_of(year, month + 1, 1) == days_of(year, month, 1) + month_len(year, month),
        month == 12 ==> days_of(year + 1, 1, 1) == days_of(year, 12, 1) + 31,
{
    let last = month_len(year, month);
    assert(valid_date(year, month, last));
    lemma_days_of_next_day(year, month, last);
    lemma_days_of_day(year, month, last);
}

/// Later months of a year start later: at least a whole month after the
/// first of any month before them.
pub proof fn lemma_days_of_month_order(year: int, m1: int, m2: int)
    requires
        1 <= m1 < m2 <= 12,
    ensures
        days_of(year, m2, 1) >= days_of(year, m1, 1) + month_len(year, m1),
    decreases m2 - m1,
{
    lemma_days_of_month_step(year, m2 - 1);
    if m1 < m2 - 1 {
        lemma_days_of_month_order(year, m1, m2 - 1);
    }
}

/// Every day of a year, numbered 1 to 31 in any month, comes before the
/// next year's 1 January, and none before its own.
pub proof fn lemma_days_of_in_year(year: int, month: int, day: int)
    requires
        1 <= month <= 12,
        1 <= day <= 31,
    ensures
        days_of(year, 1, 1) <= days_of(year, month, day) < days_of(year + 1, 1, 1),
{
    lemma_days_of_day(year, month, day);
    lemma_days_of_day(year, 12, 1);
    lemma_days_of_month_step(year, 12);
    if month < 12 {
        lemma_days_of_month_order(year, month, 12);
    }
    if month > 1 {
        lemma_days_of_month_order(year, 1, month);
    }
}

} // verus!
