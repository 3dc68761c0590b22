//! Proleptic-Gregorian civil-time arithmetic: day counts from dates and back (Howard Hinnant's
//! `days_from_civil` / `civil_from_days`), and ISO-8601 UTC instants
//! (`YYYY-MM-DDTHH:MM:SSZ`) to Unix timestamps and back.
use vstd::prelude::*;
use crate::text::{
    all_digits, avoids, chars_of, copy_range, find_char, first_index, lemma_avoids_concat,
    lemma_digits_avoid, lemma_first_index_at, lemma_first_index_none, lemma_padded_nonneg,
    lemma_parse_digits, lemma_split_cons, lemma_split_single, padded_int, parse_i64,
    parse_i64_text, push_padded_int, quoted_message, split_on, split_ranges, str_debug,
    string_of, trim, trim_end_char, trim_end_char_range, trim_range,
};

verus! {

/// Division rounding toward zero, for a positive divisor.
pub open spec fn div_trunc(a: int, b: int) -> int
    recommends
        b > 0,
{
    if a >= 0 {
        a / b
    } else {
        -((-a) / b)
    }
}

/// Days since 1970-01-01 of the proleptic-Gregorian date `(y, m, d)`, by the
/// era / year-of-era / day-of-year decomposition (years start on March 1).
pub open spec fn days_from_civil_spec(y: int, m: int, d: int) -> int {
    let y1 = if m <= 2 { y - 1 } else { y };
    let era = y1 / 400;
    let yoe = y1 - era * 400;
    let mp = if m > 2 { m - 3 } else { m + 9 };
    let doy = div_trunc(153 * mp + 2, 5) + d - 1;
    let doe = yoe * 365 + yoe / 4 - yoe / 100 + doy;
    era * 146097 + doe - 719468
}

/// [`days_from_civil_spec`] over `i128`, wide enough for every `i64` input.
pub(crate) fn days_from_civil_wide(y: i128, m: i128, d: i128) -> (r: i128)
    requires
        -0x1_0000_0000_0000_0000_0000 <= y <= 0x1_0000_0000_0000_0000_0000,
        -0x1_0000_0000_0000_0000_0000 <= m <= 0x1_0000_0000_0000_0000_0000,
        -0x1_0000_0000_0000_0000_0000 <= d <= 0x1_0000_0000_0000_0000_0000,
    ensures
        r == days_from_civil_spec(y as int, m as int, d as int),
        -0x400_0000_0000_0000_0000_0000 <= r <= 0x400_0000_0000_0000_0000_0000,
{
    let y1 = if m <= 2 { y - 1 } else { y };
    let era = if y1 >= 0 { y1 / 400 } else { -((399 - y1) / 400) };
    assert(era == (y1 as int) / 400) by (nonlinear_arith)
        requires era == (if y1 >= 0 { y1 / 400 } else { -((399 - y1) / 400) });
    let yoe = y1 - era * 400;
    let mp = if m > 2 { m - 3 } else { m + 9 };
    let x = 153 * mp + 2;
    let q = if x >= 0 { x / 5 } else { -((-x) / 5) };
    assert(-0x100_0000_0000_0000_0000_0000 <= q <= 0x100_0000_0000_0000_0000_0000) by (nonlinear_arith)
        requires
            q == (if x >= 0 { x / 5 } else { -((-x) / 5) }),
            -0x200_0000_0000_0000_0000_0000 <= x <= 0x200_0000_0000_0000_0000_0000;
    assert(-0x1_0000_0000_0000_0000_0000 <= era <= 0x1_0000_0000_0000_0000_0000) by (nonlinear_arith)
        requires
            era == (y1 as int) / 400,
            -0x1_0000_0000_0000_0000_0001 <= y1 <= 0x1_0000_0000_0000_0000_0000;
    let doy = q + d - 1;
    let doe = yoe * 365 + yoe / 4 - yoe / 100 + doy;
    era * 146097 + doe - 719468
}


pub open spec fn year_frac_of_era(doe: int) -> int {
    (doe - doe / 1460 + doe / 36524 - doe / 146096) / 365
}

proof fn lemma_year_of_era(doe: int)
    requires
        0 <= doe <= 146096,
    ensures
        ({
            let yoe = year_frac_of_era(doe);
            let doy = doe - (365 * yoe + yoe / 4 - yoe / 100);
            &&& 0 <= yoe <= 399
            &&& 0 <= doy <= 365
            &&& doy == 365 ==> (yoe + 1) % 4 == 0 && ((yoe + 1) % 100 != 0 || yoe == 399)
        }),
{
    if doe == 146096 {
        assert(year_frac_of_era(doe) == 399);
    } else {
        let c = doe / 36524;
        let r = doe % 36524;
        assert(doe == 36524 * c + r && 0 <= r < 36524) by {
            vstd::arithmetic::div_mod::lemma_fundamental_div_mod(doe, 36524);
        }
        assert(0 <= c <= 3);
        let q = r / 1461;
        let s = r % 1461;
        assert(r == 1461 * q + s && 0 <= s < 1461) by {
            vstd::arithmetic::div_mod::lemma_fundamental_div_mod(r, 1461);
        }
        assert(0 <= q <= 24);
        assert(q == 24 ==> s <= 1459);
        let e: int = if 24 * c + q + s >= 1460 { 1 } else { 0 };
        assert(doe == 1460 * (25 * c + q) + (24 * c + q + s));
        assert(doe / 1460 == 25 * c + q + e) by {
            vstd::arithmetic::div_mod::lemma_fundamental_div_mod_converse(
                doe, 1460, 25 * c + q + e, 24 * c + q + s - 1460 * e);
        }
        assert(doe / 36524 == c);
        assert(doe / 146096 == 0);
        let j: int = if s == 1460 { 3 } else { s / 365 };
        assert(0 <= j <= 3);
        assert(s - e - 365 * j >= 0 && s - e - 365 * j < 365);
        let n = doe - doe / 1460 + doe / 36524 - doe / 146096;
        assert(n == 365 * (100 * c + 4 * q + j) + (s - e - 365 * j));
        let yoe = 100 * c + 4 * q + j;
        assert(year_frac_of_era(doe) == yoe) by {
            vstd::arithmetic::div_mod::lemma_fundamental_div_mod_converse(
                n, 365, yoe, s - e - 365 * j);
        }
        assert(yoe / 4 == 25 * c + q) by {
            vstd::arithmetic::div_mod::lemma_fundamental_div_mod_converse(yoe, 4, 25 * c + q, j);
        }
        assert(yoe / 100 == c) by {
            vstd::arithmetic::div_mod::lemma_fundamental_div_mod_converse(yoe, 100, c, 4 * q + j);
        }
        assert((yoe + 1) % 4 == (j + 1) % 4) by {
            vstd::arithmetic::div_mod::lemma_fundamental_div_mod_converse(
                yoe + 1, 4, 25 * c + q + (j + 1) / 4, (j + 1) % 4);
        }
        if s == 1460 {
            assert((yoe + 1) % 100 != 0) by {
                vstd::arithmetic::div_mod::lemma_fundamental_div_mod_converse(
                    yoe + 1, 100, c, 4 * q + 4);
            }
        }
    }
}

/// Gregorian leap-year rule (proleptic, any integer year).
pub open spec fn is_leap_year(y: int) -> bool {
    y % 4 == 0 && (y % 100 != 0 || y % 400 == 0)
}

/// Length of month `m` of year `y`; months outside 1..=12 count as 30 days.
pub open spec fn days_in_month_spec(y: int, m: int) -> int {
    if m == 1 || m == 3 || m == 5 || m == 7 || m == 8 || m == 10 || m == 12 {
        31
    } else if m == 2 {
        if is_leap_year(y) { 29 } else { 28 }
    } else {
        30
    }
}

/// A real calendar date: month 1..=12 and day within that month.
pub open spec fn is_valid_date(y: int, m: int, d: int) -> bool {
    1 <= m <= 12 && 1 <= d <= days_in_month_spec(y, m)
}

/// First day-of-year (March-based) of month index `mp` (0 = March .. 11 = February).
pub open spec fn march_month_start(mp: int) -> int {
    (153 * mp + 2) / 5
}

proof fn lemma_month_of_doy(doy: int)
    requires
        0 <= doy <= 365,
    ensures
        ({
            let mp = (5 * doy + 2) / 153;
            &&& 0 <= mp <= 11
            &&& march_month_start(mp) <= doy < march_month_start(mp + 1)
        }),
{
    let mp = (5 * doy + 2) / 153;
    assert(0 <= mp <= 11);
    assert(march_month_start(mp) <= doy < march_month_start(mp + 1)) by {
        vstd::arithmetic::div_mod::lemma_fundamental_div_mod(5 * doy + 2, 153);
        vstd::arithmetic::div_mod::lemma_fundamental_div_mod(153 * mp + 2, 5);
        vstd::arithmetic::div_mod::lemma_fundamental_div_mod(153 * (mp + 1) + 2, 5);
    }
}

proof fn lemma_mod_shift(era: int, k: int, n: int)
    requires
        n == 4 || n == 100 || n == 400,
    ensures
        (400 * era + k) % n == k % n,
{
    vstd::arithmetic::div_mod::lemma_fundamental_div_mod(k, n);
    if n == 4 {
        vstd::arithmetic::div_mod::lemma_fundamental_div_mod_converse(
            400 * era + k, 4, 100 * era + k / 4, k % 4);
    } else if n == 100 {
        vstd::arithmetic::div_mod::lemma_fundamental_div_mod_converse(
            400 * era + k, 100, 4 * era + k / 100, k % 100);
    } else {
        vstd::arithmetic::div_mod::lemma_fundamental_div_mod_converse(
            400 * era + k, 400, era + k / 400, k % 400);
    }
}

/// The date `(year, month, day)` of day count `z` (days since 1970-01-01), by the same
/// era / year-of-era / day-of-year decomposition as [`days_from_civil_spec`], run backwards.
pub open spec fn civil_from_days_spec(z: int) -> (int, int, int) {
    let z1 = z + 719468;
    let era = z1 / 146097;
    let doe = z1 - era * 146097;
    let yoe = year_frac_of_era(doe);
    let y = yoe + era * 400;
    let doy = doe - (365 * yoe + yoe / 4 - yoe / 100);
    let mp = (5 * doy + 2) / 153;
    let d = doy - (153 * mp + 2) / 5 + 1;
    let m = if mp < 10 { mp + 3 } else { mp - 9 };
    (if m <= 2 { y + 1 } else { y }, m, d)
}

/// Law: the date of any day count is a real calendar date, and [`days_from_civil_spec`] maps it
/// back to that day count.
pub proof fn lemma_civil_from_days(z: int)
    ensures
        ({
            let (y, m, d) = civil_from_days_spec(z);
            is_valid_date(y, m, d) && days_from_civil_spec(y, m, d) == z
        }),
{
    let z1 = z + 719468;
    let era = z1 / 146097;
    let doe = z1 - era * 146097;
    assert(0 <= doe < 146097) by {
        vstd::arithmetic::div_mod::lemma_fundamental_div_mod(z1, 146097);
    }
    let yoe = year_frac_of_era(doe);
    lemma_year_of_era(doe);
    let y = yoe + era * 400;
    let doy = doe - (365 * yoe + yoe / 4 - yoe / 100);
    let mp = (5 * doy + 2) / 153;
    lemma_month_of_doy(doy);
    let d = doy - (153 * mp + 2) / 5 + 1;
    let m = if mp < 10 { mp + 3 } else { mp - 9 };
    let yr = if m <= 2 { y + 1 } else { y };
    let y1 = if m <= 2 { yr - 1 } else { yr };
    assert(y1 / 400 == era) by {
        vstd::arithmetic::div_mod::lemma_fundamental_div_mod_converse(y1, 400, era, yoe);
    }
    if mp == 11 {
        lemma_mod_shift(era, yoe + 1, 4);
        lemma_mod_shift(era, yoe + 1, 100);
        lemma_mod_shift(era, yoe + 1, 400);
        assert(yr == 400 * era + (yoe + 1));
    }
}

/// [`civil_from_days_spec`] over `i128`.
pub(crate) fn civil_from_days_wide(z: i128) -> (r: (i128, i128, i128))
    requires
        -0x40_0000_0000_0000_0000 <= z <= 0x40_0000_0000_0000_0000,
    ensures
        (r.0 as int, r.1 as int, r.2 as int) == civil_from_days_spec(z as int),
        -0x4000_0000_0000_0000 <= r.0 <= 0x4000_0000_0000_0000,
{
    let z = z + 719468;
    let era = if z >= 0 { z / 146097 } else { -((146096 - z) / 146097) };
    assert(era == (z as int) / 146097) by (nonlinear_arith)
        requires era == (if z >= 0 { z / 146097 } else { -((146096 - z) / 146097) });
    let doe = z - era * 146097;
    assert(0 <= doe < 146097) by {
        vstd::arithmetic::div_mod::lemma_fundamental_div_mod(z as int, 146097);
    }
    assert(-0x20_0000_0000_0000 <= era <= 0x20_0000_0000_0000) by (nonlinear_arith)
        requires
            0 <= z - era * 146097 < 146097,
            -0x40_0000_0000_0000_0000 <= z <= 0x40_0000_0000_0000_0000 + 719468;
    let yoe = (doe - doe / 1460 + doe / 36524 - doe / 146096) / 365;
    proof { lemma_year_of_era(doe as int); }
    let y = yoe + era * 400;
    let doy = doe - (365 * yoe + yoe / 4 - yoe / 100);
    let mp = (5 * doy + 2) / 153;
    proof { lemma_month_of_doy(doy as int); }
    let d = doy - (153 * mp + 2) / 5 + 1;
    let m = if mp < 10 { mp + 3 } else { mp - 9 };
    let yy = if m <= 2 { y + 1 } else { y };
    (yy, m, d)
}

/// Days since the Unix epoch (1970-01-01) for a proleptic-Gregorian date; `m` is 1..=12 for a
/// calendar date (other months extend the formula linearly).
pub fn days_from_civil(y: i64, m: i64, d: i64) -> (r: i64)
    requires
        i64::MIN <= days_from_civil_spec(y as int, m as int, d as int) <= i64::MAX,
    ensures
        r == days_from_civil_spec(y as int, m as int, d as int),
{
    days_from_civil_wide(y as i128, m as i128, d as i128) as i64
}

/// Inverse of [`days_from_civil`]: returns `(year, month, day)`, a real calendar date whose day
/// count is `z`.
pub fn civil_from_days(z: i64) -> (r: (i64, i64, i64))
    ensures
        (r.0 as int, r.1 as int, r.2 as int) == civil_from_days_spec(z as int),
        is_valid_date(r.0 as int, r.1 as int, r.2 as int),
        days_from_civil_spec(r.0 as int, r.1 as int, r.2 as int) == z,
{
    proof { lemma_civil_from_days(z as int); }
    let (y, m, d) = civil_from_days_wide(z as i128);
    (y as i64, m as i64, d as i64)
}

// ---------------------------------------------------------------------------
// The other direction: a calendar date survives the round trip.
// ---------------------------------------------------------------------------

/// Days from the start of an era (March 1 of a year divisible by 400) to the start of its
/// `k`-th year, for `0 <= k <= 399`.
pub open spec fn era_year_start(k: int) -> int {
    365 * k + k / 4 - k / 100
}

/// Whether the year ending in the February after era year `k` has a February 29.
pub open spec fn era_year_long(k: int) -> bool {
    (k + 1) % 4 == 0 && ((k + 1) % 100 != 0 || k == 399)
}

proof fn lemma_era_year_step(k: int)
    requires
        0 <= k <= 398,
    ensures
        era_year_start(k + 1) == era_year_start(k) + 365 + if era_year_long(k) { 1int } else { 0 },
{
    vstd::arithmetic::div_mod::lemma_fundamental_div_mod(k, 4);
    vstd::arithmetic::div_mod::lemma_fundamental_div_mod(k + 1, 4);
    vstd::arithmetic::div_mod::lemma_fundamental_div_mod(k, 100);
    vstd::arithmetic::div_mod::lemma_fundamental_div_mod(k + 1, 100);
    assert((k + 1) % 100 == 0 ==> (k + 1) % 4 == 0) by {
        if (k + 1) % 100 == 0 {
            vstd::arithmetic::div_mod::lemma_fundamental_div_mod_converse(
                k + 1, 4, 25 * ((k + 1) / 100), 0);
        }
    }
}

proof fn lemma_era_year_mono(a: int, b: int)
    requires
        0 <= a <= b <= 399,
    ensures
        era_year_start(a) + 365 * (b - a) <= era_year_start(b) + (b - a) / 100 + 1,
        a < b ==> era_year_start(a) + 365 <= era_year_start(b),
    decreases b - a,
{
    if a < b {
        lemma_era_year_mono(a, b - 1);
        lemma_era_year_step(b - 1);
        if a < b - 1 {
            assert(era_year_start(a) + 365 <= era_year_start(b - 1));
        }
    }
}

proof fn lemma_march_month_start_mono(a: int, b: int)
    requires
        0 <= a < b <= 12,
    ensures
        march_month_start(a) + 28 <= march_month_start(b),
{
    vstd::arithmetic::div_mod::lemma_fundamental_div_mod(153 * a + 2, 5);
    vstd::arithmetic::div_mod::lemma_fundamental_div_mod(153 * b + 2, 5);
}

/// Law: [`civil_from_days_spec`] undoes [`days_from_civil_spec`] on every calendar date.
pub proof fn lemma_civil_round_trip(y: int, m: int, d: int)
    requires
        is_valid_date(y, m, d),
    ensures
        civil_from_days_spec(days_from_civil_spec(y, m, d)) == (y, m, d),
{
    let y1 = if m <= 2 { y - 1 } else { y };
    let era = y1 / 400;
    let yoe = y1 - era * 400;
    assert(0 <= yoe < 400) by {
        vstd::arithmetic::div_mod::lemma_fundamental_div_mod(y1, 400);
    }
    let mp = if m > 2 { m - 3 } else { m + 9 };
    let doy = march_month_start(mp) + d - 1;
    assert(div_trunc(153 * mp + 2, 5) == march_month_start(mp));
    // the day of year lies within the month, and within the year
    assert(march_month_start(mp) <= doy < march_month_start(mp + 1)) by {
        assert(march_month_start(0) == 0);
        assert(march_month_start(1) == 31);
        assert(march_month_start(2) == 61);
        assert(march_month_start(3) == 92);
        assert(march_month_start(4) == 122);
        assert(march_month_start(5) == 153);
        assert(march_month_start(6) == 184);
        assert(march_month_start(7) == 214);
        assert(march_month_start(8) == 245);
        assert(march_month_start(9) == 275);
        assert(march_month_start(10) == 306);
        assert(march_month_start(11) == 337);
        assert(march_month_start(12) == 367);
    }
    let jan_year = if m <= 2 { y1 + 1 } else { y1 };
    if mp == 11 {
        lemma_mod_shift(era, yoe + 1, 4);
        lemma_mod_shift(era, yoe + 1, 100);
        lemma_mod_shift(era, yoe + 1, 400);
        assert(jan_year == 400 * era + (yoe + 1));
        assert((yoe + 1) % 400 == 0 ==> yoe == 399);
        assert(march_month_start(11) == 337);
    }
    assert(doy <= 364 || (doy == 365 && era_year_long(yoe)));
    let doe = era_year_start(yoe) + doy;
    assert(0 <= doe <= 146096) by {
        if yoe < 399 {
            lemma_era_year_step(yoe);
            lemma_era_year_mono(yoe + 1, 399);
        }
    }
    let z = days_from_civil_spec(y, m, d);
    assert(z == era * 146097 + doe - 719468);
    let z1 = z + 719468;
    assert(z1 / 146097 == era) by {
        vstd::arithmetic::div_mod::lemma_fundamental_div_mod_converse(z1, 146097, era, doe);
    }
    lemma_year_of_era(doe);
    let yoe2 = year_frac_of_era(doe);
    assert(yoe2 == yoe) by {
        if yoe2 > yoe {
            lemma_era_year_step(yoe);
            lemma_era_year_mono(yoe + 1, yoe2);
        } else if yoe2 < yoe {
            lemma_era_year_step(yoe2);
            lemma_era_year_mono(yoe2 + 1, yoe);
        }
    }
    lemma_month_of_doy(doy);
    let mp2 = (5 * doy + 2) / 153;
    assert(mp2 == mp) by {
        if mp2 > mp {
            if mp + 1 < mp2 {
                lemma_march_month_start_mono(mp + 1, mp2);
            }
        } else if mp2 < mp {
            if mp2 + 1 < mp {
                lemma_march_month_start_mono(mp2 + 1, mp);
            }
        }
    }
}

/// The calendar date following a calendar date.
pub open spec fn next_day(y: int, m: int, d: int) -> (int, int, int) {
    if d < days_in_month_spec(y, m) {
        (y, m, d + 1)
    } else if m < 12 {
        (y, m + 1, 1)
    } else {
        (y + 1, 1, 1)
    }
}

/// Law: day counts follow the proleptic Gregorian calendar exactly — 1970-01-01 is day 0, and
/// the day after any calendar date has the next day count.
pub proof fn lemma_days_from_civil_next_day(y: int, m: int, d: int)
    requires
        is_valid_date(y, m, d),
    ensures
        days_from_civil_spec(1970, 1, 1) == 0,
        ({
            let (y2, m2, d2) = next_day(y, m, d);
            is_valid_date(y2, m2, d2) && days_from_civil_spec(y2, m2, d2) == days_from_civil_spec(
                y,
                m,
                d,
            ) + 1
        }),
{
    assert(days_from_civil_spec(1970, 1, 1) == 0) by {
        assert(1969int / 400 == 4);
    }
    let (y2, m2, d2) = next_day(y, m, d);
    if d < days_in_month_spec(y, m) || (m != 2 && m < 12) {
        // same March-based year: only the day of year moves
        if d >= days_in_month_spec(y, m) {
            assert(march_month_start(0) == 0);
            assert(march_month_start(1) == 31);
            assert(march_month_start(2) == 61);
            assert(march_month_start(3) == 92);
            assert(march_month_start(4) == 122);
            assert(march_month_start(5) == 153);
            assert(march_month_start(6) == 184);
            assert(march_month_start(7) == 214);
            assert(march_month_start(8) == 245);
            assert(march_month_start(9) == 275);
            assert(march_month_start(10) == 306);
            assert(march_month_start(11) == 337);
            if m == 1 {
                assert(y2 == y && m2 == 2);
            }
        }
    } else if m == 12 {
        // December 31 to January 1: still the same March-based year
        assert(march_month_start(9) == 275);
        assert(march_month_start(10) == 306);
        assert((y + 1) - 1 == y);
    } else {
        // the last day of February to March 1: a new March-based year begins
        let y1 = y - 1;
        let era = y1 / 400;
        let yoe = y1 - era * 400;
        assert(0 <= yoe < 400) by {
            vstd::arithmetic::div_mod::lemma_fundamental_div_mod(y1, 400);
        }
        lemma_mod_shift(era, yoe + 1, 4);
        lemma_mod_shift(era, yoe + 1, 100);
        lemma_mod_shift(era, yoe + 1, 400);
        assert(y == 400 * era + (yoe + 1));
        assert((yoe + 1) % 400 == 0 ==> yoe == 399);
        assert(march_month_start(11) == 337);
        assert(march_month_start(0) == 0);
        if yoe < 399 {
            assert(y / 400 == era) by {
                vstd::arithmetic::div_mod::lemma_fundamental_div_mod_converse(y, 400, era, yoe + 1);
            }
            lemma_era_year_step(yoe);
        } else {
            assert(y / 400 == era + 1) by {
                vstd::arithmetic::div_mod::lemma_fundamental_div_mod_converse(y, 400, era + 1, 0);
            }
            assert(era_year_start(399) == 145731);
        }
    }
}

/// Law: the length of a month is the difference between the day counts of its first day and of
/// the first day of the month after it.
pub proof fn lemma_month_length(y: int, m: int)
    requires
        1 <= m <= 12,
    ensures
        days_in_month_spec(y, m) == (if m == 12 {
            days_from_civil_spec(y + 1, 1, 1)
        } else {
            days_from_civil_spec(y, m + 1, 1)
        }) - days_from_civil_spec(y, m, 1),
{
    let dim = days_in_month_spec(y, m);
    assert(days_from_civil_spec(y, m, dim) == days_from_civil_spec(y, m, 1) + dim - 1);
    lemma_days_from_civil_next_day(y, m, dim);
}

// ---------------------------------------------------------------------------
// ISO-8601 instants.
// ---------------------------------------------------------------------------

/// Index of the first `T` or space in `u`.
pub open spec fn first_sep(u: Seq<char>) -> Option<int> {
    match (first_index(u, 'T'), first_index(u, ' ')) {
        (Some(a), Some(b)) => Some(if a < b { a } else { b }),
        (Some(a), None) => Some(a),
        (None, Some(b)) => Some(b),
        (None, None) => None,
    }
}

/// The input trimmed, trailing `Z`s dropped, and split at the first `T` or space into its date
/// and time text (time `00:00:00` when there is no separator).
pub open spec fn iso_parts(s: Seq<char>) -> (Seq<char>, Seq<char>) {
    let u = trim_end_char(trim(s), 'Z');
    match first_sep(u) {
        Some(k) => (u.take(k), u.skip(k + 1)),
        None => (u, "00:00:00"@),
    }
}

pub open spec fn bad_date_message(date: Seq<char>) -> Seq<char> {
    "bad date (want YYYY-MM-DD): "@ + str_debug(date)
}

pub open spec fn not_integer_message(piece: Seq<char>) -> Seq<char> {
    "not an integer: "@ + str_debug(piece)
}

pub open spec fn date_range_message(date: Seq<char>) -> Seq<char> {
    "month/day out of range in "@ + str_debug(date)
}

pub open spec fn bad_time_message(time: Seq<char>) -> Seq<char> {
    "bad time (want HH:MM:SS): "@ + str_debug(time)
}

pub open spec fn time_range_message(time: Seq<char>) -> Seq<char> {
    "time component out of range in "@ + str_debug(time)
}

/// An integer field of the instant (`i64` text), or the "not an integer" error naming it.
pub open spec fn iso_field(piece: Seq<char>) -> Result<int, Seq<char>> {
    match parse_i64_text(piece) {
        Some(v) => Ok(v as int),
        None => Err(not_integer_message(piece)),
    }
}

/// The time-of-day part: `HH[:MM[:SS]]`, each an `i64`, `HH <= 23`, `MM <= 59`, `SS <= 60`;
/// the result is the number of seconds it denotes.
pub open spec fn iso_time_value(time: Seq<char>) -> Result<int, Seq<char>> {
    let tp = split_on(time, ':');
    if tp.len() > 3 {
        Err(bad_time_message(time))
    } else {
        match iso_field(tp[0]) {
            Err(e) => Err(e),
            Ok(hh) => {
                let mmr = if tp.len() > 1 { iso_field(tp[1]) } else { Ok(0) };
                match mmr {
                    Err(e) => Err(e),
                    Ok(mm) => {
                        let ssr = if tp.len() > 2 { iso_field(tp[2]) } else { Ok(0) };
                        match ssr {
                            Err(e) => Err(e),
                            Ok(ss) => if hh > 23 || mm > 59 || ss > 60 {
                                Err(time_range_message(time))
                            } else {
                                Ok(hh * 3600 + mm * 60 + ss)
                            },
                        }
                    },
                }
            },
        }
    }
}

/// What `YYYY-MM-DD[(T| )HH[:MM[:SS]]][Z...]` denotes as seconds since the epoch, or the message
/// of the first check that fails.
pub open spec fn iso_value(s: Seq<char>) -> Result<int, Seq<char>> {
    let (date, time) = iso_parts(s);
    let dp = split_on(date, '-');
    if dp.len() != 3 {
        Err(bad_date_message(date))
    } else {
        match (iso_field(dp[0]), iso_field(dp[1]), iso_field(dp[2])) {
            (Err(e), _, _) => Err(e),
            (Ok(_), Err(e), _) => Err(e),
            (Ok(_), Ok(_), Err(e)) => Err(e),
            (Ok(y), Ok(mo), Ok(da)) => if !(1 <= mo <= 12) || !(1 <= da <= 31) {
                Err(date_range_message(date))
            } else {
                match iso_time_value(time) {
                    Err(e) => Err(e),
                    Ok(secs) => Ok(days_from_civil_spec(y, mo, da) * 86400 + secs),
                }
            },
        }
    }
}

/// The instant denoted by `s` fits in an `i64` (or `s` is rejected).
pub open spec fn iso_fits(s: Seq<char>) -> bool {
    iso_value(s) matches Ok(v) ==> i64::MIN <= v <= i64::MAX
}

fn date_num(cs: &[char], a: usize, b: usize) -> (r: Result<i64, String>)
    requires
        a <= b <= cs.len(),
    ensures
        match r {
            Ok(v) => iso_field(cs@.subrange(a as int, b as int)) == Ok::<int, Seq<char>>(v as int),
            Err(e) => iso_field(cs@.subrange(a as int, b as int)) == Err::<int, Seq<char>>(e@),
        },
{
    match parse_i64(cs, a, b) {
        Some(v) => Ok(v),
        None => {
            let piece = copy_range(cs, a, b);
            Err(quoted_message("not an integer: ", &piece))
        },
    }
}

fn iso_time_exec(time: &[char]) -> (r: Result<i128, String>)
    ensures
        match r {
            Ok(v) => iso_time_value(time@) == Ok::<int, Seq<char>>(v as int),
            Err(e) => iso_time_value(time@) == Err::<int, Seq<char>>(e@),
        },
{
    let tp = split_ranges(time, 0, time.len(), ':');
    assert(time@.subrange(0, time@.len() as int) == time@);
    let ghost pieces = split_on(time@, ':');
    assert(pieces.len() == tp@.len());
    if tp.len() > 3 {
        return Err(quoted_message("bad time (want HH:MM:SS): ", time));
    }
    proof {
        lemma_split_nonempty(time@, ':');
    }
    assert(pieces[0] == time@.subrange(tp@[0].0 as int, tp@[0].1 as int));
    let hh = match date_num(time, tp[0].0, tp[0].1) {
        Ok(v) => v,
        Err(e) => return Err(e),
    };
    let mm: i64 = if tp.len() > 1 {
        assert(pieces[1] == time@.subrange(tp@[1].0 as int, tp@[1].1 as int));
        match date_num(time, tp[1].0, tp[1].1) {
            Ok(v) => v,
            Err(e) => return Err(e),
        }
    } else {
        0
    };
    let ss: i64 = if tp.len() > 2 {
        assert(pieces[2] == time@.subrange(tp@[2].0 as int, tp@[2].1 as int));
        match date_num(time, tp[2].0, tp[2].1) {
            Ok(v) => v,
            Err(e) => return Err(e),
        }
    } else {
        0
    };
    if hh > 23 || mm > 59 || ss > 60 {
        return Err(quoted_message("time component out of range in ", time));
    }
    Ok(hh as i128 * 3600 + mm as i128 * 60 + ss as i128)
}

proof fn lemma_split_nonempty(s: Seq<char>, c: char)
    ensures
        split_on(s, c).len() >= 1,
    decreases s.len(),
{
    match first_index(s, c) {
        Some(k) => if 0 <= k < s.len() {
            lemma_split_nonempty(s.skip(k + 1), c);
        },
        None => {},
    }
}

/// `iso_value` computed over `i128`, so that no instant overflows.
#[verifier::spinoff_prover]
#[verifier::rlimit(40)]
fn parse_iso_utc_wide(s: &str) -> (r: Result<i128, String>)
    ensures
        match r {
            Ok(v) => iso_value(s@) == Ok::<int, Seq<char>>(v as int),
            Err(e) => iso_value(s@) == Err::<int, Seq<char>>(e@),
        },
{
    let cs = chars_of(s);
    let (lo, hi0) = trim_range(&cs);
    let hi = trim_end_char_range(&cs, lo, hi0, 'Z');
    let ghost u = cs@.subrange(lo as int, hi as int);
    assert(u == trim_end_char(trim(s@), 'Z'));
    let t_at = find_char(&cs, lo, hi, 'T');
    let sp_at = find_char(&cs, lo, hi, ' ');
    let sep: Option<usize> = match (t_at, sp_at) {
        (Some(a), Some(b)) => Some(if a < b { a } else { b }),
        (Some(a), None) => Some(a),
        (None, Some(b)) => Some(b),
        (None, None) => None,
    };
    let (date, time) = match sep {
        Some(k) => {
            assert(u.take(k - lo) == cs@.subrange(lo as int, k as int));
            assert(u.skip(k - lo + 1) == cs@.subrange(k + 1, hi as int));
            (copy_range(&cs, lo, k), copy_range(&cs, k + 1, hi))
        },
        None => (copy_range(&cs, lo, hi), chars_of("00:00:00")),
    };
    assert(iso_parts(s@) == (date@, time@));
    let dp = split_ranges(&date, 0, date.len(), '-');
    assert(date@.subrange(0, date@.len() as int) == date@);
    let ghost pieces = split_on(date@, '-');
    assert(pieces.len() == dp@.len());
    if dp.len() != 3 {
        return Err(quoted_message("bad date (want YYYY-MM-DD): ", &date));
    }
    assert(pieces[0] == date@.subrange(dp@[0].0 as int, dp@[0].1 as int));
    assert(pieces[1] == date@.subrange(dp@[1].0 as int, dp@[1].1 as int));
    assert(pieces[2] == date@.subrange(dp@[2].0 as int, dp@[2].1 as int));
    let y = match date_num(&date, dp[0].0, dp[0].1) {
        Ok(v) => v,
        Err(e) => return Err(e),
    };
    let mo = match date_num(&date, dp[1].0, dp[1].1) {
        Ok(v) => v,
        Err(e) => return Err(e),
    };
    let da = match date_num(&date, dp[2].0, dp[2].1) {
        Ok(v) => v,
        Err(e) => return Err(e),
    };
    if !(1 <= mo && mo <= 12) || !(1 <= da && da <= 31) {
        return Err(quoted_message("month/day out of range in ", &date));
    }
    let secs = match iso_time_exec(&time) {
        Ok(v) => v,
        Err(e) => return Err(e),
    };
    let days = days_from_civil_wide(y as i128, mo as i128, da as i128);
    assert(-0x1_0000_0000_0000_0000_0000 <= days <= 0x1_0000_0000_0000_0000_0000) by (nonlinear_arith)
        requires
            days == days_from_civil_spec(y as int, mo as int, da as int),
            1 <= mo <= 12,
            1 <= da <= 31,
            i64::MIN <= y <= i64::MAX,
    ;
    Ok(days * 86400 + secs)
}

/// Parse `YYYY-MM-DDTHH:MM:SSZ` (trailing `Z` optional, space or `T` separator) into a Unix
/// timestamp. Deliberately strict and minimal — a witness input, not a general date parser.
pub fn parse_iso_utc(s: &str) -> (r: Result<i64, String>)
    requires
        iso_fits(s@),
    ensures
        match r {
            Ok(v) => iso_value(s@) == Ok::<int, Seq<char>>(v as int),
            Err(e) => iso_value(s@) == Err::<int, Seq<char>>(e@),
        },
{
    match parse_iso_utc_wide(s) {
        Ok(v) => Ok(v as i64),
        Err(e) => Err(e),
    }
}

/// Whether [`parse_iso_utc`] can be called on `s`: its instant, if any, fits in an `i64`.
pub fn iso_utc_fits(s: &str) -> (r: bool)
    ensures
        r == iso_fits(s@),
{
    match parse_iso_utc_wide(s) {
        Ok(v) => i64::MIN as i128 <= v && v <= i64::MAX as i128,
        Err(_) => true,
    }
}

// ---------------------------------------------------------------------------
// Rendering instants.
// ---------------------------------------------------------------------------

/// `YYYY-MM-DDTHH:MM:SSZ` with each field zero-padded (`{:04}` / `{:02}`).
pub open spec fn stamp_text(y: int, m: int, d: int, hh: int, mm: int, ss: int) -> Seq<char> {
    padded_int(y, 4) + seq!['-'] + padded_int(m, 2) + seq!['-'] + padded_int(d, 2) + seq!['T']
        + padded_int(hh, 2) + seq![':'] + padded_int(mm, 2) + seq![':'] + padded_int(ss, 2)
        + seq!['Z']
}

/// The UTC rendering of instant `t` (seconds since the epoch).
#[verifier::opaque]
pub open spec fn iso_text(t: int) -> Seq<char> {
    let days = t / 86400;
    let secs = t % 86400;
    let (y, m, d) = civil_from_days_spec(days);
    stamp_text(y, m, d, secs / 3600, (secs % 3600) / 60, secs % 60)
}

/// Splits `t` into whole days (rounded toward negative infinity) and the second of the day.
pub(crate) fn split_day(t: i64) -> (r: (i64, i64))
    ensures
        r.0 == (t as int) / 86400,
        r.1 == (t as int) % 86400,
{
    let w = t as i128;
    let days = if w >= 0 { w / 86400 } else { -((86399 - w) / 86400) };
    assert(days == (w as int) / 86400) by (nonlinear_arith)
        requires days == (if w >= 0 { w / 86400 } else { -((86399 - w) / 86400) });
    let secs = w - days * 86400;
    assert(secs == (w as int) % 86400) by {
        vstd::arithmetic::div_mod::lemma_fundamental_div_mod(w as int, 86400);
    }
    (days as i64, secs as i64)
}

/// Appends `stamp_text(y, m, d, hh, mm, ss)` to `out`.
pub(crate) fn push_stamp(out: &mut Vec<char>, y: i64, m: i64, d: i64, hh: i64, mm: i64, ss: i64)
    ensures
        final(out)@ == old(out)@ + stamp_text(
            y as int,
            m as int,
            d as int,
            hh as int,
            mm as int,
            ss as int,
        ),
{
    let ghost start = out@;
    let ghost (py, pm, pd) = (padded_int(y as int, 4), padded_int(m as int, 2), padded_int(d as int, 2));
    let ghost (ph, pmi, ps) = (padded_int(hh as int, 2), padded_int(mm as int, 2), padded_int(ss as int, 2));
    push_padded_int(out, y as i128, 4);
    out.push('-');
    push_padded_int(out, m as i128, 2);
    out.push('-');
    push_padded_int(out, d as i128, 2);
    out.push('T');
    let ghost mid = out@;
    assert(mid =~= start + (py + seq!['-'] + pm + seq!['-'] + pd + seq!['T']));
    push_padded_int(out, hh as i128, 2);
    out.push(':');
    push_padded_int(out, mm as i128, 2);
    out.push(':');
    push_padded_int(out, ss as i128, 2);
    out.push('Z');
    assert(out@ =~= mid + (ph + seq![':'] + pmi + seq![':'] + ps + seq!['Z']));
    assert(out@ =~= start + stamp_text(y as int, m as int, d as int, hh as int, mm as int, ss as int));
}

/// Format a Unix timestamp as `YYYY-MM-DDTHH:MM:SSZ` (UTC).
pub fn format_iso_utc(t: i64) -> (r: String)
    ensures
        r@ == iso_text(t as int),
{
    let (days, secs) = split_day(t);
    let (y, m, d) = civil_from_days(days);
    let mut out: Vec<char> = Vec::new();
    push_stamp(&mut out, y, m, d, secs / 3600, (secs % 3600) / 60, secs % 60);
    proof { reveal(iso_text); }
    string_of(&out)
}

/// `x` divided by `k`, rounded toward negative infinity.
pub(crate) fn floor_div(x: i128, k: i128) -> (r: i128)
    requires
        0 < k <= 0x1_0000_0000_0000_0000,
        -0x1000_0000_0000_0000_0000_0000_0000 <= x <= 0x1000_0000_0000_0000_0000_0000_0000,
    ensures
        r == (x as int) / (k as int),
{
    let r = if x >= 0 { x / k } else { -((k - 1 - x) / k) };
    assert(r == (x as int) / (k as int)) by (nonlinear_arith)
        requires
            k > 0,
            r == (if x >= 0 { (x as int) / (k as int) } else { -(((k - 1 - x) as int) / (k as int)) }),
    ;
    r
}

/// `x` modulo `k`, in `0..k`.
pub(crate) fn floor_mod(x: i128, k: i128) -> (r: i128)
    requires
        0 < k <= 0x1_0000_0000_0000_0000,
        -0x1000_0000_0000_0000_0000_0000_0000 <= x <= 0x1000_0000_0000_0000_0000_0000_0000,
    ensures
        r == (x as int) % (k as int),
{
    let q = floor_div(x, k);
    proof {
        vstd::arithmetic::div_mod::lemma_fundamental_div_mod(x as int, k as int);
    }
    assert(-0x1000_0000_0000_0000_0000_0000_0000 - 0x1_0000_0000_0000_0000 <= k * q
        <= 0x1000_0000_0000_0000_0000_0000_0000);
    x - k * q
}

// ---------------------------------------------------------------------------
// The ISO round trip.
// ---------------------------------------------------------------------------

proof fn lemma_field(v: int, w: int)
    requires
        0 <= v <= i64::MAX,
    ensures
        padded_int(v, w).len() >= 1,
        all_digits(padded_int(v, w)),
        iso_field(padded_int(v, w)) == Ok::<int, Seq<char>>(v),
        avoids(padded_int(v, w), '-'),
        avoids(padded_int(v, w), ':'),
        avoids(padded_int(v, w), 'T'),
        avoids(padded_int(v, w), ' '),
        avoids(padded_int(v, w), 'Z'),
{
    lemma_padded_nonneg(v, w);
    lemma_parse_digits(padded_int(v, w));
    lemma_digits_avoid(padded_int(v, w), '-');
    lemma_digits_avoid(padded_int(v, w), ':');
    lemma_digits_avoid(padded_int(v, w), 'T');
    lemma_digits_avoid(padded_int(v, w), ' ');
    lemma_digits_avoid(padded_int(v, w), 'Z');
}

/// `a`, separator `c`, `b`, separator `c`, `e`: avoids `x` when all three pieces do and
/// `c != x`.
proof fn lemma_three_avoid(a: Seq<char>, b: Seq<char>, e: Seq<char>, c: char, x: char)
    requires
        avoids(a, x),
        avoids(b, x),
        avoids(e, x),
        c != x,
    ensures
        avoids(a + seq![c] + b + seq![c] + e, x),
{
    assert(avoids(seq![c], x));
    lemma_avoids_concat(a, seq![c], x);
    lemma_avoids_concat(a + seq![c], b, x);
    lemma_avoids_concat(a + seq![c] + b, seq![c], x);
    lemma_avoids_concat(a + seq![c] + b + seq![c], e, x);
}

/// Three pieces joined by `c`, none containing `c`, split back into the three pieces.
proof fn lemma_split_three(a: Seq<char>, b: Seq<char>, e: Seq<char>, c: char)
    requires
        avoids(a, c),
        avoids(b, c),
        avoids(e, c),
    ensures
        split_on(a + seq![c] + b + seq![c] + e, c) == seq![a, b, e],
{
    assert(a + seq![c] + b + seq![c] + e == a + seq![c] + (b + seq![c] + e));
    lemma_split_cons(a, c, b + seq![c] + e);
    lemma_split_cons(b, c, e);
    lemma_split_single(e, c);
    assert(seq![a] + (seq![b] + seq![e]) == seq![a, b, e]);
}

/// The rendered date and time fields reassemble into the date text and time text.
proof fn lemma_stamp_parts(
    pa: Seq<char>,
    pb: Seq<char>,
    pc: Seq<char>,
    pd: Seq<char>,
    pe: Seq<char>,
    pf: Seq<char>,
)
    requires
        pa.len() >= 1,
        pf.len() >= 1,
        all_digits(pa),
        all_digits(pf),
        avoids(pa, 'T') && avoids(pb, 'T') && avoids(pc, 'T') && avoids(pd, 'T') && avoids(pe, 'T')
            && avoids(pf, 'T'),
        avoids(pa, ' ') && avoids(pb, ' ') && avoids(pc, ' ') && avoids(pd, ' ') && avoids(pe, ' ')
            && avoids(pf, ' '),
    ensures
        iso_parts(
            pa + seq!['-'] + pb + seq!['-'] + pc + seq!['T'] + pd + seq![':'] + pe + seq![':'] + pf
                + seq!['Z'],
        ) == (pa + seq!['-'] + pb + seq!['-'] + pc, pd + seq![':'] + pe + seq![':'] + pf),
{
    let date = pa + seq!['-'] + pb + seq!['-'] + pc;
    let time = pd + seq![':'] + pe + seq![':'] + pf;
    let u = date + seq!['T'] + time;
    let full = pa + seq!['-'] + pb + seq!['-'] + pc + seq!['T'] + pd + seq![':'] + pe + seq![':']
        + pf + seq!['Z'];
    assert(full =~= u.push('Z'));
    assert(full[0] == pa[0]);
    assert(crate::text::is_digit(pa[0]));
    assert(trim(full) == full);
    assert(u.last() == pf.last());
    assert(crate::text::is_digit(pf[pf.len() - 1]));
    assert(full.drop_last() == u);
    assert(trim_end_char(full, 'Z') == u) by {
        reveal_with_fuel(trim_end_char, 2);
    }
    lemma_three_avoid(pa, pb, pc, '-', 'T');
    lemma_three_avoid(pa, pb, pc, '-', ' ');
    lemma_three_avoid(pd, pe, pf, ':', 'T');
    lemma_three_avoid(pd, pe, pf, ':', ' ');
    assert(avoids(seq!['T'], ' '));
    lemma_avoids_concat(date, seq!['T'], ' ');
    lemma_avoids_concat(date + seq!['T'], time, ' ');
    lemma_first_index_at(u, 'T', date.len() as int);
    lemma_first_index_none(u, ' ');
    assert(u.take(date.len() as int) == date);
    assert(u.skip(date.len() as int + 1) == time);
}

/// Law: parsing the rendering of an instant gives the instant back, for every instant whose
/// year is not negative (and fits the year field's `i64`).
#[verifier::spinoff_prover]
pub proof fn lemma_iso_round_trip(t: int)
    requires
        0 <= civil_from_days_spec(t / 86400).0 <= i64::MAX,
    ensures
        iso_value(iso_text(t)) == Ok::<int, Seq<char>>(t),
{
    reveal(iso_text);
    let days = t / 86400;
    let secs = t % 86400;
    vstd::arithmetic::div_mod::lemma_fundamental_div_mod(t, 86400);
    lemma_civil_from_days(days);
    let (y, m, d) = civil_from_days_spec(days);
    let h = secs / 3600;
    let mi = (secs % 3600) / 60;
    let s = secs % 60;
    assert(0 <= h <= 23 && 0 <= mi <= 59 && 0 <= s <= 59);
    assert(h * 3600 + mi * 60 + s == secs);
    lemma_field(y, 4);
    lemma_field(m, 2);
    lemma_field(d, 2);
    lemma_field(h, 2);
    lemma_field(mi, 2);
    lemma_field(s, 2);
    let pa = padded_int(y, 4);
    let pb = padded_int(m, 2);
    let pc = padded_int(d, 2);
    let pd = padded_int(h, 2);
    let pe = padded_int(mi, 2);
    let pf = padded_int(s, 2);
    lemma_stamp_parts(pa, pb, pc, pd, pe, pf);
    let date = pa + seq!['-'] + pb + seq!['-'] + pc;
    let time = pd + seq![':'] + pe + seq![':'] + pf;
    assert(iso_parts(iso_text(t)) == (date, time));
    lemma_split_three(pa, pb, pc, '-');
    lemma_split_three(pd, pe, pf, ':');
    assert(is_valid_date(y, m, d));
    assert(iso_time_value(time) == Ok::<int, Seq<char>>(secs));
}

} // verus!
