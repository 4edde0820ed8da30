//! Day numbers: days since the first of January 1970, by the Gregorian calendar
//! extended in both directions.

use crate::word::{signed_of, signed_word, word_of, word_signed};
use vstd::prelude::*;

verus! {

/// Whole days before the first of March of a year, counted from the first of
/// March of the year zero.
#[verifier::opaque]
pub open spec fn days_before_march(y: int) -> int {
    365 * y + y / 4 - y / 100 + y / 400
}

/// Days from the first of March to the first of a month, months counted from
/// March on.
pub open spec fn days_before_month(m: int) -> int {
    (153 * m + 2) / 5
}

/// The day number of a date.
pub open spec fn day_number(y: int, m: int, d: int) -> int {
    if m <= 2 {
        days_before_march(y - 1) + days_before_month(m + 9) + d - 1 - 719468
    } else {
        days_before_march(y) + days_before_month(m - 3) + d - 1 - 719468
    }
}

/// The day falls in the year.
pub open spec fn in_year(days: int, y: int) -> bool {
    day_number(y, 1, 1) <= days < day_number(y + 1, 1, 1)
}

/// The day number of a date, as a cell.
pub open spec fn date_cell(y: int, m: int, d: int) -> u64 {
    signed_word(day_number(y, m, d) as i64)
}

/// The day number of a date.
pub fn date_to_days(y: i32, m: u32, d: u32) -> (cell: u64)
    ensures
        cell == date_cell(y as int, m as int, d as int),
{
    let yy: i64 = if m <= 2 {
        y as i64 - 1
    } else {
        y as i64
    };
    let era: i64 = if yy >= 0 {
        yy / 400
    } else {
        -((399 - yy) / 400)
    };
    let yoe: i64 = yy - era * 400;
    let mm: i64 = if m > 2 {
        m as i64 - 3
    } else {
        m as i64 + 9
    };
    let doy: i64 = (153 * mm + 2) / 5 + d as i64 - 1;
    let doe: i64 = yoe * 365 + yoe / 4 - yoe / 100 + doy;
    let days: i64 = era * 146097 + doe - 719468;
    proof {
        lemma_march_shift(yoe as int, era as int);
        assert(days_before_march(yoe as int) == 365 * yoe + yoe / 4 - yoe / 100) by {
            reveal(days_before_march);
        }
    }
    word_of(days)
}

/// The calendar year of a day number.
pub fn days_since_epoch_to_year(days: i64) -> (y: i64)
    ensures
        in_year(days as int, y as int),
{
    let z: i128 = days as i128 + 719468;
    let era: i128 = if z >= 0 {
        z / 146097
    } else {
        -((146096 - z) / 146097)
    };
    let doe: i128 = z - era * 146097;
    let yoe: i128 = (doe - doe / 1460 + doe / 36524 - doe / 146096) / 365;
    let doy: i128 = doe - (365 * yoe + yoe / 4 - yoe / 100);
    proof {
        lemma_year_of_era(doe as int);
        lemma_civil_year(days as int, era as int, doe as int);
    }
    let y: i128 = yoe + era * 400;
    if doy >= 306 {
        (y + 1) as i64
    } else {
        y as i64
    }
}

/// A year has 365 or 366 days.
proof fn lemma_year_length(y: int)
    ensures
        365 <= days_before_march(y + 1) - days_before_march(y) <= 366,
{
    reveal(days_before_march);
}

proof fn lemma_march_shift(yoe: int, era: int)
    ensures
        days_before_march(yoe + era * 400) == days_before_march(yoe) + era * 146097,
{
    reveal(days_before_march);
    assert((yoe + era * 400) / 4 == yoe / 4 + era * 100) by (nonlinear_arith);
    assert((yoe + era * 400) / 100 == yoe / 100 + era * 4) by (nonlinear_arith);
    assert((yoe + era * 400) / 400 == yoe / 400 + era) by (nonlinear_arith);
}

/// The year, beginning with March, of day `doe` of a cycle of 400 years.
spec fn march_year(doe: int) -> int {
    (doe - doe / 1460 + doe / 36524 - doe / 146096) / 365
}

/// The day within that year.
spec fn march_day(doe: int) -> int {
    doe - (365 * march_year(doe) + march_year(doe) / 4 - march_year(doe) / 100)
}

proof fn lemma_year_of_era(doe: int)
    requires
        0 <= doe < 146097,
    ensures
        0 <= march_year(doe) < 400,
        0 <= march_day(doe) <= 365,
        doe < days_before_march(march_year(doe) + 1),
        doe == days_before_march(march_year(doe)) + march_day(doe),
{
    reveal(days_before_march);
}

proof fn lemma_civil_year(days: int, era: int, doe: int)
    requires
        0 <= doe < 146097,
        days + 719468 == era * 146097 + doe,
    ensures
        ({
            let y = march_year(doe) + era * 400;
            in_year(days, if march_day(doe) >= 306 {
                y + 1
            } else {
                y
            })
        }),
{
    let yoe = march_year(doe);
    let day = march_day(doe);
    lemma_year_of_era(doe);
    let y = yoe + era * 400;
    lemma_march_shift(yoe, era);
    lemma_march_shift(yoe + 1, era);
    assert(yoe + 1 + era * 400 == y + 1);
    lemma_year_length(y - 1);
    assert(days_before_march(y) <= days + 719468 < days_before_march(y + 1));
}

/// The year that a day falls in.
pub open spec fn year_of(days: int) -> int {
    choose|y: int| in_year(days, y)
}

/// A day falls in one year only.
pub proof fn year_is_unique(days: int, y: int, z: int)
    requires
        in_year(days, y),
        in_year(days, z),
    ensures
        y == z,
{
    if y < z {
        years_follow_each_other(y, z);
        if y + 1 < z {
            years_follow_each_other(y + 1, z);
        }
    } else if z < y {
        years_follow_each_other(z, y);
        if z + 1 < y {
            years_follow_each_other(z + 1, y);
        }
    }
}

/// The year of a day, as a cell.
pub open spec fn year_cell(day: u64) -> u64 {
    signed_word(year_of(word_signed(day) as int) as i64)
}

/// The year of a day, as a cell.
pub fn year_of_day(day: u64) -> (y: u64)
    ensures
        y == year_cell(day),
{
    let days: i64 = signed_of(day);
    let y: i64 = days_since_epoch_to_year(days);
    proof {
        year_is_unique(days as int, y as int, year_of(days as int));
    }
    word_of(y)
}

/// The first of January is the first day of its year, and later years begin
/// later.
pub proof fn years_follow_each_other(y: int, z: int)
    requires
        y < z,
    ensures
        in_year(day_number(y, 1, 1), y),
        day_number(y, 1, 1) < day_number(z, 1, 1),
    decreases z - y,
{
    lemma_year_length(y - 1);
    lemma_year_length(z - 2);
    if y + 1 < z {
        years_follow_each_other(y, z - 1);
    }
}

/// Day numbers of years that the calendar of cells reaches.
proof fn lemma_day_bounds(y: int, m: int)
    requires
        -10_000_000 <= y <= 10_000_000,
        1 <= m <= 12,
    ensures
        -4_000_000_000 <= day_number(y, m, 1) <= 4_000_000_000,
{
    reveal(days_before_march);
}

proof fn lemma_year_bounds(days: int, y: int)
    requires
        i32::MIN <= days <= i32::MAX,
        in_year(days, y),
    ensures
        -10_000_000 <= y <= 10_000_000,
        -4_000_000_000 <= day_number(y, 1, 1) <= 4_000_000_000,
{
    reveal(days_before_march);
}

/// The month of a day of a year, from month `m` on: the next one begins later.
pub open spec fn month_from(days: int, y: int, m: int) -> int
    decreases 12 - m,
{
    if m >= 12 || days < day_number(y, m + 1, 1) {
        m
    } else {
        month_from(days, y, m + 1)
    }
}

pub open spec fn month_of(days: int) -> int {
    month_from(days, year_of(days), 1)
}

pub open spec fn day_of_month(days: int) -> int {
    days - day_number(year_of(days), month_of(days), 1) + 1
}

/// The month of a day, and its day.
pub fn day_and_month(d: i32) -> (r: (i64, i64))
    ensures
        r.0 == month_of(d as int),
        r.1 == day_of_month(d as int),
{
    let y: i64 = days_since_epoch_to_year(d as i64);
    proof {
        year_is_unique(d as int, y as int, year_of(d as int));
        lemma_year_bounds(d as int, y as int);
    }
    let days: i64 = d as i64;
    let mut m: u32 = 1;
    let mut first: i64 = signed_of(date_to_days(y as i32, 1, 1));
    while m < 12
        invariant
            days == d,
            y == year_of(d as int),
            -10_000_000 <= y <= 10_000_000,
            1 <= m <= 12,
            first == day_number(y as int, m as int, 1),
            -4_000_000_000 <= first <= days,
            month_of(d as int) == month_from(d as int, y as int, m as int),
        decreases 12 - m,
    {
        let next: i64 = signed_of(date_to_days(y as i32, m + 1, 1));
        proof {
            lemma_day_bounds(y as int, m + 1);
        }
        if days < next {
            return (m as i64, days - first + 1);
        }
        first = next;
        m = m + 1;
    }
    (m as i64, days - first + 1)
}

} // verus!
