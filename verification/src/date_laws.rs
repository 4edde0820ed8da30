//! The calendar that day numbers follow.

use crate::dates::{
    day_number, day_of_month, days_before_march, days_before_month, in_year, month_from, month_of, year_is_unique, year_of,
};
use vstd::prelude::*;

verus! {

/// Every fourth year is a leap year, but of the full centuries only every fourth.
pub open spec fn is_leap(y: int) -> bool {
    y % 4 == 0 && (y % 100 != 0 || y % 400 == 0)
}

/// The days of a month.
pub open spec fn month_length(y: int, m: int) -> int {
    if m == 2 {
        if is_leap(y) {
            29
        } else {
            28
        }
    } else if m == 4 || m == 6 || m == 9 || m == 11 {
        30
    } else {
        31
    }
}

/// Days are counted from the first of January 1970 on, one by one, and the months follow each other by their
/// lengths.
pub proof fn days_follow_the_calendar(y: int, m: int, d: int)
    requires
        1 <= m <= 12,
    ensures
        day_number(1970, 1, 1) == 0,
        day_number(y, m, d + 1) == day_number(y, m, d) + 1,
        m < 12 ==> day_number(y, m + 1, 1) == day_number(y, m, 1) + month_length(y, m),
        day_number(y + 1, 1, 1) == day_number(y, 12, 1) + 31,
{
    reveal(days_before_march);
    if m == 2 {
        lemma_leap(y);
    }
    assert(days_before_month(0) == 0 && days_before_month(1) == 31 && days_before_month(2) == 61 && days_before_month(3)
        == 92 && days_before_month(4) == 122 && days_before_month(5) == 153 && days_before_month(6) == 184
        && days_before_month(7) == 214 && days_before_month(8) == 245 && days_before_month(9) == 275
        && days_before_month(10) == 306 && days_before_month(11) == 337);
    assert(m == 1 || m == 2 || m == 3 || m == 4 || m == 5 || m == 6 || m == 7 || m == 8 || m == 9 || m == 10 || m == 11
        || m == 12);
}

proof fn lemma_leap(y: int)
    ensures
        days_before_march(y) - days_before_march(y - 1) == (if is_leap(y) {
            366int
        } else {
            365
        }),
{
    reveal(days_before_march);
}

proof fn lemma_months(y: int, a: int, b: int)
    requires
        1 <= a <= b <= 12,
    ensures
        day_number(y, a, 1) <= day_number(y, b, 1),
        day_number(y, b, 1) < day_number(y + 1, 1, 1),
    decreases b - a,
{
    if a < b {
        lemma_months(y, a, b - 1);
        days_follow_the_calendar(y, b - 1, 1);
    }
    lemma_to_end(y, b);
}

proof fn lemma_to_end(y: int, b: int)
    requires
        1 <= b <= 12,
    ensures
        day_number(y, b, 1) < day_number(y + 1, 1, 1),
    decreases 12 - b,
{
    days_follow_the_calendar(y, b, 1);
    if b < 12 {
        lemma_to_end(y, b + 1);
    }
}

proof fn lemma_shift(y: int, m: int, d: int)
    ensures
        day_number(y, m, d) == day_number(y, m, 1) + d - 1,
{
}

proof fn lemma_month_from(days: int, y: int, m: int, k: int)
    requires
        1 <= k <= m <= 12,
        day_number(y, m, 1) <= days,
        m < 12 ==> days < day_number(y, m + 1, 1),
    ensures
        month_from(days, y, k) == m,
    decreases m - k,
{
    if k < m {
        lemma_months(y, k + 1, m);
        lemma_month_from(days, y, m, k + 1);
    }
}

/// The parts of a date are read back from its day number.
pub proof fn dates_are_read_back_from_days(y: int, m: int, d: int)
    requires
        1 <= m <= 12,
        1 <= d <= month_length(y, m),
    ensures
        year_of(day_number(y, m, d)) == y,
        month_of(day_number(y, m, d)) == m,
        day_of_month(day_number(y, m, d)) == d,
{
    let days = day_number(y, m, d);
    lemma_shift(y, m, d);
    days_follow_the_calendar(y, m, 1);
    lemma_months(y, 1, m);
    if m < 12 {
        lemma_months(y, m + 1, 12);
    }
    assert(in_year(days, y));
    year_is_unique(days, y, year_of(days));
    lemma_month_from(days, y, m, 1);
}

} // verus!
