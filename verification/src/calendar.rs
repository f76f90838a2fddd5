//! The proleptic Gregorian calendar as a mathematical model.
//!
//! Years are numbered astronomically: year 0 precedes year 1, and both
//! negative years and year 0 follow the usual leap-year rule. Days are
//! counted from the common era: 1 January of year 1 is day 1.

use vstd::prelude::*;

verus! {

/// The earliest year a date may lie in.
pub const MIN_YEAR: i32 = -262_143;

/// The latest year a date may lie in.
pub const MAX_YEAR: i32 = 262_142;

/// Whether `year` has a 29th of February.
pub open spec fn is_leap_year(year: int) -> bool {
    year % 4 == 0 && (year % 100 != 0 || year % 400 == 0)
}

/// The number of days in month `month` (1 to 12) of `year`.
pub open spec fn days_in_month(year: int, month: int) -> int {
    if month == 2 {
        if is_leap_year(year) {
            29
        } else {
            28
        }
    } else if month == 4 || month == 6 || month == 9 || month == 11 {
        30
    } else {
        31
    }
}

/// The number of days in `year`.
pub open spec fn days_in_year(year: int) -> int {
    if is_leap_year(year) {
        366
    } else {
        365
    }
}

/// Whether `year`, `month`, `day` name a day of the calendar.
pub open spec fn is_calendar_day(year: int, month: int, day: int) -> bool {
    1 <= month <= 12 && 1 <= day <= days_in_month(year, month)
}

/// The number of days of `year` that lie before the first of `month`.
pub open spec fn days_before_month(year: int, month: int) -> int
    decreases month,
{
    if month <= 1 {
        0
    } else {
        days_before_month(year, month - 1) + days_in_month(year, month - 1)
    }
}

/// The number of days between the start of the common era and 1 January of
/// `year`: negative before year 1.
pub open spec fn days_before_year(year: int) -> int {
    365 * (year - 1) + (year - 1) / 4 - (year - 1) / 100 + (year - 1) / 400
}

/// The number of the day `year`-`month`-`day`, where 1 January of year 1 is
/// day 1.
pub open spec fn day_number(year: int, month: int, day: int) -> int {
    days_before_year(year) + days_before_month(year, month) + day
}

/// The days before each month, written out.
pub proof fn lemma_days_before_month_values(year: int)
    ensures
        days_before_month(year, 1) == 0,
        days_before_month(year, 2) == 31,
        days_before_month(year, 3) == 31 + days_in_month(year, 2),
        days_before_month(year, 4) == 62 + days_in_month(year, 2),
        days_before_month(year, 5) == 92 + days_in_month(year, 2),
        days_before_month(year, 6) == 123 + days_in_month(year, 2),
        days_before_month(year, 7) == 153 + days_in_month(year, 2),
        days_before_month(year, 8) == 184 + days_in_month(year, 2),
        days_before_month(year, 9) == 215 + days_in_month(year, 2),
        days_before_month(year, 10) == 245 + days_in_month(year, 2),
        days_before_month(year, 11) == 276 + days_in_month(year, 2),
        days_before_month(year, 12) == 306 + days_in_month(year, 2),
        days_before_month(year, 13) == 337 + days_in_month(year, 2),
        days_before_month(year, 13) == days_in_year(year),
{
    reveal_with_fuel(days_before_month, 14);
}

/// A year's days come right before the next year's.
pub proof fn lemma_days_before_year_step(year: int)
    ensures
        days_before_year(year + 1) == days_before_year(year) + days_in_year(year),
{
    let fours = if year % 4 == 0 {
        1int
    } else {
        0
    };
    let hundreds = if year % 100 == 0 {
        1int
    } else {
        0
    };
    let four_hundreds = if year % 400 == 0 {
        1int
    } else {
        0
    };
    assert(year / 4 == (year - 1) / 4 + fours);
    assert(year / 100 == (year - 1) / 100 + hundreds);
    assert(year / 400 == (year - 1) / 400 + four_hundreds);
    assert(year % 400 == 0 ==> year % 100 == 0);
    assert(year % 100 == 0 ==> year % 4 == 0);
    assert(days_in_year(year) == 365 + fours - hundreds + four_hundreds);
}

/// Later years start on later days, at least 365 days apart per year.
pub proof fn lemma_days_before_year_increases(earlier: int, later: int)
    requires
        earlier <= later,
    ensures
        days_before_year(earlier) + 365 * (later - earlier) <= days_before_year(later),
    decreases later - earlier,
{
    if earlier < later {
        lemma_days_before_year_increases(earlier, later - 1);
        lemma_days_before_year_step(later - 1);
    }
}

/// A day of the calendar lies within its year.
pub proof fn lemma_day_within_year(year: int, month: int, day: int)
    requires
        is_calendar_day(year, month, day),
    ensures
        1 <= days_before_month(year, month) + day <= days_in_year(year),
{
    lemma_days_before_month_values(year);
}

/// Day numbers order the days of the calendar as year, month and day do.
pub proof fn lemma_day_number_increases(y1: int, m1: int, d1: int, y2: int, m2: int, d2: int)
    requires
        is_calendar_day(y1, m1, d1),
        is_calendar_day(y2, m2, d2),
        y1 < y2 || (y1 == y2 && (m1 < m2 || (m1 == m2 && d1 < d2))),
    ensures
        day_number(y1, m1, d1) < day_number(y2, m2, d2),
{
    lemma_day_within_year(y1, m1, d1);
    lemma_day_within_year(y2, m2, d2);
    if y1 < y2 {
        lemma_days_before_year_increases(y1 + 1, y2);
        lemma_days_before_year_step(y1);
    } else {
        lemma_days_before_month_values(y1);
    }
}

/// Two days of the calendar with one day number are the same day.
pub proof fn lemma_day_number_injective(y1: int, m1: int, d1: int, y2: int, m2: int, d2: int)
    requires
        is_calendar_day(y1, m1, d1),
        is_calendar_day(y2, m2, d2),
        day_number(y1, m1, d1) == day_number(y2, m2, d2),
    ensures
        y1 == y2,
        m1 == m2,
        d1 == d2,
{
    if y1 < y2 || (y1 == y2 && (m1 < m2 || (m1 == m2 && d1 < d2))) {
        lemma_day_number_increases(y1, m1, d1, y2, m2, d2);
    } else if y2 < y1 || (y2 == y1 && (m2 < m1 || (m2 == m1 && d2 < d1))) {
        lemma_day_number_increases(y2, m2, d2, y1, m1, d1);
    }
}

} // verus!
