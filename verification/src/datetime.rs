//! Calendar dates with a second of the day, and the arithmetic on them.

use crate::calendar::{
    day_number, days_before_month, days_in_month, is_calendar_day, is_leap_year,
    lemma_day_number_increases, lemma_day_number_injective, lemma_days_before_month_values,
    lemma_days_before_year_step, MAX_YEAR, MIN_YEAR,
};
use chrono::{Datelike, Timelike};
use vstd::prelude::*;

verus! {

/// A second of a day of the calendar, without a time zone.
#[derive(Clone, Copy, Debug, PartialEq, Eq, Structural, PartialOrd, Ord, Hash)]
pub struct DateTime {
    /// The year, numbered astronomically.
    pub year: i32,
    /// The month, from 1 to 12.
    pub month: u32,
    /// The day of the month, from 1.
    pub day: u32,
    /// The second of the day, from 0 to 86,399.
    pub second: u32,
}

/// The instant at which `second` of the day `year`-`month`-`day` begins, in
/// seconds since the start of day 0, the day before 1 January of year 1.
pub open spec fn instant_of(year: int, month: int, day: int, second: int) -> int {
    day_number(year, month, day) * 86_400 + second
}

/// The first instant that a `DateTime` can hold.
pub open spec fn min_instant() -> int {
    instant_of(MIN_YEAR as int, 1, 1, 0)
}

/// The last instant that a `DateTime` can hold.
pub open spec fn max_instant() -> int {
    instant_of(MAX_YEAR as int, 12, 31, 86_399)
}

/// Whether a `DateTime` can hold `instant`.
pub open spec fn representable(instant: int) -> bool {
    min_instant() <= instant <= max_instant()
}

/// The well-formed `DateTime` at `instant`, where `instant` is representable.
pub open spec fn date_at(instant: int) -> DateTime {
    choose|d: DateTime| d.wf() && d.instant() == instant
}

/// `date` moved by `seconds`, or `None` where no `DateTime` can hold that.
pub open spec fn shifted(date: DateTime, seconds: int) -> Option<DateTime> {
    if representable(date.instant() + seconds) {
        Some(date_at(date.instant() + seconds))
    } else {
        None
    }
}

/// The first day of the month of `date`, at the same second of the day.
pub open spec fn month_start(date: DateTime) -> DateTime {
    DateTime { day: 1, ..date }
}

/// The last day of the month of `date`, at the same second of the day.
pub open spec fn month_end(date: DateTime) -> DateTime {
    DateTime { day: days_in_month(date.year as int, date.month as int) as u32, ..date }
}

/// The first day of the month after the month of `date`, at the same second
/// of the day, or `None` where that month lies after the last year.
pub open spec fn following_month_start(date: DateTime) -> Option<DateTime> {
    if date.month < 12 {
        Some(DateTime { month: (date.month + 1) as u32, day: 1, ..date })
    } else if date.year < MAX_YEAR {
        Some(DateTime { year: (date.year + 1) as i32, month: 1, day: 1, ..date })
    } else {
        None
    }
}

impl DateTime {
    /// Whether the fields name a second of a day of the calendar, in a year
    /// from `MIN_YEAR` to `MAX_YEAR`.
    pub open spec fn wf(self) -> bool {
        &&& MIN_YEAR <= self.year <= MAX_YEAR
        &&& is_calendar_day(self.year as int, self.month as int, self.day as int)
        &&& self.second < 86_400
    }

    /// The instant that `self` names: see `instant_of`.
    pub open spec fn instant(self) -> int {
        instant_of(self.year as int, self.month as int, self.day as int, self.second as int)
    }

    /// Whether `self` is the last day of its month.
    pub open spec fn is_last_day_of_month(self) -> bool {
        self.day == days_in_month(self.year as int, self.month as int)
    }
}

/// Whether `year` has a 29th of February.
pub fn leap_year(year: i32) -> (r: bool)
    ensures
        r == is_leap_year(year as int),
{
    year % 4 == 0 && (year % 100 != 0 || year % 400 == 0)
}

/// The number of days in `month` of `year`.
pub fn month_length(year: i32, month: u32) -> (r: u32)
    requires
        1 <= month <= 12,
    ensures
        r == days_in_month(year as int, month as int),
{
    if month == 2 {
        if leap_year(year) {
            29
        } else {
            28
        }
    } else if month == 4 || month == 6 || month == 9 || month == 11 {
        30
    } else {
        31
    }
}

impl DateTime {
    /// The `DateTime` with these fields, where they name a second of a day of
    /// the calendar in a year that is in range.
    pub fn new(year: i32, month: u32, day: u32, second: u32) -> (r: Option<DateTime>)
        ensures
            r == if (DateTime { year, month, day, second }).wf() {
                Some(DateTime { year, month, day, second })
            } else {
                None
            },
    {
        let date = DateTime { year, month, day, second };
        if date.is_valid() {
            Some(date)
        } else {
            None
        }
    }

    /// Whether `self` is well formed.
    pub fn is_valid(&self) -> (r: bool)
        ensures
            r == self.wf(),
    {
        MIN_YEAR <= self.year && self.year <= MAX_YEAR && 1 <= self.month && self.month <= 12
            && 1 <= self.day && self.day <= month_length(self.year, self.month)
            && self.second < 86_400
    }

    /// The first day of the month of `self`, at the same second of the day.
    pub fn first_of_month(&self) -> (r: DateTime)
        requires
            self.wf(),
        ensures
            r == month_start(*self),
            r.wf(),
    {
        DateTime { year: self.year, month: self.month, day: 1, second: self.second }
    }

    /// Whether `self` is earlier than `other`.
    pub fn is_before(&self, other: &DateTime) -> (r: bool)
        requires
            self.wf(),
            other.wf(),
        ensures
            r == (self.instant() < other.instant()),
    {
        let r = self.year < other.year || (self.year == other.year && (self.month < other.month
            || (self.month == other.month && (self.day < other.day || (self.day == other.day
            && self.second < other.second)))));
        proof {
            let (y1, m1, d1, s1) = (
                self.year as int,
                self.month as int,
                self.day as int,
                self.second as int,
            );
            let (y2, m2, d2, s2) = (
                other.year as int,
                other.month as int,
                other.day as int,
                other.second as int,
            );
            if r {
                lemma_instant_increases(y1, m1, d1, s1, y2, m2, d2, s2);
            } else if !(y1 == y2 && m1 == m2 && d1 == d2 && s1 == s2) {
                lemma_instant_increases(y2, m2, d2, s2, y1, m1, d1, s1);
            }
        }
        r
    }

    /// Whether `self` is `other` or later.
    pub fn is_on_or_after(&self, other: &DateTime) -> (r: bool)
        requires
            self.wf(),
            other.wf(),
        ensures
            r == (self.instant() >= other.instant()),
    {
        !self.is_before(other)
    }

    /// `self` moved by `seconds`, forward or back. `None` where the result is
    /// out of the range of dates.
    pub fn checked_add_seconds(&self, seconds: i64) -> (r: Option<DateTime>)
        requires
            self.wf(),
        ensures
            r == shifted(*self, seconds as int),
            r is Some <==> representable(self.instant() + seconds),
            r is Some ==> r->0.wf() && r->0.instant() == self.instant() + seconds,
    {
        let r = add_seconds(*self, seconds);
        proof {
            if let Some(moved) = r {
                lemma_date_at(moved);
            }
        }
        r
    }

    /// The number of seconds from `earlier` to `self`: negative where `self`
    /// is the earlier one.
    pub fn seconds_since(&self, earlier: &DateTime) -> (r: i64)
        requires
            self.wf(),
            earlier.wf(),
        ensures
            r == self.instant() - earlier.instant(),
    {
        match seconds_between(*self, *earlier) {
            Some(seconds) => seconds,
            None => unreached(),
        }
    }
}

/// Adds `seconds` to `date` with chrono's `NaiveDateTime::checked_add_signed`.
///
/// Trusted: chrono's dates are those of the proleptic Gregorian calendar from
/// 1 January of `MIN_YEAR` to 31 December of `MAX_YEAR`, with year 0 before
/// year 1; it returns a date exactly when the sum is one of them, and that
/// date is then the one `seconds` after `date`, every day having 86,400
/// seconds.
#[verifier::external_body]
fn add_seconds(date: DateTime, seconds: i64) -> (r: Option<DateTime>)
    requires
        date.wf(),
    ensures
        r is Some <==> representable(date.instant() + seconds),
        r is Some ==> r->0.wf() && r->0.instant() == date.instant() + seconds,
{
    let day = chrono::NaiveDate::from_ymd_opt(date.year, date.month, date.day)?;
    let time = chrono::NaiveTime::from_num_seconds_from_midnight_opt(date.second, 0)?;
    let delta = chrono::TimeDelta::try_seconds(seconds)?;
    let sum = chrono::NaiveDateTime::new(day, time).checked_add_signed(delta)?;
    Some(
        DateTime {
            year: sum.year(),
            month: sum.month(),
            day: sum.day(),
            second: sum.num_seconds_from_midnight(),
        },
    )
}

/// Subtracts `earlier` from `later` with chrono's
/// `NaiveDateTime::signed_duration_since`.
///
/// Trusted: chrono takes every well-formed date, and returns the number of
/// seconds from `earlier` to `later` in the proleptic Gregorian calendar,
/// every day having 86,400 seconds.
#[verifier::external_body]
fn seconds_between(later: DateTime, earlier: DateTime) -> (r: Option<i64>)
    requires
        later.wf(),
        earlier.wf(),
    ensures
        r is Some,
        r->0 == later.instant() - earlier.instant(),
{
    let day = chrono::NaiveDate::from_ymd_opt(later.year, later.month, later.day)?;
    let time = chrono::NaiveTime::from_num_seconds_from_midnight_opt(later.second, 0)?;
    let from_day = chrono::NaiveDate::from_ymd_opt(earlier.year, earlier.month, earlier.day)?;
    let from_time = chrono::NaiveTime::from_num_seconds_from_midnight_opt(earlier.second, 0)?;
    let from = chrono::NaiveDateTime::new(from_day, from_time);
    Some(chrono::NaiveDateTime::new(day, time).signed_duration_since(from).num_seconds())
}

/// The day after `date`, at the same second of the day, whatever its year.
pub open spec fn following_day(date: DateTime) -> (int, int, int) {
    if date.day < days_in_month(date.year as int, date.month as int) {
        (date.year as int, date.month as int, date.day + 1)
    } else if date.month < 12 {
        (date.year as int, date.month + 1, 1)
    } else {
        (date.year + 1, 1, 1)
    }
}

/// The day after a day of the calendar is a day of the calendar, and it
/// begins 86,400 seconds later.
pub proof fn lemma_following_day(date: DateTime)
    requires
        date.wf(),
    ensures
        ({
            let (year, month, day) = following_day(date);
            &&& is_calendar_day(year, month, day)
            &&& instant_of(year, month, day, date.second as int) == date.instant() + 86_400
        }),
{
    lemma_days_before_month_values(date.year as int);
    lemma_days_before_year_step(date.year as int);
    assert(days_before_month(date.year as int, date.month + 1) == days_before_month(
        date.year as int,
        date.month as int,
    ) + days_in_month(date.year as int, date.month as int));
}

/// Instants order seconds of the calendar as year, month, day and second do.
pub proof fn lemma_instant_increases(
    y1: int, m1: int, d1: int, s1: int,
    y2: int, m2: int, d2: int, s2: int,
)
    requires
        is_calendar_day(y1, m1, d1),
        is_calendar_day(y2, m2, d2),
        0 <= s1 < 86_400,
        0 <= s2 < 86_400,
        y1 < y2 || (y1 == y2 && (m1 < m2 || (m1 == m2 && (d1 < d2 || (d1 == d2 && s1 < s2))))),
    ensures
        instant_of(y1, m1, d1, s1) < instant_of(y2, m2, d2, s2),
{
    if !(y1 == y2 && m1 == m2 && d1 == d2) {
        lemma_day_number_increases(y1, m1, d1, y2, m2, d2);
    }
}

/// Two seconds of the calendar at one instant are the same second.
pub proof fn lemma_instant_injective(
    y1: int, m1: int, d1: int, s1: int,
    y2: int, m2: int, d2: int, s2: int,
)
    requires
        is_calendar_day(y1, m1, d1),
        is_calendar_day(y2, m2, d2),
        0 <= s1 < 86_400,
        0 <= s2 < 86_400,
        instant_of(y1, m1, d1, s1) == instant_of(y2, m2, d2, s2),
    ensures
        y1 == y2,
        m1 == m2,
        d1 == d2,
        s1 == s2,
{
    lemma_day_number_injective(y1, m1, d1, y2, m2, d2);
}

/// A second of the calendar is representable exactly when its year is in
/// range.
pub proof fn lemma_representable_years(year: int, month: int, day: int, second: int)
    requires
        is_calendar_day(year, month, day),
        0 <= second < 86_400,
    ensures
        representable(instant_of(year, month, day, second)) <==> MIN_YEAR <= year <= MAX_YEAR,
{
    let min = MIN_YEAR as int;
    let max = MAX_YEAR as int;
    if year < min {
        lemma_instant_increases(year, month, day, second, min, 1, 1, 0);
    } else if year > max {
        lemma_instant_increases(max, 12, 31, 86_399, year, month, day, second);
    } else {
        if !(year == min && month == 1 && day == 1 && second == 0) {
            lemma_instant_increases(min, 1, 1, 0, year, month, day, second);
        }
        if !(year == max && month == 12 && day == 31 && second == 86_399) {
            lemma_instant_increases(year, month, day, second, max, 12, 31, 86_399);
        }
    }
}

/// A well-formed `DateTime` is the one that `date_at` gives for its instant.
pub proof fn lemma_date_at(date: DateTime)
    requires
        date.wf(),
    ensures
        date_at(date.instant()) == date,
        representable(date.instant()),
{
    let other = date_at(date.instant());
    assert(other.wf() && other.instant() == date.instant());
    lemma_instant_injective(
        other.year as int, other.month as int, other.day as int, other.second as int,
        date.year as int, date.month as int, date.day as int, date.second as int,
    );
    lemma_representable_years(
        date.year as int, date.month as int, date.day as int, date.second as int,
    );
}

/// Every representable instant is the instant of a well-formed `DateTime`,
/// and `date_at` gives it.
pub proof fn lemma_date_at_exists(instant: int)
    requires
        representable(instant),
    ensures
        date_at(instant).wf(),
        date_at(instant).instant() == instant,
    decreases instant - min_instant(),
{
    let found: DateTime;
    if instant < min_instant() + 86_400 {
        found = DateTime {
            year: MIN_YEAR,
            month: 1,
            day: 1,
            second: (instant - min_instant()) as u32,
        };
    } else {
        lemma_date_at_exists(instant - 86_400);
        let before = date_at(instant - 86_400);
        let (year, month, day) = following_day(before);
        lemma_following_day(before);
        lemma_representable_years(year, month, day, before.second as int);
        found = DateTime { year: year as i32, month: month as u32, day: day as u32, ..before };
    }
    assert(found.wf() && found.instant() == instant);
}

} // verus!
