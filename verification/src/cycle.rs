//! Recurring events: from one occurrence to the next.

use crate::calendar::{
    days_before_month, days_in_month, is_calendar_day, lemma_days_before_month_values,
    lemma_days_before_year_step,
};
use crate::datetime::{
    following_day, following_month_start, instant_of, lemma_date_at_exists, lemma_following_day,
    lemma_instant_increases, lemma_instant_injective, lemma_representable_years, month_end,
    shifted, DateTime,
};
use crate::error::SimulationError;
use vstd::prelude::*;

verus! {

/// How often an event recurs.
#[allow(non_camel_case_types)]
#[derive(Clone, Copy, Debug, PartialEq, Eq, Structural)]
pub enum Cycle {
    /// Every 14 days.
    Fortnightly,
    /// Every twelfth of 365 days, which is 30 days and 10 hours.
    MonthlyAverage,
    /// On the first day of each month.
    MonthlyFirstOfMonth,
    /// On the last day of each month.
    MonthlyEndOfMonth,
    /// Every 365 days, whether or not a 29th of February falls among them.
    YEARLY,
}

/// The seconds in a day.
pub const DAY: i64 = 86_400;

/// The seconds in 14 days.
pub const FORTNIGHT: i64 = 1_209_600;

/// The seconds in a twelfth of 365 days.
pub const AVERAGE_MONTH: i64 = 2_628_000;

/// The seconds in 31 days, the longest month.
pub const LONGEST_MONTH: i64 = 2_678_400;

/// The seconds in 365 days.
pub const YEAR: i64 = 31_536_000;

/// `date` moved forward by `seconds`, or the error that it cannot be.
pub open spec fn later_by(date: DateTime, seconds: int) -> Result<DateTime, SimulationError> {
    match shifted(date, seconds) {
        Some(later) => Ok(later),
        None => Err(SimulationError::CalendarOverflow),
    }
}

/// The occurrence that follows the one on `date` in a series that recurs by
/// `cycle`.
///
/// The fixed spans are added to `date`. The first of the month is followed by
/// the first of the month after. The end of the month is followed by the end
/// of the month after, and any other day by the end of its own month. A
/// monthly step fails where the first day of the month after the one it leaves
/// or passes lies beyond the last year.
pub open spec fn next_occurrence(date: DateTime, cycle: Cycle) -> Result<
    DateTime,
    SimulationError,
> {
    match cycle {
        Cycle::Fortnightly => later_by(date, FORTNIGHT as int),
        Cycle::MonthlyAverage => later_by(date, AVERAGE_MONTH as int),
        Cycle::YEARLY => later_by(date, YEAR as int),
        Cycle::MonthlyFirstOfMonth => match following_month_start(date) {
            Some(first) => Ok(first),
            None => Err(SimulationError::CalendarOverflow),
        },
        Cycle::MonthlyEndOfMonth => match following_month_start(date) {
            None => Err(SimulationError::CalendarOverflow),
            Some(first) => if !date.is_last_day_of_month() {
                Ok(month_end(date))
            } else if following_month_start(first) is Some {
                Ok(month_end(first))
            } else {
                Err(SimulationError::CalendarOverflow)
            },
        },
    }
}

/// The day that lies 31 days after the first of the month of `first`,
/// whatever its year: a day among the first four of the month after.
pub open spec fn longest_month_later(first: DateTime) -> (int, int, int) {
    let day = 32 - days_in_month(first.year as int, first.month as int);
    if first.month < 12 {
        (first.year as int, first.month + 1, day)
    } else {
        (first.year + 1, 1, day)
    }
}

/// Where `longest_month_later` lies.
pub proof fn lemma_longest_month_later(first: DateTime)
    requires
        first.wf(),
        first.day == 1,
    ensures
        ({
            let (year, month, day) = longest_month_later(first);
            &&& is_calendar_day(year, month, day)
            &&& instant_of(year, month, day, first.second as int) == first.instant()
                + LONGEST_MONTH
        }),
{
    lemma_days_before_month_values(first.year as int);
    lemma_days_before_year_step(first.year as int);
    assert(days_before_month(first.year as int, first.month + 1) == days_before_month(
        first.year as int,
        first.month as int,
    ) + days_in_month(first.year as int, first.month as int));
}

/// The first day of the month after the month of `date`, found by moving 31
/// days on from the first of the month of `date`.
pub fn first_of_following_month(date: &DateTime) -> (r: Result<DateTime, SimulationError>)
    requires
        date.wf(),
    ensures
        r == match following_month_start(*date) {
            Some(first) => Ok::<DateTime, SimulationError>(first),
            None => Err(SimulationError::CalendarOverflow),
        },
        r is Ok ==> r->Ok_0.wf() && r->Ok_0.day == 1,
{
    let first = date.first_of_month();
    proof {
        lemma_longest_month_later(first);
        let (year, month, day) = longest_month_later(first);
        lemma_representable_years(year, month, day, first.second as int);
    }
    match first.checked_add_seconds(LONGEST_MONTH) {
        None => Err(SimulationError::CalendarOverflow),
        Some(later) => {
            proof {
                let (year, month, day) = longest_month_later(first);
                lemma_instant_injective(
                    year,
                    month,
                    day,
                    first.second as int,
                    later.year as int,
                    later.month as int,
                    later.day as int,
                    later.second as int,
                );
            }
            Ok(later.first_of_month())
        },
    }
}

/// The last day of the month of `first`, found by moving one day back from
/// the first of the month after.
fn end_of_month_before(first: &DateTime, following: &DateTime) -> (r: Result<
    DateTime,
    SimulationError,
>)
    requires
        first.wf(),
        following.wf(),
        following_month_start(*first) == Some(*following),
    ensures
        r == Ok::<DateTime, SimulationError>(month_end(*first)),
        month_end(*first).wf(),
{
    proof {
        let end = month_end(*first);
        lemma_following_day(end);
        lemma_representable_years(
            end.year as int,
            end.month as int,
            end.day as int,
            end.second as int,
        );
    }
    match following.checked_add_seconds(-DAY) {
        None => Err(SimulationError::CalendarOverflow),
        Some(end) => {
            proof {
                let expected = month_end(*first);
                lemma_instant_injective(
                    expected.year as int,
                    expected.month as int,
                    expected.day as int,
                    expected.second as int,
                    end.year as int,
                    end.month as int,
                    end.day as int,
                    end.second as int,
                );
            }
            Ok(end)
        },
    }
}

/// Whether `date` is the last day of its month, found by looking at the month
/// of the day after. Fails where there is no day after.
fn ends_month(date: &DateTime) -> (r: Result<bool, SimulationError>)
    requires
        date.wf(),
    ensures
        r is Ok ==> r->Ok_0 == date.is_last_day_of_month(),
        r is Err ==> r->Err_0 == SimulationError::CalendarOverflow
            && following_month_start(*date) is None,
{
    proof {
        lemma_following_day(*date);
        let (year, month, day) = following_day(*date);
        lemma_representable_years(year, month, day, date.second as int);
    }
    match date.checked_add_seconds(DAY) {
        None => Err(SimulationError::CalendarOverflow),
        Some(tomorrow) => {
            proof {
                let (year, month, day) = following_day(*date);
                lemma_instant_injective(
                    year,
                    month,
                    day,
                    date.second as int,
                    tomorrow.year as int,
                    tomorrow.month as int,
                    tomorrow.day as int,
                    tomorrow.second as int,
                );
            }
            Ok(tomorrow.month != date.month)
        },
    }
}

/// Every next occurrence is a date, and a later one than the date it follows.
pub proof fn lemma_next_occurrence_is_later(date: DateTime, cycle: Cycle)
    requires
        date.wf(),
        next_occurrence(date, cycle) is Ok,
    ensures
        next_occurrence(date, cycle)->Ok_0.wf(),
        next_occurrence(date, cycle)->Ok_0.instant() > date.instant(),
{
    let next = next_occurrence(date, cycle)->Ok_0;
    match cycle {
        Cycle::Fortnightly => lemma_date_at_exists(date.instant() + FORTNIGHT),
        Cycle::MonthlyAverage => lemma_date_at_exists(date.instant() + AVERAGE_MONTH),
        Cycle::YEARLY => lemma_date_at_exists(date.instant() + YEAR),
        Cycle::MonthlyFirstOfMonth | Cycle::MonthlyEndOfMonth => {
            let first = following_month_start(date)->0;
            assert(first.wf());
            if next == month_end(first) {
                assert(next.wf());
            }
            lemma_instant_increases(
                date.year as int,
                date.month as int,
                date.day as int,
                date.second as int,
                next.year as int,
                next.month as int,
                next.day as int,
                next.second as int,
            );
        },
    }
}

/// The occurrence that follows the one on `date` in a series that recurs by
/// `cycle`.
pub fn increment_date(date: &DateTime, cycle: &Cycle) -> (r: Result<DateTime, SimulationError>)
    requires
        date.wf(),
    ensures
        r == next_occurrence(*date, *cycle),
        r is Err ==> r->Err_0 == SimulationError::CalendarOverflow,
        r is Ok ==> r->Ok_0.wf() && r->Ok_0.instant() > date.instant(),
        r is Ok && *cycle is Fortnightly ==> r->Ok_0.instant() - date.instant() == 14 * 86_400,
        r is Ok && *cycle is MonthlyAverage ==> r->Ok_0.instant() - date.instant() == 2_628_000,
        r is Ok && *cycle is YEARLY ==> r->Ok_0.instant() - date.instant() == 365 * 86_400,
        r is Ok && *cycle is MonthlyFirstOfMonth ==> {
            &&& r->Ok_0.day == 1
            &&& r->Ok_0.second == date.second
            &&& r->Ok_0.month == if date.month == 12 { 1 } else { date.month + 1 }
            &&& r->Ok_0.year == if date.month == 12 { date.year + 1 } else { date.year as int }
        },
        r is Ok && *cycle is MonthlyEndOfMonth ==> {
            &&& r->Ok_0.is_last_day_of_month()
            &&& r->Ok_0.second == date.second
        },
        r is Ok && *cycle is MonthlyEndOfMonth && !date.is_last_day_of_month() ==> {
            &&& r->Ok_0.month == date.month
            &&& r->Ok_0.year == date.year
        },
        r is Ok && *cycle is MonthlyEndOfMonth && date.is_last_day_of_month() ==> {
            &&& r->Ok_0.month == if date.month == 12 { 1 } else { date.month + 1 }
            &&& r->Ok_0.year == if date.month == 12 { date.year + 1 } else { date.year as int }
        },
{
    match cycle {
        Cycle::Fortnightly => later(date, FORTNIGHT),
        Cycle::MonthlyAverage => later(date, AVERAGE_MONTH),
        Cycle::YEARLY => later(date, YEAR),
        Cycle::MonthlyFirstOfMonth => {
            let r = first_of_following_month(date);
            proof {
                if r is Ok {
                    lemma_next_occurrence_is_later(*date, *cycle);
                }
            }
            r
        },
        Cycle::MonthlyEndOfMonth => {
            let date_is_last_day_of_month = ends_month(date)?;
            let first = first_of_following_month(date)?;
            let r = if date_is_last_day_of_month {
                let second = first_of_following_month(&first)?;
                end_of_month_before(&first, &second)
            } else {
                end_of_month_before(date, &first)
            };
            proof {
                lemma_next_occurrence_is_later(*date, *cycle);
            }
            r
        },
    }
}

/// `date` moved forward by `seconds`.
fn later(date: &DateTime, seconds: i64) -> (r: Result<DateTime, SimulationError>)
    requires
        date.wf(),
    ensures
        r == later_by(*date, seconds as int),
        r is Err ==> r->Err_0 == SimulationError::CalendarOverflow,
        r is Ok ==> r->Ok_0.wf() && r->Ok_0.instant() == date.instant() + seconds,
{
    match date.checked_add_seconds(seconds) {
        Some(moved) => Ok(moved),
        None => Err(SimulationError::CalendarOverflow),
    }
}

} // verus!
