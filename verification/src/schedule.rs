//! What the schedule of a loan is: the day-by-day model that the simulator
//! follows, and what holds of every schedule.

use crate::calendar::{lemma_days_before_month_values, MAX_YEAR, MIN_YEAR};
use crate::cycle::{later_by, lemma_next_occurrence_is_later, next_occurrence, Cycle, DAY};
use crate::datetime::{lemma_date_at, lemma_date_at_exists, DateTime};
use crate::error::SimulationError;
use crate::simulator::{Options, ScheduleEntry, SimStateView, MAX_SCHEDULE_DAYS, RATE_DIVISOR};
use vstd::prelude::*;

verus! {

/// Whether `date` is absent or well formed.
pub open spec fn wf_if_any(date: Option<DateTime>) -> bool {
    date is Some ==> date->0.wf()
}

impl Options {
    /// Whether every date is well formed.
    pub open spec fn wf(self) -> bool {
        &&& self.loan_start.wf()
        &&& self.schedule_start.wf()
        &&& self.prev_interest_date.wf()
        &&& self.prev_repayment_date.wf()
        &&& wf_if_any(self.schedule_end)
        &&& wf_if_any(self.leftover_incoming)
    }

    /// Whether the cash injection is dated before the schedule starts, or
    /// windfalls come in for less than no time.
    pub open spec fn invalid_window(self) -> bool {
        ||| self.leftover_incoming is Some && self.leftover_incoming->0.instant()
            < self.schedule_start.instant()
        ||| self.extra_win_duration is Some && self.extra_win_duration->0 < 0
    }
}

impl SimStateView {
    /// Whether every date is well formed.
    pub open spec fn wf(self) -> bool {
        &&& self.date.wf()
        &&& self.prev_interest_date.wf()
        &&& self.prev_repayment_date.wf()
        &&& wf_if_any(self.prev_extra_win_date)
        &&& wf_if_any(self.extra_win_end)
    }
}

/// The smaller of two amounts.
pub open spec fn smaller(a: u64, b: u64) -> u64 {
    if a < b {
        a
    } else {
        b
    }
}

/// The part of `principal` that bears interest beside an offset account
/// that holds `offset`.
pub open spec fn owing(principal: u64, offset: u64) -> u64 {
    if principal > offset {
        (principal - offset) as u64
    } else {
        0
    }
}

/// The sum of the balances in `history`.
pub open spec fn total(history: Seq<u64>) -> int
    decreases history.len(),
{
    if history.len() == 0 {
        0
    } else {
        total(history.drop_last()) + history.last()
    }
}

/// The interest on the balances in `history`, one held on each day, at
/// `rate` millionths a year: a 365th of the yearly rate on each day's balance,
/// which is the daily rate on the average balance for as many days as there
/// are balances. Fractions of the minor unit are dropped from the sum.
pub open spec fn accrued_interest(rate: u32, history: Seq<u64>) -> int {
    rate * total(history) / (RATE_DIVISOR as int)
}

/// Whether the occurrence after `previous` in a series that recurs by `cycle`
/// has come by `today`, and then its date.
pub open spec fn due(today: DateTime, previous: DateTime, cycle: Cycle) -> Result<
    Option<DateTime>,
    SimulationError,
> {
    match next_occurrence(previous, cycle) {
        Err(error) => Err(error),
        Ok(next) => Ok(
            if today.instant() >= next.instant() {
                Some(next)
            } else {
                None
            },
        ),
    }
}

/// The first event of a day: where interest is due, what has accrued on the
/// balances since it was last charged is added to the principal. Gives the
/// state after it and the interest charged.
pub open spec fn after_interest(options: Options, state: SimStateView) -> Result<
    (SimStateView, u64),
    SimulationError,
> {
    match due(state.date, state.prev_interest_date, options.interest_cycle) {
        Err(error) => Err(error),
        Ok(None) => Ok((state, 0)),
        Ok(Some(next)) => {
            let interest = accrued_interest(options.interest_rate, state.owing_daily_history);
            if state.principal + interest > u64::MAX {
                Err(SimulationError::AmountOverflow)
            } else {
                Ok(
                    (
                        SimStateView {
                            principal: (state.principal + interest) as u64,
                            prev_interest_date: next,
                            owing_daily_history: Seq::empty(),
                            ..state
                        },
                        interest as u64,
                    ),
                )
            }
        },
    }
}

/// The second event of a day: where a repayment is due, it is paid as far as
/// anything is owed; at maturity all that is owed is paid. With
/// `repayment_use_stash` the payment is taken from the stash as far as the
/// stash goes. Gives the state after it and what was paid.
pub open spec fn after_repayment(options: Options, state: SimStateView, maturity: bool) -> Result<
    (SimStateView, u64),
    SimulationError,
> {
    match due(state.date, state.prev_repayment_date, options.repayment_cycle) {
        Err(error) => Err(error),
        Ok(next) => {
            let paid = if maturity {
                state.principal
            } else if next is Some {
                smaller(state.repayment, state.principal)
            } else {
                0
            };
            let drawn = if options.repayment_use_stash {
                smaller(state.stash, paid)
            } else {
                0
            };
            Ok(
                (
                    SimStateView {
                        principal: (state.principal - paid) as u64,
                        stash: (state.stash - drawn) as u64,
                        prev_repayment_date: if next is Some {
                            next->0
                        } else {
                            state.prev_repayment_date
                        },
                        ..state
                    },
                    paid,
                ),
            )
        },
    }
}

/// The third event of a day: on the first day on or after its date the cash
/// injection pays off the loan as far as anything is owed, and from then on
/// each repayment is `leftover_repayment`, where there is one. Gives the
/// state after it and what was paid.
pub open spec fn after_leftover(options: Options, state: SimStateView) -> (SimStateView, u64) {
    if state.leftover_pending && options.leftover_incoming is Some && state.date.instant()
        >= options.leftover_incoming->0.instant() {
        let paid = match options.leftover_amount {
            Some(amount) => smaller(amount, state.principal),
            None => 0,
        };
        (
            SimStateView {
                principal: (state.principal - paid) as u64,
                repayment: match options.leftover_repayment {
                    Some(repayment) => repayment,
                    None => state.repayment,
                },
                leftover_pending: false,
                ..state
            },
            paid,
        )
    } else {
        (state, 0)
    }
}

/// Whether a windfall may come in on the day of `state`: windfalls recur and
/// their last date, where there is one, has not passed.
pub open spec fn windfall_open(state: SimStateView) -> bool {
    &&& state.prev_extra_win_date is Some
    &&& state.extra_win_end is Some ==> state.date.instant()
        <= state.extra_win_end->0.instant()
}

/// The fourth event of a day: where a windfall is due, it pays off the loan
/// as far as anything is owed, and the rest goes to the stash. Gives the
/// state after it, the part for the loan and the part for the stash.
pub open spec fn after_windfall(options: Options, state: SimStateView) -> Result<
    (SimStateView, u64, u64),
    SimulationError,
> {
    if options.extra_win_cycle is Some && windfall_open(state) {
        match due(state.date, state.prev_extra_win_date->0, options.extra_win_cycle->0) {
            Err(error) => Err(error),
            Ok(None) => Ok((state, 0, 0)),
            Ok(Some(next)) => {
                let amount = match options.extra_win_amount {
                    Some(amount) => amount,
                    None => 0,
                };
                let for_loan = smaller(amount, state.principal);
                let for_us = (amount - for_loan) as u64;
                if state.stash + for_us > u64::MAX {
                    Err(SimulationError::AmountOverflow)
                } else {
                    Ok(
                        (
                            SimStateView {
                                principal: (state.principal - for_loan) as u64,
                                stash: (state.stash + for_us) as u64,
                                prev_extra_win_date: Some(next),
                                ..state
                            },
                            for_loan,
                            for_us,
                        ),
                    )
                }
            },
        }
    } else {
        Ok((state, 0, 0))
    }
}

/// Whether the day of `state` is the day from which on all that is owed is
/// repaid.
pub open spec fn at_maturity(options: Options, today: DateTime) -> bool {
    options.schedule_end is Some && today.instant() >= options.schedule_end->0.instant()
}

/// The entry for the day `date` on which nothing happens, with `principal`
/// owed and `stash` set aside.
pub open spec fn blank_entry(
    options: Options,
    date: DateTime,
    principal: u64,
    stash: u64,
) -> ScheduleEntry {
    ScheduleEntry {
        date,
        loan_duration: (date.instant() - options.loan_start.instant()) as i64,
        schedule_duration: (date.instant() - options.schedule_start.instant()) as i64,
        interest: 0,
        redraw: 0,
        repayment: 0,
        stashed: 0,
        principal,
        stash,
        extra_win_for_loan: 0,
        extra_win_for_us: 0,
    }
}

/// The entry for the day the schedule starts.
pub open spec fn opening_entry(options: Options) -> ScheduleEntry {
    blank_entry(options, options.schedule_start, options.principal, 0)
}

/// The day after the day of `state`: the balance that bears interest is
/// noted, then interest, repayment, cash injection and windfall take place in
/// this order. Gives the state after the day and its entry.
#[verifier::opaque]
pub open spec fn after_day(options: Options, state: SimStateView) -> Result<
    (SimStateView, ScheduleEntry),
    SimulationError,
> {
    match later_by(state.date, DAY as int) {
        Err(error) => Err(error),
        Ok(today) => {
            let morning = SimStateView {
                date: today,
                owing_daily_history: state.owing_daily_history.push(
                    owing(state.principal, options.offset),
                ),
                ..state
            };
            match after_interest(options, morning) {
                Err(error) => Err(error),
                Ok((charged, interest)) => match after_repayment(
                    options,
                    charged,
                    at_maturity(options, today),
                ) {
                    Err(error) => Err(error),
                    Ok((repaid, repayment)) => {
                        let (injected, injection) = after_leftover(options, repaid);
                        match after_windfall(options, injected) {
                            Err(error) => Err(error),
                            Ok((evening, for_loan, for_us)) => Ok(
                                (
                                    evening,
                                    ScheduleEntry {
                                        interest,
                                        repayment: (repayment + injection) as u64,
                                        stashed: for_us,
                                        extra_win_for_loan: for_loan,
                                        extra_win_for_us: for_us,
                                        ..blank_entry(
                                            options,
                                            today,
                                            evening.principal,
                                            evening.stash,
                                        )
                                    },
                                ),
                            ),
                        }
                    },
                },
            }
        },
    }
}

/// Whether no series of `after` had its last occurrence before that of
/// `before`.
pub open spec fn no_series_regresses(before: SimStateView, after: SimStateView) -> bool {
    &&& before.prev_interest_date.instant() <= after.prev_interest_date.instant()
    &&& before.prev_repayment_date.instant() <= after.prev_repayment_date.instant()
    &&& before.prev_extra_win_date is Some ==> after.prev_extra_win_date is Some
        && before.prev_extra_win_date->0.instant() <= after.prev_extra_win_date->0.instant()
}

/// Whether `entry` records the day of `state` and the balances at its end.
pub open spec fn closes(state: SimStateView, entry: ScheduleEntry) -> bool {
    &&& entry.date == state.date
    &&& entry.principal == state.principal
    &&& entry.stash == state.stash
}

/// Whether `entry` can follow a day `date` that ended with `principal` owed
/// and `stash` set aside: it is the next day, what is owed has grown by the
/// interest and shrunk by what was paid off, which is no more than was owed,
/// and the stash has grown by what was stashed and shrunk only by what a
/// repayment took from it.
pub open spec fn follows(
    options: Options,
    date: DateTime,
    principal: u64,
    stash: u64,
    entry: ScheduleEntry,
) -> bool {
    &&& entry.date.wf()
    &&& entry.date.instant() == date.instant() + DAY
    &&& entry.loan_duration == entry.date.instant() - options.loan_start.instant()
    &&& entry.schedule_duration == entry.date.instant() - options.schedule_start.instant()
    &&& entry.repayment + entry.extra_win_for_loan <= principal + entry.interest
    &&& entry.principal == principal + entry.interest - entry.repayment
        - entry.extra_win_for_loan
    &&& entry.redraw == 0
    &&& entry.stashed == entry.extra_win_for_us
    &&& entry.stash <= stash + entry.stashed
    &&& entry.stash >= stash + entry.stashed - entry.repayment
    &&& !options.repayment_use_stash ==> entry.stash == stash + entry.stashed
}

/// Whether the windfall in `entry` is one that may come in: none where
/// windfalls do not recur, and none after `end`.
pub open spec fn windfall_in_time(
    options: Options,
    end: Option<DateTime>,
    entry: ScheduleEntry,
) -> bool {
    (options.extra_win_cycle is None || (end is Some && entry.date.instant()
        > end->0.instant())) ==> entry.extra_win_for_loan == 0 && entry.extra_win_for_us == 0
}

/// Whether another day is simulated after the day of `state`: something is
/// owed, the cash injection is still to come, or the last date for windfalls
/// has not been reached.
pub open spec fn unfinished(options: Options, state: SimStateView) -> bool {
    ||| state.principal > 0
    ||| options.leftover_incoming is Some && state.date.instant()
        < options.leftover_incoming->0.instant()
    ||| state.extra_win_end is Some && state.date.instant() < state.extra_win_end->0.instant()
}

/// The state on the day the schedule starts, where windfalls may come in
/// until `end`.
pub open spec fn opening_state_until(options: Options, end: Option<DateTime>) -> SimStateView {
    SimStateView {
        date: options.schedule_start,
        principal: options.principal,
        stash: 0,
        repayment: options.repayment,
        prev_interest_date: options.prev_interest_date,
        prev_repayment_date: options.prev_repayment_date,
        prev_extra_win_date: if options.extra_win_cycle is Some {
            Some(options.schedule_start)
        } else {
            None
        },
        extra_win_end: end,
        leftover_pending: options.leftover_incoming is Some,
        owing_daily_history: Seq::empty(),
    }
}

/// The state on the day the schedule starts. The last date for windfalls lies
/// `extra_win_duration` after that day.
pub open spec fn opening_state(options: Options) -> Result<SimStateView, SimulationError> {
    match options.extra_win_duration {
        None => Ok(opening_state_until(options, None)),
        Some(duration) => match later_by(options.schedule_start, duration as int) {
            Err(error) => Err(error),
            Ok(end) => Ok(opening_state_until(options, Some(end))),
        },
    }
}

/// The schedule that begins with `entries` and goes on from `state` day by
/// day for as long as it is unfinished, where that is at most `days` days.
pub open spec fn schedule_from(
    options: Options,
    state: SimStateView,
    entries: Seq<ScheduleEntry>,
    days: nat,
) -> Result<Seq<ScheduleEntry>, SimulationError>
    decreases days,
{
    if !unfinished(options, state) {
        Ok(entries)
    } else if days == 0 {
        Err(SimulationError::NonConvergentSchedule)
    } else {
        match after_day(options, state) {
            Err(error) => Err(error),
            Ok((next, entry)) => schedule_from(
                options,
                next,
                entries.push(entry),
                (days - 1) as nat,
            ),
        }
    }
}

/// The schedule of the loan that `options` describe: the entry of the day
/// the schedule starts, on which nothing happens, and an entry for each day
/// after it until nothing is owed, the cash injection has come and the last
/// date for windfalls is reached.
pub open spec fn schedule_of(options: Options) -> Result<Seq<ScheduleEntry>, SimulationError> {
    if options.invalid_window() {
        Err(SimulationError::InvalidCycleDuration)
    } else {
        match opening_state(options) {
            Err(error) => Err(error),
            Ok(state) => schedule_from(
                options,
                state,
                seq![opening_entry(options)],
                MAX_SCHEDULE_DAYS as nat,
            ),
        }
    }
}

/// The sum of a history is at most its length times the largest balance.
pub proof fn lemma_total_bound(history: Seq<u64>)
    ensures
        0 <= total(history) <= history.len() * u64::MAX,
    decreases history.len(),
{
    if history.len() > 0 {
        lemma_total_bound(history.drop_last());
        assert((history.len() - 1) * u64::MAX + u64::MAX == history.len() * u64::MAX)
            by (nonlinear_arith);
    }
}

/// The instants of well-formed dates differ by less than the largest number
/// of seconds that a duration can hold.
pub proof fn lemma_durations_fit(later: DateTime, earlier: DateTime)
    requires
        later.wf(),
        earlier.wf(),
    ensures
        i64::MIN <= later.instant() - earlier.instant() <= i64::MAX,
{
    lemma_date_at(later);
    lemma_date_at(earlier);
    lemma_days_before_month_values(MIN_YEAR as int);
    lemma_days_before_month_values(MAX_YEAR as int);
}

/// What holds of a series that is due: its next occurrence is a date after
/// the one before and no later than today.
pub proof fn lemma_due(today: DateTime, previous: DateTime, cycle: Cycle)
    requires
        previous.wf(),
        due(today, previous, cycle) is Ok,
        due(today, previous, cycle)->Ok_0 is Some,
    ensures
        due(today, previous, cycle)->Ok_0->0.wf(),
        previous.instant() < due(today, previous, cycle)->Ok_0->0.instant() <= today.instant(),
{
    lemma_next_occurrence_is_later(previous, cycle);
}

/// Interest is never negative.
pub proof fn lemma_interest_is_not_negative(rate: u32, history: Seq<u64>)
    ensures
        0 <= accrued_interest(rate, history),
{
    lemma_total_bound(history);
    assert(0 <= rate * total(history)) by (nonlinear_arith)
        requires
            0 <= rate,
            0 <= total(history),
    ;
}

/// What charging interest changes: what is owed grows by the interest, and
/// the series of interest moves on.
pub proof fn lemma_after_interest(options: Options, state: SimStateView)
    requires
        state.wf(),
        after_interest(options, state) is Ok,
    ensures
        ({
            let (next, interest) = after_interest(options, state)->Ok_0;
            &&& next.wf()
            &&& next.principal == state.principal + interest
            &&& no_series_regresses(state, next)
            &&& next == SimStateView {
                principal: next.principal,
                prev_interest_date: next.prev_interest_date,
                owing_daily_history: next.owing_daily_history,
                ..state
            }
        }),
{
    lemma_interest_is_not_negative(options.interest_rate, state.owing_daily_history);
    if due(state.date, state.prev_interest_date, options.interest_cycle)->Ok_0 is Some {
        lemma_due(state.date, state.prev_interest_date, options.interest_cycle);
    }
}

/// What a repayment changes: what is owed shrinks by what is paid, the stash
/// by no more than that, and the series of repayments moves on.
pub proof fn lemma_after_repayment(options: Options, state: SimStateView, maturity: bool)
    requires
        state.wf(),
        after_repayment(options, state, maturity) is Ok,
    ensures
        ({
            let (next, paid) = after_repayment(options, state, maturity)->Ok_0;
            &&& next.wf()
            &&& next.principal == state.principal - paid
            &&& state.stash - paid <= next.stash <= state.stash
            &&& !options.repayment_use_stash ==> next.stash == state.stash
            &&& no_series_regresses(state, next)
            &&& next == SimStateView {
                principal: next.principal,
                stash: next.stash,
                prev_repayment_date: next.prev_repayment_date,
                ..state
            }
        }),
{
    if due(state.date, state.prev_repayment_date, options.repayment_cycle)->Ok_0 is Some {
        lemma_due(state.date, state.prev_repayment_date, options.repayment_cycle);
    }
}

/// What the cash injection changes: what is owed shrinks by what is paid.
pub proof fn lemma_after_leftover(options: Options, state: SimStateView)
    requires
        state.wf(),
    ensures
        ({
            let (next, paid) = after_leftover(options, state);
            &&& next.wf()
            &&& next.principal == state.principal - paid
            &&& no_series_regresses(state, next)
            &&& next == SimStateView {
                principal: next.principal,
                repayment: next.repayment,
                leftover_pending: next.leftover_pending,
                ..state
            }
        }),
{
}

/// What a windfall changes: what is owed shrinks by the part for the loan,
/// the stash grows by the rest, and the series of windfalls moves on. None
/// comes in where windfalls do not recur or their last date has passed.
pub proof fn lemma_after_windfall(options: Options, state: SimStateView)
    requires
        state.wf(),
        after_windfall(options, state) is Ok,
    ensures
        ({
            let (next, for_loan, for_us) = after_windfall(options, state)->Ok_0;
            &&& next.wf()
            &&& next.principal == state.principal - for_loan
            &&& next.stash == state.stash + for_us
            &&& no_series_regresses(state, next)
            &&& !(options.extra_win_cycle is Some && windfall_open(state)) ==> for_loan == 0
                && for_us == 0
            &&& next == SimStateView {
                principal: next.principal,
                stash: next.stash,
                prev_extra_win_date: next.prev_extra_win_date,
                ..state
            }
        }),
{
    if options.extra_win_cycle is Some && windfall_open(state) {
        if due(state.date, state.prev_extra_win_date->0, options.extra_win_cycle->0)->Ok_0
            is Some {
            lemma_due(state.date, state.prev_extra_win_date->0, options.extra_win_cycle->0);
        }
    }
}

/// What holds of every day of a schedule: the state after it is well
/// formed, no series regresses, and the entry closes the day and follows
/// from the day before.
pub proof fn lemma_after_day(options: Options, state: SimStateView)
    requires
        options.wf(),
        state.wf(),
        after_day(options, state) is Ok,
    ensures
        ({
            let (next, entry) = after_day(options, state)->Ok_0;
            &&& next.wf()
            &&& next.extra_win_end == state.extra_win_end
            &&& no_series_regresses(state, next)
            &&& closes(next, entry)
            &&& follows(options, state.date, state.principal, state.stash, entry)
            &&& windfall_in_time(options, state.extra_win_end, entry)
        }),
{
    reveal(after_day);
    let today = later_by(state.date, DAY as int)->Ok_0;
    lemma_date_at_exists(state.date.instant() + DAY);
    lemma_durations_fit(today, options.loan_start);
    lemma_durations_fit(today, options.schedule_start);
    let morning = SimStateView {
        date: today,
        owing_daily_history: state.owing_daily_history.push(owing(state.principal, options.offset)),
        ..state
    };
    lemma_after_interest(options, morning);
    let (charged, interest) = after_interest(options, morning)->Ok_0;
    lemma_after_repayment(options, charged, at_maturity(options, today));
    let (repaid, repayment) = after_repayment(options, charged, at_maturity(options, today))->Ok_0;
    lemma_after_leftover(options, repaid);
    let (injected, injection) = after_leftover(options, repaid);
    lemma_after_windfall(options, injected);
}

/// Whether `outcome` is what the simulation of `options` gives: see
/// `schedule_of`.
pub open spec fn is_outcome_of(
    options: Options,
    outcome: Result<Vec<ScheduleEntry>, SimulationError>,
) -> bool {
    match outcome {
        Ok(schedule) => schedule_of(options) == Ok::<Seq<ScheduleEntry>, SimulationError>(
            schedule@,
        ),
        Err(error) => schedule_of(options) == Err::<Seq<ScheduleEntry>, SimulationError>(error),
    }
}

/// Whether the windfall in `entry` is one that may come in: none where
/// windfalls do not recur, and none later than `extra_win_duration` after the
/// schedule started.
pub open spec fn windfall_allowed(options: Options, entry: ScheduleEntry) -> bool {
    (options.extra_win_cycle is None || (options.extra_win_duration is Some
        && entry.schedule_duration > options.extra_win_duration->0))
        ==> entry.extra_win_for_loan == 0 && entry.extra_win_for_us == 0
}

/// What holds of every schedule as far as it has come: it opens with the day
/// the schedule starts, on which nothing happens; its entries are one day
/// apart; each follows from the one before; and no windfall comes in out of
/// its time.
#[verifier::opaque]
pub open spec fn is_lawful_so_far(options: Options, schedule: Seq<ScheduleEntry>) -> bool {
    &&& 1 <= schedule.len()
    &&& schedule[0] == opening_entry(options)
    &&& forall|i: int|
        #![trigger schedule[i]]
        0 <= i < schedule.len() ==> {
            &&& schedule[i].date.wf()
            &&& schedule[i].date.instant() == options.schedule_start.instant() + i * DAY
            &&& schedule[i].schedule_duration == i * DAY
            &&& windfall_allowed(options, schedule[i])
        }
    &&& forall|i: int|
        #![trigger schedule[i]]
        1 <= i < schedule.len() ==> follows(
            options,
            schedule[i - 1].date,
            schedule[i - 1].principal,
            schedule[i - 1].stash,
            schedule[i],
        )
}

/// What holds of every schedule: it is lawful as far as it has come, it is
/// no longer than the longest schedule, and on its last day nothing is owed.
pub open spec fn is_lawful(options: Options, schedule: Seq<ScheduleEntry>) -> bool {
    &&& is_lawful_so_far(options, schedule)
    &&& schedule.len() <= MAX_SCHEDULE_DAYS + 1
    &&& schedule.last().principal == 0
}

/// The opening entry alone is lawful as far as it has come.
pub proof fn lemma_lawful_opening(options: Options)
    requires
        options.wf(),
    ensures
        is_lawful_so_far(options, seq![opening_entry(options)]),
{
    reveal(is_lawful_so_far);
}

/// A schedule that is lawful as far as it has come stays so with one more
/// entry that follows from its last and holds no windfall out of its time.
pub proof fn lemma_lawful_push(
    options: Options,
    schedule: Seq<ScheduleEntry>,
    entry: ScheduleEntry,
)
    requires
        is_lawful_so_far(options, schedule),
        follows(
            options,
            schedule.last().date,
            schedule.last().principal,
            schedule.last().stash,
            entry,
        ),
        windfall_allowed(options, entry),
    ensures
        is_lawful_so_far(options, schedule.push(entry)),
{
    reveal(is_lawful_so_far);
    let longer = schedule.push(entry);
    assert(schedule.last() == schedule[schedule.len() - 1]);
    assert forall|i: int| 0 <= i < longer.len() implies {
        &&& (#[trigger] longer[i]).date.wf()
        &&& longer[i].date.instant() == options.schedule_start.instant() + i * DAY
        &&& longer[i].schedule_duration == i * DAY
        &&& windfall_allowed(options, longer[i])
    } by {
        if i < schedule.len() {
            assert(longer[i] == schedule[i]);
        }
    }
    assert forall|i: int| 1 <= i < longer.len() implies follows(
        options,
        longer[i - 1].date,
        longer[i - 1].principal,
        longer[i - 1].stash,
        #[trigger] longer[i],
    ) by {
        assert(longer[i - 1] == schedule[i - 1]);
        if i < schedule.len() {
            assert(longer[i] == schedule[i]);
        }
    }
}

/// In a lawful schedule each entry is dated later than those before it, no
/// entry owes less than nothing, what is owed changes from entry to entry by
/// the interest less what was paid off, and windfalls of no duration never
/// come in.
pub proof fn lemma_lawful_schedule(options: Options, schedule: Seq<ScheduleEntry>)
    requires
        is_lawful_so_far(options, schedule),
    ensures
        forall|i: int, j: int|
            0 <= i < j < schedule.len() ==> (#[trigger] schedule[i]).date.instant() < (
            #[trigger] schedule[j]).date.instant(),
        forall|i: int| 0 <= i < schedule.len() ==> (#[trigger] schedule[i]).principal >= 0,
        forall|i: int|
            1 <= i < schedule.len() ==> (#[trigger] schedule[i]).principal == schedule[i
                - 1].principal + schedule[i].interest - schedule[i].repayment
                - schedule[i].extra_win_for_loan,
        options.extra_win_duration == Some(0i64) ==> forall|i: int|
            0 <= i < schedule.len() ==> (#[trigger] schedule[i]).extra_win_for_loan == 0
                && schedule[i].extra_win_for_us == 0,
{
    reveal(is_lawful_so_far);
    assert forall|i: int, j: int| 0 <= i < j < schedule.len() implies (
    #[trigger] schedule[i]).date.instant() < (#[trigger] schedule[j]).date.instant() by {
        assert(i * DAY < j * DAY);
    }
    if options.extra_win_duration == Some(0i64) {
        assert forall|i: int| 0 <= i < schedule.len() implies (
        #[trigger] schedule[i]).extra_win_for_loan == 0 && schedule[i].extra_win_for_us == 0 by {
            if i > 0 {
                assert(i * DAY > 0);
            }
        }
    }
}

/// Whether the last date for windfalls in `state` is the one that `options`
/// ask for: `extra_win_duration` after the schedule starts.
pub open spec fn windfalls_end_as_asked(options: Options, state: SimStateView) -> bool {
    options.extra_win_duration is Some ==> state.extra_win_end is Some
        && state.extra_win_end->0.instant() == options.schedule_start.instant()
        + options.extra_win_duration->0
}

/// A schedule that is lawful as far as it has come is lawful when it has
/// been brought to its end.
pub proof fn lemma_schedule_from_is_lawful(
    options: Options,
    state: SimStateView,
    entries: Seq<ScheduleEntry>,
    days: nat,
)
    requires
        options.wf(),
        state.wf(),
        is_lawful_so_far(options, entries),
        closes(state, entries.last()),
        windfalls_end_as_asked(options, state),
        entries.len() + days == MAX_SCHEDULE_DAYS + 1,
        schedule_from(options, state, entries, days) is Ok,
    ensures
        is_lawful(options, schedule_from(options, state, entries, days)->Ok_0),
    decreases days,
{
    if unfinished(options, state) {
        lemma_after_day(options, state);
        let (next, entry) = after_day(options, state)->Ok_0;
        lemma_lawful_push(options, entries, entry);
        lemma_schedule_from_is_lawful(options, next, entries.push(entry), (days - 1) as nat);
    }
}

/// Every schedule is lawful.
pub proof fn lemma_schedule_is_lawful(options: Options)
    requires
        options.wf(),
        schedule_of(options) is Ok,
    ensures
        is_lawful(options, schedule_of(options)->Ok_0),
{
    let state = opening_state(options)->Ok_0;
    if options.extra_win_duration is Some {
        lemma_date_at_exists(options.schedule_start.instant() + options.extra_win_duration->0);
    }
    lemma_lawful_opening(options);
    lemma_schedule_from_is_lawful(
        options,
        state,
        seq![opening_entry(options)],
        MAX_SCHEDULE_DAYS as nat,
    );
}

/// Two simulations of the same loan have the same outcome: the same schedule
/// or the same error.
pub proof fn lemma_simulate_is_deterministic(
    options: Options,
    first: Result<Vec<ScheduleEntry>, SimulationError>,
    second: Result<Vec<ScheduleEntry>, SimulationError>,
)
    requires
        is_outcome_of(options, first),
        is_outcome_of(options, second),
    ensures
        first is Ok <==> second is Ok,
        first is Ok ==> first->Ok_0@ == second->Ok_0@,
        first is Err ==> first->Err_0 == second->Err_0,
{
}

} // verus!
