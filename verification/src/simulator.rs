//! The loan, stepped one day at a time.
//!
//! All amounts are whole numbers of the currency's minor unit, durations are
//! whole seconds, and the interest rate is in millionths a year.

use crate::cycle::{increment_date, Cycle, DAY};
use crate::datetime::DateTime;
use crate::error::SimulationError;
use crate::schedule::{
    accrued_interest, after_day, after_interest, after_leftover, after_repayment, after_windfall,
    at_maturity, blank_entry, due, is_lawful, is_outcome_of, lemma_after_interest,
    lemma_after_leftover, lemma_after_repayment, lemma_lawful_schedule, lemma_schedule_is_lawful,
    lemma_total_bound, opening_state, owing, schedule_from, schedule_of, smaller, total, unfinished,
    windfall_open,
};
use vstd::prelude::*;

verus! {

/// The longest schedule that is simulated, in days: a century.
pub const MAX_SCHEDULE_DAYS: u32 = 36_600;

/// The interest that a rate of 1 charges on a balance of 365,000,000 held
/// for a day: rates are in millionths a year, and a year has 365 days.
pub const RATE_DIVISOR: u128 = 365_000_000;

/// What is simulated: the loan and the events that recur on it.
#[derive(Clone, Copy, Debug, PartialEq, Eq)]
pub struct Options {
    /// When the loan was taken out.
    pub loan_start: DateTime,
    /// What is owed when the schedule starts.
    pub principal: u64,
    /// The balance of the offset account: no interest is charged on that
    /// much of the principal.
    pub offset: u64,
    /// The date of the first entry of the schedule.
    pub schedule_start: DateTime,
    /// The nominal annual interest rate, in millionths: 65,000 is 6.5 %.
    pub interest_rate: u32,
    /// The last date on which interest was charged.
    pub prev_interest_date: DateTime,
    /// How often interest is charged.
    pub interest_cycle: Cycle,
    /// What is repaid at each repayment.
    pub repayment: u64,
    /// The date of the last repayment.
    pub prev_repayment_date: DateTime,
    /// How often a repayment is made.
    pub repayment_cycle: Cycle,
    /// Whether a repayment is taken from the stash as far as the stash goes.
    pub repayment_use_stash: bool,
    /// The date from which on what is still owed is repaid in full.
    pub schedule_end: Option<DateTime>,
    /// The date of the one cash injection.
    pub leftover_incoming: Option<DateTime>,
    /// The amount of the cash injection.
    pub leftover_amount: Option<u64>,
    /// What is repaid at each repayment after the cash injection.
    pub leftover_repayment: Option<u64>,
    /// The amount of each windfall.
    pub extra_win_amount: Option<u64>,
    /// How often a windfall comes in.
    pub extra_win_cycle: Option<Cycle>,
    /// For how many seconds from the start of the schedule windfalls come in.
    pub extra_win_duration: Option<i64>,
}

/// One day of the schedule.
#[derive(Clone, Copy, Debug, PartialEq, Eq)]
pub struct ScheduleEntry {
    /// The day.
    pub date: DateTime,
    /// The seconds since the loan was taken out.
    pub loan_duration: i64,
    /// The seconds since the schedule started.
    pub schedule_duration: i64,
    /// The interest charged on this day.
    pub interest: u64,
    /// The amount drawn back out of the loan on this day.
    pub redraw: u64,
    /// What was paid off on this day, by a repayment or the cash injection.
    pub repayment: u64,
    /// What was added to the stash on this day.
    pub stashed: u64,
    /// What is owed at the end of this day.
    pub principal: u64,
    /// The stash at the end of this day.
    pub stash: u64,
    /// The part of this day's windfall that paid off the loan.
    pub extra_win_for_loan: u64,
    /// The part of this day's windfall that went to the stash.
    pub extra_win_for_us: u64,
}

/// What the simulation carries from one day to the next.
#[derive(Debug)]
pub struct SimState {
    /// The day that was simulated last.
    pub date: DateTime,
    /// What is owed.
    pub principal: u64,
    /// The cash set aside.
    pub stash: u64,
    /// What is repaid at each repayment from now on.
    pub repayment: u64,
    /// The last date on which interest was charged.
    pub prev_interest_date: DateTime,
    /// The date of the last repayment.
    pub prev_repayment_date: DateTime,
    /// The date of the last windfall, where windfalls recur.
    pub prev_extra_win_date: Option<DateTime>,
    /// The last date on which a windfall may come in, where there is one.
    pub extra_win_end: Option<DateTime>,
    /// Whether the cash injection is still to come.
    pub leftover_pending: bool,
    /// The balance that bore interest on each day since interest was charged
    /// last.
    pub owing_daily_history: Vec<u64>,
}

/// A `SimState` as a mathematical value.
pub struct SimStateView {
    pub date: DateTime,
    pub principal: u64,
    pub stash: u64,
    pub repayment: u64,
    pub prev_interest_date: DateTime,
    pub prev_repayment_date: DateTime,
    pub prev_extra_win_date: Option<DateTime>,
    pub extra_win_end: Option<DateTime>,
    pub leftover_pending: bool,
    pub owing_daily_history: Seq<u64>,
}

impl View for SimState {
    type V = SimStateView;

    open spec fn view(&self) -> SimStateView {
        SimStateView {
            date: self.date,
            principal: self.principal,
            stash: self.stash,
            repayment: self.repayment,
            prev_interest_date: self.prev_interest_date,
            prev_repayment_date: self.prev_repayment_date,
            prev_extra_win_date: self.prev_extra_win_date,
            extra_win_end: self.extra_win_end,
            leftover_pending: self.leftover_pending,
            owing_daily_history: self.owing_daily_history@,
        }
    }
}

/// The smaller of two amounts.
fn smaller_of(a: u64, b: u64) -> (r: u64)
    ensures
        r == smaller(a, b),
{
    if a < b {
        a
    } else {
        b
    }
}

/// The part of `principal` that bears interest beside an offset account
/// that holds `offset`: none where the account holds as much or more.
pub fn owing_beside(principal: u64, offset: u64) -> (r: u64)
    ensures
        r == owing(principal, offset),
{
    if principal > offset {
        principal - offset
    } else {
        0
    }
}

/// The sum of the balances in `history`.
pub fn sum_history(history: &Vec<u64>) -> (r: u128)
    ensures
        r == total(history@),
{
    let mut sum: u128 = 0;
    let mut i: usize = 0;
    while i < history.len()
        invariant
            i <= history@.len(),
            sum == total(history@.take(i as int)),
        decreases history@.len() - i,
    {
        proof {
            lemma_total_bound(history@.take(i as int));
            assert(i * u64::MAX + u64::MAX <= u64::MAX * u64::MAX) by (nonlinear_arith)
                requires
                    i < u64::MAX,
            ;
            assert(history@.take(i + 1).drop_last() == history@.take(i as int));
        }
        sum = sum + history[i] as u128;
        i = i + 1;
    }
    assert(history@.take(i as int) == history@);
    sum
}

/// The interest on the balances in `history` at `rate` millionths a year, or
/// `None` where it is more than the largest amount.
pub fn compute_interest(rate: u32, history: &Vec<u64>) -> (r: Option<u64>)
    ensures
        0 <= accrued_interest(rate, history@),
        r == if accrued_interest(rate, history@) <= u64::MAX {
            Some(accrued_interest(rate, history@) as u64)
        } else {
            None
        },
{
    let sum = sum_history(history);
    proof {
        lemma_total_bound(history@);
        assert(0 <= rate * sum) by (nonlinear_arith)
            requires
                0 <= rate,
                0 <= sum,
        ;
    }
    match (rate as u128).checked_mul(sum) {
        None => None,
        Some(product) => {
            let interest = product / RATE_DIVISOR;
            if interest > u64::MAX as u128 {
                None
            } else {
                Some(interest as u64)
            }
        },
    }
}

/// Whether the occurrence after `previous` in a series that recurs by `cycle`
/// has come by `today`, and then its date.
pub fn check_due(today: &DateTime, previous: &DateTime, cycle: &Cycle) -> (r: Result<
    Option<DateTime>,
    SimulationError,
>)
    requires
        today.wf(),
        previous.wf(),
    ensures
        r == due(*today, *previous, *cycle),
        r is Err ==> r->Err_0 == SimulationError::CalendarOverflow,
        r is Ok && r->Ok_0 is Some ==> {
            &&& r->Ok_0->0.wf()
            &&& previous.instant() < r->Ok_0->0.instant() <= today.instant()
        },
{
    let next = increment_date(previous, cycle)?;
    if today.is_on_or_after(&next) {
        Ok(Some(next))
    } else {
        Ok(None)
    }
}

/// Charges the interest that is due on the day of `state`: see
/// `after_interest`.
pub fn charge_interest(options: &Options, state: SimState) -> (r: Result<
    (SimState, u64),
    SimulationError,
>)
    requires
        state@.wf(),
    ensures
        match r {
            Ok((next, interest)) => {
                &&& after_interest(*options, state@) == Ok::<
                    (SimStateView, u64),
                    SimulationError,
                >((next@, interest))
                &&& next@.wf()
            },
            Err(error) => after_interest(*options, state@) == Err::<
                (SimStateView, u64),
                SimulationError,
            >(error),
        },
{
    match check_due(&state.date, &state.prev_interest_date, &options.interest_cycle)? {
        None => Ok((state, 0)),
        Some(next) => {
            let interest = match compute_interest(
                options.interest_rate,
                &state.owing_daily_history,
            ) {
                Some(interest) => interest,
                None => {
                    return Err(SimulationError::AmountOverflow);
                },
            };
            match state.principal.checked_add(interest) {
                None => Err(SimulationError::AmountOverflow),
                Some(principal) => {
                    let charged = SimState {
                        principal,
                        prev_interest_date: next,
                        owing_daily_history: Vec::new(),
                        ..state
                    };
                    Ok((charged, interest))
                },
            }
        },
    }
}

/// Makes the repayment that is due on the day of `state`: see
/// `after_repayment`.
pub fn make_repayment(options: &Options, state: SimState, maturity: bool) -> (r: Result<
    (SimState, u64),
    SimulationError,
>)
    requires
        state@.wf(),
    ensures
        match r {
            Ok((next, paid)) => {
                &&& after_repayment(*options, state@, maturity) == Ok::<
                    (SimStateView, u64),
                    SimulationError,
                >((next@, paid))
                &&& next@.wf()
            },
            Err(error) => after_repayment(*options, state@, maturity) == Err::<
                (SimStateView, u64),
                SimulationError,
            >(error),
        },
{
    let next = check_due(&state.date, &state.prev_repayment_date, &options.repayment_cycle)?;
    let paid = if maturity {
        state.principal
    } else if next.is_some() {
        smaller_of(state.repayment, state.principal)
    } else {
        0
    };
    let drawn = if options.repayment_use_stash {
        smaller_of(state.stash, paid)
    } else {
        0
    };
    let repaid = SimState {
        principal: state.principal - paid,
        stash: state.stash - drawn,
        prev_repayment_date: match next {
            Some(date) => date,
            None => state.prev_repayment_date,
        },
        ..state
    };
    Ok((repaid, paid))
}

/// Applies the cash injection on the day of `state`, where that is its day:
/// see `after_leftover`.
pub fn inject_leftover(options: &Options, state: SimState) -> (r: (SimState, u64))
    requires
        state@.wf(),
        options.wf(),
    ensures
        after_leftover(*options, state@) == (r.0@, r.1),
        r.0@.wf(),
{
    let today = match options.leftover_incoming {
        Some(date) => state.leftover_pending && state.date.is_on_or_after(&date),
        None => false,
    };
    if today {
        let paid = match options.leftover_amount {
            Some(amount) => smaller_of(amount, state.principal),
            None => 0,
        };
        let injected = SimState {
            principal: state.principal - paid,
            repayment: match options.leftover_repayment {
                Some(repayment) => repayment,
                None => state.repayment,
            },
            leftover_pending: false,
            ..state
        };
        (injected, paid)
    } else {
        (state, 0)
    }
}

/// Whether a windfall may come in on the day of `state`.
pub fn is_windfall_open(state: &SimState) -> (r: bool)
    requires
        state@.wf(),
    ensures
        r == windfall_open(state@),
{
    state.prev_extra_win_date.is_some() && match state.extra_win_end {
        Some(end) => !end.is_before(&state.date),
        None => true,
    }
}

/// Takes the windfall that is due on the day of `state`: see
/// `after_windfall`.
pub fn take_windfall(options: &Options, state: SimState) -> (r: Result<
    (SimState, u64, u64),
    SimulationError,
>)
    requires
        state@.wf(),
    ensures
        match r {
            Ok((next, for_loan, for_us)) => {
                &&& after_windfall(*options, state@) == Ok::<
                    (SimStateView, u64, u64),
                    SimulationError,
                >((next@, for_loan, for_us))
                &&& next@.wf()
            },
            Err(error) => after_windfall(*options, state@) == Err::<
                (SimStateView, u64, u64),
                SimulationError,
            >(error),
        },
{
    match (options.extra_win_cycle, state.prev_extra_win_date) {
        (Some(cycle), Some(previous)) => {
            if !is_windfall_open(&state) {
                return Ok((state, 0, 0));
            }
            match check_due(&state.date, &previous, &cycle)? {
                None => Ok((state, 0, 0)),
                Some(next) => {
                    let amount = match options.extra_win_amount {
                        Some(amount) => amount,
                        None => 0,
                    };
                    let for_loan = smaller_of(amount, state.principal);
                    let for_us = amount - for_loan;
                    if for_us > u64::MAX - state.stash {
                        Err(SimulationError::AmountOverflow)
                    } else {
                        let taken = SimState {
                            principal: state.principal - for_loan,
                            stash: state.stash + for_us,
                            prev_extra_win_date: Some(next),
                            ..state
                        };
                        Ok((taken, for_loan, for_us))
                    }
                },
            }
        },
        _ => Ok((state, 0, 0)),
    }
}

/// Whether the day `today` is one from which on all that is owed is repaid.
pub fn is_at_maturity(options: &Options, today: &DateTime) -> (r: bool)
    requires
        options.wf(),
        today.wf(),
    ensures
        r == at_maturity(*options, *today),
{
    match options.schedule_end {
        Some(end) => today.is_on_or_after(&end),
        None => false,
    }
}

/// The entry for the day of `state`, on which nothing has happened yet.
pub fn new_entry(options: &Options, state: &SimState) -> (r: ScheduleEntry)
    requires
        options.wf(),
        state@.wf(),
    ensures
        r == blank_entry(*options, state.date, state.principal, state.stash),
{
    ScheduleEntry {
        date: state.date,
        loan_duration: state.date.seconds_since(&options.loan_start),
        schedule_duration: state.date.seconds_since(&options.schedule_start),
        interest: 0,
        redraw: 0,
        repayment: 0,
        stashed: 0,
        principal: state.principal,
        stash: state.stash,
        extra_win_for_loan: 0,
        extra_win_for_us: 0,
    }
}

/// Simulates the day after the day of `state`: see `after_day`.
pub fn step_day(options: &Options, state: SimState) -> (r: Result<
    (SimState, ScheduleEntry),
    SimulationError,
>)
    requires
        options.wf(),
        state@.wf(),
    ensures
        match r {
            Ok((next, entry)) => {
                &&& after_day(*options, state@) == Ok::<
                    (SimStateView, ScheduleEntry),
                    SimulationError,
                >((next@, entry))
                &&& next@.wf()
            },
            Err(error) => after_day(*options, state@) == Err::<
                (SimStateView, ScheduleEntry),
                SimulationError,
            >(error),
        },
{
    proof {
        reveal(after_day);
    }
    let today = match state.date.checked_add_seconds(DAY) {
        Some(today) => today,
        None => {
            return Err(SimulationError::CalendarOverflow);
        },
    };
    let maturity_is_today = is_at_maturity(options, &today);
    let mut morning = state;
    morning.date = today;
    morning.owing_daily_history.push(owing_beside(morning.principal, options.offset));
    let ghost at_dawn = morning@;
    let (charged, interest) = charge_interest(options, morning)?;
    let ghost at_noon = charged@;
    let (repaid, repayment) = make_repayment(options, charged, maturity_is_today)?;
    let ghost at_dusk = repaid@;
    let (injected, injection) = inject_leftover(options, repaid);
    proof {
        lemma_after_interest(*options, at_dawn);
        lemma_after_repayment(*options, at_noon, maturity_is_today);
        lemma_after_leftover(*options, at_dusk);
    }
    let (evening, for_loan, for_us) = take_windfall(options, injected)?;
    let blank = new_entry(options, &evening);
    let entry = ScheduleEntry {
        interest,
        repayment: repayment + injection,
        stashed: for_us,
        extra_win_for_loan: for_loan,
        extra_win_for_us: for_us,
        ..blank
    };
    Ok((evening, entry))
}

/// Whether another day is simulated after the day of `state`.
pub fn is_unfinished(options: &Options, state: &SimState) -> (r: bool)
    requires
        options.wf(),
        state@.wf(),
    ensures
        r == unfinished(*options, state@),
{
    state.principal > 0 || match options.leftover_incoming {
        Some(date) => state.date.is_before(&date),
        None => false,
    } || match state.extra_win_end {
        Some(end) => state.date.is_before(&end),
        None => false,
    }
}

impl Options {
    /// Whether every date is well formed.
    pub fn is_well_formed(&self) -> (r: bool)
        ensures
            r == self.wf(),
    {
        self.loan_start.is_valid() && self.schedule_start.is_valid()
            && self.prev_interest_date.is_valid() && self.prev_repayment_date.is_valid()
            && match self.schedule_end {
            Some(date) => date.is_valid(),
            None => true,
        } && match self.leftover_incoming {
            Some(date) => date.is_valid(),
            None => true,
        }
    }

    /// Rejects a cash injection that is dated before the schedule starts and
    /// a negative duration of the windfalls.
    pub fn validate(&self) -> (r: Result<(), SimulationError>)
        requires
            self.wf(),
        ensures
            r is Err <==> self.invalid_window(),
            r is Err ==> r->Err_0 == SimulationError::InvalidCycleDuration,
    {
        let early = match self.leftover_incoming {
            Some(date) => date.is_before(&self.schedule_start),
            None => false,
        };
        let negative = match self.extra_win_duration {
            Some(duration) => duration < 0,
            None => false,
        };
        if early || negative {
            Err(SimulationError::InvalidCycleDuration)
        } else {
            Ok(())
        }
    }
}

/// The state on the day the schedule starts: see `opening_state`.
pub fn open_schedule(options: &Options) -> (r: Result<SimState, SimulationError>)
    requires
        options.wf(),
    ensures
        match r {
            Ok(state) => {
                &&& opening_state(*options) == Ok::<SimStateView, SimulationError>(state@)
                &&& state@.wf()
            },
            Err(error) => opening_state(*options) == Err::<SimStateView, SimulationError>(error),
        },
        r is Err ==> r->Err_0 == SimulationError::CalendarOverflow,
{
    let extra_win_end = match options.extra_win_duration {
        None => None,
        Some(duration) => match options.schedule_start.checked_add_seconds(duration) {
            Some(end) => Some(end),
            None => {
                return Err(SimulationError::CalendarOverflow);
            },
        },
    };
    let prev_extra_win_date = match options.extra_win_cycle {
        Some(_) => Some(options.schedule_start),
        None => None,
    };
    Ok(
        SimState {
            date: options.schedule_start,
            principal: options.principal,
            stash: 0,
            repayment: options.repayment,
            prev_interest_date: options.prev_interest_date,
            prev_repayment_date: options.prev_repayment_date,
            prev_extra_win_date,
            extra_win_end,
            leftover_pending: options.leftover_incoming.is_some(),
            owing_daily_history: Vec::new(),
        },
    )
}

/// Simulates the loan that `options` describe, day by day from the day the
/// schedule starts until nothing is owed, the cash injection has come and the
/// last date for windfalls is reached.
///
/// Fails with `InvalidCycleDuration` where the cash injection is dated before
/// the schedule starts or the windfalls have a negative duration, with
/// `CalendarOverflow` where a date leaves the calendar, with `AmountOverflow`
/// where a balance outgrows its type, and with `NonConvergentSchedule` where
/// more than `MAX_SCHEDULE_DAYS` days would be needed.
pub fn simulate(options: &Options) -> (r: Result<Vec<ScheduleEntry>, SimulationError>)
    requires
        options.wf(),
    ensures
        is_outcome_of(*options, r),
        r is Ok ==> is_lawful(*options, r->Ok_0@),
        r is Ok ==> forall|i: int|
            0 <= i < r->Ok_0@.len() ==> (#[trigger] r->Ok_0@[i]).principal >= 0,
        r is Ok ==> forall|i: int, j: int|
            0 <= i < j < r->Ok_0@.len() ==> (#[trigger] r->Ok_0@[i]).date.instant() < (
            #[trigger] r->Ok_0@[j]).date.instant(),
        r is Ok && options.extra_win_duration == Some(0i64) ==> forall|i: int|
            0 <= i < r->Ok_0@.len() ==> (#[trigger] r->Ok_0@[i]).extra_win_for_loan == 0
                && r->Ok_0@[i].extra_win_for_us == 0,
{
    options.validate()?;
    let mut state = open_schedule(options)?;
    let mut schedule: Vec<ScheduleEntry> = Vec::new();
    schedule.push(new_entry(options, &state));
    let mut days: u32 = 0;
    while is_unfinished(options, &state)
        invariant
            options.wf(),
            state@.wf(),
            days <= MAX_SCHEDULE_DAYS,
            schedule_from(*options, state@, schedule@, (MAX_SCHEDULE_DAYS - days) as nat)
                == schedule_of(*options),
        decreases MAX_SCHEDULE_DAYS - days,
    {
        if days >= MAX_SCHEDULE_DAYS {
            return Err(SimulationError::NonConvergentSchedule);
        }
        let (next, entry) = step_day(options, state)?;
        state = next;
        schedule.push(entry);
        days = days + 1;
    }
    proof {
        lemma_schedule_is_lawful(*options);
        lemma_lawful_schedule(*options, schedule@);
    }
    Ok(schedule)
}

} // verus!
