use loan_simulator::cycle::Cycle;
use loan_simulator::datetime::DateTime;
use loan_simulator::error::SimulationError;
use loan_simulator::simulator::{simulate, Options, ScheduleEntry, MAX_SCHEDULE_DAYS};

const DAY: i64 = 86_400;

fn at(year: i32, month: u32, day: u32, second: u32) -> DateTime {
    DateTime::new(year, month, day, second).expect("a date of the calendar")
}

fn start() -> DateTime {
    at(2024, 1, 1, 0)
}

fn days_after_start(days: i64) -> DateTime {
    start().checked_add_seconds(days * DAY).expect("a later date")
}

/// A loan of `principal` on which nothing recurs but fortnightly events of
/// no amount.
fn loan(principal: u64) -> Options {
    Options {
        loan_start: start(),
        principal,
        offset: 0,
        schedule_start: start(),
        interest_rate: 0,
        prev_interest_date: start(),
        interest_cycle: Cycle::Fortnightly,
        repayment: 0,
        prev_repayment_date: start(),
        repayment_cycle: Cycle::Fortnightly,
        repayment_use_stash: false,
        schedule_end: None,
        leftover_incoming: None,
        leftover_amount: None,
        leftover_repayment: None,
        extra_win_amount: None,
        extra_win_cycle: None,
        extra_win_duration: None,
    }
}

/// The entry of day `day` on which nothing happens.
fn quiet(day: i64, principal: u64, stash: u64) -> ScheduleEntry {
    ScheduleEntry {
        date: days_after_start(day),
        loan_duration: day * DAY,
        schedule_duration: day * DAY,
        interest: 0,
        redraw: 0,
        repayment: 0,
        stashed: 0,
        principal,
        stash,
        extra_win_for_loan: 0,
        extra_win_for_us: 0,
    }
}

fn run(options: &Options) -> Vec<ScheduleEntry> {
    assert!(options.is_well_formed());
    simulate(options).expect("a schedule")
}

/// What holds of every schedule.
fn check_laws(options: &Options, schedule: &[ScheduleEntry]) {
    assert!(!schedule.is_empty());
    assert_eq!(schedule[0].date, options.schedule_start);
    assert_eq!(schedule[0].principal, options.principal);
    assert_eq!(schedule[schedule.len() - 1].principal, 0);
    for (i, entry) in schedule.iter().enumerate() {
        assert_eq!(entry.schedule_duration, i as i64 * DAY);
        assert_eq!(entry.loan_duration, entry.date.seconds_since(&options.loan_start));
        assert_eq!(entry.redraw, 0);
        assert_eq!(entry.stashed, entry.extra_win_for_us);
        if i > 0 {
            let before = &schedule[i - 1];
            assert!(before.date.is_before(&entry.date));
            assert_eq!(entry.date.seconds_since(&before.date), DAY);
            assert_eq!(
                u128::from(entry.principal)
                    + u128::from(entry.repayment)
                    + u128::from(entry.extra_win_for_loan),
                u128::from(before.principal) + u128::from(entry.interest)
            );
            assert!(entry.stash <= before.stash + entry.stashed);
            if !options.repayment_use_stash {
                assert_eq!(entry.stash, before.stash + entry.stashed);
            }
        }
    }
}

#[test]
fn a_loan_of_nothing_has_only_its_opening_entry() {
    let options = loan(0);
    assert_eq!(simulate(&options), Ok(vec![quiet(0, 0, 0)]));
}

#[test]
fn the_opening_entry_counts_from_the_start_of_the_loan() {
    let mut options = loan(100);
    options.repayment = 100;
    options.loan_start = at(2023, 12, 1, 43_200);
    let schedule = run(&options);
    assert_eq!(schedule.len(), 15);
    assert_eq!(schedule[0].loan_duration, 2_635_200);
    assert_eq!(schedule[0].schedule_duration, 0);
    assert_eq!(schedule[0].principal, 100);
    assert_eq!(schedule[14].loan_duration, 3_844_800);
    assert_eq!(schedule[14].schedule_duration, 1_209_600);
    check_laws(&options, &schedule);
}

#[test]
fn interest_is_a_365th_of_the_rate_on_each_day_s_balance() {
    let mut options = loan(365_000_000);
    options.interest_rate = 10_000;
    options.repayment = 365_140_000;
    let schedule = run(&options);
    assert_eq!(schedule.len(), 15);
    for day in 0..14 {
        assert_eq!(schedule[day as usize], quiet(day, 365_000_000, 0));
    }
    assert_eq!(
        schedule[14],
        ScheduleEntry { interest: 140_000, repayment: 365_140_000, ..quiet(14, 0, 0) }
    );
    check_laws(&options, &schedule);
}

#[test]
fn interest_is_charged_on_what_exceeds_the_offset() {
    let mut options = loan(365_000_000);
    options.offset = 65_000_000;
    options.interest_rate = 10_000;
    options.repayment = 400_000_000;
    let schedule = run(&options);
    assert_eq!(
        schedule[14],
        ScheduleEntry { interest: 115_068, repayment: 365_115_068, ..quiet(14, 0, 0) }
    );
    check_laws(&options, &schedule);
}

#[test]
fn an_offset_as_large_as_the_principal_leaves_no_interest() {
    let mut options = loan(365_000_000);
    options.offset = 365_000_000;
    options.interest_rate = 10_000;
    options.repayment = 400_000_000;
    let schedule = run(&options);
    assert_eq!(schedule[14], ScheduleEntry { repayment: 365_000_000, ..quiet(14, 0, 0) });
    options.offset = u64::MAX;
    let schedule = run(&options);
    assert_eq!(schedule[14], ScheduleEntry { repayment: 365_000_000, ..quiet(14, 0, 0) });
}

#[test]
fn interest_below_one_minor_unit_is_dropped() {
    let mut options = loan(100);
    options.interest_rate = 65_000;
    options.repayment = 1_000;
    let schedule = run(&options);
    assert_eq!(schedule[14], ScheduleEntry { repayment: 100, ..quiet(14, 0, 0) });
}

#[test]
fn interest_at_the_end_of_the_month_uses_the_balance_of_each_day() {
    let mut options = loan(100_000_000);
    options.interest_rate = 65_000;
    options.interest_cycle = Cycle::MonthlyEndOfMonth;
    options.repayment = 675_207;
    let schedule = run(&options);
    assert_eq!(schedule[14], ScheduleEntry { repayment: 675_207, ..quiet(14, 99_324_793, 0) });
    assert_eq!(schedule[28], ScheduleEntry { repayment: 675_207, ..quiet(28, 98_649_586, 0) });
    // 14 days at 100,000,000, 14 at 99,324,793 and 2 at 98,649,586.
    assert_eq!(schedule[30], ScheduleEntry { interest: 532_082, ..quiet(30, 99_181_668, 0) });
    assert_eq!(schedule[31], quiet(31, 99_181_668, 0));
    assert_eq!(schedule[60].principal, 98_341_061);
}

#[test]
fn a_repayment_pays_no_more_than_is_owed() {
    let mut options = loan(250);
    options.repayment = 100;
    let schedule = run(&options);
    assert_eq!(schedule.len(), 43);
    assert_eq!(schedule[14], ScheduleEntry { repayment: 100, ..quiet(14, 150, 0) });
    assert_eq!(schedule[28], ScheduleEntry { repayment: 100, ..quiet(28, 50, 0) });
    assert_eq!(schedule[42], ScheduleEntry { repayment: 50, ..quiet(42, 0, 0) });
    check_laws(&options, &schedule);
}

#[test]
fn a_series_that_lags_behind_catches_up_one_occurrence_a_day() {
    let mut options = loan(1_000);
    options.repayment = 100;
    options.prev_repayment_date = at(2023, 11, 1, 0);
    let schedule = run(&options);
    assert_eq!(schedule.len(), 80);
    for day in 1..5 {
        assert_eq!(schedule[day].repayment, 100);
    }
    assert_eq!(schedule[4].principal, 600);
    assert_eq!(schedule[5].repayment, 0);
    assert_eq!(schedule[6].repayment, 0);
    assert_eq!(schedule[9].repayment, 100);
    check_laws(&options, &schedule);
}

#[test]
fn at_maturity_all_that_is_owed_is_repaid() {
    let mut options = loan(1_000);
    options.repayment_cycle = Cycle::YEARLY;
    options.schedule_end = Some(days_after_start(10));
    let schedule = run(&options);
    assert_eq!(schedule.len(), 11);
    assert_eq!(schedule[9], quiet(9, 1_000, 0));
    assert_eq!(schedule[10], ScheduleEntry { repayment: 1_000, ..quiet(10, 0, 0) });
    check_laws(&options, &schedule);
}

#[test]
fn maturity_waits_for_the_second_of_the_day() {
    let mut options = loan(1_000);
    options.repayment_cycle = Cycle::YEARLY;
    options.schedule_end = Some(at(2024, 1, 11, 1));
    let schedule = run(&options);
    assert_eq!(schedule.len(), 12);
    assert_eq!(schedule[10], quiet(10, 1_000, 0));
    assert_eq!(schedule[11], ScheduleEntry { repayment: 1_000, ..quiet(11, 0, 0) });
}

#[test]
fn the_cash_injection_pays_off_once_and_changes_the_repayment() {
    let mut options = loan(1_000);
    options.repayment = 100;
    options.leftover_incoming = Some(days_after_start(5));
    options.leftover_amount = Some(400);
    options.leftover_repayment = Some(50);
    let schedule = run(&options);
    assert_eq!(schedule.len(), 169);
    assert_eq!(schedule[4], quiet(4, 1_000, 0));
    assert_eq!(schedule[5], ScheduleEntry { repayment: 400, ..quiet(5, 600, 0) });
    assert_eq!(schedule[6], quiet(6, 600, 0));
    assert_eq!(schedule[14], ScheduleEntry { repayment: 50, ..quiet(14, 550, 0) });
    assert_eq!(schedule[28], ScheduleEntry { repayment: 50, ..quiet(28, 500, 0) });
    check_laws(&options, &schedule);
}

#[test]
fn the_cash_injection_alone_leaves_the_repayment_as_it_was() {
    let mut options = loan(1_000);
    options.repayment = 100;
    options.leftover_incoming = Some(days_after_start(5));
    options.leftover_amount = Some(400);
    let schedule = run(&options);
    assert_eq!(schedule.len(), 85);
    assert_eq!(schedule[5], ScheduleEntry { repayment: 400, ..quiet(5, 600, 0) });
    assert_eq!(schedule[14], ScheduleEntry { repayment: 100, ..quiet(14, 500, 0) });
}

#[test]
fn a_cash_injection_on_the_first_day_comes_on_the_day_after() {
    let mut options = loan(1_000);
    options.repayment = 100;
    options.leftover_incoming = Some(start());
    options.leftover_amount = Some(400);
    let schedule = run(&options);
    assert_eq!(schedule[0], quiet(0, 1_000, 0));
    assert_eq!(schedule[1], ScheduleEntry { repayment: 400, ..quiet(1, 600, 0) });
    assert_eq!(schedule[2], quiet(2, 600, 0));
    assert_eq!(schedule.len(), 85);
}

#[test]
fn a_cash_injection_during_a_day_comes_on_the_day_after() {
    let mut options = loan(1_000);
    options.repayment = 100;
    options.leftover_incoming = Some(at(2024, 1, 6, 1));
    options.leftover_amount = Some(400);
    let schedule = run(&options);
    assert_eq!(schedule[5], quiet(5, 1_000, 0));
    assert_eq!(schedule[6], ScheduleEntry { repayment: 400, ..quiet(6, 600, 0) });
}

#[test]
fn a_cash_injection_pays_no_more_than_is_owed() {
    let mut options = loan(1_000);
    options.repayment = 100;
    options.leftover_incoming = Some(days_after_start(3));
    options.leftover_amount = Some(5_000);
    let schedule = run(&options);
    assert_eq!(schedule.len(), 4);
    assert_eq!(schedule[3], ScheduleEntry { repayment: 1_000, ..quiet(3, 0, 0) });
    check_laws(&options, &schedule);
}

#[test]
fn the_schedule_runs_on_until_the_cash_injection_has_come() {
    let mut options = loan(100);
    options.repayment = 100;
    options.leftover_incoming = Some(days_after_start(20));
    options.leftover_amount = Some(5_000);
    let schedule = run(&options);
    assert_eq!(schedule.len(), 21);
    assert_eq!(schedule[14], ScheduleEntry { repayment: 100, ..quiet(14, 0, 0) });
    assert_eq!(schedule[20], quiet(20, 0, 0));
    check_laws(&options, &schedule);
}

#[test]
fn a_windfall_pays_off_the_loan_first_and_the_rest_is_stashed() {
    let mut options = loan(500);
    options.repayment_cycle = Cycle::YEARLY;
    options.extra_win_amount = Some(300);
    options.extra_win_cycle = Some(Cycle::Fortnightly);
    options.extra_win_duration = Some(30 * DAY);
    let schedule = run(&options);
    assert_eq!(schedule.len(), 31);
    assert_eq!(schedule[14], ScheduleEntry { extra_win_for_loan: 300, ..quiet(14, 200, 0) });
    assert_eq!(
        schedule[28],
        ScheduleEntry {
            extra_win_for_loan: 200,
            extra_win_for_us: 100,
            stashed: 100,
            ..quiet(28, 0, 100)
        }
    );
    assert_eq!(schedule[29], quiet(29, 0, 100));
    assert_eq!(schedule[30], quiet(30, 0, 100));
    check_laws(&options, &schedule);
}

#[test]
fn windfalls_without_a_duration_come_in_as_long_as_the_schedule_runs() {
    let mut options = loan(1_000);
    options.repayment_cycle = Cycle::YEARLY;
    options.extra_win_amount = Some(300);
    options.extra_win_cycle = Some(Cycle::Fortnightly);
    let schedule = run(&options);
    assert_eq!(schedule.len(), 57);
    assert_eq!(schedule[14], ScheduleEntry { extra_win_for_loan: 300, ..quiet(14, 700, 0) });
    assert_eq!(schedule[28], ScheduleEntry { extra_win_for_loan: 300, ..quiet(28, 400, 0) });
    assert_eq!(schedule[42], ScheduleEntry { extra_win_for_loan: 300, ..quiet(42, 100, 0) });
    assert_eq!(
        schedule[56],
        ScheduleEntry {
            extra_win_for_loan: 100,
            extra_win_for_us: 200,
            stashed: 200,
            ..quiet(56, 0, 200)
        }
    );
    check_laws(&options, &schedule);
}

#[test]
fn a_windfall_on_its_last_date_comes_in_and_one_a_second_later_does_not() {
    let mut options = loan(1_000);
    options.repayment_cycle = Cycle::YEARLY;
    options.extra_win_amount = Some(300);
    options.extra_win_cycle = Some(Cycle::Fortnightly);
    options.extra_win_duration = Some(14 * DAY);
    options.schedule_end = Some(days_after_start(20));
    let schedule = run(&options);
    assert_eq!(schedule[14], ScheduleEntry { extra_win_for_loan: 300, ..quiet(14, 700, 0) });
    assert_eq!(schedule[20], ScheduleEntry { repayment: 700, ..quiet(20, 0, 0) });
    options.extra_win_duration = Some(14 * DAY - 1);
    let schedule = run(&options);
    assert_eq!(schedule[14], quiet(14, 1_000, 0));
    assert_eq!(schedule[20], ScheduleEntry { repayment: 1_000, ..quiet(20, 0, 0) });
    assert_eq!(schedule.len(), 21);
}

#[test]
fn windfalls_need_a_cycle_and_an_amount() {
    let mut options = loan(100);
    options.repayment = 100;
    options.extra_win_cycle = Some(Cycle::Fortnightly);
    options.extra_win_duration = Some(20 * DAY);
    let schedule = run(&options);
    assert_eq!(schedule.len(), 21);
    assert_eq!(schedule[14], ScheduleEntry { repayment: 100, ..quiet(14, 0, 0) });
    options.extra_win_cycle = None;
    options.extra_win_amount = Some(300);
    let schedule = run(&options);
    assert_eq!(schedule.len(), 21);
    assert_eq!(schedule[14], ScheduleEntry { repayment: 100, ..quiet(14, 0, 0) });
    assert_eq!(schedule[20], quiet(20, 0, 0));
}

#[test]
fn windfalls_of_zero_duration_never_come_in() {
    let mut options = loan(500);
    options.repayment = 100;
    options.extra_win_amount = Some(300);
    options.extra_win_cycle = Some(Cycle::Fortnightly);
    options.extra_win_duration = Some(0);
    let schedule = run(&options);
    assert_eq!(schedule.len(), 71);
    for entry in schedule.iter() {
        assert_eq!(entry.extra_win_for_loan, 0);
        assert_eq!(entry.extra_win_for_us, 0);
        assert_eq!(entry.stashed, 0);
        assert_eq!(entry.stash, 0);
    }
    assert_eq!(schedule[14], ScheduleEntry { repayment: 100, ..quiet(14, 400, 0) });
    check_laws(&options, &schedule);
}

fn loan_with_a_stash(use_stash: bool) -> Options {
    let mut options = loan(1_000);
    options.interest_rate = 36_500_000;
    options.interest_cycle = Cycle::MonthlyAverage;
    options.repayment = 300;
    options.repayment_use_stash = use_stash;
    options.extra_win_amount = Some(1_500);
    options.extra_win_cycle = Some(Cycle::Fortnightly);
    options.extra_win_duration = Some(14 * DAY);
    options.leftover_incoming = Some(days_after_start(45));
    options.schedule_end = Some(days_after_start(50));
    options
}

#[test]
fn repayments_are_taken_from_the_stash_where_that_is_asked_for() {
    let options = loan_with_a_stash(true);
    let schedule = run(&options);
    assert_eq!(schedule.len(), 51);
    assert_eq!(
        schedule[14],
        ScheduleEntry {
            repayment: 300,
            extra_win_for_loan: 700,
            extra_win_for_us: 800,
            stashed: 800,
            ..quiet(14, 0, 800)
        }
    );
    assert_eq!(schedule[28], quiet(28, 0, 800));
    assert_eq!(schedule[31], ScheduleEntry { interest: 1_400, ..quiet(31, 1_400, 800) });
    assert_eq!(schedule[42], ScheduleEntry { repayment: 300, ..quiet(42, 1_100, 500) });
    assert_eq!(schedule[45], quiet(45, 1_100, 500));
    assert_eq!(schedule[50], ScheduleEntry { repayment: 1_100, ..quiet(50, 0, 0) });
    check_laws(&options, &schedule);
}

#[test]
fn repayments_leave_the_stash_alone_where_that_is_not_asked_for() {
    let options = loan_with_a_stash(false);
    let schedule = run(&options);
    assert_eq!(schedule.len(), 51);
    assert_eq!(schedule[31], ScheduleEntry { interest: 1_400, ..quiet(31, 1_400, 800) });
    assert_eq!(schedule[42], ScheduleEntry { repayment: 300, ..quiet(42, 1_100, 800) });
    assert_eq!(schedule[50], ScheduleEntry { repayment: 1_100, ..quiet(50, 0, 800) });
    check_laws(&options, &schedule);
}

fn annuity(years: i32, payments_per_year: i32, principal: f64, rate: f64) -> f64 {
    let payments = f64::from(years * payments_per_year);
    let rate_per_payment = rate / f64::from(payments_per_year);
    principal * (rate_per_payment * (1.0 + rate_per_payment).powf(payments))
        / ((1.0 + rate_per_payment).powf(payments) - 1.0)
}

fn million_over_25_years() -> Options {
    let repayment = annuity(25, 12, 1e6, 0.065);
    assert!((repayment - 6_751.87).abs() < 0.5);
    let mut options = loan(100_000_000);
    options.interest_rate = 65_000;
    options.interest_cycle = Cycle::MonthlyEndOfMonth;
    options.repayment = (repayment * 100.0).round() as u64;
    options.repayment_cycle = Cycle::Fortnightly;
    options.schedule_end = Some(days_after_start(365 * 25));
    options
}

#[test]
fn fortnightly_repayments_of_the_monthly_amount_retire_the_loan_early() {
    let options = million_over_25_years();
    assert_eq!(options.repayment, 675_207);
    let schedule = run(&options);
    let last = schedule[schedule.len() - 1];
    assert_eq!(last.principal, 0);
    assert!(last.date.is_before(&days_after_start(365 * 25)));
    assert_eq!(schedule.len(), 2_591);
    assert_eq!(last, ScheduleEntry { repayment: 672_349, ..quiet(2_590, 0, 0) });
    assert_eq!(schedule.iter().map(|entry| entry.interest).sum::<u64>(), 24_910_437);
    assert_eq!(schedule.iter().map(|entry| entry.repayment).sum::<u64>(), 124_910_437);
    check_laws(&options, &schedule);
}

#[test]
fn a_cash_injection_with_a_larger_repayment_retires_the_loan_sooner() {
    let plain = million_over_25_years();
    let mut injected = million_over_25_years();
    injected.leftover_incoming = Some(days_after_start(400));
    injected.leftover_amount = Some(5_000_000);
    injected.leftover_repayment = Some(800_000);
    let slow = run(&plain);
    let fast = run(&injected);
    assert!(fast.len() < slow.len());
    assert_eq!(fast.len(), 2_073);
    assert_eq!(fast[399].principal, 87_717_151);
    assert_eq!(fast[400], ScheduleEntry { repayment: 5_000_000, ..quiet(400, 82_717_151, 0) });
    assert_eq!(fast[fast.len() - 1], ScheduleEntry { repayment: 479_668, ..quiet(2_072, 0, 0) });
    check_laws(&injected, &fast);
}

#[test]
fn principal_is_never_negative_and_dates_increase() {
    let options = million_over_25_years();
    let schedule = run(&options);
    for pair in schedule.windows(2) {
        assert!(pair[0].date < pair[1].date);
        assert!(pair[0].date.is_before(&pair[1].date));
        assert!(pair[1].principal <= pair[0].principal + pair[1].interest);
    }
}

#[test]
fn simulating_twice_gives_the_same_schedule() {
    let options = million_over_25_years();
    assert_eq!(simulate(&options), simulate(&options));
    let stash = loan_with_a_stash(true);
    assert_eq!(simulate(&stash), simulate(&stash));
    let failing = loan(1_000);
    assert_eq!(simulate(&failing), simulate(&failing));
}

#[test]
fn a_cash_injection_before_the_start_is_rejected() {
    let mut options = loan(1_000);
    options.repayment = 100;
    options.leftover_incoming = Some(at(2023, 12, 31, 86_399));
    options.leftover_amount = Some(400);
    assert_eq!(options.validate(), Err(SimulationError::InvalidCycleDuration));
    assert_eq!(simulate(&options), Err(SimulationError::InvalidCycleDuration));
    options.leftover_incoming = Some(start());
    assert_eq!(options.validate(), Ok(()));
}

#[test]
fn a_negative_duration_of_the_windfalls_is_rejected() {
    let mut options = loan(1_000);
    options.repayment = 100;
    options.extra_win_duration = Some(-1);
    assert_eq!(options.validate(), Err(SimulationError::InvalidCycleDuration));
    assert_eq!(simulate(&options), Err(SimulationError::InvalidCycleDuration));
    options.extra_win_duration = Some(0);
    assert_eq!(options.validate(), Ok(()));
    assert!(simulate(&options).is_ok());
}

#[test]
fn a_loan_that_is_never_repaid_does_not_converge() {
    assert_eq!(simulate(&loan(1_000)), Err(SimulationError::NonConvergentSchedule));
    let mut growing = loan(1_000_000);
    growing.interest_rate = 100_000;
    growing.repayment = 10;
    assert_eq!(simulate(&growing), Err(SimulationError::NonConvergentSchedule));
}

#[test]
fn the_longest_schedule_has_as_many_days_as_the_limit() {
    let mut options = loan(1_000);
    options.repayment_cycle = Cycle::YEARLY;
    options.schedule_end = Some(days_after_start(i64::from(MAX_SCHEDULE_DAYS)));
    let schedule = run(&options);
    assert_eq!(schedule.len(), 36_601);
    assert_eq!(schedule[36_600].date, at(2124, 3, 17, 0));
    assert_eq!(schedule[36_600], ScheduleEntry { repayment: 1_000, ..quiet(36_600, 0, 0) });
    options.schedule_end = Some(days_after_start(i64::from(MAX_SCHEDULE_DAYS) + 1));
    assert_eq!(simulate(&options), Err(SimulationError::NonConvergentSchedule));
}

#[test]
fn a_schedule_that_leaves_the_calendar_overflows() {
    let mut options = loan(1_000);
    let late = at(262_142, 12, 30, 0);
    options.loan_start = late;
    options.schedule_start = late;
    options.prev_interest_date = at(262_142, 12, 1, 0);
    options.prev_repayment_date = at(262_142, 12, 1, 0);
    assert_eq!(simulate(&options), Err(SimulationError::CalendarOverflow));
    let mut far = loan(1_000);
    far.extra_win_duration = Some(i64::MAX);
    assert_eq!(simulate(&far), Err(SimulationError::CalendarOverflow));
    let mut series = loan(1_000);
    series.prev_interest_date = at(262_142, 12, 25, 0);
    assert_eq!(simulate(&series), Err(SimulationError::CalendarOverflow));
}

#[test]
fn a_balance_beyond_the_largest_amount_overflows() {
    let mut options = loan(u64::MAX);
    options.interest_rate = 1_000_000;
    assert_eq!(simulate(&options), Err(SimulationError::AmountOverflow));
    let mut stash = loan(0);
    stash.extra_win_amount = Some(u64::MAX);
    stash.extra_win_cycle = Some(Cycle::Fortnightly);
    stash.extra_win_duration = Some(28 * DAY);
    assert_eq!(simulate(&stash), Err(SimulationError::AmountOverflow));
    stash.extra_win_duration = Some(27 * DAY);
    let schedule = run(&stash);
    assert_eq!(schedule.len(), 28);
    assert_eq!(schedule[27].stash, u64::MAX);
}

#[test]
fn options_with_a_date_that_is_none_are_not_well_formed() {
    let mut options = loan(1_000);
    assert!(options.is_well_formed());
    options.schedule_end = Some(DateTime { year: 2024, month: 2, day: 30, second: 0 });
    assert!(!options.is_well_formed());
    options.schedule_end = None;
    options.loan_start = DateTime { year: 2024, month: 1, day: 1, second: 86_400 };
    assert!(!options.is_well_formed());
}
