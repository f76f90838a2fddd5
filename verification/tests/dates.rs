use loan_simulator::datetime::DateTime;

fn at(year: i32, month: u32, day: u32, second: u32) -> DateTime {
    DateTime::new(year, month, day, second).expect("a date of the calendar")
}

#[test]
fn new_accepts_the_days_of_the_calendar() {
    assert_eq!(
        DateTime::new(2024, 2, 29, 0),
        Some(DateTime { year: 2024, month: 2, day: 29, second: 0 })
    );
    assert_eq!(
        DateTime::new(2000, 2, 29, 86_399),
        Some(DateTime { year: 2000, month: 2, day: 29, second: 86_399 })
    );
    assert!(DateTime::new(-4, 2, 29, 0).is_some());
    assert!(DateTime::new(0, 2, 29, 0).is_some());
    assert!(DateTime::new(262_142, 12, 31, 86_399).is_some());
    assert!(DateTime::new(-262_143, 1, 1, 0).is_some());
}

#[test]
fn new_rejects_what_is_no_day_of_the_calendar() {
    assert_eq!(DateTime::new(2023, 2, 29, 0), None);
    assert_eq!(DateTime::new(1900, 2, 29, 0), None);
    assert_eq!(DateTime::new(2024, 4, 31, 0), None);
    assert_eq!(DateTime::new(2024, 0, 1, 0), None);
    assert_eq!(DateTime::new(2024, 13, 1, 0), None);
    assert_eq!(DateTime::new(2024, 1, 0, 0), None);
    assert_eq!(DateTime::new(2024, 1, 32, 0), None);
    assert_eq!(DateTime::new(2024, 1, 1, 86_400), None);
    assert_eq!(DateTime::new(262_143, 1, 1, 0), None);
    assert_eq!(DateTime::new(-262_144, 12, 31, 0), None);
}

#[test]
fn is_before_orders_by_year_month_day_and_second() {
    let a = at(2024, 3, 15, 100);
    assert!(a.is_before(&at(2024, 3, 15, 101)));
    assert!(a.is_before(&at(2024, 3, 16, 0)));
    assert!(a.is_before(&at(2024, 4, 1, 0)));
    assert!(a.is_before(&at(2025, 1, 1, 0)));
    assert!(!a.is_before(&a));
    assert!(!a.is_before(&at(2024, 3, 15, 99)));
    assert!(!a.is_before(&at(2023, 12, 31, 86_399)));
    assert!(a.is_on_or_after(&a));
    assert!(a.is_on_or_after(&at(2024, 3, 14, 86_399)));
    assert!(!a.is_on_or_after(&at(2024, 3, 15, 101)));
}

#[test]
fn checked_add_seconds_moves_across_days_months_and_years() {
    assert_eq!(at(2024, 2, 28, 0).checked_add_seconds(86_400), Some(at(2024, 2, 29, 0)));
    assert_eq!(at(2023, 2, 28, 0).checked_add_seconds(86_400), Some(at(2023, 3, 1, 0)));
    assert_eq!(at(2023, 12, 31, 86_399).checked_add_seconds(1), Some(at(2024, 1, 1, 0)));
    assert_eq!(at(2024, 1, 1, 0).checked_add_seconds(-1), Some(at(2023, 12, 31, 86_399)));
    assert_eq!(at(2024, 1, 1, 3_600).checked_add_seconds(0), Some(at(2024, 1, 1, 3_600)));
    assert_eq!(
        at(2024, 1, 1, 0).checked_add_seconds(366 * 86_400),
        Some(at(2025, 1, 1, 0))
    );
    assert_eq!(at(1, 1, 1, 0).checked_add_seconds(-86_400), Some(at(0, 12, 31, 0)));
}

#[test]
fn checked_add_seconds_stops_at_the_ends_of_the_calendar() {
    let last = at(262_142, 12, 31, 86_399);
    assert_eq!(last.checked_add_seconds(1), None);
    assert_eq!(last.checked_add_seconds(0), Some(last));
    assert_eq!(last.checked_add_seconds(-1), Some(at(262_142, 12, 31, 86_398)));
    let first = at(-262_143, 1, 1, 0);
    assert_eq!(first.checked_add_seconds(-1), None);
    assert_eq!(first.checked_add_seconds(1), Some(at(-262_143, 1, 1, 1)));
    assert_eq!(at(2024, 1, 1, 0).checked_add_seconds(i64::MAX), None);
    assert_eq!(at(2024, 1, 1, 0).checked_add_seconds(i64::MIN), None);
}

#[test]
fn seconds_since_counts_the_seconds_between() {
    assert_eq!(at(2024, 1, 2, 0).seconds_since(&at(2024, 1, 1, 0)), 86_400);
    assert_eq!(at(2024, 1, 1, 0).seconds_since(&at(2024, 1, 2, 0)), -86_400);
    assert_eq!(at(2024, 3, 1, 10).seconds_since(&at(2024, 2, 1, 0)), 29 * 86_400 + 10);
    assert_eq!(at(2025, 1, 1, 0).seconds_since(&at(2024, 1, 1, 0)), 366 * 86_400);
    assert_eq!(at(2024, 1, 1, 5).seconds_since(&at(2024, 1, 1, 5)), 0);
    // 1 January of year 1 is day 1 and 1 January 1970 is day 719,163.
    assert_eq!(at(1970, 1, 1, 0).seconds_since(&at(1, 1, 1, 0)), 719_162 * 86_400);
}

#[test]
fn first_of_month_keeps_the_second() {
    assert_eq!(at(2024, 2, 29, 77).first_of_month(), at(2024, 2, 1, 77));
    assert_eq!(at(2024, 2, 1, 77).first_of_month(), at(2024, 2, 1, 77));
}
