use taskim::date::{
    date_index, days_in_month, leap_year, next_day, prev_day, try_add_days, try_sub_days, weekday,
    Date,
};

fn d(year: i32, month: u32, day: u32) -> Date {
    Date { year, month, day }
}

#[test]
fn leap_year_rules() {
    assert!(leap_year(2024));
    assert!(!leap_year(2023));
    assert!(!leap_year(1900));
    assert!(leap_year(2000));
    assert!(leap_year(0));
}

#[test]
fn month_lengths() {
    assert_eq!(days_in_month(2024, 2), 29);
    assert_eq!(days_in_month(2023, 2), 28);
    assert_eq!(days_in_month(2024, 1), 31);
    assert_eq!(days_in_month(2024, 4), 30);
    assert_eq!(days_in_month(2024, 12), 31);
}

#[test]
fn date_new_validates() {
    assert_eq!(Date::new(2024, 2, 29), Some(d(2024, 2, 29)));
    assert_eq!(Date::new(2023, 2, 29), None);
    assert_eq!(Date::new(2024, 4, 31), None);
    assert_eq!(Date::new(2024, 13, 1), None);
    assert_eq!(Date::new(2024, 0, 1), None);
    assert_eq!(Date::new(2024, 6, 0), None);
    assert_eq!(Date::new(10001, 1, 1), None);
}

#[test]
fn next_and_prev_day_cross_boundaries() {
    assert_eq!(next_day(&d(2024, 1, 31)), d(2024, 2, 1));
    assert_eq!(next_day(&d(2024, 2, 28)), d(2024, 2, 29));
    assert_eq!(next_day(&d(2023, 2, 28)), d(2023, 3, 1));
    assert_eq!(next_day(&d(2023, 12, 31)), d(2024, 1, 1));
    assert_eq!(prev_day(&d(2024, 3, 1)), d(2024, 2, 29));
    assert_eq!(prev_day(&d(2024, 1, 1)), d(2023, 12, 31));
}

#[test]
fn add_and_sub_days() {
    assert_eq!(try_add_days(&d(2024, 2, 23), 7), Some(d(2024, 3, 1)));
    assert_eq!(try_sub_days(&d(2024, 3, 1), 7), Some(d(2024, 2, 23)));
    assert_eq!(try_add_days(&d(10000, 12, 31), 1), None);
    assert_eq!(try_sub_days(&d(0, 1, 1), 1), None);
    assert_eq!(try_add_days(&d(2023, 12, 25), 7), Some(d(2024, 1, 1)));
}

#[test]
fn weekdays_match_civil_calendar() {
    // 2024-01-01 was a Monday, 2024-02-25 a Sunday, 2024-03-31 a Sunday.
    assert_eq!(weekday(&d(2024, 1, 1)), 1);
    assert_eq!(weekday(&d(2024, 2, 25)), 0);
    assert_eq!(weekday(&d(2024, 3, 31)), 0);
    assert_eq!(weekday(&d(2000, 1, 1)), 6); // a Saturday
}

#[test]
fn day_counts_are_consecutive() {
    let a = date_index(&d(2024, 2, 28));
    let b = date_index(&d(2024, 2, 29));
    let c = date_index(&d(2024, 3, 1));
    assert_eq!(b, a + 1);
    assert_eq!(c, b + 1);
}
