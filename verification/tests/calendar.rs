use next_matching_day::days_in_month;
use next_matching_day::is_leap_year;
use next_matching_day::CalendarDate;
use next_matching_day::Weekday;

fn ymd(year: i32, month: u32, day: u32) -> CalendarDate {
    CalendarDate::new(year, month, day).unwrap()
}

#[test]
fn test_new_accepts_valid_dates() {
    let d = ymd(2023, 10, 15);
    assert_eq!(d.year(), 2023);
    assert_eq!(d.month(), 10);
    assert_eq!(d.day(), 15);

    // Leap day in a leap year, including the 400-year rule
    assert!(CalendarDate::new(2024, 2, 29).is_some());
    assert!(CalendarDate::new(2000, 2, 29).is_some());
    assert!(CalendarDate::new(-4, 2, 29).is_some());
}

#[test]
fn test_new_rejects_invalid_dates() {
    assert!(CalendarDate::new(2023, 2, 29).is_none()); // non-leap year
    assert!(CalendarDate::new(1900, 2, 29).is_none()); // 100-year rule
    assert!(CalendarDate::new(2023, 2, 30).is_none());
    assert!(CalendarDate::new(2023, 4, 31).is_none());
    assert!(CalendarDate::new(2023, 0, 10).is_none());
    assert!(CalendarDate::new(2023, 13, 10).is_none());
    assert!(CalendarDate::new(2023, 6, 0).is_none());
    assert!(CalendarDate::new(2023, 6, 32).is_none());
    assert!(CalendarDate::new(1_000_000, 1, 1).is_none()); // beyond the year range
    assert!(CalendarDate::new(-1_000_000, 1, 1).is_none());
}

#[test]
fn test_is_leap_year() {
    assert!(is_leap_year(2024));
    assert!(is_leap_year(2000));
    assert!(is_leap_year(-4));
    assert!(!is_leap_year(2023));
    assert!(!is_leap_year(1900));
    assert!(!is_leap_year(2100));
}

#[test]
fn test_days_in_month() {
    assert_eq!(days_in_month(2023, 1), 31);
    assert_eq!(days_in_month(2023, 2), 28);
    assert_eq!(days_in_month(2024, 2), 29);
    assert_eq!(days_in_month(2023, 4), 30);
    assert_eq!(days_in_month(2023, 9), 30);
    assert_eq!(days_in_month(2023, 12), 31);
}

#[test]
fn test_weekday_known_dates() {
    assert_eq!(ymd(2023, 10, 15).weekday(), Weekday::Sun);
    assert_eq!(ymd(2023, 10, 16).weekday(), Weekday::Mon);
    assert_eq!(ymd(1970, 1, 1).weekday(), Weekday::Thu);
    assert_eq!(ymd(2000, 2, 29).weekday(), Weekday::Tue);
    assert_eq!(ymd(1600, 1, 1).weekday(), Weekday::Sat);
}

#[test]
fn test_succ_rolls_over_boundaries() {
    assert_eq!(ymd(2023, 10, 15).succ().unwrap(), ymd(2023, 10, 16));
    assert_eq!(ymd(2023, 12, 31).succ().unwrap(), ymd(2024, 1, 1));
    assert_eq!(ymd(2024, 2, 28).succ().unwrap(), ymd(2024, 2, 29));
    assert_eq!(ymd(2024, 2, 29).succ().unwrap(), ymd(2024, 3, 1));
    assert_eq!(ymd(2023, 2, 28).succ().unwrap(), ymd(2023, 3, 1));
    assert!(ymd(999_999, 12, 31).succ().is_none());
}

#[test]
fn test_day_number_counts_single_days() {
    // consecutive dates have consecutive day numbers, across month and year ends
    assert_eq!(
        ymd(2023, 2, 28).day_number() + 1,
        ymd(2023, 3, 1).day_number()
    );
    assert_eq!(
        ymd(2023, 12, 31).day_number() + 1,
        ymd(2024, 1, 1).day_number()
    );
    // a leap year is one day longer than a common year
    assert_eq!(
        ymd(2023, 1, 1).day_number() + 365,
        ymd(2024, 1, 1).day_number()
    );
    assert_eq!(
        ymd(2024, 1, 1).day_number() + 366,
        ymd(2025, 1, 1).day_number()
    );
}

#[test]
fn test_is_before() {
    assert!(ymd(2023, 10, 15).is_before(&ymd(2023, 10, 16)));
    assert!(ymd(2023, 10, 15).is_before(&ymd(2023, 11, 1)));
    assert!(ymd(2023, 12, 31).is_before(&ymd(2024, 1, 1)));
    assert!(!ymd(2023, 10, 15).is_before(&ymd(2023, 10, 15)));
    assert!(!ymd(2024, 1, 1).is_before(&ymd(2023, 12, 31)));
}

#[test]
fn test_with_day() {
    assert_eq!(ymd(2023, 10, 15).with_day(20).unwrap(), ymd(2023, 10, 20));
    assert!(ymd(2023, 2, 15).with_day(30).is_none());
    assert!(ymd(2023, 10, 15).with_day(0).is_none());
}
