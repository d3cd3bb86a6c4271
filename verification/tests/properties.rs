use next_matching_day::find_next_annual_date;
use next_matching_day::find_next_day_of_month;
use next_matching_day::find_next_weekday;
use next_matching_day::CalendarDate;
use next_matching_day::Weekday;

fn ymd(year: i32, month: u32, day: u32) -> CalendarDate {
    CalendarDate::new(year, month, day).unwrap()
}

fn all_weekdays() -> [Weekday; 7] {
    [
        Weekday::Mon,
        Weekday::Tue,
        Weekday::Wed,
        Weekday::Thu,
        Weekday::Fri,
        Weekday::Sat,
        Weekday::Sun,
    ]
}

#[test]
fn test_next_weekday_within_seven_days() {
    // from any start, the result is strictly later, at most 7 days ahead,
    // and falls on the requested weekday
    let starts = [
        ymd(2023, 10, 15),
        ymd(2023, 12, 31),
        ymd(2024, 2, 28),
        ymd(1999, 12, 27),
    ];
    for start in starts.iter() {
        for target in all_weekdays().iter() {
            let result = find_next_weekday(start, target).unwrap();
            let distance = result.day_number() - start.day_number();
            assert!(1 <= distance && distance <= 7);
            assert_eq!(result.weekday(), *target);
            assert!(start.is_before(&result));
        }
    }
}

#[test]
fn test_same_weekday_lands_a_week_later() {
    let starts = [ymd(2023, 10, 16), ymd(2024, 2, 29), ymd(2023, 1, 1)];
    for start in starts.iter() {
        let today = start.weekday();
        let result = find_next_weekday(start, &today).unwrap();
        assert_eq!(result.day_number(), start.day_number() + 7);
        assert_eq!(result.weekday(), today);
    }
}

#[test]
fn test_next_weekday_none_only_at_calendar_end() {
    // at the very last representable date every search would step beyond it
    let last = ymd(999_999, 12, 31);
    assert!(find_next_weekday(&last, &Weekday::Mon).is_none());
}

#[test]
fn test_day_of_month_rejects_out_of_range_days() {
    let date = ymd(2023, 10, 15);
    assert!(find_next_day_of_month(&date, 0).is_none());
    assert!(find_next_day_of_month(&date, 32).is_none());
    assert!(find_next_day_of_month(&date, 100).is_none());
}

#[test]
fn test_day_of_month_skips_short_months() {
    // searching for day 30 from late January lands in March, never February
    let result = find_next_day_of_month(&ymd(2023, 1, 30), 30).unwrap();
    assert_eq!(result, ymd(2023, 3, 30));

    // searching for day 29 from a non-leap February lands in March
    let result = find_next_day_of_month(&ymd(2023, 2, 10), 29).unwrap();
    assert_eq!(result, ymd(2023, 3, 29));

    // the result's month is always long enough for the requested day
    for day in 1..=31u32 {
        let result = find_next_day_of_month(&ymd(2023, 1, 31), day).unwrap();
        assert_eq!(result.day(), day);
        assert!(ymd(2023, 1, 31).is_before(&result));
    }
}

#[test]
fn test_day_of_month_none_at_calendar_end() {
    // within the last representable year the 12-month window can run out
    let last = ymd(999_999, 12, 31);
    assert!(find_next_day_of_month(&last, 31).is_none());
    // but a target still inside the final month is found
    let late = ymd(999_999, 12, 15);
    assert_eq!(
        find_next_day_of_month(&late, 31).unwrap(),
        ymd(999_999, 12, 31)
    );
}

#[test]
fn test_annual_date_rejects_impossible_pairs() {
    let date = ymd(2023, 5, 15);
    assert!(find_next_annual_date(&date, 13, 1).is_none());
    assert!(find_next_annual_date(&date, 0, 1).is_none());
    assert!(find_next_annual_date(&date, 2, 30).is_none());
    assert!(find_next_annual_date(&date, 4, 31).is_none());
    assert!(find_next_annual_date(&date, 1, 0).is_none());
}

#[test]
fn test_annual_date_is_minimal() {
    // the result is the first matching date strictly after the start
    let result = find_next_annual_date(&ymd(2023, 8, 1), 7, 1).unwrap();
    assert_eq!(result, ymd(2024, 7, 1));

    let result = find_next_annual_date(&ymd(2023, 8, 1), 8, 1).unwrap();
    assert_eq!(result, ymd(2024, 8, 1));

    let result = find_next_annual_date(&ymd(2023, 8, 1), 8, 2).unwrap();
    assert_eq!(result, ymd(2023, 8, 2));
}

#[test]
fn test_annual_feb29_lands_on_leap_years() {
    // across the 100-year rule: from 2097 the next Feb 29 is in 2104
    let result = find_next_annual_date(&ymd(2097, 3, 1), 2, 29).unwrap();
    assert_eq!(result, ymd(2104, 2, 29));
    // 2000 obeys the 400-year rule
    let result = find_next_annual_date(&ymd(1999, 3, 1), 2, 29).unwrap();
    assert_eq!(result, ymd(2000, 2, 29));
}

#[test]
fn test_annual_date_none_at_calendar_end() {
    let late = ymd(999_999, 6, 15);
    assert!(find_next_annual_date(&late, 1, 1).is_none());
    assert_eq!(
        find_next_annual_date(&late, 7, 1).unwrap(),
        ymd(999_999, 7, 1)
    );
}
