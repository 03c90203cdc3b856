use chrono::{Datelike, Duration, Local, NaiveDate};
use marktask::dates::parse_date_arg;
use marktask::Date;

fn from_naive(d: NaiveDate) -> Date {
    Date { year: d.year(), month: d.month() as u8, day: d.day() as u8 }
}

#[test]
fn parse_absolute_date() {
    // Test with a valid absolute date
    let date_str = "2024-01-01";
    let expected_date = Date { year: 2024, month: 1, day: 1 };
    assert_eq!(parse_date_arg(Some(date_str)), Some(expected_date));
}

#[test]
fn parse_relative_date_weeks() {
    // Assuming today's date for testing purposes
    let today = Local::now().date_naive();
    let expected_date = today + Duration::weeks(1);

    // Test with a valid relative date of "+1w" (1 week from today)
    assert_eq!(parse_date_arg(Some("+1w")), Some(from_naive(expected_date)));
}

#[test]
fn parse_relative_date_days() {
    // Assuming today's date for testing purposes
    let today = Local::now().date_naive();
    let expected_date = today - Duration::days(2);

    // Test with a valid relative date of "-2d" (2 days before today)
    assert_eq!(parse_date_arg(Some("-2d")), Some(from_naive(expected_date)));
}

#[test]
fn parse_invalid_date() {
    // Test with an invalid date string
    assert_eq!(parse_date_arg(Some("invalid-date")), None);

    // Test with an invalid relative date format
    assert_eq!(parse_date_arg(Some("+1x")), None); // "x" is not a recognized duration unit
}

#[test]
fn parse_none() {
    // Test with None as input
    assert_eq!(parse_date_arg(None), None);
}

#[test]
fn parse_calendar_invalid_absolute_dates() {
    // Shapes match YYYY-MM-DD but the dates are not real calendar days
    assert_eq!(parse_date_arg(Some("2024-02-30")), None);
    assert_eq!(parse_date_arg(Some("2024-13-01")), None);
    assert_eq!(parse_date_arg(Some("2023-02-29")), None);
    // A leap day of a leap year is a real calendar day
    assert_eq!(parse_date_arg(Some("2024-02-29")), Some(Date { year: 2024, month: 2, day: 29 }));
}

#[test]
fn parse_relative_date_months_and_years() {
    // A month is the deliberate 30-day approximation, a year 365 days
    let today = Local::now().date_naive();
    assert_eq!(parse_date_arg(Some("+1m")), Some(from_naive(today + Duration::days(30))));
    assert_eq!(parse_date_arg(Some("+1y")), Some(from_naive(today + Duration::days(365))));
    assert_eq!(parse_date_arg(Some("-2w")), Some(from_naive(today - Duration::days(14))));
    assert_eq!(parse_date_arg(Some("+0d")), Some(from_naive(today)));
}

#[test]
fn format_date_renders_and_round_trips() {
    let d = Date { year: 2025, month: 7, day: 4 };
    let rendered = marktask::dates::format_date(&d);
    assert_eq!(rendered, "2025-07-04");
    assert_eq!(parse_date_arg(Some(&rendered)), Some(d));
    assert_eq!(
        marktask::dates::format_date(&Date { year: 33, month: 12, day: 31 }),
        "0033-12-31"
    );
}

#[test]
fn parse_date_arg_as_of_fixed_today() {
    // With an injected "today" the resolver is deterministic
    let today = Date { year: 2025, month: 3, day: 1 };
    assert_eq!(
        marktask::dates::parse_date_arg_as_of(Some("+3d"), &today),
        Some(Date { year: 2025, month: 3, day: 4 })
    );
    assert_eq!(
        marktask::dates::parse_date_arg_as_of(Some("-1d"), &today),
        Some(Date { year: 2025, month: 2, day: 28 })
    );
    assert_eq!(
        marktask::dates::parse_date_arg_as_of(Some("2024-12-31"), &today),
        Some(Date { year: 2024, month: 12, day: 31 })
    );
    assert_eq!(marktask::dates::parse_date_arg_as_of(None, &today), None);
}
