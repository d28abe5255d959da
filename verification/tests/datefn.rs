use schist::datefn::{DatePart, extract_date, extract_timestamp, day_of_year, date_trunc, date_add, date_diff_days, date_diff_months, last_day_of_month, is_weekend};
use schist::temporal::{Date, Timestamp};

#[test]
fn extract_fields() {
    let d = Date::from_ymd(2024, 7, 5);
    assert_eq!(extract_date(d, DatePart::Year), 2024);
    assert_eq!(extract_date(d, DatePart::Month), 7);
    assert_eq!(extract_date(d, DatePart::Quarter), 3);
    assert_eq!(extract_date(d, DatePart::Day), 5);
}

#[test]
fn extract_time_from_timestamp() {
    let ts = Timestamp::parse("2024-07-05 13:45:30").unwrap();
    assert_eq!(extract_timestamp(ts, DatePart::Hour), 13);
    assert_eq!(extract_timestamp(ts, DatePart::Minute), 45);
    assert_eq!(extract_timestamp(ts, DatePart::Year), 2024);
}

#[test]
fn day_of_year_computed() {
    assert_eq!(day_of_year(Date::from_ymd(2024, 1, 1)), 1);
    assert_eq!(day_of_year(Date::from_ymd(2024, 12, 31)), 366); // leap year
    assert_eq!(day_of_year(Date::from_ymd(2023, 12, 31)), 365);
}

#[test]
fn truncation() {
    let d = Date::from_ymd(2024, 7, 15);
    assert_eq!(date_trunc(d, "month"), Date::from_ymd(2024, 7, 1));
    assert_eq!(date_trunc(d, "quarter"), Date::from_ymd(2024, 7, 1));
    assert_eq!(date_trunc(d, "year"), Date::from_ymd(2024, 1, 1));
}

#[test]
fn arithmetic() {
    let d = Date::from_ymd(2024, 1, 31);
    assert_eq!(date_add(d, 1, "month"), Date::from_ymd(2024, 2, 29));
    assert_eq!(date_add(d, 1, "day"), Date::from_ymd(2024, 2, 1));
    assert_eq!(date_diff_days(Date::from_ymd(2024, 1, 1), Date::from_ymd(2024, 1, 31)), 30);
    assert_eq!(date_diff_months(Date::from_ymd(2024, 1, 15), Date::from_ymd(2024, 4, 10)), 2);
}

#[test]
fn last_day_and_weekend() {
    assert_eq!(last_day_of_month(Date::from_ymd(2024, 2, 1)), Date::from_ymd(2024, 2, 29));
    assert_eq!(last_day_of_month(Date::from_ymd(2023, 2, 15)), Date::from_ymd(2023, 2, 28));
    // 2024-07-06 is a Saturday.
    assert!(is_weekend(Date::from_ymd(2024, 7, 6)));
    assert!(!is_weekend(Date::from_ymd(2024, 7, 5)));
}

#[test]
fn part_parsing() {
    assert_eq!(DatePart::parse("YEAR"), Some(DatePart::Year));
    assert_eq!(DatePart::parse("dow"), Some(DatePart::Weekday));
    assert_eq!(DatePart::parse("nonsense"), None);
}

#[test]
fn months_back_are_truncated_too() {
    assert_eq!(date_diff_months(Date::from_ymd(2024, 3, 20), Date::from_ymd(2024, 2, 15)), -1);
    assert_eq!(date_diff_months(Date::from_ymd(2024, 3, 15), Date::from_ymd(2024, 2, 20)), 0);
    assert_eq!(date_diff_months(Date::from_ymd(2024, 2, 15), Date::from_ymd(2024, 3, 20)), 1);
    assert_eq!(date_diff_months(Date::from_ymd(2024, 3, 15), Date::from_ymd(2023, 3, 15)), -12);
}
