use fixture_next::date::{days_in_month, is_leap_year};
use fixture_next::Date;

fn ymd(year: i32, month: u8, day: u8) -> Date {
    Date { year, month, day }
}

#[test]
fn leap_years_follow_the_gregorian_rule() {
    assert!(is_leap_year(2024));
    assert!(!is_leap_year(2023));
    assert!(!is_leap_year(1900));
    assert!(is_leap_year(2000));
    assert!(is_leap_year(-4));
    assert!(!is_leap_year(-100));
}

#[test]
fn month_lengths() {
    assert_eq!(days_in_month(2026, 1), 31);
    assert_eq!(days_in_month(2026, 4), 30);
    assert_eq!(days_in_month(2026, 2), 28);
    assert_eq!(days_in_month(2028, 2), 29);
    assert_eq!(days_in_month(2026, 12), 31);
    assert_eq!(days_in_month(2026, 0), 0);
    assert_eq!(days_in_month(2026, 13), 0);
}

#[test]
fn new_accepts_real_dates() {
    assert_eq!(Date::new(2028, 2, 29), Ok(ymd(2028, 2, 29)));
    assert_eq!(Date::new(2026, 12, 31), Ok(ymd(2026, 12, 31)));
}

#[test]
fn new_reports_a_bad_month() {
    assert_eq!(Date::new(2026, 13, 1), Err("month 13 is out of range".to_string()));
    assert_eq!(Date::new(2026, 0, 1), Err("month 0 is out of range".to_string()));
}

#[test]
fn new_reports_a_bad_day() {
    assert_eq!(Date::new(2026, 2, 29), Err("day 29 is out of range for 2026-02".to_string()));
    assert_eq!(Date::new(2026, 4, 0), Err("day 0 is out of range for 2026-04".to_string()));
    assert_eq!(Date::new(-5, 4, 31), Err("day 31 is out of range for -005-04".to_string()));
    assert_eq!(Date::new(7, 9, 31), Err("day 31 is out of range for 0007-09".to_string()));
}

#[test]
fn parse_reads_year_month_day() {
    assert_eq!(Date::parse("2026-09-12"), Ok(ymd(2026, 9, 12)));
    assert_eq!(Date::parse("2026-9-5"), Ok(ymd(2026, 9, 5)));
    assert_eq!(Date::parse("+2026-+09-012"), Ok(ymd(2026, 9, 12)));
}

#[test]
fn parse_reports_each_kind_of_error() {
    assert_eq!(
        Date::parse("2026-09"),
        Err("expected YYYY-MM-DD, got '2026-09'".to_string())
    );
    assert_eq!(
        Date::parse("2026-09-12-01"),
        Err("expected YYYY-MM-DD, got '2026-09-12-01'".to_string())
    );
    assert_eq!(Date::parse("20x6-09-12"), Err("bad year in '20x6-09-12'".to_string()));
    assert_eq!(Date::parse("-09-12"), Err("bad year in '-09-12'".to_string()));
    assert_eq!(Date::parse("2026--12"), Err("bad month in '2026--12'".to_string()));
    assert_eq!(Date::parse("2026-256-12"), Err("bad month in '2026-256-12'".to_string()));
    assert_eq!(Date::parse("2026-09- 1"), Err("bad day in '2026-09- 1'".to_string()));
    assert_eq!(
        Date::parse("99999999999-01-01"),
        Err("bad year in '99999999999-01-01'".to_string())
    );
    assert_eq!(
        Date::parse("2026-04-31"),
        Err("day 31 is out of range for 2026-04".to_string())
    );
}

#[test]
fn to_string_pads_year_month_and_day() {
    assert_eq!(ymd(2026, 9, 12).to_string(), "2026-09-12");
    assert_eq!(ymd(5, 3, 7).to_string(), "0005-03-07");
    assert_eq!(ymd(-5, 3, 7).to_string(), "-005-03-07");
    assert_eq!(ymd(12345, 1, 1).to_string(), "12345-01-01");
}

#[test]
fn text_reads_back_as_the_same_date() {
    for date in [ymd(2026, 9, 12), ymd(5, 3, 7), ymd(2028, 2, 29), ymd(0, 1, 1)] {
        assert_eq!(Date::parse(&date.to_string()), Ok(date));
    }
}

#[test]
fn from_epoch_day_counts_from_1970() {
    assert_eq!(Date::from_epoch_day(0), ymd(1970, 1, 1));
    assert_eq!(Date::from_epoch_day(-1), ymd(1969, 12, 31));
    assert_eq!(Date::from_epoch_day(11016), ymd(2000, 2, 29));
    assert_eq!(Date::from_epoch_day(19000), ymd(2022, 1, 8));
    assert_eq!(Date::from_epoch_day(20708), ymd(2026, 9, 12));
    assert_eq!(Date::from_epoch_day(-719162), ymd(1, 1, 1));
    assert_eq!(Date::from_epoch_day(-719468), ymd(0, 3, 1));
    assert_eq!(Date::from_epoch_day(2932896), ymd(9999, 12, 31));
}

#[test]
fn from_unix_seconds_takes_the_utc_day() {
    assert_eq!(Date::from_unix_seconds(0), ymd(1970, 1, 1));
    assert_eq!(Date::from_unix_seconds(86_399), ymd(1970, 1, 1));
    assert_eq!(Date::from_unix_seconds(86_400), ymd(1970, 1, 2));
    assert_eq!(Date::from_unix_seconds(1_789_174_800), ymd(2026, 9, 12));
    assert_eq!(Date::from_unix_seconds(951_782_400), ymd(2000, 2, 29));
}

#[test]
fn today_is_a_real_date_after_1970() {
    let today = Date::today();
    assert!(today.year >= 2024);
    assert!((1..=12).contains(&today.month));
    assert!(today.day >= 1 && today.day <= days_in_month(today.year, today.month));
}

#[test]
fn dates_order_by_calendar() {
    assert!(ymd(2026, 9, 12) < ymd(2026, 9, 13));
    assert!(ymd(2026, 9, 30) < ymd(2026, 10, 1));
    assert!(ymd(2025, 12, 31) < ymd(2026, 1, 1));
}
