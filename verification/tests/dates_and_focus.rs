//! The calendar helpers, the clock, and the daily-focus sibling table.

use zap_lib::clock::current_unix_time;
use zap_lib::daily_focus::get_daily_focus_impl;
use zap_lib::daily_focus::toggle_daily_focus_impl;
use zap_lib::daily_focus::upsert_daily_focus_impl;
use zap_lib::daily_focus::UpsertDailyFocusRequest;
use zap_lib::date::date_to_day_number;
use zap_lib::date::day_number_to_date;
use zap_lib::date::format_date;
use zap_lib::date::format_datetime;
use zap_lib::date::format_day_number;
use zap_lib::date::format_time12;
use zap_lib::date::leap_year;
use zap_lib::date::month_length_of;
use zap_lib::date::parse_date;
use zap_lib::date::parse_month;
use zap_lib::date::weekday_of_day;
use zap_lib::date::Date;
use zap_lib::date::MAX_DAY_NUMBER;
use zap_lib::date::MAX_TIMESTAMP;
use zap_lib::error::ZapError;
use zap_lib::store::Store;

#[test]
fn calendar_rules() {
    assert!(leap_year(2024));
    assert!(!leap_year(2023));
    assert!(!leap_year(1900));
    assert!(leap_year(2000));
    assert_eq!(month_length_of(2024, 2), 29);
    assert_eq!(month_length_of(2023, 2), 28);
    assert_eq!(month_length_of(2024, 4), 30);
    assert_eq!(month_length_of(2024, 12), 31);
}

#[test]
fn day_numbers_round_trip() {
    assert_eq!(date_to_day_number(Date { year: 1970, month: 1, day: 1 }), 0);
    assert_eq!(date_to_day_number(Date { year: 1970, month: 1, day: 2 }), 1);
    assert_eq!(date_to_day_number(Date { year: 2024, month: 1, day: 15 }), 19_737);
    let d = day_number_to_date(19_737);
    assert_eq!(d, Date { year: 2024, month: 1, day: 15 });
    let top = day_number_to_date(MAX_DAY_NUMBER);
    assert_eq!(top, Date { year: 9999, month: 12, day: 31 });
    assert_eq!(date_to_day_number(top), MAX_DAY_NUMBER);
}

#[test]
fn weekdays_count_from_sunday() {
    // 1970-01-01 was a Thursday; 2024-01-15 a Monday.
    assert_eq!(weekday_of_day(0), 4);
    assert_eq!(weekday_of_day(19_737), 1);
    assert_eq!(weekday_of_day(19_736), 0);
}

#[test]
fn date_texts_format_and_parse() {
    assert_eq!(format_date(Date { year: 2024, month: 2, day: 9 }), "2024-02-09");
    assert_eq!(format_day_number(19_737), "2024-01-15");
    assert_eq!(parse_date("2024-02-29"), Some(Date { year: 2024, month: 2, day: 29 }));
    assert_eq!(parse_date("2023-02-29"), None);
    assert_eq!(parse_date("2024-13-01"), None);
    assert_eq!(parse_date("1969-12-31"), None);
    assert_eq!(parse_date("2024/01/15"), None);
    assert_eq!(parse_date("2024-1-15"), None);
    assert_eq!(parse_month("2024-02"), Some(Date { year: 2024, month: 2, day: 1 }));
    assert_eq!(parse_month("2024-00"), None);
    assert_eq!(parse_month("2024-2"), None);
}

#[test]
fn clock_texts_format() {
    let base = 19_737i64 * 86_400;
    assert_eq!(format_datetime(base + 30), "2024-01-15 00:00:30");
    assert_eq!(format_datetime(base + 15 * 3600 + 45 * 60 + 7), "2024-01-15 15:45:07");
    assert_eq!(format_time12(base + 15 * 3600 + 45 * 60), "3:45 pm");
    assert_eq!(format_time12(base + 5 * 60), "12:05 am");
    assert_eq!(format_time12(base + 12 * 3600), "12:00 pm");
    assert_eq!(format_time12(base + 9 * 3600 + 5 * 60), "9:05 am");
}

#[test]
fn the_clock_reads_the_real_time() {
    let ours = current_unix_time();
    assert!(0 <= ours && ours <= MAX_TIMESTAMP);
    let theirs = chrono::Utc::now().timestamp();
    assert!((ours - theirs).abs() <= 2);
}

#[test]
fn daily_focus_upserts_by_date() {
    let mut s = Store::new();
    let req = UpsertDailyFocusRequest {
        date: "2024-01-15".to_string(),
        content: "Write the report".to_string(),
    };
    let created = upsert_daily_focus_impl(&mut s, &req, 1_000);
    assert_eq!(created.id, 1);
    assert_eq!(created.content, "Write the report");
    assert!(!created.is_done);
    assert_eq!(created.created_at, 1_000);

    let update = UpsertDailyFocusRequest {
        date: "2024-01-15".to_string(),
        content: "Ship the report".to_string(),
    };
    let updated = upsert_daily_focus_impl(&mut s, &update, 2_000);
    assert_eq!(updated.id, 1);
    assert_eq!(updated.content, "Ship the report");
    assert_eq!(updated.created_at, 1_000);
    assert_eq!(updated.updated_at, 2_000);
    assert_eq!(s.focuses.len(), 1);

    let fetched = get_daily_focus_impl(&s, &"2024-01-15".to_string()).unwrap();
    assert_eq!(fetched.content, "Ship the report");
    assert!(get_daily_focus_impl(&s, &"2024-01-16".to_string()).is_none());
}

#[test]
fn daily_focus_toggles_its_done_flag() {
    let mut s = Store::new();
    let req = UpsertDailyFocusRequest { date: "2024-01-15".to_string(), content: "Rest".to_string() };
    upsert_daily_focus_impl(&mut s, &req, 1_000);
    let once = toggle_daily_focus_impl(&mut s, 1, 1_100).unwrap();
    assert!(once.is_done);
    let twice = toggle_daily_focus_impl(&mut s, 1, 1_200).unwrap();
    assert!(!twice.is_done);
    assert!(matches!(toggle_daily_focus_impl(&mut s, 9, 1_300), Err(ZapError::TaskNotFound(9))));
}
