//! The statistics aggregator: today, week, and month views, read with a
//! frozen, injectable clock.

use zap_lib::categories::add_category_impl;
use zap_lib::date::date_to_day_number;
use zap_lib::date::Date;
use zap_lib::date::SECONDS_PER_DAY;
use zap_lib::statistics::get_month_stats_impl;
use zap_lib::statistics::get_today_stats_impl;
use zap_lib::statistics::get_week_stats_impl;
use zap_lib::statistics::StatsDateQuery;
use zap_lib::store::Store;
use zap_lib::task::add_task_impl;
use zap_lib::task::finish_task_impl;
use zap_lib::task::start_task_impl;
use zap_lib::task::stop_task_impl;

fn no_range() -> StatsDateQuery {
    StatsDateQuery { start_date: None, end_date: None }
}

fn request(title: &str, category_id: Option<u32>) -> zap_lib::task::CreateTaskRequest {
    zap_lib::task::CreateTaskRequest {
        title: title.to_string(),
        category_id,
        estimate_seconds: None,
        notes: None,
        is_today_focus: None,
        start_on_create: None,
    }
}

/// Midnight of 2024-01-15 (a Monday) as epoch seconds.
fn monday() -> i64 {
    date_to_day_number(Date { year: 2024, month: 1, day: 15 }) * SECONDS_PER_DAY
}

#[test]
fn today_categories_split_two_equal_tasks() {
    // Scenario: Work (#FF0000) and Life (#00FF00), one 100-second closed
    // entry each today.
    let mut s = Store::new();
    let t0 = monday();
    let work = add_category_impl(&mut s, "Work".to_string(), "#FF0000".to_string(), t0).unwrap();
    let life = add_category_impl(&mut s, "Life".to_string(), "#00FF00".to_string(), t0 + 1)
        .unwrap();
    add_task_impl(&mut s, request("Report", Some(work)), t0 + 10).unwrap();
    add_task_impl(&mut s, request("Groceries", Some(life)), t0 + 20).unwrap();
    start_task_impl(&mut s, 1, t0 + 100).unwrap();
    stop_task_impl(&mut s, 1, t0 + 200).unwrap();
    start_task_impl(&mut s, 2, t0 + 300).unwrap();
    stop_task_impl(&mut s, 2, t0 + 400).unwrap();

    let now = t0 + 500;
    let r = get_today_stats_impl(&s, &no_range(), now);
    assert_eq!(r.total_seconds, 200);
    assert_eq!(r.sessions_count, 2);
    assert_eq!(r.categories.len(), 2);
    let names: Vec<&str> = r.categories.iter().map(|c| c.name.as_str()).collect();
    assert!(names.contains(&"Work") && names.contains(&"Life"));
    for c in &r.categories {
        assert_eq!(c.seconds, 100);
        assert_eq!(c.percentage, 50);
    }
    let total: i64 = r.categories.iter().map(|c| c.seconds).sum();
    assert_eq!(total, r.total_seconds);
}

#[test]
fn today_blends_open_sessions_and_other_bucket() {
    let mut s = Store::new();
    let t0 = monday();
    add_task_impl(&mut s, request("Uncategorised", None), t0 + 10).unwrap();
    start_task_impl(&mut s, 1, t0 + 100).unwrap();

    let r = get_today_stats_impl(&s, &no_range(), t0 + 160);
    assert_eq!(r.total_seconds, 60);
    assert_eq!(r.sessions_count, 1);
    assert_eq!(r.categories.len(), 1);
    assert_eq!(r.categories[0].name, "Other");
    assert_eq!(r.categories[0].color, "#9CA3AF");
    assert_eq!(r.categories[0].seconds, 60);
    assert_eq!(r.categories[0].percentage, 100);
}

#[test]
fn reads_are_idempotent_under_a_frozen_clock() {
    // With no open session the boundary cannot drift; with one, two reads
    // differ by exactly the elapsed seconds.
    let mut s = Store::new();
    let t0 = monday();
    add_task_impl(&mut s, request("Closed work", None), t0 + 10).unwrap();
    start_task_impl(&mut s, 1, t0 + 100).unwrap();
    stop_task_impl(&mut s, 1, t0 + 150).unwrap();

    let a = get_today_stats_impl(&s, &no_range(), t0 + 200);
    let b = get_today_stats_impl(&s, &no_range(), t0 + 200);
    assert_eq!(a.total_seconds, b.total_seconds);
    let c = get_today_stats_impl(&s, &no_range(), t0 + 260);
    assert_eq!(c.total_seconds, a.total_seconds);

    start_task_impl(&mut s, 1, t0 + 300).unwrap();
    let d = get_today_stats_impl(&s, &no_range(), t0 + 310);
    let e = get_today_stats_impl(&s, &no_range(), t0 + 325);
    assert_eq!(e.total_seconds - d.total_seconds, 15);
}

#[test]
fn focused_seconds_follow_the_current_status() {
    let mut s = Store::new();
    let t0 = monday();
    add_task_impl(&mut s, request("Will finish", None), t0 + 10).unwrap();
    add_task_impl(&mut s, request("Stays open", None), t0 + 20).unwrap();
    start_task_impl(&mut s, 1, t0 + 100).unwrap();
    stop_task_impl(&mut s, 1, t0 + 130).unwrap();
    start_task_impl(&mut s, 2, t0 + 200).unwrap();
    stop_task_impl(&mut s, 2, t0 + 250).unwrap();

    let before = get_today_stats_impl(&s, &no_range(), t0 + 300);
    assert_eq!(before.total_seconds, 80);
    assert_eq!(before.focused_seconds, 0);

    finish_task_impl(&mut s, 1, t0 + 400).unwrap();
    let after = get_today_stats_impl(&s, &no_range(), t0 + 500);
    assert_eq!(after.focused_seconds, 30);
}

#[test]
fn percentages_round_half_up() {
    let mut s = Store::new();
    let t0 = monday();
    let a = add_category_impl(&mut s, "Third".to_string(), "#111111".to_string(), t0).unwrap();
    add_task_impl(&mut s, request("One", Some(a)), t0 + 1).unwrap();
    add_task_impl(&mut s, request("Two", None), t0 + 2).unwrap();
    start_task_impl(&mut s, 1, t0 + 100).unwrap();
    stop_task_impl(&mut s, 1, t0 + 101).unwrap();
    start_task_impl(&mut s, 2, t0 + 200).unwrap();
    stop_task_impl(&mut s, 2, t0 + 202).unwrap();

    let r = get_today_stats_impl(&s, &no_range(), t0 + 300);
    assert_eq!(r.total_seconds, 3);
    let mut seen = Vec::new();
    for c in &r.categories {
        seen.push((c.seconds, c.percentage));
    }
    seen.sort();
    assert_eq!(seen, vec![(1, 33), (2, 67)]);
}

#[test]
fn detailed_report_orders_by_seconds_then_recency() {
    let mut s = Store::new();
    let t0 = monday();
    add_task_impl(&mut s, request("Short", None), t0 + 1).unwrap();
    add_task_impl(&mut s, request("Long", None), t0 + 2).unwrap();
    start_task_impl(&mut s, 1, t0 + 100).unwrap();
    stop_task_impl(&mut s, 1, t0 + 110).unwrap();
    start_task_impl(&mut s, 2, t0 + 200).unwrap();
    stop_task_impl(&mut s, 2, t0 + 260).unwrap();

    let r = get_today_stats_impl(&s, &no_range(), t0 + 300);
    assert_eq!(r.detailed_report.len(), 2);
    assert_eq!(r.detailed_report[0].task_title, "Long");
    assert_eq!(r.detailed_report[0].seconds, 60);
    assert_eq!(r.detailed_report[1].task_title, "Short");
    assert_eq!(r.detailed_report[1].seconds, 10);
    assert!(r.detailed_report[0].last_time.is_some());
}

#[test]
fn report_formats_last_end_on_a_twelve_hour_clock() {
    let mut s = Store::new();
    let t0 = monday();
    add_task_impl(&mut s, request("Afternoon", None), t0 + 1).unwrap();
    // Session ends at 15:45 local day time.
    start_task_impl(&mut s, 1, t0 + 15 * 3600 + 40 * 60).unwrap();
    stop_task_impl(&mut s, 1, t0 + 15 * 3600 + 45 * 60).unwrap();
    let r = get_today_stats_impl(&s, &no_range(), t0 + 16 * 3600);
    assert_eq!(r.detailed_report[0].last_time.as_deref(), Some("3:45 pm"));

    let mut s2 = Store::new();
    add_task_impl(&mut s2, request("Midnight", None), t0 + 1).unwrap();
    start_task_impl(&mut s2, 1, t0 + 2 * 60).unwrap();
    stop_task_impl(&mut s2, 1, t0 + 5 * 60).unwrap();
    let r2 = get_today_stats_impl(&s2, &no_range(), t0 + 10 * 60);
    assert_eq!(r2.detailed_report[0].last_time.as_deref(), Some("12:05 am"));
}

#[test]
fn week_view_breaks_days_down() {
    let mut s = Store::new();
    let t0 = monday();
    add_task_impl(&mut s, request("Daily", None), t0 + 1).unwrap();
    // Monday: 100 seconds; Wednesday: 300 seconds.
    start_task_impl(&mut s, 1, t0 + 100).unwrap();
    stop_task_impl(&mut s, 1, t0 + 200).unwrap();
    let wed = t0 + 2 * SECONDS_PER_DAY;
    start_task_impl(&mut s, 1, wed + 100).unwrap();
    stop_task_impl(&mut s, 1, wed + 400).unwrap();

    // The seven days ending Sunday 2024-01-21 cover both.
    let now = t0 + 6 * SECONDS_PER_DAY + 1000;
    let r = get_week_stats_impl(&s, &no_range(), now);
    assert_eq!(r.total_seconds, 400);
    assert_eq!(r.sessions_count, 2);
    assert_eq!(r.daily_average_seconds, 400 / 7);
    assert_eq!(r.daily_breakdown.len(), 2);
    assert_eq!(r.daily_breakdown[0].day_name, "Mon");
    assert_eq!(r.daily_breakdown[0].date, "2024-01-15");
    assert_eq!(r.daily_breakdown[0].seconds, 100);
    assert_eq!(r.daily_breakdown[0].percentage, 25);
    assert_eq!(r.daily_breakdown[1].day_name, "Wed");
    assert_eq!(r.daily_breakdown[1].date, "2024-01-17");
    assert_eq!(r.daily_breakdown[1].seconds, 300);
    assert_eq!(r.daily_breakdown[1].percentage, 75);
}

#[test]
fn week_view_accepts_an_explicit_range() {
    let mut s = Store::new();
    let t0 = monday();
    add_task_impl(&mut s, request("Ranged", None), t0 + 1).unwrap();
    start_task_impl(&mut s, 1, t0 + 100).unwrap();
    stop_task_impl(&mut s, 1, t0 + 150).unwrap();

    let q = StatsDateQuery {
        start_date: Some("2024-01-15".to_string()),
        end_date: Some("2024-01-16".to_string()),
    };
    let r = get_week_stats_impl(&s, &q, t0 + 10 * SECONDS_PER_DAY);
    assert_eq!(r.total_seconds, 50);
    assert_eq!(r.daily_average_seconds, 25);
}

#[test]
fn month_view_of_a_leap_february_lists_every_day() {
    // Scenario: 2024-02 has 29 days; with no entries every level is 0.
    let s = Store::new();
    let q = StatsDateQuery { start_date: Some("2024-02".to_string()), end_date: None };
    let now = monday();
    let r = get_month_stats_impl(&s, &q, now);
    assert_eq!(r.monthly_overview.len(), 29);
    assert_eq!(r.monthly_overview[0].date, "2024-02-01");
    assert_eq!(r.monthly_overview[28].date, "2024-02-29");
    for day in &r.monthly_overview {
        assert_eq!(day.seconds, 0);
        assert!(!day.active);
        assert_eq!(day.level, 0);
    }
    assert_eq!(r.total_seconds, 0);
    assert_eq!(r.active_days, 0);
    assert_eq!(r.daily_average_seconds, 0);
    assert!(r.top_tasks.is_empty());
}

#[test]
fn month_view_levels_scale_against_the_busiest_day() {
    let mut s = Store::new();
    let feb1 = date_to_day_number(Date { year: 2024, month: 2, day: 1 }) * SECONDS_PER_DAY;
    add_task_impl(&mut s, request("Heat", None), feb1 + 1).unwrap();
    // Day 1: 10s, day 2: 5s, day 3: 1s.
    start_task_impl(&mut s, 1, feb1 + 100).unwrap();
    stop_task_impl(&mut s, 1, feb1 + 110).unwrap();
    let day2 = feb1 + SECONDS_PER_DAY;
    start_task_impl(&mut s, 1, day2 + 100).unwrap();
    stop_task_impl(&mut s, 1, day2 + 105).unwrap();
    let day3 = feb1 + 2 * SECONDS_PER_DAY;
    start_task_impl(&mut s, 1, day3 + 100).unwrap();
    stop_task_impl(&mut s, 1, day3 + 101).unwrap();

    let q = StatsDateQuery { start_date: Some("2024-02".to_string()), end_date: None };
    let r = get_month_stats_impl(&s, &q, day3 + 1000);
    assert_eq!(r.monthly_overview[0].level, 3);
    assert_eq!(r.monthly_overview[1].level, 2);
    assert_eq!(r.monthly_overview[2].level, 1);
    assert_eq!(r.monthly_overview[3].level, 0);
    assert_eq!(r.active_days, 3);
    assert_eq!(r.total_seconds, 16);
}

#[test]
fn today_view_accepts_an_explicit_date() {
    let mut s = Store::new();
    let t0 = monday();
    add_task_impl(&mut s, request("Past work", None), t0 + 1).unwrap();
    start_task_impl(&mut s, 1, t0 + 100).unwrap();
    stop_task_impl(&mut s, 1, t0 + 140).unwrap();

    // Read Monday's numbers from two days later.
    let later = t0 + 2 * SECONDS_PER_DAY;
    let q = StatsDateQuery { start_date: Some("2024-01-15".to_string()), end_date: None };
    let r = get_today_stats_impl(&s, &q, later);
    assert_eq!(r.total_seconds, 40);
    // An unparseable date falls back to the current day, which is empty.
    let bad = StatsDateQuery { start_date: Some("not a date".to_string()), end_date: None };
    let empty = get_today_stats_impl(&s, &bad, later);
    assert_eq!(empty.total_seconds, 0);
    assert!(empty.categories.is_empty());
}

#[test]
fn month_view_defaults_to_the_current_month_so_far() {
    let mut s = Store::new();
    let t0 = monday();
    add_task_impl(&mut s, request("January work", None), t0 + 1).unwrap();
    start_task_impl(&mut s, 1, t0 + 100).unwrap();
    stop_task_impl(&mut s, 1, t0 + 130).unwrap();

    // 2024-01-20: the default range is 2024-01-01 through 2024-01-20.
    let now = t0 + 5 * SECONDS_PER_DAY + 500;
    let r = get_month_stats_impl(&s, &no_range(), now);
    assert_eq!(r.monthly_overview.len(), 20);
    assert_eq!(r.monthly_overview[0].date, "2024-01-01");
    assert_eq!(r.monthly_overview[19].date, "2024-01-20");
    assert_eq!(r.total_seconds, 30);
    assert_eq!(r.active_days, 1);
    assert_eq!(r.daily_average_seconds, 30 / 20);
}

#[test]
fn month_view_accepts_an_explicit_pair() {
    let mut s = Store::new();
    let t0 = monday();
    add_task_impl(&mut s, request("Window", None), t0 + 1).unwrap();
    start_task_impl(&mut s, 1, t0 + 100).unwrap();
    stop_task_impl(&mut s, 1, t0 + 170).unwrap();

    let q = StatsDateQuery {
        start_date: Some("2024-01-14".to_string()),
        end_date: Some("2024-01-16".to_string()),
    };
    let r = get_month_stats_impl(&s, &q, t0 + 10 * SECONDS_PER_DAY);
    assert_eq!(r.monthly_overview.len(), 3);
    assert_eq!(r.total_seconds, 70);
    assert_eq!(r.daily_average_seconds, 70 / 3);

    // A single full date collapses to that one day.
    let single = StatsDateQuery { start_date: Some("2024-01-15".to_string()), end_date: None };
    let r1 = get_month_stats_impl(&s, &single, t0 + 10 * SECONDS_PER_DAY);
    assert_eq!(r1.monthly_overview.len(), 1);
    assert_eq!(r1.total_seconds, 70);
}

#[test]
fn month_view_ranks_top_tasks() {
    let mut s = Store::new();
    let t0 = monday();
    add_task_impl(&mut s, request("Minor", None), t0 + 1).unwrap();
    add_task_impl(&mut s, request("Major", None), t0 + 2).unwrap();
    start_task_impl(&mut s, 1, t0 + 100).unwrap();
    stop_task_impl(&mut s, 1, t0 + 120).unwrap();
    start_task_impl(&mut s, 2, t0 + 200).unwrap();
    stop_task_impl(&mut s, 2, t0 + 290).unwrap();

    let q = StatsDateQuery { start_date: Some("2024-01".to_string()), end_date: None };
    let r = get_month_stats_impl(&s, &q, t0 + 1000);
    assert_eq!(r.top_tasks.len(), 2);
    assert_eq!(r.top_tasks[0].task_title, "Major");
    assert_eq!(r.top_tasks[0].seconds, 90);
    assert_eq!(r.top_tasks[1].task_title, "Minor");
    assert_eq!(r.top_tasks[1].seconds, 20);
    assert!(r.top_tasks[0].last_time.is_none());
}
