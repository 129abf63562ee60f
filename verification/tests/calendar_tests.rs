use wrk::calendar::{
    Date, Time, month_range, parse_clock, parse_date, period_days, work_week_range, year_range,
};
use wrk::entry::{render_entry_line, render_entry_line_with_date};
use wrk::layout::log_path;

fn day(year: i32, month: u32, d: u32) -> Date {
    Date { year, month, day: d }
}

#[test]
fn work_week_runs_monday_to_friday() {
    assert_eq!(work_week_range(day(2026, 3, 4)), (day(2026, 3, 2), day(2026, 3, 6)));
    assert_eq!(work_week_range(day(2026, 3, 2)), (day(2026, 3, 2), day(2026, 3, 6)));
    assert_eq!(work_week_range(day(2026, 3, 8)), (day(2026, 3, 2), day(2026, 3, 6)));
    assert_eq!(work_week_range(day(2026, 1, 1)), (day(2025, 12, 29), day(2026, 1, 2)));
}

#[test]
fn month_range_covers_the_month() {
    assert_eq!(month_range(day(2026, 2, 10)).unwrap(), (day(2026, 2, 1), day(2026, 2, 28)));
    assert_eq!(month_range(day(2024, 2, 10)).unwrap(), (day(2024, 2, 1), day(2024, 2, 29)));
    assert_eq!(month_range(day(2026, 12, 31)).unwrap(), (day(2026, 12, 1), day(2026, 12, 31)));
    assert_eq!(month_range(day(262142, 12, 1)).unwrap_err().to_string(), "invalid month");
    assert_eq!(month_range(day(262142, 11, 5)).unwrap(), (day(262142, 11, 1), day(262142, 11, 30)));
}

#[test]
fn year_range_covers_the_year() {
    assert_eq!(year_range(day(2026, 5, 5)).unwrap(), (day(2026, 1, 1), day(2026, 12, 31)));
}

#[test]
fn period_lists_every_day() {
    assert_eq!(
        period_days(day(2026, 2, 27), day(2026, 3, 2)),
        vec![day(2026, 2, 27), day(2026, 2, 28), day(2026, 3, 1), day(2026, 3, 2)]
    );
    assert_eq!(period_days(day(2026, 3, 2), day(2026, 3, 1)), Vec::<Date>::new());
}

#[test]
fn dates_and_times_read_and_print() {
    assert_eq!(parse_date("2026-03-04"), Some(day(2026, 3, 4)));
    assert_eq!(parse_date("2026-02-30"), None);
    assert_eq!(parse_date("notes"), None);
    let t = Time { hour: 7, minute: 0 };
    assert_eq!(render_entry_line_with_date(&day(2026, 3, 4), &t, None, "n", "x"), "- 2026-03-04 07:00 :n x");
    assert_eq!(render_entry_line_with_date(&day(10000, 1, 1), &t, None, "n", "x"), "- +10000-01-01 07:00 :n x");
    assert_eq!(render_entry_line_with_date(&day(-1, 1, 1), &t, None, "n", "x"), "- -0001-01-01 07:00 :n x");
    assert_eq!(parse_clock("09:05"), Some(Time { hour: 9, minute: 5 }));
    assert_eq!(parse_clock("24:00"), None);
    assert_eq!(render_entry_line(&Time { hour: 9, minute: 5 }, None, "n", "x"), "- 09:05 :n x");
}

#[test]
fn date_checks_calendar_validity() {
    assert_eq!(Date::from_ymd(2024, 2, 29), Some(day(2024, 2, 29)));
    assert_eq!(Date::from_ymd(2023, 2, 29), None);
    assert!(day(2026, 3, 4).is_on_or_before(&day(2026, 3, 4)));
    assert!(!day(2026, 3, 5).is_on_or_before(&day(2026, 3, 4)));
}

#[test]
fn day_files_use_year_month_layout() {
    assert_eq!(log_path("/tmp/logs", &day(2026, 3, 4)), "/tmp/logs/2026/03/2026-03-04.md");
    assert_eq!(log_path("/tmp/logs/", &day(987, 11, 20)), "/tmp/logs/0987/11/0987-11-20.md");
}
