use todoj::calendar::{days_in_month, Date};
use todoj::colors::{DUE_FUTURE, DUE_TODAY, DUE_WEEK};
use todoj::dates::{color_for_due_date_on, format_date, parse_date_on};

fn today() -> Date {
    // a Tuesday
    Date { year: 2026, month: 3, day: 10 }
}

fn parsed(input: &str) -> Option<String> {
    parse_date_on(input, today())
}

#[test]
fn keywords_for_today_and_tomorrow() {
    assert_eq!(parsed("today"), Some("20260310".to_string()));
    assert_eq!(parsed("TODAY"), Some("20260310".to_string()));
    assert_eq!(parsed("오늘"), Some("20260310".to_string()));
    assert_eq!(parsed("jntn"), Some("20260310".to_string()));
    assert_eq!(parsed("tom"), Some("20260311".to_string()));
    assert_eq!(parsed("Tomorrow"), Some("20260311".to_string()));
    assert_eq!(parsed("내일"), Some("20260311".to_string()));
    assert_eq!(parsed("tkfq"), Some("20260311".to_string()));
}

#[test]
fn weekday_keywords_name_the_next_such_day() {
    assert_eq!(parsed("mon"), Some("20260316".to_string()));
    assert_eq!(parsed("wed"), Some("20260311".to_string()));
    assert_eq!(parsed("thu"), Some("20260312".to_string()));
    assert_eq!(parsed("fri"), Some("20260313".to_string()));
    assert_eq!(parsed("sat"), Some("20260314".to_string()));
    assert_eq!(parsed("sun"), Some("20260315".to_string()));
    assert_eq!(parsed("월"), Some("20260316".to_string()));
    assert_eq!(parsed("일"), Some("20260315".to_string()));
    assert_eq!(parsed("suns"), Some("20260315".to_string()));
}

#[test]
fn same_weekday_means_next_week() {
    assert_eq!(parsed("tue"), Some("20260317".to_string()));
    assert_eq!(parsed("화"), Some("20260317".to_string()));
    assert_eq!(parsed("tues"), Some("20260317".to_string()));
}

#[test]
fn day_only_is_the_nearest_future_date_with_that_day() {
    assert_eq!(parsed("15"), Some("20260315".to_string()));
    assert_eq!(parsed("9"), Some("20260409".to_string()));
    assert_eq!(parsed("10"), Some("20260410".to_string()));
    assert_eq!(parsed("31"), Some("20260331".to_string()));
}

#[test]
fn day_only_out_of_range_is_rejected() {
    assert_eq!(parsed("0"), None);
    assert_eq!(parsed("33"), None);
}

#[test]
fn month_and_day_use_this_year() {
    assert_eq!(parsed("3/15"), Some("20260315".to_string()));
    assert_eq!(parsed("3-15"), Some("20260315".to_string()));
    assert_eq!(parsed("1/5"), Some("20260105".to_string()));
    assert_eq!(parsed("2/29"), None);
    assert_eq!(parsed("2/30"), None);
    assert_eq!(parsed("13/1"), None);
}

#[test]
fn full_dates_with_short_or_long_years() {
    assert_eq!(parsed("26/3/15"), Some("20260315".to_string()));
    assert_eq!(parsed("2026/3/15"), Some("20260315".to_string()));
    assert_eq!(parsed("24/2/29"), Some("20240229".to_string()));
    assert_eq!(parsed("2026-12-31"), Some("20261231".to_string()));
    assert_eq!(parsed("26/2/29"), None);
    assert_eq!(parsed("9999/12/31"), Some("99991231".to_string()));
    assert_eq!(parsed("10000/1/1"), None);
}

#[test]
fn other_input_is_no_date() {
    assert_eq!(parsed("abc"), None);
    assert_eq!(parsed("1/2/3/4"), None);
    assert_eq!(parsed(""), None);
    assert_eq!(parsed("3/x"), None);
}

#[test]
fn format_date_shows_short_date_and_weekday() {
    assert_eq!(format_date("20260315"), Some("26-03-15(Sun)".to_string()));
    assert_eq!(format_date("20260310"), Some("26-03-10(Tue)".to_string()));
    assert_eq!(format_date("20240229"), Some("24-02-29(Thu)".to_string()));
}

#[test]
fn format_date_reads_only_the_first_eight_bytes() {
    assert_eq!(format_date("20260315T120000"), Some("26-03-15(Sun)".to_string()));
}

#[test]
fn format_date_rejects_short_or_impossible_dates() {
    assert_eq!(format_date("2026031"), None);
    assert_eq!(format_date(""), None);
    assert_eq!(format_date("20261345"), None);
    assert_eq!(format_date("20260230"), None);
    assert_eq!(format_date("2026ab15"), None);
}

#[test]
fn stored_date_reads_back() {
    let key = parsed("26/3/15").unwrap();
    assert_eq!(format_date(&key), Some("26-03-15(Sun)".to_string()));
}

#[test]
fn due_colors_by_days_left() {
    assert_eq!(color_for_due_date_on("20260310", today()), DUE_TODAY);
    assert_eq!(color_for_due_date_on("20260301", today()), DUE_TODAY);
    assert_eq!(color_for_due_date_on("20260311", today()), DUE_WEEK);
    assert_eq!(color_for_due_date_on("20260317", today()), DUE_WEEK);
    assert_eq!(color_for_due_date_on("20260318", today()), DUE_FUTURE);
}

#[test]
fn due_color_of_unreadable_date_is_future() {
    assert_eq!(color_for_due_date_on("2026ab15", today()), DUE_FUTURE);
    assert_eq!(color_for_due_date_on("20260230", today()), DUE_FUTURE);
}

#[test]
fn days_in_month_values() {
    assert_eq!(days_in_month(1, 2026), 31);
    assert_eq!(days_in_month(4, 2026), 30);
    assert_eq!(days_in_month(2, 2026), 28);
    assert_eq!(days_in_month(2, 2024), 29);
    assert_eq!(days_in_month(2, 1900), 28);
    assert_eq!(days_in_month(2, 2000), 29);
    assert_eq!(days_in_month(12, 2026), 31);
    assert_eq!(days_in_month(13, 2026), 30);
}
