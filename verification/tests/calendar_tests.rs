use todoj::calendar::Date;
use todoj::calendar_view::{month_calendar_on, parse_calendar_args_on, weeks_calendar_on};

fn today() -> Date {
    Date { year: 2026, month: 3, day: 10 }
}

#[test]
fn month_calendar_marks_today() {
    let expected = "\n2026/3\nSun Mon Tue Wed Thu Fri Sat\n  1   2   3   4   5   6   7 \n  8   9 ◉10  11  12  13  14 \n 15  16  17  18  19  20  21 \n 22  23  24  25  26  27  28 \n 29  30  31 \n";
    assert_eq!(month_calendar_on(2026, 3, today()), expected);
}

#[test]
fn month_calendar_of_another_month() {
    let expected = "\n2026/2\nSun Mon Tue Wed Thu Fri Sat\n  1   2   3   4   5   6   7 \n  8   9  10  11  12  13  14 \n 15  16  17  18  19  20  21 \n 22  23  24  25  26  27  28 \n";
    assert_eq!(month_calendar_on(2026, 2, today()), expected);
}

#[test]
fn month_calendar_starts_on_the_right_weekday() {
    let text = month_calendar_on(2026, 4, today());
    assert!(text.starts_with("\n2026/4\nSun Mon Tue Wed Thu Fri Sat\n              1   2   3   4 \n"));
}

#[test]
fn month_calendar_of_an_impossible_month() {
    assert_eq!(month_calendar_on(2026, 13, today()), "잘못된 날짜입니다.\n");
    assert_eq!(month_calendar_on(2026, 0, today()), "잘못된 날짜입니다.\n");
}

#[test]
fn four_weeks_from_this_sunday() {
    let expected = "\n2026/3 - 2026/4\nSun Mon Tue Wed Thu Fri Sat\n  8   9 ◉10  11  12  13  14 \n 15  16  17  18  19  20  21 \n 22  23  24  25  26  27  28 \n 29  30  31   1   2   3   4 \n";
    assert_eq!(weeks_calendar_on(today()), expected);
}

#[test]
fn four_weeks_example() {
    let t = Date { year: 2026, month: 4, day: 25 };
    let expected = "\n2026/4 - 2026/5\nSun Mon Tue Wed Thu Fri Sat\n 19  20  21  22  23  24 ◉25 \n 26  27  28  29  30   1   2 \n  3   4   5   6   7   8   9 \n 10  11  12  13  14  15  16 \n";
    assert_eq!(weeks_calendar_on(t), expected);
}

#[test]
fn four_weeks_header_names_the_years() {
    let t = Date { year: 2027, month: 3, day: 10 };
    assert!(weeks_calendar_on(t).starts_with("\n2027/3 - 2027/4\nSun Mon Tue Wed Thu Fri Sat\n"));
    let t = Date { year: 2026, month: 12, day: 28 };
    assert!(weeks_calendar_on(t).starts_with("\n2026/12 - 2027/1\n"));
    let t = Date { year: 2026, month: 2, day: 1 };
    assert!(weeks_calendar_on(t).starts_with("\n2026/2\n"));
}

#[test]
fn calendar_arguments() {
    assert_eq!(parse_calendar_args_on(&[], today()), Some((2026, 3)));
    assert_eq!(parse_calendar_args_on(&["4"], today()), Some((2026, 4)));
    assert_eq!(parse_calendar_args_on(&["25/3"], today()), Some((2025, 3)));
    assert_eq!(parse_calendar_args_on(&["4/2026"], today()), Some((2026, 4)));
    assert_eq!(parse_calendar_args_on(&["3", "2026"], today()), Some((2026, 3)));
    assert_eq!(parse_calendar_args_on(&["3", "26"], today()), Some((2026, 3)));
}

#[test]
fn calendar_arguments_refused() {
    assert_eq!(parse_calendar_args_on(&["13"], today()), None);
    assert_eq!(parse_calendar_args_on(&["a"], today()), None);
    assert_eq!(parse_calendar_args_on(&["13", "2026"], today()), None);
    assert_eq!(parse_calendar_args_on(&["1", "2", "3"], today()), None);
    assert_eq!(parse_calendar_args_on(&["1/2/3"], today()), None);
    assert_eq!(parse_calendar_args_on(&["2026/13"], today()), None);
    assert_eq!(parse_calendar_args_on(&["25/0"], today()), None);
    assert_eq!(parse_calendar_args_on(&["0/2026"], today()), None);
}

#[test]
fn four_weeks_near_the_end_of_the_range() {
    let t = Date { year: 262142, month: 12, day: 1 };
    let text = weeks_calendar_on(t);
    assert!(text.contains("262142/12\nSun Mon Tue Wed Thu Fri Sat\n"));
    assert!(text.contains(" 28"));
}
