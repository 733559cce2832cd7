use todoj::calendar::Date;
use todoj::commands::{plan_add, plan_edit, EditPlan};
use todoj::list_view::render_list_on;
use todoj::model::Todo;
use todoj::repeat::{parse_period, period_string, recurrence_of, Period};

fn today() -> Date {
    Date { year: 2026, month: 3, day: 10 }
}

const BAD_PERIOD: &str = "잘못된 반복 주기입니다. -r d, e, w, 일(1-31) 또는 월/일 형식으로 입력해주세요.";

fn recurring(due: Option<&str>, period: &str, done: i32) -> Todo {
    Todo {
        id: 5,
        todo: "Pay rent".to_string(),
        due_date: due.map(|d| d.to_string()),
        priority: 2,
        up_id: Some(1),
        done,
        done_at: None,
        deleted_at: None,
        created_at: "20260301T000000".to_string(),
        updated_at: "20260301T000000".to_string(),
        repetition_period: Some(period.to_string()),
    }
}

#[test]
fn periods() {
    assert_eq!(parse_period("d"), Some(Period::Daily));
    assert_eq!(parse_period("e"), Some(Period::EveryOtherDay));
    assert_eq!(parse_period("w"), Some(Period::Weekly));
    assert_eq!(parse_period("15"), Some(Period::Monthly(15)));
    assert_eq!(parse_period("2/3"), Some(Period::Yearly(2, 3)));
    assert_eq!(parse_period("2-29"), Some(Period::Yearly(2, 29)));
    assert_eq!(parse_period("0"), None);
    assert_eq!(parse_period("32"), None);
    assert_eq!(parse_period("2/30"), None);
    assert_eq!(parse_period("x"), None);
    assert_eq!(period_string(Period::Yearly(2, 3)), "2/3");
    assert_eq!(period_string(Period::Monthly(15)), "15");
}

#[test]
fn add_with_repetition() {
    let t = plan_add(&["Daily", "task", "-r", "d"], &[], today()).unwrap();
    assert_eq!(t.todo, "Daily task");
    assert_eq!(t.repetition, Some("d".to_string()));
    let t = plan_add(&["Monthly", "bill", "-r", "015"], &[], today()).unwrap();
    assert_eq!(t.repetition, Some("15".to_string()));
    let t = plan_add(&["Birthday", "-r", "2/3"], &[], today()).unwrap();
    assert_eq!(t.repetition, Some("2/3".to_string()));
    assert_eq!(plan_add(&["x", "-r", "zz"], &[], today()).err().unwrap(), BAD_PERIOD);
}

#[test]
fn edit_repetition() {
    match plan_edit(&["1", "-r", "0"], &[10], today()).unwrap() {
        EditPlan::Batch { update, .. } => {
            assert!(update.clear_repetition);
            assert_eq!(update.repetition, None);
        }
        _ => panic!("expected a batch edit"),
    }
    match plan_edit(&["1", "-r", "w"], &[10], today()).unwrap() {
        EditPlan::Batch { update, .. } => {
            assert!(!update.clear_repetition);
            assert_eq!(update.repetition, Some("w".to_string()));
        }
        _ => panic!("expected a batch edit"),
    }
    assert_eq!(plan_edit(&["1", "-r", "40"], &[10], today()).err().unwrap(), BAD_PERIOD);
}

#[test]
fn completing_a_recurring_todo_makes_the_next_one() {
    let next = recurrence_of(&recurring(Some("20260310"), "d", 5), today()).unwrap();
    assert_eq!(next.todo, "Pay rent");
    assert_eq!(next.due_date, Some("20260311".to_string()));
    assert_eq!(next.priority, Some(2));
    assert_eq!(next.up_id, Some(1));
    assert_eq!(next.repetition, Some("d".to_string()));
    let due = |p: &str, d: Option<&str>| recurrence_of(&recurring(d, p, 5), today()).unwrap().due_date.unwrap();
    assert_eq!(due("e", Some("20260310")), "20260312");
    assert_eq!(due("w", Some("20260310")), "20260317");
    assert_eq!(due("31", Some("20260131")), "20260228");
    assert_eq!(due("15", Some("20261220")), "20270115");
    assert_eq!(due("2/29", Some("20260310")), "20270228");
    assert_eq!(due("d", None), "20260311");
}

#[test]
fn only_completed_recurring_todos_come_back() {
    assert!(recurrence_of(&recurring(Some("20260310"), "d", 3), today()).is_none());
    assert!(recurrence_of(&recurring(Some("20260310"), "bogus", 5), today()).is_none());
}

#[test]
fn list_shows_the_period() {
    let todos = vec![recurring(Some("20260320"), "w", 0), {
        let mut t = recurring(None, "2/3", 0);
        t.id = 6;
        t.up_id = None;
        t
    }];
    let s = render_list_on(&todos, &todos, false, false, None, None, None, None, today()).unwrap();
    assert!(s.text.contains(" *Fri\n"));
    assert!(s.text.contains(" *2/3\n"));
}
