use todoj::calendar::Date;
use todoj::session::{change_outcome, command_step_on, Action, Session};

fn today() -> Date {
    Date { year: 2026, month: 3, day: 10 }
}

fn start() -> Session {
    Session { show_done: false, use_order: false }
}

fn step(input: &str) -> (Session, Action) {
    command_step_on(start(), input, today())
}

#[test]
fn commands_with_arguments() {
    match step("a Buy milk -p 2").1 {
        Action::Add(args) => assert_eq!(args, vec!["Buy", "milk", "-p", "2"]),
        other => panic!("unexpected {:?}", other),
    }
    match step("ㄷ 1 -d 3/15").1 {
        Action::Edit(args) => assert_eq!(args, vec!["1", "-d", "3/15"]),
        other => panic!("unexpected {:?}", other),
    }
    match step("remove 1,3").1 {
        Action::Remove(args) => assert_eq!(args, vec!["1,3"]),
        other => panic!("unexpected {:?}", other),
    }
    match step("ㅇ 2 5").1 {
        Action::Done(args) => assert_eq!(args, vec!["2", "5"]),
        other => panic!("unexpected {:?}", other),
    }
}

#[test]
fn commands_without_arguments_print_usage() {
    match step("add").1 {
        Action::Usage(m) => assert_eq!(m, "사용법: add <내용> [-d 날짜] [-p 우선순위] [-u 리스트번호]"),
        other => panic!("unexpected {:?}", other),
    }
    match step("done").1 {
        Action::Usage(m) => assert_eq!(m, "사용법: done <리스트번호>[,...] [0-5]"),
        other => panic!("unexpected {:?}", other),
    }
    match step("s").1 {
        Action::Usage(m) => assert_eq!(m, "사용법: search <검색어>"),
        other => panic!("unexpected {:?}", other),
    }
}

#[test]
fn toggles_change_the_session_and_redraw() {
    let (st, a) = step("o");
    assert_eq!(st, Session { show_done: false, use_order: true });
    assert!(matches!(a, Action::Redraw));
    let (st, a) = step("p");
    assert_eq!(st, Session { show_done: true, use_order: false });
    assert!(matches!(a, Action::Redraw));
    let (st, _) = command_step_on(Session { show_done: true, use_order: true }, "ㅔ", today());
    assert_eq!(st, Session { show_done: false, use_order: true });
}

#[test]
fn list_search_and_calendar() {
    assert!(matches!(step("l 10/2").1, Action::List(Some(10), Some(2), None, None)));
    match step("ㄴ buy  milk").1 {
        Action::Search(k) => assert_eq!(k, "buy milk"),
        other => panic!("unexpected {:?}", other),
    }
    assert!(matches!(step("c").1, Action::CalendarWeeks));
    assert!(matches!(step("calendar 25/3").1, Action::CalendarMonth(2025, 3)));
    assert!(matches!(step("c 4").1, Action::CalendarMonth(2026, 4)));
    match step("c 13").1 {
        Action::Usage(m) => assert_eq!(m, "사용법: calendar [m] [y] 또는 calendar yy/mm"),
        other => panic!("unexpected {:?}", other),
    }
}

#[test]
fn help_quit_unknown_and_blank() {
    assert!(matches!(step("?").1, Action::Help));
    assert!(matches!(step("exit").1, Action::Quit));
    assert!(matches!(step("ㅂ").1, Action::Quit));
    match step("clone 1").1 {
        Action::Unknown(c) => assert_eq!(c, "clone"),
        other => panic!("unexpected {:?}", other),
    }
    let (st, a) = step("   ");
    assert_eq!(st, start());
    assert!(matches!(a, Action::Nothing));
}

#[test]
fn outcome_of_a_change() {
    assert_eq!(change_outcome(Ok(true)), (true, None));
    assert_eq!(change_outcome(Ok(false)), (false, None));
    assert_eq!(change_outcome(Err("bad".to_string())), (false, Some("bad".to_string())));
}

#[test]
fn more_copies_with_its_shortcuts() {
    match step("m 1,2").1 {
        Action::More(args) => assert_eq!(args, vec!["1,2"]),
        other => panic!("unexpected {:?}", other),
    }
    match step("ㅡ 3 -p 1").1 {
        Action::More(args) => assert_eq!(args, vec!["3", "-p", "1"]),
        other => panic!("unexpected {:?}", other),
    }
    match step("more").1 {
        Action::Usage(m) => assert_eq!(m, "사용법: more <리스트번호>[,...] [-d 날짜] [-p 우선순위] [-u 리스트번호]"),
        other => panic!("unexpected {:?}", other),
    }
}

#[test]
fn a_toggle_typed_twice_gives_the_modes_back() {
    let (once, a) = command_step_on(start(), "o", today());
    assert!(matches!(a, Action::Redraw));
    assert_eq!(once, Session { show_done: false, use_order: true });
    let (twice, _) = command_step_on(once, "order", today());
    assert_eq!(twice, start());
    let (once, _) = command_step_on(start(), "ㅔ", today());
    assert_eq!(once, Session { show_done: true, use_order: false });
    let (twice, _) = command_step_on(once, "p", today());
    assert_eq!(twice, start());
    let (same, _) = command_step_on(once, "list 5", today());
    assert_eq!(same, once);
}
