use todoj::calendar::Date;
use todoj::commands::{copy_todo, edit_reply, parse_inline, plan_add, plan_done, plan_edit, plan_more, plan_remove, EditPlan};
use todoj::model::Todo;

fn today() -> Date {
    Date { year: 2026, month: 3, day: 10 }
}

const BAD_NUMBER: &str = "유효한 리스트 번호를 입력해주세요.";

#[test]
fn parse_inline_takes_date_and_priority_from_the_end() {
    let (content, due, prio) = parse_inline("Buy milk @3/15 ^2", today());
    assert_eq!(content, "Buy milk");
    assert_eq!(due, Some("20260315".to_string()));
    assert_eq!(prio, Some(2));
}

#[test]
fn parse_inline_leaves_words_that_are_no_date() {
    let (content, due, prio) = parse_inline("check @email", today());
    assert_eq!(content, "check @email");
    assert_eq!(due, None);
    assert_eq!(prio, None);
}

#[test]
fn parse_inline_keeps_input_with_an_impossible_date() {
    let (content, due, prio) = parse_inline("x @2/30 ^1", today());
    assert_eq!(content, "x @2/30 ^1");
    assert_eq!(due, None);
    assert_eq!(prio, None);
}

#[test]
fn parse_inline_priority_alone_and_out_of_range() {
    let (content, due, prio) = parse_inline("Walk dog ^4", today());
    assert_eq!((content.as_str(), due, prio), ("Walk dog", None, Some(4)));
    let (content, due, prio) = parse_inline("Walk dog ^5", today());
    assert_eq!((content.as_str(), due, prio), ("Walk dog ^5", None, None));
}

#[test]
fn parse_inline_keyword_date() {
    let (content, due, prio) = parse_inline("Task @today", today());
    assert_eq!((content.as_str(), due, prio), ("Task", Some("20260310".to_string()), None));
}

#[test]
fn add_plain_content() {
    let t = plan_add(&["Buy", "milk"], &[], today()).unwrap();
    assert_eq!(t.todo, "Buy milk");
    assert_eq!(t.due_date, None);
    assert_eq!(t.priority, None);
    assert_eq!(t.up_id, None);
}

#[test]
fn add_with_flags() {
    let t = plan_add(&["Finish", "report", "-d", "3/25", "-p", "1"], &[], today()).unwrap();
    assert_eq!(t.todo, "Finish report");
    assert_eq!(t.due_date, Some("20260325".to_string()));
    assert_eq!(t.priority, Some(1));
}

#[test]
fn add_with_inline_date_and_priority() {
    let t = plan_add(&["Finish", "report", "@3/25", "^1"], &[], today()).unwrap();
    assert_eq!(t.todo, "Finish report");
    assert_eq!(t.due_date, Some("20260325".to_string()));
    assert_eq!(t.priority, Some(1));
}

#[test]
fn add_reads_flags_and_inline_markers_together() {
    let t = plan_add(&["Task", "@today", "-p", "2"], &[], today()).unwrap();
    assert_eq!(t.todo, "Task");
    assert_eq!(t.due_date, Some("20260310".to_string()));
    assert_eq!(t.priority, Some(2));
    let t = plan_add(&["Task", "-d", "3/25", "^1"], &[], today()).unwrap();
    assert_eq!(t.todo, "Task");
    assert_eq!(t.due_date, Some("20260325".to_string()));
    assert_eq!(t.priority, Some(1));
}

#[test]
fn add_flags_win_over_inline_markers() {
    let t = plan_add(&["Task", "@today", "^4", "-d", "3/25", "-p", "1"], &[], today()).unwrap();
    assert_eq!(t.todo, "Task");
    assert_eq!(t.due_date, Some("20260325".to_string()));
    assert_eq!(t.priority, Some(1));
}

#[test]
fn add_sub_task_by_list_number() {
    let t = plan_add(&["Sub-task", "-u", "2"], &[10, 20, 30], today()).unwrap();
    assert_eq!(t.todo, "Sub-task");
    assert_eq!(t.up_id, Some(20));
    let t = plan_add(&["Sub-task", "-u", "9"], &[10, 20, 30], today()).unwrap();
    assert_eq!(t.up_id, None);
}

#[test]
fn add_errors() {
    let e = |args: &[&str]| plan_add(args, &[10], today()).err().unwrap();
    assert_eq!(e(&["x", "-d", "@3/15"]), "날짜는 @ 없이 입력: -d 3/15 또는 @3/15 (예: @today, @3/15, @tom)");
    assert_eq!(e(&["x", "-d", "2/30"]), "잘못된 날짜입니다: 2/30 - calendar 명령어로 확인하세요.");
    assert_eq!(e(&["x", "-p", "5"]), "잘못된 우선순위입니다. 1-4 숫자를 입력: -p 1~4 또는 ^1~4");
    assert_eq!(e(&["x", "-p", "a"]), "잘못된 우선순위입니다. 1-4 숫자를 입력: -p 1~4 또는 ^1~4");
    assert_eq!(e(&["x", "-u", "a"]), "잘못된 리스트 번호입니다. 리스트 번호를 입력해주세요.");
    assert_eq!(e(&["x", "@2/30"]), "잘못된 날짜입니다: @2/30 - 월/일 형식으로 입력: @월/일 (예: @3/15, @12/31)");
    assert_eq!(e(&["x", "@26-2-30"]), "잘못된 날짜입니다: @26-2-30 - 년-월-일 형식으로 입력: @년-월-일 (예: @26-3-15)");
    assert_eq!(e(&["x", "@33"]), "잘못된 날짜입니다: @33 - 33일은 없습니다. 1~31 사이 날짜");
    assert_eq!(e(&["x", "@0"]), "잘못된 날짜입니다: @0 - 유효한 날짜가 아닙니다. 1~31 사이 날짜");
    assert_eq!(e(&["x", "^7"]), "잘못된 우선순위입니다. ^1, ^2, ^3, ^4 중 하나를 입력해주세요.");
    assert_eq!(e(&[]), "TODO 내용을 입력해주세요.");
    assert_eq!(e(&["-p", "2"]), "TODO 내용을 입력해주세요.");
}

#[test]
fn add_date_words_without_digits_are_content() {
    let t = plan_add(&["x", "-d", "someday"], &[], today()).unwrap();
    assert_eq!(t.todo, "x");
    assert_eq!(t.due_date, None);
}

#[test]
fn remove_by_numbers_and_ranges() {
    assert_eq!(plan_remove(&["1,3"], &[10, 20, 30]).unwrap(), vec![10, 30]);
    assert_eq!(plan_remove(&["2-3"], &[10, 20, 30]).unwrap(), vec![20, 30]);
}

#[test]
fn remove_errors() {
    assert_eq!(plan_remove(&["4"], &[10, 20, 30]).err().unwrap(), BAD_NUMBER);
    assert_eq!(plan_remove(&["0"], &[10, 20, 30]).err().unwrap(), BAD_NUMBER);
    assert_eq!(plan_remove(&[], &[10]).err().unwrap(), "사용법: remove <리스트번호>[,...]");
}

#[test]
fn done_toggle_and_levels() {
    assert_eq!(plan_done(&["1"], &[10, 20]).unwrap(), (vec![10], None));
    assert_eq!(plan_done(&["1,2", "5"], &[10, 20]).unwrap(), (vec![10, 20], Some(5)));
    assert_eq!(plan_done(&["2", "3"], &[10, 20]).unwrap(), (vec![20], Some(3)));
    assert_eq!(plan_done(&["1", "0"], &[10, 20]).unwrap(), (vec![10], Some(0)));
}

#[test]
fn done_errors() {
    assert_eq!(plan_done(&["3"], &[10, 20]).err().unwrap(), BAD_NUMBER);
    assert_eq!(plan_done(&[], &[10, 20]).err().unwrap(), "사용법: done <리스트번호>[,...] [0-5]");
    assert_eq!(plan_done(&["1", "9"], &[10, 20]).err().unwrap(), "잘못된 완료 단계입니다. 0-5 숫자를 입력해주세요.");
    assert_eq!(plan_done(&["1", "x"], &[10, 20]).err().unwrap(), "잘못된 완료 단계입니다. 0-5 숫자를 입력해주세요.");
    assert_eq!(plan_done(&["1", "-1"], &[10, 20]).err().unwrap(), "잘못된 완료 단계입니다. 0-5 숫자를 입력해주세요.");
}

fn batch(args: &[&str]) -> (Vec<i64>, todoj::model::UpdateTodo) {
    match plan_edit(args, &[10, 20, 30], today()).unwrap() {
        EditPlan::Batch { ids, update } => (ids, update),
        EditPlan::Interactive { .. } => panic!("expected a batch edit"),
    }
}

#[test]
fn edit_batch_with_flags() {
    let (ids, u) = batch(&["1", "-d", "3/30", "-p", "2"]);
    assert_eq!(ids, vec![10]);
    assert_eq!(u.todo, None);
    assert_eq!(u.due_date, Some("20260330".to_string()));
    assert_eq!(u.priority, Some(2));
    assert_eq!(u.up_id, None);
}

#[test]
fn edit_batch_inline_only_keeps_content() {
    let (ids, u) = batch(&["1,2", "@3/30", "^2"]);
    assert_eq!(ids, vec![10, 20]);
    assert_eq!(u.todo, None);
    assert_eq!(u.due_date, Some("20260330".to_string()));
    assert_eq!(u.priority, Some(2));
}

#[test]
fn edit_batch_new_content() {
    let (ids, u) = batch(&["2-3", "New", "content"]);
    assert_eq!(ids, vec![20, 30]);
    assert_eq!(u.todo, Some("New content".to_string()));
    assert_eq!(u.due_date, None);
    assert_eq!(u.priority, None);
}

#[test]
fn edit_batch_content_with_inline_date() {
    let (_, u) = batch(&["1", "Call", "mom", "@tom"]);
    assert_eq!(u.todo, Some("Call mom".to_string()));
    assert_eq!(u.due_date, Some("20260311".to_string()));
}

#[test]
fn edit_batch_parent() {
    let (_, u) = batch(&["1", "-u", "2"]);
    assert_eq!(u.todo, None);
    assert_eq!(u.up_id, Some(20));
    assert!(!u.top_level);
}

#[test]
fn edit_parent_zero_makes_top_level() {
    let (ids, u) = batch(&["1", "-u", "0"]);
    assert_eq!(ids, vec![10]);
    assert_eq!(u.todo, None);
    assert_eq!(u.up_id, None);
    assert!(u.top_level);
}

#[test]
fn edit_reads_inline_markers_only_without_flags() {
    let (_, u) = batch(&["1", "New", "text", "^1", "-d", "3/30"]);
    assert_eq!(u.todo, None);
    assert_eq!(u.due_date, Some("20260330".to_string()));
    assert_eq!(u.priority, None);
    let (_, u) = batch(&["1", "New", "text", "^1", "-d", "nothing"]);
    assert_eq!(u.todo, Some("New text".to_string()));
    assert_eq!(u.due_date, None);
    assert_eq!(u.priority, Some(1));
}

#[test]
fn edit_single_number_is_interactive() {
    match plan_edit(&["2"], &[10, 20], today()).unwrap() {
        EditPlan::Interactive { number } => assert_eq!(number, 2),
        EditPlan::Batch { .. } => panic!("expected an interactive edit"),
    }
}

#[test]
fn edit_errors() {
    let e = |args: &[&str]| plan_edit(args, &[10, 20], today()).err().unwrap();
    assert_eq!(e(&[]), "사용법: edit <리스트번호>[,...] [-d 날짜] [-p 우선순위]");
    assert_eq!(e(&["3"]), BAD_NUMBER);
    assert_eq!(e(&["0"]), BAD_NUMBER);
    assert_eq!(e(&["x"]), BAD_NUMBER);
    assert_eq!(e(&["3", "-p", "1"]), BAD_NUMBER);
    assert_eq!(e(&["1", "@2/30"]), "잘못된 날짜입니다: @2/30 - calendar 명령어로 확인하세요.");
    assert_eq!(e(&["1", "^9"]), "잘못된 우선순위입니다. ^1, ^2, ^3, ^4 중 하나를 입력해주세요.");
    assert_eq!(e(&["1", "-p", "9"]), "잘못된 우선순위입니다. 1-4 숫자를 입력: -p 1~4 또는 ^1~4");
    assert_eq!(e(&["1", "-p", "x"]), "잘못된 우선순위입니다. 1-4 숫자를 입력: -p 1~4 또는 ^1~4");
}

#[test]
fn edit_reply_parses_the_trimmed_reply() {
    let u = edit_reply("  Updated content @3/15 ^1 \n", today()).unwrap();
    assert_eq!(u.todo, Some("Updated content".to_string()));
    assert_eq!(u.due_date, Some("20260315".to_string()));
    assert_eq!(u.priority, Some(1));
    assert_eq!(u.up_id, None);
}

#[test]
fn edit_reply_with_only_inline_words_keeps_them_as_content() {
    let u = edit_reply("@today", today()).unwrap();
    assert_eq!(u.todo, Some("@today".to_string()));
    assert_eq!(u.due_date, Some("20260310".to_string()));
}

#[test]
fn edit_reply_blank_is_none() {
    assert!(edit_reply("   \n", today()).is_none());
}

#[test]
fn add_priority_flag_and_mark_agree() {
    let a = plan_add(&["Write", "report", "-p", "2"], &[], today()).unwrap();
    let b = plan_add(&["Write", "report", "^2"], &[], today()).unwrap();
    assert_eq!(a.todo, "Write report");
    assert_eq!(b.todo, a.todo);
    assert_eq!(a.priority, Some(2));
    assert_eq!(b.priority, a.priority);
    assert_eq!(b.due_date, a.due_date);
}

#[test]
fn add_date_flag_and_mark_agree() {
    let a = plan_add(&["Pay", "rent", "-d", "2026/4/1"], &[], today()).unwrap();
    let b = plan_add(&["Pay", "rent", "@2026/4/1"], &[], today()).unwrap();
    assert_eq!(a.todo, "Pay rent");
    assert_eq!(b.todo, a.todo);
    assert_eq!(a.due_date, Some("20260401".to_string()));
    assert_eq!(b.due_date, a.due_date);
    assert_eq!(b.priority, a.priority);
}

#[test]
fn edit_priority_flag_and_mark_agree() {
    let (ids_a, a) = batch(&["2", "New", "text", "-p", "3"]);
    let (ids_b, b) = batch(&["2", "New", "text", "^3"]);
    assert_eq!(ids_a, vec![20]);
    assert_eq!(ids_b, ids_a);
    assert_eq!(a.todo, Some("New text".to_string()));
    assert_eq!(b.todo, a.todo);
    assert_eq!(a.priority, Some(3));
    assert_eq!(b.priority, a.priority);
    assert_eq!(b.due_date, a.due_date);
}

#[test]
fn edit_date_flag_and_mark_agree() {
    let (_, a) = batch(&["3", "-d", "tomorrow"]);
    let (_, b) = batch(&["3", "@tomorrow"]);
    assert_eq!(a.due_date, Some("20260311".to_string()));
    assert_eq!(b.due_date, a.due_date);
    assert_eq!(a.todo, None);
    assert_eq!(b.todo, a.todo);
    assert_eq!(b.priority, a.priority);
}

#[test]
fn more_names_todos_and_changes() {
    let (ids, update) = plan_more(&["2"], &[10, 20, 30], today()).unwrap();
    assert_eq!(ids, vec![20]);
    assert!(update.is_none());
    let (ids, update) = plan_more(&["1,3", "-p", "1", "-u", "0"], &[10, 20, 30], today()).unwrap();
    assert_eq!(ids, vec![10, 30]);
    let u = update.unwrap();
    assert_eq!(u.priority, Some(1));
    assert!(u.top_level);
    assert_eq!(plan_more(&["9"], &[10, 20, 30], today()).err().unwrap(), BAD_NUMBER);
    assert_eq!(
        plan_more(&[], &[10, 20, 30], today()).err().unwrap(),
        "사용법: more <리스트번호>[,...] [-d 날짜] [-p 우선순위] [-u 리스트번호]"
    );
    assert_eq!(
        plan_more(&["1", "-p", "7"], &[10, 20, 30], today()).err().unwrap(),
        "잘못된 우선순위입니다. 1-4 숫자를 입력: -p 1~4 또는 ^1~4"
    );
}

fn stored(up_id: Option<i64>) -> Todo {
    Todo {
        id: 7,
        todo: "Water plants".to_string(),
        due_date: Some("20260312".to_string()),
        priority: 2,
        up_id,
        done: 3,
        done_at: None,
        deleted_at: None,
        created_at: "20260301T000000".to_string(),
        updated_at: "20260301T000000".to_string(),
        repetition_period: Some("w".to_string()),
    }
}

#[test]
fn copy_keeps_content_priority_and_parent() {
    let c = copy_todo(&stored(Some(4)), &None);
    assert_eq!(c.todo, "Water plants");
    assert_eq!(c.priority, Some(2));
    assert_eq!(c.up_id, Some(4));
    assert_eq!(c.due_date, None);
    assert_eq!(c.repetition, None);
}

#[test]
fn copy_takes_the_changes() {
    let (_, update) = plan_more(&["1", "@3/20", "^1", "-u", "0"], &[10], today()).unwrap();
    let c = copy_todo(&stored(Some(4)), &update);
    assert_eq!(c.todo, "Water plants");
    assert_eq!(c.due_date, Some("20260320".to_string()));
    assert_eq!(c.priority, Some(1));
    assert_eq!(c.up_id, None);
    let (_, update) = plan_more(&["1", "-u", "1"], &[10], today()).unwrap();
    let c = copy_todo(&stored(None), &update);
    assert_eq!(c.up_id, Some(10));
    assert_eq!(c.priority, Some(2));
}

#[test]
fn add_flags_and_marks_agree_together() {
    let a = plan_add(&["Call", "mom", "-d", "3/20", "-p", "1"], &[], today()).unwrap();
    let b = plan_add(&["Call", "mom", "@3/20", "^1"], &[], today()).unwrap();
    assert_eq!(a.todo, "Call mom");
    assert_eq!(b.todo, a.todo);
    assert_eq!(a.due_date, Some("20260320".to_string()));
    assert_eq!(b.due_date, a.due_date);
    assert_eq!(a.priority, Some(1));
    assert_eq!(b.priority, a.priority);
}

#[test]
fn edit_flags_and_marks_agree_together() {
    let (_, a) = batch(&["1", "Call", "dad", "-d", "3/20", "-p", "4"]);
    let (_, b) = batch(&["1", "Call", "dad", "@3/20", "^4"]);
    assert_eq!(a.todo, Some("Call dad".to_string()));
    assert_eq!(b.todo, a.todo);
    assert_eq!(a.due_date, Some("20260320".to_string()));
    assert_eq!(b.due_date, a.due_date);
    assert_eq!(a.priority, Some(4));
    assert_eq!(b.priority, a.priority);
}

#[test]
fn edit_with_a_flag_leaves_inline_words_alone() {
    let (_, u) = batch(&["1", "Buy", "milk", "^2", "-d", "3/30"]);
    assert_eq!(u.todo, None);
    assert_eq!(u.priority, None);
    assert_eq!(u.due_date, Some("20260330".to_string()));
    let (_, u) = batch(&["1", "text", "@3/40", "-p", "2"]);
    assert_eq!(u.todo, None);
    assert_eq!(u.priority, Some(2));
    assert_eq!(u.due_date, None);
    let (_, u) = batch(&["1", "New", "words", "-p", "2"]);
    assert_eq!(u.todo, Some("New words".to_string()));
}
