use todoj::calendar::Date;
use todoj::list_view::render_list_on;
use todoj::model::Todo;

const YELLOW: &str = "\x1b[38;2;251;191;36m";
const GREEN: &str = "\x1b[38;2;34;197;94m";
const P1: &str = "\x1b[38;2;235;137;53m";
const P2: &str = "\x1b[38;2;59;130;246m";
const P3: &str = "\x1b[38;2;52;211;153m";
const P4: &str = "\x1b[38;2;156;163;175m";
const GREY: &str = "\x1b[38;2;156;163;175m";
const RESET: &str = "\x1b[0m";

fn today() -> Date {
    Date { year: 2026, month: 3, day: 10 }
}

fn todo(
    id: i64,
    text: &str,
    due: Option<&str>,
    priority: i32,
    up_id: Option<i64>,
    done: i32,
    done_at: Option<&str>,
) -> Todo {
    Todo {
        id,
        todo: text.to_string(),
        due_date: due.map(|d| d.to_string()),
        priority,
        up_id,
        done,
        done_at: done_at.map(|d| d.to_string()),
        deleted_at: None,
        created_at: "20260301T000000".to_string(),
        updated_at: "20260301T000000".to_string(),
        repetition_period: None,
    }
}

fn walk_dog() -> Todo {
    todo(2, "Walk dog", Some("20260311"), 2, None, 2, None)
}

fn groceries() -> Todo {
    todo(1, "Buy groceries", Some("20260320"), 3, None, 0, None)
}

fn walk_dog_line(num: usize) -> String {
    format!("{} [ ] Walk dog {}@26-03-11(Wed){} {}^2{} 40%\n", num, YELLOW, RESET, P2, RESET)
}

fn groceries_line(num: usize) -> String {
    format!("{} [ ] Buy groceries {}@26-03-20(Fri){} {}^3{}\n", num, GREEN, RESET, P3, RESET)
}

#[test]
fn empty_list_says_so() {
    let s = render_list_on(&vec![], &vec![], false, false, None, None, None, None, today()).unwrap();
    assert_eq!(s.text, "=== TODO ===\nTODO가 없습니다.\n");
    assert!(s.display_ids.is_empty());
    assert!(!s.listed);
}

#[test]
fn header_names_the_modes() {
    let s = render_list_on(&vec![], &vec![], true, true, None, None, None, None, today()).unwrap();
    assert_eq!(s.text, "=== TODO order show ===\nTODO가 없습니다.\n");
}

#[test]
fn completed_todos_alone_are_hidden_without_show() {
    let done = vec![todo(3, "Paid bills", None, 1, None, 5, Some("20260309"))];
    let s = render_list_on(&done, &done, false, false, None, None, None, None, today()).unwrap();
    assert_eq!(s.text, "=== TODO ===\nTODO가 없습니다.\n");
}

#[test]
fn incomplete_todos_in_fetched_order() {
    let todos = vec![walk_dog(), groceries()];
    let s = render_list_on(&todos, &todos, false, false, None, None, None, None, today()).unwrap();
    let expected = format!("=== TODO ===\n{}{}", walk_dog_line(1), groceries_line(2));
    assert_eq!(s.text, expected);
    assert_eq!(s.display_ids, vec![2, 1]);
    assert!(s.listed);
}

#[test]
fn completed_todos_follow_latest_first() {
    let old = todo(4, "Old", None, 4, None, 5, Some("20260305"));
    let paid = todo(3, "Paid bills", None, 1, None, 5, Some("20260309"));
    let todos = vec![old, walk_dog(), groceries(), paid];
    let s = render_list_on(&todos, &todos, true, false, None, None, None, None, today()).unwrap();
    let expected = format!(
        "=== TODO show ===\n{}{}\n3 [x] Paid bills {}^1{} %26-03-09(Mon){}\n4 [x] Old {}^4{} %26-03-05(Thu){}\n",
        walk_dog_line(1),
        groceries_line(2),
        P1,
        RESET,
        RESET,
        P4,
        RESET,
        RESET
    );
    assert_eq!(s.text, expected);
    assert_eq!(s.display_ids, vec![2, 1, 3, 4]);
}

#[test]
fn limit_shows_the_first_items() {
    let todos = vec![walk_dog(), groceries()];
    let s = render_list_on(&todos, &todos, false, false, Some(1), None, None, None, today()).unwrap();
    assert_eq!(s.text, format!("=== TODO ===\n{}", walk_dog_line(1)));
    assert_eq!(s.display_ids, vec![2, 1]);
}

#[test]
fn page_shows_that_page() {
    let todos = vec![walk_dog(), groceries()];
    let s = render_list_on(&todos, &todos, false, false, Some(1), Some(2), None, None, today()).unwrap();
    assert_eq!(s.text, format!("=== TODO ===\n{}", groceries_line(2)));
    assert_eq!(s.display_ids, vec![2, 1]);
}

#[test]
fn range_shows_those_numbers() {
    let todos = vec![walk_dog(), groceries()];
    let s = render_list_on(&todos, &todos, false, false, None, None, Some(2), Some(2), today()).unwrap();
    assert_eq!(s.text, format!("=== TODO ===\n{}", groceries_line(2)));
    let s = render_list_on(&todos, &todos, false, false, None, None, Some(2), None, today()).unwrap();
    assert_eq!(s.text, format!("=== TODO ===\n{}", groceries_line(2)));
}

#[test]
fn limit_cuts_the_whole_list() {
    let old = todo(4, "Old", None, 4, None, 5, Some("20260305"));
    let paid = todo(3, "Paid bills", None, 1, None, 5, Some("20260309"));
    let todos = vec![old, walk_dog(), groceries(), paid];
    let s = render_list_on(&todos, &todos, true, false, Some(3), None, None, None, today()).unwrap();
    let expected = format!(
        "=== TODO show ===\n{}{}\n3 [x] Paid bills {}^1{} %26-03-09(Mon){}\n",
        walk_dog_line(1),
        groceries_line(2),
        P1,
        RESET,
        RESET
    );
    assert_eq!(s.text, expected);
    assert_eq!(s.display_ids, vec![2, 1, 3, 4]);
}

#[test]
fn range_numbers_name_the_printed_todos() {
    let old = todo(4, "Old", None, 4, None, 5, Some("20260305"));
    let paid = todo(3, "Paid bills", None, 1, None, 5, Some("20260309"));
    let todos = vec![old, walk_dog(), groceries(), paid];
    let s = render_list_on(&todos, &todos, true, false, None, None, Some(2), Some(3), today()).unwrap();
    let expected = format!(
        "=== TODO show ===\n{}\n3 [x] Paid bills {}^1{} %26-03-09(Mon){}\n",
        groceries_line(2),
        P1,
        RESET,
        RESET
    );
    assert_eq!(s.text, expected);
    assert_eq!(s.display_ids[1], 1);
    assert_eq!(s.display_ids[2], 3);
}

#[test]
fn page_zero_is_refused() {
    let todos = vec![walk_dog(), groceries()];
    assert!(render_list_on(&todos, &todos, false, false, Some(1), Some(0), None, None, today()).is_none());
}

fn family() -> Vec<Todo> {
    vec![
        todo(12, "Another", Some("20260312"), 2, None, 0, None),
        todo(10, "Parent task", None, 3, None, 0, None),
        todo(11, "Sub-task", None, 3, Some(10), 0, None),
    ]
}

#[test]
fn order_mode_puts_sub_todos_under_their_parent() {
    let todos = family();
    let s = render_list_on(&todos, &todos, false, true, None, None, None, None, today()).unwrap();
    let expected = format!(
        "=== TODO order ===\n1 [ ] Another {}@26-03-12(Thu){} {}^2{}\n2 [ ] Parent task {}^3{}\n3   [ ] {}2>{} Sub-task {}^3{}\n",
        YELLOW, RESET, P2, RESET, P3, RESET, GREY, RESET, P3, RESET
    );
    assert_eq!(s.text, expected);
    assert_eq!(s.display_ids, vec![12, 10, 11]);
}

#[test]
fn order_mode_sorts_children_by_due_date() {
    let todos = vec![
        todo(1, "Root", None, 3, None, 0, None),
        todo(2, "Late", Some("20260401"), 3, Some(1), 0, None),
        todo(3, "Undated", None, 3, Some(1), 0, None),
        todo(4, "Early", Some("20260320"), 3, Some(1), 0, None),
    ];
    let s = render_list_on(&todos, &todos, false, true, None, None, None, None, today()).unwrap();
    assert_eq!(s.display_ids, vec![1, 4, 2, 3]);
}

#[test]
fn without_order_mode_sub_todos_keep_their_place() {
    let todos = family();
    let s = render_list_on(&todos, &todos, false, false, None, None, None, None, today()).unwrap();
    let expected = format!(
        "=== TODO ===\n1 [ ] Another {}@26-03-12(Thu){} {}^2{}\n2 [ ] Parent task {}^3{}\n3 [ ] {}2>{} Sub-task {}^3{}\n",
        YELLOW, RESET, P2, RESET, P3, RESET, GREY, RESET, P3, RESET
    );
    assert_eq!(s.text, expected);
}

#[test]
fn missing_parent_shows_as_x() {
    let todos = vec![todo(21, "Orphan", None, 3, Some(20), 0, None)];
    let s = render_list_on(&todos, &todos, false, false, None, None, None, None, today()).unwrap();
    assert_eq!(s.text, format!("=== TODO ===\n1 [ ] {}x>{} Orphan {}^3{}\n", GREY, RESET, P3, RESET));
}

#[test]
fn completed_parent_ends_the_chain() {
    let all = vec![
        todo(1, "Top", None, 3, None, 0, None),
        todo(2, "Finished", None, 3, Some(1), 5, Some("20260301")),
        todo(3, "Child", None, 3, Some(2), 0, None),
    ];
    let todos = vec![all[0].copy(), all[2].copy()];
    let s = render_list_on(&todos, &all, false, false, None, None, None, None, today()).unwrap();
    assert_eq!(s.text, format!("=== TODO ===\n1 [ ] Top {}^3{}\n2 [ ] {}x>{} Child {}^3{}\n", P3, RESET, GREY, RESET, P3, RESET));
}

#[test]
fn looping_parent_links_are_refused() {
    let todos = vec![
        todo(30, "A", None, 3, Some(31), 0, None),
        todo(31, "B", None, 3, Some(30), 0, None),
    ];
    assert!(render_list_on(&todos, &todos, false, false, None, None, None, None, today()).is_none());
}

#[test]
fn wide_numbers_are_padded() {
    let todos: Vec<Todo> = (1..=10).map(|i| todo(i, "t", None, 3, None, 0, None)).collect();
    let s = render_list_on(&todos, &todos, false, false, None, None, None, None, today()).unwrap();
    assert!(s.text.contains(&format!("\n 1 [ ] t {}^3{}\n", P3, RESET)));
    assert!(s.text.ends_with(&format!("\n10 [ ] t {}^3{}\n", P3, RESET)));
}

#[test]
fn order_mode_lists_children_of_completed_parents_once() {
    let all = vec![
        todo(1, "Done parent", None, 3, None, 5, Some("20260301")),
        todo(2, "Child", None, 3, Some(1), 0, None),
        todo(3, "Loose", None, 3, None, 0, None),
    ];
    let todos = vec![all[1].copy(), all[2].copy()];
    let s = render_list_on(&todos, &all, false, true, None, None, None, None, today()).unwrap();
    assert_eq!(s.display_ids, vec![3, 2]);
    assert_eq!(
        s.text,
        format!("=== TODO order ===\n1 [ ] Loose {}^3{}\n2   [ ] {}x>{} Child {}^3{}\n", P3, RESET, GREY, RESET, P3, RESET)
    );
}
