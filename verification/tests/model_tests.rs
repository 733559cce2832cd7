use todoj::calendar::Date;
use todoj::model::{apply_update, done_change_on, stored_priority, PostgresRepo, SqliteRepo, Todo, UpdateTodo};

fn today() -> Date {
    Date { year: 2026, month: 3, day: 10 }
}

fn sample() -> Todo {
    Todo {
        id: 7,
        todo: "Write report".to_string(),
        due_date: Some("20260315".to_string()),
        priority: 2,
        up_id: None,
        done: 3,
        done_at: None,
        deleted_at: None,
        created_at: "20260301T080000".to_string(),
        updated_at: "20260301T080000".to_string(),
        repetition_period: None,
    }
}

#[test]
fn new_todos_default_to_priority_three() {
    assert_eq!(stored_priority(None), 3);
    assert_eq!(stored_priority(Some(1)), 1);
}

#[test]
fn update_replaces_only_given_fields() {
    let u = UpdateTodo { todo: None, due_date: Some("20260401".to_string()), priority: None, up_id: Some(3), top_level: false, repetition: None, clear_repetition: false };
    let r = apply_update(&sample(), u, "20260310T090000".to_string());
    assert_eq!(r.id, 7);
    assert_eq!(r.todo, "Write report");
    assert_eq!(r.due_date, Some("20260401".to_string()));
    assert_eq!(r.priority, 2);
    assert_eq!(r.up_id, Some(3));
    assert_eq!(r.done, 3);
    assert_eq!(r.created_at, "20260301T080000");
    assert_eq!(r.updated_at, "20260310T090000");
}

#[test]
fn empty_update_changes_only_the_update_time() {
    let u = UpdateTodo { todo: None, due_date: None, priority: None, up_id: None, top_level: false, repetition: None, clear_repetition: false };
    let r = apply_update(&sample(), u, "20260310T090000".to_string());
    let s = sample();
    assert_eq!((r.id, r.todo, r.due_date, r.priority, r.up_id, r.done), (s.id, s.todo, s.due_date, s.priority, s.up_id, s.done));
    assert_eq!(r.updated_at, "20260310T090000");
}

#[test]
fn top_level_update_removes_the_parent() {
    let mut child = sample();
    child.up_id = Some(3);
    let u = UpdateTodo { todo: None, due_date: None, priority: None, up_id: None, top_level: true, repetition: None, clear_repetition: false };
    let r = apply_update(&child, u, "20260310T090000".to_string());
    assert_eq!(r.up_id, None);
    assert_eq!(r.todo, "Write report");
    assert_eq!(r.due_date, Some("20260315".to_string()));
    assert_eq!(r.priority, 2);
}

#[test]
fn done_without_level_toggles() {
    assert_eq!(done_change_on(0, None, today()), (5, Some("20260310".to_string())));
    assert_eq!(done_change_on(3, None, today()), (5, Some("20260310".to_string())));
    assert_eq!(done_change_on(5, None, today()), (0, None));
}

#[test]
fn toggling_twice_restores_a_complete_todo() {
    let (first, _) = done_change_on(5, None, today());
    let (second, at) = done_change_on(first, None, today());
    assert_eq!(second, 5);
    assert_eq!(at, Some("20260310".to_string()));
}

#[test]
fn done_with_level_sets_it() {
    assert_eq!(done_change_on(0, Some(4), today()), (4, None));
    assert_eq!(done_change_on(5, Some(5), today()), (5, Some("20260310".to_string())));
    assert_eq!(done_change_on(2, Some(0), today()), (0, None));
}

#[test]
fn repositories_keep_their_settings() {
    let repo = SqliteRepo::new(std::path::PathBuf::from("/tmp/todo.db"));
    assert_eq!(repo.path(), &std::path::PathBuf::from("/tmp/todo.db"));
    let _pg = PostgresRepo::new("postgres://localhost/todo".to_string());
}
