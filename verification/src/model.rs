use vstd::prelude::*;

use crate::calendar::{date_key, format_date_as, local_today, Date};

verus! {

/// Todo item stored in database
///
/// `due_date` and `done_at` are "YYYYMMDD"; `priority` is 1 (highest) to 4,
/// 3 by default; `up_id` is the parent todo; `done` is the done level 0 to 5
/// (5 = complete); `deleted_at`, `created_at` and `updated_at` are
/// "YYYYMMDDTHHMMSS" timestamps; `repetition_period` is the period of a
/// recurring todo (see `repeat`).
#[derive(Debug)]
pub struct Todo {
    pub id: i64,
    pub todo: String,
    pub due_date: Option<String>,
    pub priority: i32,
    pub up_id: Option<i64>,
    pub done: i32,
    pub done_at: Option<String>,
    pub deleted_at: Option<String>,
    pub created_at: String,
    pub updated_at: String,
    pub repetition_period: Option<String>,
}

/// New todo data for creation
#[derive(Debug)]
pub struct NewTodo {
    pub todo: String,
    pub due_date: Option<String>,
    pub priority: Option<i32>,
    pub up_id: Option<i64>,
    pub repetition: Option<String>,
}

/// Todo update data: only the fields that are `Some` change; `top_level`
/// removes the parent (unless `up_id` names a new one), and
/// `clear_repetition` the repetition (unless `repetition` sets a new one).
#[derive(Debug)]
pub struct UpdateTodo {
    pub todo: Option<String>,
    pub due_date: Option<String>,
    pub priority: Option<i32>,
    pub up_id: Option<i64>,
    pub top_level: bool,
    pub repetition: Option<String>,
    pub clear_repetition: bool,
}

/// The characters of an optional string.
pub open spec fn opt_chars(o: Option<String>) -> Option<Seq<char>> {
    match o {
        Some(s) => Some(s@),
        None => None,
    }
}

/// A copy of an optional string.
pub fn copy_opt_string(o: &Option<String>) -> (r: Option<String>)
    ensures
        opt_chars(r) == opt_chars(*o),
{
    match o {
        Some(s) => Some(s.clone()),
        None => None,
    }
}

/// The values of a todo, with its strings as character sequences.
pub struct TodoView {
    pub id: i64,
    pub todo: Seq<char>,
    pub due_date: Option<Seq<char>>,
    pub priority: i32,
    pub up_id: Option<i64>,
    pub done: i32,
    pub done_at: Option<Seq<char>>,
    pub deleted_at: Option<Seq<char>>,
    pub created_at: Seq<char>,
    pub updated_at: Seq<char>,
    pub repetition_period: Option<Seq<char>>,
}

impl View for Todo {
    type V = TodoView;

    open spec fn view(&self) -> TodoView {
        TodoView {
            id: self.id,
            todo: self.todo@,
            due_date: opt_chars(self.due_date),
            priority: self.priority,
            up_id: self.up_id,
            done: self.done,
            done_at: opt_chars(self.done_at),
            deleted_at: opt_chars(self.deleted_at),
            created_at: self.created_at@,
            updated_at: self.updated_at@,
            repetition_period: opt_chars(self.repetition_period),
        }
    }
}

/// The values of a list of todos.
pub open spec fn todo_views(v: Seq<Todo>) -> Seq<TodoView> {
    v.map_values(|t: Todo| t@)
}

impl Todo {
    /// A field-by-field copy of the todo.
    pub fn copy(&self) -> (r: Todo)
        ensures
            r@ == self@,
    {
        Todo {
            id: self.id,
            todo: self.todo.clone(),
            due_date: copy_opt_string(&self.due_date),
            priority: self.priority,
            up_id: self.up_id,
            done: self.done,
            done_at: copy_opt_string(&self.done_at),
            deleted_at: copy_opt_string(&self.deleted_at),
            created_at: self.created_at.clone(),
            updated_at: self.updated_at.clone(),
            repetition_period: copy_opt_string(&self.repetition_period),
        }
    }

    /// The todo with an update applied: each field of the update that is
    /// `Some` replaces the stored one, and the update time is `updated_at`.
    pub open spec fn updated_by(self, update: UpdateTodo, updated_at: Seq<char>, r: Todo) -> bool {
        &&& r.id == self.id
        &&& r.todo@ == (match update.todo {
            Some(t) => t@,
            None => self.todo@,
        })
        &&& opt_chars(r.due_date) == (match update.due_date {
            Some(d) => Some(d@),
            None => opt_chars(self.due_date),
        })
        &&& r.priority == (match update.priority {
            Some(p) => p,
            None => self.priority,
        })
        &&& r.up_id == (match update.up_id {
            Some(u) => Some(u),
            None => if update.top_level {
                None
            } else {
                self.up_id
            },
        })
        &&& r.done == self.done
        &&& opt_chars(r.done_at) == opt_chars(self.done_at)
        &&& opt_chars(r.deleted_at) == opt_chars(self.deleted_at)
        &&& r.created_at@ == self.created_at@
        &&& r.updated_at@ == updated_at
        &&& opt_chars(r.repetition_period) == (match update.repetition {
            Some(p) => Some(p@),
            None => if update.clear_repetition {
                None
            } else {
                opt_chars(self.repetition_period)
            },
        })
    }
}

/// The priority stored for a new todo: the one asked for, else 3.
pub fn stored_priority(requested: Option<i32>) -> (r: i32)
    ensures
        r == match requested {
            Some(p) => p,
            None => 3,
        },
{
    match requested {
        Some(p) => p,
        None => 3,
    }
}

/// Apply updates (None means keep current value), stamping `updated_at`.
pub fn apply_update(current: &Todo, update: UpdateTodo, updated_at: String) -> (r: Todo)
    ensures
        current.updated_by(update, updated_at@, r),
{
    let todo = match update.todo {
        Some(t) => t,
        None => current.todo.clone(),
    };
    let due_date = match update.due_date {
        Some(d) => Some(d),
        None => copy_opt_string(&current.due_date),
    };
    let priority = match update.priority {
        Some(p) => p,
        None => current.priority,
    };
    let up_id = match update.up_id {
        Some(p) => Some(p),
        None => if update.top_level {
            None
        } else {
            current.up_id
        },
    };
    Todo {
        id: current.id,
        todo,
        due_date,
        priority,
        up_id,
        done: current.done,
        done_at: copy_opt_string(&current.done_at),
        deleted_at: copy_opt_string(&current.deleted_at),
        created_at: current.created_at.clone(),
        updated_at,
        repetition_period: match update.repetition {
            Some(p) => Some(p),
            None => if update.clear_repetition {
                None
            } else {
                copy_opt_string(&current.repetition_period)
            },
        },
    }
}

/// The done level after `set_done`: the level given, or, with none given, a
/// toggle between complete (5) and not done (0).
pub open spec fn next_done(current: i32, level: Option<i32>) -> i32 {
    match level {
        Some(l) => l,
        None => if current == 5 {
            0
        } else {
            5
        },
    }
}

/// `set_done` without a level toggles: the todo becomes complete exactly
/// when it was not, and toggling twice brings back a todo that was complete
/// (5) or not started (0).
pub proof fn lemma_done_toggle(current: i32)
    ensures
        (next_done(current, None) == 5) == (current != 5),
        current == 0 || current == 5 ==> next_done(next_done(current, None), None) == current,
{
}

/// An update with no field set changes nothing but the update time.
pub proof fn lemma_empty_update_keeps(current: Todo, update: UpdateTodo, updated_at: Seq<char>, r: Todo)
    requires
        update.todo is None,
        update.due_date is None,
        update.priority is None,
        update.up_id is None,
        !update.top_level,
        update.repetition is None,
        !update.clear_repetition,
        current.updated_by(update, updated_at, r),
    ensures
        r@ == (TodoView { updated_at: updated_at, ..current@ }),
{
}

/// The done level and completion date that `set_done` stores, seen from
/// `today`: the date is set exactly when the todo becomes complete.
pub fn done_change_on(current: i32, level: Option<i32>, today: Date) -> (r: (i32, Option<String>))
    requires
        today.valid(),
    ensures
        r.0 == next_done(current, level),
        opt_chars(r.1) == (if r.0 == 5 {
            Some(date_key(today))
        } else {
            None
        }),
{
    let new_done = match level {
        Some(l) => l,
        None => if current == 5 {
            0
        } else {
            5
        },
    };
    let done_at = if new_done == 5 {
        Some(format_date_as(today, "%Y%m%d"))
    } else {
        None
    };
    (new_done, done_at)
}

/// The done level and completion date that `set_done` stores, seen from
/// today's local date.
pub fn done_change(current: i32, level: Option<i32>) -> (r: (i32, Option<String>))
    ensures
        r.0 == next_done(current, level),
        exists|today: Date|
            today.valid() && opt_chars(r.1) == (if r.0 == 5 {
                Some(date_key(today))
            } else {
                None
            }),
{
    let today = local_today();
    done_change_on(current, level, today)
}

/// The path type of std, declared so that repositories can hold one.
#[verifier::external_type_specification]
#[verifier::external_body]
pub struct ExPathBuf(std::path::PathBuf);

/// SQLite repository: local file-based SQLite database, opened afresh for
/// each operation.
pub struct SqliteRepo {
    /// Path to SQLite database file
    path: std::path::PathBuf,
}

impl SqliteRepo {
    /// The path of the database file.
    pub closed spec fn file(self) -> std::path::PathBuf {
        self.path
    }

    /// Create new SQLite repository
    pub fn new(path: std::path::PathBuf) -> (r: Self)
        ensures
            r.file() == path,
    {
        Self { path }
    }

    /// The path of the database file.
    pub fn path(&self) -> (r: &std::path::PathBuf)
        ensures
            *r == self.file(),
    {
        &self.path
    }
}

/// Database repository: the CRUD operations that store todos. Implement
/// this trait to add a database backend.
pub trait TodoRepository: Send + Sync {
    /// Initialize the database schema (create tables if not exist).
    fn init(&self) -> Result<(), String>;

    /// Create a new todo; returns it with its generated id.
    fn create(&self, new_todo: NewTodo) -> Result<Todo, String>;

    /// The todo with this id, if there is one.
    fn find_by_id(&self, id: i64) -> Result<Option<Todo>, String>;

    /// All todos that are not deleted, completed ones only when asked for.
    fn find_all(&self, include_done: bool) -> Result<Vec<Todo>, String>;

    /// All todos, deleted ones too (for looking up parents).
    fn find_all_including_deleted(&self) -> Result<Vec<Todo>, String>;

    /// Update an existing todo (only the fields that the update sets change).
    fn update(&self, id: i64, update: UpdateTodo) -> Result<Todo, String>;

    /// Soft delete a todo (sets `deleted_at`).
    fn delete(&self, id: i64) -> Result<(), String>;

    /// Set the done level (0-5), or toggle it when none is given.
    fn set_done(&self, id: i64, done_level: Option<i32>) -> Result<Todo, String>;

    /// The todos whose content holds the keyword (completed ones too).
    fn search(&self, keyword: &str) -> Result<Vec<Todo>, String>;
}

/// PostgreSQL placeholder for future implementation
pub struct PostgresRepo;

impl PostgresRepo {
    /// Create placeholder PostgreSQL repository; the connection string is not
    /// used yet.
    pub fn new(_connection_string: String) -> (r: Self)
        ensures
            r == PostgresRepo,
    {
        Self
    }
}

/// Today's local date.
pub fn current_date() -> (r: Date)
    ensures
        r.valid(),
{
    local_today()
}

} // verus!
