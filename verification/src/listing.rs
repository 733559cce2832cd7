use std::collections::HashMap;
use vstd::prelude::*;

use crate::calendar::{local_today, Date};
use crate::dates::{color_for_due_date_on, display_date, due_color, format_date, key_sliceable};
use crate::repeat::{push_repetition_part, repetition_part};
use crate::model::{Todo, TodoView, todo_views};
use crate::text::{
    byte_len, decimal, decimal_text, left_pad, push_char, push_right_aligned, signed_decimal,
    signed_decimal_text,
};

verus! {

broadcast use vstd::std_specs::hash::group_hash_axioms;

/// Grey, for parent references.
pub const PARENT_COLOR: &'static str = "\x1b[38;2;156;163;175m";

/// Back to the terminal's default color.
pub const RESET: &'static str = "\x1b[0m";

/// The position of the first todo with this id, from position `i` on.
pub open spec fn position_of_id(all: Seq<TodoView>, id: i64, i: int) -> Option<int>
    decreases all.len() - i,
{
    if i < 0 || i >= all.len() {
        None
    } else if all[i].id == id {
        Some(i)
    } else {
        position_of_id(all, id, i + 1)
    }
}

/// The chain of parent ids from `id` up: each todo's parent in turn, ending
/// at a completed todo, a top-level todo or an id that no todo has. `None`
/// when the chain does not end within `fuel` steps (it loops).
pub open spec fn chain_from(all: Seq<TodoView>, id: i64, fuel: nat) -> Option<Seq<i64>>
    decreases fuel,
{
    if fuel == 0 {
        None
    } else {
        match position_of_id(all, id, 0) {
            Some(i) => if all[i].done == 5 {
                Some(seq![id])
            } else {
                match all[i].up_id {
                    Some(next) => match chain_from(all, next, (fuel - 1) as nat) {
                        Some(c) => Some(seq![id] + c),
                        None => None,
                    },
                    None => Some(seq![id]),
                }
            },
            None => Some(seq![id]),
        }
    }
}

/// The chain of parent ids from `id` up, if it ends: a chain that ends
/// visits each todo at most once, so one step more than there are todos
/// suffices.
pub open spec fn parent_chain(all: Seq<TodoView>, id: i64) -> Option<Seq<i64>> {
    chain_from(all, id, (all.len() + 1) as nat)
}

/// The position of the first `x` in `s`, from position `i` on.
pub open spec fn first_index(s: Seq<i64>, x: i64, i: int) -> int
    decreases s.len() - i,
{
    if i < 0 || i >= s.len() {
        s.len() as int
    } else if s[i] == x {
        i
    } else {
        first_index(s, x, i + 1)
    }
}

/// Whether a completed todo has this id.
pub open spec fn completed_id(all: Seq<TodoView>, id: i64) -> bool {
    exists|i: int| 0 <= i < all.len() && all[i].id == id && all[i].done == 5
}

/// The reference to one parent: its list number and `>`, `x>` for a parent
/// that is not listed, nothing for a listed parent without a position that
/// is not completed.
pub open spec fn parent_piece(id: i64, display_ids: Seq<i64>, all: Seq<TodoView>, pos: Map<i64, usize>) -> Seq<char> {
    if display_ids.contains(id) {
        if pos.contains_key(id) {
            PARENT_COLOR@ + decimal((pos[id] + 1) as nat) + seq!['>']
        } else if completed_id(all, id) {
            PARENT_COLOR@ + decimal((first_index(display_ids, id, 0) + 1) as nat) + seq!['>']
        } else {
            seq![]
        }
    } else {
        PARENT_COLOR@ + seq!['x', '>']
    }
}

/// The references to the parents of a chain, root first.
pub open spec fn chain_pieces(chain: Seq<i64>, display_ids: Seq<i64>, all: Seq<TodoView>, pos: Map<i64, usize>) -> Seq<char>
    decreases chain.len(),
{
    if chain.len() == 0 {
        seq![]
    } else {
        parent_piece(chain.last(), display_ids, all, pos) + chain_pieces(
            chain.drop_last(),
            display_ids,
            all,
            pos,
        )
    }
}

/// The parent reference text for a parent chain: the pieces, root first,
/// then a color reset; empty when no piece shows.
pub open spec fn parent_text(chain: Seq<i64>, display_ids: Seq<i64>, all: Seq<TodoView>, pos: Map<i64, usize>) -> Seq<char> {
    let p = chain_pieces(chain, display_ids, all, pos);
    if p.len() == 0 {
        seq![]
    } else {
        p + RESET@
    }
}

fn position_in_todos(all: &[Todo], id: i64) -> (r: Option<usize>)
    ensures
        match r {
            Some(i) => position_of_id(todo_views(all@), id, 0) == Some(i as int) && i < all.len(),
            None => position_of_id(todo_views(all@), id, 0) is None,
        },
{
    let ghost views = todo_views(all@);
    let mut i: usize = 0;
    while i < all.len()
        invariant
            i <= all.len(),
            views == todo_views(all@),
            position_of_id(views, id, 0) == position_of_id(views, id, i as int),
        decreases all.len() - i,
    {
        assert(views[i as int] == all@[i as int]@);
        if all[i].id == id {
            return Some(i);
        }
        i = i + 1;
    }
    None
}

fn is_completed_id(all: &[Todo], id: i64) -> (r: bool)
    ensures
        r == completed_id(todo_views(all@), id),
{
    let ghost views = todo_views(all@);
    let mut i: usize = 0;
    while i < all.len()
        invariant
            i <= all.len(),
            views == todo_views(all@),
            forall|j: int| 0 <= j < i ==> !(views[j].id == id && views[j].done == 5),
        decreases all.len() - i,
    {
        assert(views[i as int] == all@[i as int]@);
        if all[i].id == id && all[i].done == 5 {
            return true;
        }
        i = i + 1;
    }
    false
}

fn index_in(s: &[i64], x: i64) -> (r: usize)
    ensures
        r == first_index(s@, x, 0),
        r < s.len() <==> s@.contains(x),
{
    let mut i: usize = 0;
    while i < s.len()
        invariant
            i <= s.len(),
            first_index(s@, x, 0) == first_index(s@, x, i as int),
            forall|j: int| 0 <= j < i ==> s@[j] != x,
        decreases s.len() - i,
    {
        if s[i] == x {
            return i;
        }
        i = i + 1;
    }
    i
}

/// The parent chain from `parent_id` up, if it ends within its bound.
pub fn chain_ids(parent_id: i64, all_todos: &[Todo]) -> (r: Option<Vec<i64>>)
    ensures
        match r {
            Some(c) => parent_chain(todo_views(all_todos@), parent_id) == Some(c@),
            None => parent_chain(todo_views(all_todos@), parent_id) is None,
        },
{
    let ghost views = todo_views(all_todos@);
    let mut chain: Vec<i64> = Vec::new();
    let mut current: i64 = parent_id;
    let mut fuel: u128 = all_todos.len() as u128 + 1;
    let ghost total = (all_todos.len() + 1) as nat;
    loop
        invariant
            views == todo_views(all_todos@),
            total == (views.len() + 1) as nat,
            chain_from(views, parent_id, total) == match chain_from(views, current, fuel as nat) {
                Some(c) => Some(chain@ + c),
                None => None::<Seq<i64>>,
            },
        decreases fuel,
    {
        if fuel == 0 {
            return None;
        }
        let ghost before = chain@;
        chain.push(current);
        match position_in_todos(all_todos, current) {
            Some(i) => {
                assert(views[i as int] == all_todos@[i as int]@);
                let p = &all_todos[i];
                if p.done == 5 {
                    assert(chain@ =~= before + seq![current]);
                    return Some(chain);
                }
                match p.up_id {
                    Some(next) => {
                        proof {
                            assert(forall|c: Seq<i64>| before + (seq![current] + c) =~= chain@ + c);
                        }
                        current = next;
                        fuel = fuel - 1;
                    },
                    None => {
                        assert(chain@ =~= before + seq![current]);
                        return Some(chain);
                    },
                }
            },
            None => {
                assert(chain@ =~= before + seq![current]);
                return Some(chain);
            },
        }
    }
}

/// Appends the reference to one parent.
fn push_parent_piece(
    out: &mut String,
    id: i64,
    display_ids: &[i64],
    all_todos: &[Todo],
    id_to_pos: &HashMap<i64, usize>,
)
    ensures
        final(out)@ == old(out)@ + parent_piece(id, display_ids@, todo_views(all_todos@), id_to_pos@),
{
    let listed = index_in(display_ids, id) < display_ids.len();
    if listed {
        match id_to_pos.get(&id) {
            Some(pos) => {
                out.append(PARENT_COLOR);
                out.append(decimal_text(*pos as u128 + 1).as_str());
                push_char(out, '>');
            },
            None => {
                if is_completed_id(all_todos, id) {
                    let at = index_in(display_ids, id);
                    if at < display_ids.len() {
                        out.append(PARENT_COLOR);
                        out.append(decimal_text(at as u128 + 1).as_str());
                        push_char(out, '>');
                    } else {
                        out.append(PARENT_COLOR);
                        out.append("x>");
                    }
                } else {
                    assert(old(out)@ + Seq::<char>::empty() =~= old(out)@);
                }
            },
        }
    } else {
        out.append(PARENT_COLOR);
        out.append("x>");
        proof {
            reveal_strlit("x>");
        }
    }
    assert(final(out)@ =~= old(out)@ + parent_piece(id, display_ids@, todo_views(all_todos@), id_to_pos@));
}

/// Build parent chain (e.g., "1>2>" for multi-level parent)
///
/// Starting from the immediate parent, the chain goes up to the root (or a
/// completed parent) and is written root first: a listed parent as its list
/// number, one that is not listed as `x>`.
pub fn build_parent_chain(
    parent_id: i64,
    display_ids: &[i64],
    all_todos: &[Todo],
    id_to_pos: &HashMap<i64, usize>,
    _completed_done: bool,
) -> (r: String)
    requires
        parent_chain(todo_views(all_todos@), parent_id) is Some,
    ensures
        r@ == parent_text(
            parent_chain(todo_views(all_todos@), parent_id)->0,
            display_ids@,
            todo_views(all_todos@),
            id_to_pos@,
        ),
{
    let ghost views = todo_views(all_todos@);
    let chain = match chain_ids(parent_id, all_todos) {
        Some(c) => c,
        None => Vec::new(),
    };
    let mut out = String::new();
    let mut k = chain.len();
    assert(chain@.take(chain.len() as int) =~= chain@);
    while k > 0
        invariant
            k <= chain.len(),
            views == todo_views(all_todos@),
            chain_pieces(chain@, display_ids@, views, id_to_pos@) == out@ + chain_pieces(
                chain@.take(k as int),
                display_ids@,
                views,
                id_to_pos@,
            ),
        decreases k,
    {
        assert(chain@.take(k as int).drop_last() =~= chain@.take(k - 1));
        assert(chain@.take(k as int).last() == chain@[k - 1]);
        push_parent_piece(&mut out, chain[k - 1], display_ids, all_todos, id_to_pos);
        k = k - 1;
        assert(chain_pieces(chain@, display_ids@, views, id_to_pos@) =~= out@ + chain_pieces(
            chain@.take(k as int),
            display_ids@,
            views,
            id_to_pos@,
        ));
    }
    assert(chain_pieces(chain@.take(0), display_ids@, views, id_to_pos@) =~= Seq::<char>::empty());
    assert(out@ =~= chain_pieces(chain@, display_ids@, views, id_to_pos@));
    if out.unicode_len() == 0 {
        String::new()
    } else {
        out.append(RESET);
        out
    }
}

/// The color of a priority: orange, blue, green and grey for 1 to 4, none
/// for any other.
pub open spec fn priority_color(p: i32) -> &'static str {
    if p == 1 {
        "\x1b[38;2;235;137;53m"
    } else if p == 2 {
        "\x1b[38;2;59;130;246m"
    } else if p == 3 {
        "\x1b[38;2;52;211;153m"
    } else if p == 4 {
        "\x1b[38;2;156;163;175m"
    } else {
        ""
    }
}

fn color_of_priority(p: i32) -> (r: &'static str)
    ensures
        r == priority_color(p),
{
    if p == 1 {
        "\x1b[38;2;235;137;53m"
    } else if p == 2 {
        "\x1b[38;2;59;130;246m"
    } else if p == 3 {
        "\x1b[38;2;52;211;153m"
    } else if p == 4 {
        "\x1b[38;2;156;163;175m"
    } else {
        ""
    }
}

/// The display text of an optional stored date, empty when it is none or not a date.
pub open spec fn shown_date(d: Seq<char>) -> Seq<char> {
    match display_date(d) {
        Some(x) => x,
        None => seq![],
    }
}

/// Whether a todo can be shown: its parent chain ends, and its due date
/// (and, when shown as done, its completion date) can be sliced as a
/// `YYYYMMDD` key.
pub open spec fn showable(item: TodoView, is_done: bool, all: Seq<TodoView>) -> bool {
    &&& (item.up_id matches Some(pid) ==> parent_chain(all, pid) is Some)
    &&& (item.due_date matches Some(d) ==> key_sliceable(d))
    &&& (is_done ==> (item.done_at matches Some(d) ==> (byte_len(d) >= 8 ==> key_sliceable(d))))
}

/// The start of a list line: number right-aligned to `width`, indent for a
/// sub-todo in order mode, and the checkbox.
pub open spec fn line_head(num: nat, width: nat, item: TodoView, is_done: bool, use_order: bool) -> Seq<char> {
    let indent = if use_order && item.up_id is Some {
        seq![' ', ' ']
    } else {
        seq![]
    };
    let check = if is_done {
        seq!['[', 'x', ']']
    } else {
        seq!['[', ' ', ']']
    };
    left_pad(decimal(num), width) + indent + seq![' '] + check + seq![' ']
}

/// The parent references of a list line and the space after them.
pub open spec fn parent_part(item: TodoView, display_ids: Seq<i64>, all: Seq<TodoView>, pos: Map<i64, usize>) -> Seq<char> {
    let parent = match item.up_id {
        Some(pid) => parent_text(parent_chain(all, pid)->0, display_ids, all, pos),
        None => seq![],
    };
    if parent.len() > 0 {
        parent + seq![' ']
    } else {
        seq![]
    }
}

/// The colored due date of a list line.
pub open spec fn due_part(item: TodoView, today: Date) -> Seq<char> {
    match item.due_date {
        Some(d) => {
            let color = due_color(d, today);
            if color@.len() == 0 {
                seq![' ', '@'] + shown_date(d)
            } else {
                seq![' '] + color@ + seq!['@'] + shown_date(d) + RESET@
            }
        },
        None => seq![],
    }
}

/// The colored priority of a list line.
pub open spec fn priority_part(p: i32) -> Seq<char> {
    let pc = priority_color(p);
    if pc@.len() == 0 {
        seq![' ', '^'] + signed_decimal(p as int)
    } else {
        seq![' '] + pc@ + seq!['^'] + signed_decimal(p as int) + RESET@
    }
}

/// The progress of an incomplete todo (20% a level), and the completion
/// date of a completed one.
pub open spec fn state_part(item: TodoView, is_done: bool) -> Seq<char> {
    if is_done {
        match item.done_at {
            Some(d) => match display_date(d) {
                Some(x) => seq![' ', '%'] + x + RESET@,
                None => seq![],
            },
            None => seq![],
        }
    } else if item.done > 0 {
        seq![' '] + decimal((item.done * 20) as nat) + seq!['%']
    } else {
        seq![]
    }
}

/// The list line of a todo, seen from `today`: number (right-aligned to
/// `width`), indent for sub-todos in order mode, checkbox, parent
/// references, content, colored due date, colored priority, the repetition
/// mark `*X` of a recurring todo, progress of an incomplete todo or
/// completion date of a completed one.
pub open spec fn todo_line(
    num: nat,
    width: nat,
    item: TodoView,
    is_done: bool,
    display_ids: Seq<i64>,
    use_order: bool,
    all: Seq<TodoView>,
    pos: Map<i64, usize>,
    today: Date,
) -> Seq<char> {
    line_head(num, width, item, is_done, use_order) + parent_part(item, display_ids, all, pos)
        + item.todo + due_part(item, today) + priority_part(item.priority) + repetition_part(item)
        + state_part(item, is_done) + seq!['\n']
}

fn push_line_head(out: &mut String, num: usize, width: usize, item: &Todo, is_done: bool, use_order: bool)
    ensures
        final(out)@ == old(out)@ + line_head(num as nat, width as nat, item@, is_done, use_order),
{
    let num_str = decimal_text(num as u128);
    push_right_aligned(out, num_str.as_str(), width);
    if use_order && item.up_id.is_some() {
        push_char(out, ' ');
        push_char(out, ' ');
    }
    push_char(out, ' ');
    push_char(out, '[');
    if is_done {
        push_char(out, 'x');
    } else {
        push_char(out, ' ');
    }
    push_char(out, ']');
    push_char(out, ' ');
    assert(final(out)@ =~= old(out)@ + line_head(num as nat, width as nat, item@, is_done, use_order));
}

fn push_due_part(out: &mut String, item: &Todo, today: Date)
    requires
        item@.due_date matches Some(d) ==> key_sliceable(d),
        today.valid(),
    ensures
        final(out)@ == old(out)@ + due_part(item@, today),
{
    match &item.due_date {
        Some(d) => {
            let color = color_for_due_date_on(d.as_str(), today);
            let date = match format_date(d.as_str()) {
                Some(x) => x,
                None => String::new(),
            };
            if color.unicode_len() == 0 {
                push_char(out, ' ');
                push_char(out, '@');
                out.append(date.as_str());
            } else {
                push_char(out, ' ');
                out.append(color);
                push_char(out, '@');
                out.append(date.as_str());
                out.append(RESET);
            }
        },
        None => {},
    }
    assert(final(out)@ =~= old(out)@ + due_part(item@, today));
}

fn push_priority_part(out: &mut String, p: i32)
    ensures
        final(out)@ == old(out)@ + priority_part(p),
{
    let pri_color = color_of_priority(p);
    let pri_text = signed_decimal_text(p as i64);
    push_char(out, ' ');
    if pri_color.unicode_len() == 0 {
        push_char(out, '^');
        out.append(pri_text.as_str());
    } else {
        out.append(pri_color);
        push_char(out, '^');
        out.append(pri_text.as_str());
        out.append(RESET);
    }
    assert(final(out)@ =~= old(out)@ + priority_part(p));
}

fn push_state_part(out: &mut String, item: &Todo, is_done: bool)
    requires
        is_done ==> (item@.done_at matches Some(d) ==> (byte_len(d) >= 8 ==> key_sliceable(d))),
    ensures
        final(out)@ == old(out)@ + state_part(item@, is_done),
{
    if is_done {
        match &item.done_at {
            Some(dt) => match format_date(dt.as_str()) {
                Some(x) => {
                    push_char(out, ' ');
                    push_char(out, '%');
                    out.append(x.as_str());
                    out.append(RESET);
                },
                None => {},
            },
            None => {},
        }
    } else if item.done > 0 {
        push_char(out, ' ');
        out.append(decimal_text(item.done as u128 * 20).as_str());
        push_char(out, '%');
    }
    assert(final(out)@ =~= old(out)@ + state_part(item@, is_done));
}

/// Format todo for display, seen from `today` (see `todo_line`).
pub fn format_todo_on(
    num: usize,
    width: usize,
    item: &Todo,
    is_done: bool,
    display_ids: &[i64],
    use_order: bool,
    all_todos: &[Todo],
    id_to_pos: &HashMap<i64, usize>,
    today: Date,
) -> (r: String)
    requires
        showable(item@, is_done, todo_views(all_todos@)),
        today.valid(),
    ensures
        r@ == todo_line(
            num as nat,
            width as nat,
            item@,
            is_done,
            display_ids@,
            use_order,
            todo_views(all_todos@),
            id_to_pos@,
            today,
        ),
{
    let mut out = String::new();
    push_line_head(&mut out, num, width, item, is_done, use_order);
    let parent_str = match item.up_id {
        Some(parent_id) => build_parent_chain(parent_id, display_ids, all_todos, id_to_pos, is_done),
        None => String::new(),
    };
    if parent_str.unicode_len() > 0 {
        out.append(parent_str.as_str());
        push_char(&mut out, ' ');
    }
    out.append(item.todo.as_str());
    push_due_part(&mut out, item, today);
    push_priority_part(&mut out, item.priority);
    push_repetition_part(&mut out, item);
    push_state_part(&mut out, item, is_done);
    push_char(&mut out, '\n');
    let ghost line = todo_line(
        num as nat,
        width as nat,
        item@,
        is_done,
        display_ids@,
        use_order,
        todo_views(all_todos@),
        id_to_pos@,
        today,
    );
    assert(out@ =~= line);
    out
}

/// Format todo for display, seen from today's local date.
pub fn format_todo(
    num: usize,
    width: usize,
    item: &Todo,
    is_done: bool,
    display_ids: &[i64],
    use_order: bool,
    all_todos: &[Todo],
    id_to_pos: &HashMap<i64, usize>,
) -> (r: String)
    requires
        showable(item@, is_done, todo_views(all_todos@)),
    ensures
        exists|today: Date|
            today.valid() && r@ == todo_line(
                num as nat,
                width as nat,
                item@,
                is_done,
                display_ids@,
                use_order,
                todo_views(all_todos@),
                id_to_pos@,
                today,
            ),
{
    let today = local_today();
    format_todo_on(num, width, item, is_done, display_ids, use_order, all_todos, id_to_pos, today)
}

} // verus!
