use vstd::prelude::*;

use std::collections::HashMap;

use crate::calendar::{local_today, Date};
use crate::dates::is_key_sliceable;
use crate::listing::{chain_ids, format_todo_on, parent_chain, position_of_id, showable, todo_line};
use crate::text::{byte_len_at_least, push_char};
use crate::text::{decimal, decimal_text};
use crate::model::{Todo, TodoView, todo_views};
use crate::ordering::{arrangement_order, lemma_sorted_positions_len, lemma_sorted_positions_sorted, opt_text_order, sort_positions, sorted_positions, Arrangement};

verus! {

broadcast use vstd::std_specs::hash::group_hash_axioms;

/// The todos that are not complete (done level other than 5), in order.
pub open spec fn pending(s: Seq<TodoView>) -> Seq<TodoView>
    decreases s.len(),
{
    if s.len() == 0 {
        seq![]
    } else if s.last().done != 5 {
        pending(s.drop_last()).push(s.last())
    } else {
        pending(s.drop_last())
    }
}

/// The completed todos (done level 5), in order.
pub open spec fn finished(s: Seq<TodoView>) -> Seq<TodoView>
    decreases s.len(),
{
    if s.len() == 0 {
        seq![]
    } else if s.last().done == 5 {
        finished(s.drop_last()).push(s.last())
    } else {
        finished(s.drop_last())
    }
}

/// Splits todos into the incomplete and the completed ones, keeping order.
pub fn split_by_done(todos: &Vec<Todo>) -> (r: (Vec<Todo>, Vec<Todo>))
    ensures
        todo_views(r.0@) == pending(todo_views(todos@)),
        todo_views(r.1@) == finished(todo_views(todos@)),
{
    let ghost views = todo_views(todos@);
    let mut open: Vec<Todo> = Vec::new();
    let mut closed: Vec<Todo> = Vec::new();
    let mut i: usize = 0;
    while i < todos.len()
        invariant
            i <= todos.len(),
            views == todo_views(todos@),
            todo_views(open@) == pending(views.take(i as int)),
            todo_views(closed@) == finished(views.take(i as int)),
        decreases todos.len() - i,
    {
        assert(views.take(i + 1).drop_last() =~= views.take(i as int));
        assert(views.take(i + 1).last() == todos@[i as int]@);
        let t = todos[i].copy();
        if t.done != 5 {
            open.push(t);
            assert(todo_views(open@) =~= todo_views(open@.drop_last()).push(t@));
        } else {
            closed.push(t);
            assert(todo_views(closed@) =~= todo_views(closed@.drop_last()).push(t@));
        }
        i = i + 1;
    }
    assert(views.take(todos.len() as int) =~= views);
    (open, closed)
}

/// Whether a todo of `s` has this id.
pub open spec fn has_id(s: Seq<TodoView>, id: i64) -> bool {
    exists|j: int| 0 <= j < s.len() && s[j].id == id
}

fn contains_id(s: &Vec<Todo>, id: i64) -> (r: bool)
    ensures
        r == has_id(todo_views(s@), id),
{
    let ghost views = todo_views(s@);
    let mut i: usize = 0;
    while i < s.len()
        invariant
            i <= s.len(),
            views == todo_views(s@),
            forall|j: int| 0 <= j < i ==> views[j].id != id,
        decreases s.len() - i,
    {
        assert(views[i as int] == s@[i as int]@);
        if s[i].id == id {
            return true;
        }
        i = i + 1;
    }
    false
}

/// The positions of `all`, from `i` on, whose todo satisfies being a root:
/// no parent, or a parent id that no todo has.
pub open spec fn root_positions(all: Seq<TodoView>, n: int) -> Seq<usize>
    decreases n,
{
    if n <= 0 || n > all.len() {
        seq![]
    } else {
        let rest = root_positions(all, n - 1);
        let t = all[n - 1];
        if t.up_id is None || position_of_id(all, t.up_id->0, 0) is None {
            rest.push((n - 1) as usize)
        } else {
            rest
        }
    }
}

/// The positions of the first `n` todos of `all` whose parent is `id`.
pub open spec fn child_positions(all: Seq<TodoView>, id: i64, n: int) -> Seq<usize>
    decreases n,
{
    if n <= 0 || n > all.len() {
        seq![]
    } else {
        let rest = child_positions(all, id, n - 1);
        if all[n - 1].up_id == Some(id) {
            rest.push((n - 1) as usize)
        } else {
            rest
        }
    }
}

/// The children of the todo with this id, in the order of sub-todos.
pub open spec fn sorted_children(all: Seq<TodoView>, id: i64) -> Seq<usize> {
    sorted_positions(all, child_positions(all, id, all.len() as int), Arrangement::Children)
}

/// `acc` with the todo at position `i` of `all` added when it is incomplete
/// (its id is among `open`) and not yet in `acc`.
pub open spec fn take_if_open(all: Seq<TodoView>, open: Seq<TodoView>, i: int, acc: Seq<TodoView>) -> Seq<TodoView> {
    if has_id(open, all[i].id) && !has_id(acc, all[i].id) {
        acc.push(all[i])
    } else {
        acc
    }
}

/// The incomplete todos of the subtree under position `i` of `all`, parent
/// before children, added to `acc`; `None` when the walk goes deeper than
/// `fuel` (the parent links loop).
pub open spec fn walk_tree(all: Seq<TodoView>, open: Seq<TodoView>, i: int, acc: Seq<TodoView>, fuel: nat) -> Option<
    Seq<TodoView>,
>
    decreases fuel, 0int, 0int,
{
    if fuel == 0 {
        None
    } else {
        walk_forest(
            all,
            open,
            sorted_children(all, all[i].id),
            0,
            take_if_open(all, open, i, acc),
            (fuel - 1) as nat,
        )
    }
}

/// The subtrees under the positions `list[j..]`, in turn.
pub open spec fn walk_forest(
    all: Seq<TodoView>,
    open: Seq<TodoView>,
    list: Seq<usize>,
    j: int,
    acc: Seq<TodoView>,
    fuel: nat,
) -> Option<Seq<TodoView>>
    decreases fuel, 1int, list.len() - j,
{
    if j < 0 || j >= list.len() {
        Some(acc)
    } else {
        match walk_tree(all, open, list[j] as int, acc, fuel) {
            Some(a) => walk_forest(all, open, list, j + 1, a, fuel),
            None => None,
        }
    }
}

proof fn lemma_child_positions_bound(all: Seq<TodoView>, id: i64, n: int)
    requires
        all.len() <= usize::MAX,
    ensures
        forall|k: int|
            0 <= k < child_positions(all, id, n).len() ==> #[trigger] child_positions(all, id, n)[k]
                < all.len(),
    decreases n,
{
    if 0 < n <= all.len() {
        lemma_child_positions_bound(all, id, n - 1);
        let rest = child_positions(all, id, n - 1);
        let r = child_positions(all, id, n);
        assert forall|k: int| 0 <= k < r.len() implies #[trigger] r[k] < all.len() by {
            if k < rest.len() {
                assert(r[k] == rest[k]);
            } else {
                assert(r[k] == (n - 1) as usize);
            }
        }
    }
}

proof fn lemma_root_positions_bound(all: Seq<TodoView>, n: int)
    requires
        all.len() <= usize::MAX,
    ensures
        forall|k: int|
            0 <= k < root_positions(all, n).len() ==> #[trigger] root_positions(all, n)[k] < all.len(),
    decreases n,
{
    if 0 < n <= all.len() {
        lemma_root_positions_bound(all, n - 1);
        let rest = root_positions(all, n - 1);
        let r = root_positions(all, n);
        assert forall|k: int| 0 <= k < r.len() implies #[trigger] r[k] < all.len() by {
            if k < rest.len() {
                assert(r[k] == rest[k]);
            } else {
                assert(r[k] == (n - 1) as usize);
            }
        }
    }
}

fn children_of(all: &Vec<Todo>, id: i64) -> (r: Vec<usize>)
    ensures
        r@ == sorted_children(todo_views(all@), id),
        forall|k: int| 0 <= k < r.len() ==> #[trigger] r@[k] < all.len(),
{
    let ghost views = todo_views(all@);
    let mut kids: Vec<usize> = Vec::new();
    let mut n: usize = 0;
    while n < all.len()
        invariant
            n <= all.len(),
            views == todo_views(all@),
            kids@ == child_positions(views, id, n as int),
        decreases all.len() - n,
    {
        assert(views[n as int] == all@[n as int]@);
        if all[n].up_id == Some(id) {
            kids.push(n);
        }
        n = n + 1;
    }
    proof {
        lemma_child_positions_bound(views, id, all.len() as int);
    }
    let sorted = sort_positions(all, &kids, &Arrangement::Children);
    proof {
        lemma_sorted_positions_len(views, kids@, Arrangement::Children);
        assert forall|k: int| 0 <= k < sorted.len() implies #[trigger] sorted@[k] < all.len() by {
            assert(kids@.contains(sorted@[k]));
        }
    }
    sorted
}

fn has_id_at(all: &Vec<Todo>, id: i64) -> (r: bool)
    ensures
        r == (position_of_id(todo_views(all@), id, 0) is Some),
{
    let ghost views = todo_views(all@);
    let mut i: usize = 0;
    while i < all.len()
        invariant
            i <= all.len(),
            views == todo_views(all@),
            position_of_id(views, id, 0) == position_of_id(views, id, i as int),
        decreases all.len() - i,
    {
        assert(views[i as int] == all@[i as int]@);
        if all[i].id == id {
            return true;
        }
        i = i + 1;
    }
    false
}

fn roots_of(all: &Vec<Todo>) -> (r: Vec<usize>)
    ensures
        r@ == sorted_positions(
            todo_views(all@),
            root_positions(todo_views(all@), all.len() as int),
            Arrangement::Roots,
        ),
        forall|k: int| 0 <= k < r.len() ==> #[trigger] r@[k] < all.len(),
{
    let ghost views = todo_views(all@);
    let mut roots: Vec<usize> = Vec::new();
    let mut n: usize = 0;
    while n < all.len()
        invariant
            n <= all.len(),
            views == todo_views(all@),
            roots@ == root_positions(views, n as int),
        decreases all.len() - n,
    {
        assert(views[n as int] == all@[n as int]@);
        let is_root = match all[n].up_id {
            None => true,
            Some(pid) => !has_id_at(all, pid),
        };
        if is_root {
            roots.push(n);
        }
        n = n + 1;
    }
    proof {
        lemma_root_positions_bound(views, all.len() as int);
    }
    let sorted = sort_positions(all, &roots, &Arrangement::Roots);
    proof {
        lemma_sorted_positions_len(views, roots@, Arrangement::Roots);
        assert forall|k: int| 0 <= k < sorted.len() implies #[trigger] sorted@[k] < all.len() by {
            assert(roots@.contains(sorted@[k]));
        }
    }
    sorted
}

/// Walks the subtree under position `i`; false when the walk loops.
fn walk_tree_into(all: &Vec<Todo>, open: &Vec<Todo>, i: usize, acc: &mut Vec<Todo>, fuel: usize) -> (ok: bool)
    requires
        i < all.len(),
    ensures
        ok ==> walk_tree(todo_views(all@), todo_views(open@), i as int, todo_views(old(acc)@), fuel as nat)
            == Some(todo_views(final(acc)@)),
        !ok ==> walk_tree(todo_views(all@), todo_views(open@), i as int, todo_views(old(acc)@), fuel as nat) is None,
    decreases fuel, 0int,
{
    if fuel == 0 {
        return false;
    }
    let ghost views = todo_views(all@);
    assert(views[i as int] == all@[i as int]@);
    let id = all[i].id;
    if contains_id(open, id) && !contains_id(acc, id) {
        let t = all[i].copy();
        acc.push(t);
        assert(todo_views(acc@) =~= todo_views(old(acc)@).push(t@));
    }
    let kids = children_of(all, id);
    walk_forest_into(all, open, &kids, acc, fuel - 1)
}

/// Walks the subtrees under the positions of `list` in turn; false when a
/// walk loops.
fn walk_forest_into(all: &Vec<Todo>, open: &Vec<Todo>, list: &Vec<usize>, acc: &mut Vec<Todo>, fuel: usize) -> (ok: bool)
    requires
        forall|k: int| 0 <= k < list.len() ==> #[trigger] list@[k] < all.len(),
    ensures
        ok ==> walk_forest(todo_views(all@), todo_views(open@), list@, 0, todo_views(old(acc)@), fuel as nat)
            == Some(todo_views(final(acc)@)),
        !ok ==> walk_forest(todo_views(all@), todo_views(open@), list@, 0, todo_views(old(acc)@), fuel as nat) is None,
    decreases fuel, 1int,
{
    let ghost views = todo_views(all@);
    let ghost ov = todo_views(open@);
    let ghost start = todo_views(acc@);
    let mut j: usize = 0;
    while j < list.len()
        invariant
            j <= list.len(),
            views == todo_views(all@),
            ov == todo_views(open@),
            start == todo_views(old(acc)@),
            forall|k: int| 0 <= k < list.len() ==> #[trigger] list@[k] < all.len(),
            walk_forest(views, ov, list@, 0, start, fuel as nat) == walk_forest(
                views,
                ov,
                list@,
                j as int,
                todo_views(acc@),
                fuel as nat,
            ),
        decreases list.len() - j,
    {
        let ghost before = todo_views(acc@);
        let ok = walk_tree_into(all, open, list[j], acc, fuel);
        if !ok {
            assert(walk_forest(views, ov, list@, j as int, before, fuel as nat) is None);
            return false;
        }
        j = j + 1;
    }
    true
}

/// `acc` followed by the todos of `rest` whose id it does not hold yet.
pub open spec fn add_missing(acc: Seq<TodoView>, rest: Seq<TodoView>) -> Seq<TodoView>
    decreases rest.len(),
{
    if rest.len() == 0 {
        acc
    } else {
        let a = add_missing(acc, rest.drop_last());
        if has_id(a, rest.last().id) {
            a
        } else {
            a.push(rest.last())
        }
    }
}

/// The incomplete todos in display order: as fetched, or in order mode
/// parents before their sub-todos, walking the tree of all todos from the
/// sorted top-level ones (then any incomplete todo the walk missed). `None`
/// when the parent links loop.
pub open spec fn display_pending(todos: Seq<TodoView>, all: Seq<TodoView>, use_order: bool) -> Option<
    Seq<TodoView>,
> {
    let open = pending(todos);
    if use_order {
        match walk_forest(
            all,
            open,
            sorted_positions(all, root_positions(all, all.len() as int), Arrangement::Roots),
            0,
            seq![],
            all.len(),
        ) {
            Some(ordered) => Some(add_missing(ordered, open)),
            None => None,
        }
    } else {
        Some(open)
    }
}

/// `0..n` as positions.
pub open spec fn positions_upto(n: nat) -> Seq<usize> {
    Seq::new(n, |k: int| k as usize)
}

/// The completed todos, latest completion date first.
pub open spec fn display_done(todos: Seq<TodoView>) -> Seq<TodoView> {
    let c = finished(todos);
    sorted_positions(c, positions_upto(c.len()), Arrangement::Completed).map_values(
        |k: usize| c[k as int],
    )
}

fn add_missing_into(acc: &mut Vec<Todo>, rest: &Vec<Todo>)
    ensures
        todo_views(final(acc)@) == add_missing(todo_views(old(acc)@), todo_views(rest@)),
{
    let ghost rv = todo_views(rest@);
    let ghost start = todo_views(acc@);
    let mut i: usize = 0;
    while i < rest.len()
        invariant
            i <= rest.len(),
            rv == todo_views(rest@),
            start == todo_views(old(acc)@),
            todo_views(acc@) == add_missing(start, rv.take(i as int)),
        decreases rest.len() - i,
    {
        assert(rv.take(i + 1).drop_last() =~= rv.take(i as int));
        assert(rv.take(i + 1).last() == rest@[i as int]@);
        if !contains_id(acc, rest[i].id) {
            let t = rest[i].copy();
            acc.push(t);
            assert(todo_views(acc@) =~= todo_views(acc@.drop_last()).push(t@));
        }
        i = i + 1;
    }
    assert(rv.take(rest.len() as int) =~= rv);
}

/// The incomplete todos in display order (see `display_pending`).
pub fn arrange_pending(open: &Vec<Todo>, todos: &Vec<Todo>, all_todos: &Vec<Todo>, use_order: bool) -> (r: Option<Vec<Todo>>)
    requires
        todo_views(open@) == pending(todo_views(todos@)),
    ensures
        match r {
            Some(v) => display_pending(todo_views(todos@), todo_views(all_todos@), use_order) == Some(
                todo_views(v@),
            ),
            None => display_pending(todo_views(todos@), todo_views(all_todos@), use_order) is None,
        },
{
    if use_order {
        let roots = roots_of(all_todos);
        let mut ordered: Vec<Todo> = Vec::new();
        assert(todo_views(ordered@) =~= Seq::<TodoView>::empty());
        let ok = walk_forest_into(all_todos, open, &roots, &mut ordered, all_todos.len());
        if !ok {
            return None;
        }
        add_missing_into(&mut ordered, open);
        Some(ordered)
    } else {
        let mut copy: Vec<Todo> = Vec::new();
        let mut i: usize = 0;
        while i < open.len()
            invariant
                i <= open.len(),
                todo_views(copy@) =~= todo_views(open@).take(i as int),
            decreases open.len() - i,
        {
            let ghost prev = todo_views(copy@);
            let t = open[i].copy();
            copy.push(t);
            assert(todo_views(copy@) =~= prev.push(t@));
            assert(todo_views(open@)[i as int] == open@[i as int]@);
            assert(todo_views(copy@) =~= todo_views(open@).take(i + 1));
            i = i + 1;
        }
        assert(todo_views(open@).take(open.len() as int) =~= todo_views(open@));
        Some(copy)
    }
}

/// The completed todos, latest completion date first.
pub fn arrange_done(closed: &Vec<Todo>, todos: &Vec<Todo>) -> (r: Vec<Todo>)
    requires
        todo_views(closed@) == finished(todo_views(todos@)),
    ensures
        todo_views(r@) == display_done(todo_views(todos@)),
{
    let ghost cv = todo_views(closed@);
    let mut idx: Vec<usize> = Vec::new();
    let mut k: usize = 0;
    while k < closed.len()
        invariant
            k <= closed.len(),
            idx@ =~= positions_upto(k as nat),
        decreases closed.len() - k,
    {
        idx.push(k);
        k = k + 1;
    }
    let sorted = sort_positions(closed, &idx, &Arrangement::Completed);
    proof {
        lemma_sorted_positions_len(cv, idx@, Arrangement::Completed);
    }
    let mut out: Vec<Todo> = Vec::new();
    let mut j: usize = 0;
    while j < sorted.len()
        invariant
            j <= sorted.len(),
            cv == todo_views(closed@),
            idx@ == positions_upto(closed.len() as nat),
            sorted@ == sorted_positions(cv, idx@, Arrangement::Completed),
            forall|q: int| 0 <= q < sorted.len() ==> idx@.contains(#[trigger] sorted@[q]),
            todo_views(out@) =~= sorted@.take(j as int).map_values(|p: usize| cv[p as int]),
        decreases sorted.len() - j,
    {
        let p = sorted[j];
        assert(idx@.contains(p));
        assert(p < closed.len());
        let ghost prev = todo_views(out@);
        let t = closed[p].copy();
        out.push(t);
        assert(todo_views(out@) =~= prev.push(t@));
        assert(cv[p as int] == closed@[p as int]@);
        assert(todo_views(out@) =~= sorted@.take(j + 1).map_values(|p: usize| cv[p as int]));
        j = j + 1;
    }
    assert(sorted@.take(sorted.len() as int) =~= sorted@);
    out
}

/// Which list numbers to show, or `None` where computing them overflows
/// (or a page is 0): a range `start-end` (end defaults to the total), a page
/// `limit/page`, or the first `limit`; `Some(None)` shows all.
pub open spec fn list_window(
    limit: Option<usize>,
    page: Option<usize>,
    range_start: Option<usize>,
    range_end: Option<usize>,
    total: int,
) -> Option<Option<(int, int)>> {
    match range_start {
        Some(st) => Some(
            Some(
                (
                    st as int,
                    match range_end {
                        Some(e) => e as int,
                        None => total,
                    },
                ),
            ),
        ),
        None => match (limit, page) {
            (Some(l), Some(p)) => if p == 0 || p * l > usize::MAX {
                None
            } else {
                let start_idx = (p - 1) * l;
                let end_idx = start_idx + l;
                Some(
                    Some(
                        (
                            start_idx + 1,
                            if end_idx < total {
                                end_idx
                            } else {
                                total
                            },
                        ),
                    ),
                )
            },
            (Some(l), None) => Some(Some((1, if l < total {
                l as int
            } else {
                total
            }))),
            _ => Some(None),
        },
    }
}

/// Whether the list number `num` is shown.
pub open spec fn in_window(w: Option<(int, int)>, num: int) -> bool {
    match w {
        None => true,
        Some((a, b)) => a <= num <= b,
    }
}

/// The positions among the first `n` todos of a section whose list numbers
/// follow `offset` that are shown.
pub open spec fn shown_positions(n: int, offset: int, w: Option<(int, int)>) -> Seq<usize>
    decreases n,
{
    if n <= 0 {
        seq![]
    } else {
        let r = shown_positions(n - 1, offset, w);
        if in_window(w, offset + n) {
            r.push((n - 1) as usize)
        } else {
            r
        }
    }
}

/// The ids of todos.
pub open spec fn ids_of(s: Seq<TodoView>) -> Seq<i64> {
    s.map_values(|t: TodoView| t.id)
}

/// `m` with the pairs inserted in turn (later pairs win).
pub open spec fn insert_pairs(m: Map<i64, usize>, pairs: Seq<(i64, usize)>) -> Map<i64, usize>
    decreases pairs.len(),
{
    if pairs.len() == 0 {
        m
    } else {
        insert_pairs(m, pairs.drop_last()).insert(pairs.last().0, pairs.last().1)
    }
}

/// The positions used for parent references: each incomplete todo at its
/// position, then each completed todo after them.
pub open spec fn reference_positions(items: Seq<TodoView>, done: Seq<TodoView>) -> Map<i64, usize> {
    let first = Seq::new(items.len(), |i: int| (items[i].id, i as usize));
    let second = Seq::new(done.len(), |k: int| (done[k].id, (items.len() + k) as usize));
    insert_pairs(Map::empty(), first + second)
}

/// The lines of the shown incomplete todos (the first `j` of them).
pub open spec fn pending_lines(
    items: Seq<TodoView>,
    shown: Seq<usize>,
    j: int,
    width: nat,
    ids: Seq<i64>,
    use_order: bool,
    all: Seq<TodoView>,
    pos: Map<i64, usize>,
    today: Date,
) -> Seq<char>
    decreases j,
{
    if j <= 0 || j > shown.len() {
        seq![]
    } else {
        pending_lines(items, shown, j - 1, width, ids, use_order, all, pos, today) + todo_line(
            (shown[j - 1] + 1) as nat,
            width,
            items[shown[j - 1] as int],
            false,
            ids,
            use_order,
            all,
            pos,
            today,
        )
    }
}

/// The lines of the shown completed todos (the first `j` of them), the one
/// at position `k` numbered `start + k`.
pub open spec fn done_lines(
    done: Seq<TodoView>,
    shown: Seq<usize>,
    j: int,
    start: nat,
    width: nat,
    ids: Seq<i64>,
    use_order: bool,
    all: Seq<TodoView>,
    today: Date,
) -> Seq<char>
    decreases j,
{
    if j <= 0 || j > shown.len() {
        seq![]
    } else {
        done_lines(done, shown, j - 1, start, width, ids, use_order, all, today) + todo_line(
            (start + shown[j - 1]) as nat,
            width,
            done[shown[j - 1] as int],
            true,
            ids,
            use_order,
            all,
            Map::empty(),
            today,
        )
    }
}

/// The header line of the list, naming the modes that are on.
pub open spec fn list_header(use_order: bool, show_done: bool) -> Seq<char> {
    "=== TODO"@ + (if use_order {
        " order"@
    } else {
        seq![]
    }) + (if show_done {
        " show"@
    } else {
        seq![]
    }) + " ===\n"@
}

/// Whether the todos of a section at the shown positions can be shown.
pub open spec fn section_showable(v: Seq<TodoView>, shown: Seq<usize>, is_done: bool, all: Seq<TodoView>) -> bool {
    forall|k: int| 0 <= k < shown.len() ==> showable(v[#[trigger] shown[k] as int], is_done, all)
}

/// Whether every todo that the list shows can be shown.
pub open spec fn all_showable(
    items: Seq<TodoView>,
    shown: Seq<usize>,
    done: Seq<TodoView>,
    done_shown: Seq<usize>,
    all: Seq<TodoView>,
) -> bool {
    section_showable(items, shown, false, all) && section_showable(done, done_shown, true, all)
}

/// The list screen once the incomplete todos are arranged (`items`), the
/// completed ones sorted (`done`) and the window of list numbers chosen.
///
/// Incomplete todos are numbered from 1, completed ones (with `show_done`)
/// after them; the window picks which numbers are printed, over both. The
/// ids are those behind every number, printed or not, so that a number
/// always names the todo printed with it.
pub open spec fn listed_screen(
    head: Seq<char>,
    items: Seq<TodoView>,
    done: Seq<TodoView>,
    w: Option<(int, int)>,
    show_done: bool,
    use_order: bool,
    all: Seq<TodoView>,
    today: Date,
) -> Option<(Seq<char>, Seq<i64>, bool)> {
    let shown = shown_positions(items.len() as int, 0, w);
    let done_shown = if show_done {
        shown_positions(done.len() as int, items.len() as int, w)
    } else {
        seq![]
    };
    if !all_showable(items, shown, done, done_shown, all) {
        None
    } else {
        let ids = ids_of(items) + (if show_done {
            ids_of(done)
        } else {
            seq![]
        });
        let part1 = if items.len() > 0 {
            pending_lines(
                items,
                shown,
                shown.len() as int,
                decimal(items.len()).len(),
                ids,
                use_order,
                all,
                reference_positions(items, done),
                today,
            )
        } else {
            seq![]
        };
        let part2 = if done_shown.len() > 0 {
            (if shown.len() > 0 {
                seq!['\n']
            } else {
                seq![]
            }) + done_lines(
                done,
                done_shown,
                done_shown.len() as int,
                items.len() + 1,
                decimal((items.len() + done.len()) as nat).len(),
                ids,
                use_order,
                all,
                today,
            )
        } else {
            seq![]
        };
        Some((head + part1 + part2, ids, true))
    }
}

/// The list screen, seen from `today`: the text, the ids behind the list
/// numbers, and whether any todo is listed. `None` where listing does not
/// finish: parent links that loop, a page number 0 or a page past the
/// integer range, more todos than `usize` counts, or a shown date that
/// cannot be sliced.
pub open spec fn list_screen(
    todos: Seq<TodoView>,
    all: Seq<TodoView>,
    show_done: bool,
    use_order: bool,
    limit: Option<usize>,
    page: Option<usize>,
    range_start: Option<usize>,
    range_end: Option<usize>,
    today: Date,
) -> Option<(Seq<char>, Seq<i64>, bool)> {
    let head = list_header(use_order, show_done);
    if pending(todos).len() == 0 && (!show_done || finished(todos).len() == 0) {
        Some((head + "TODO가 없습니다.\n"@, seq![], false))
    } else {
        match display_pending(todos, all, use_order) {
            None => None,
            Some(items) => {
                let done = display_done(todos);
                let total = items.len() + (if show_done {
                    done.len()
                } else {
                    0
                });
                match list_window(limit, page, range_start, range_end, total as int) {
                    None => None,
                    Some(_) if items.len() + done.len() > usize::MAX => None,
                    Some(w) => listed_screen(head, items, done, w, show_done, use_order, all, today),
                }
            },
        }
    }
}

/// Computes the list window (see `list_window`).
fn window_of(
    limit: Option<usize>,
    page: Option<usize>,
    range_start: Option<usize>,
    range_end: Option<usize>,
    total: usize,
) -> (r: Option<Option<(usize, usize)>>)
    ensures
        match r {
            None => list_window(limit, page, range_start, range_end, total as int) is None,
            Some(None) => list_window(limit, page, range_start, range_end, total as int) == Some(
                None::<(int, int)>,
            ),
            Some(Some((a, b))) => list_window(limit, page, range_start, range_end, total as int)
                == Some(Some((a as int, b as int))),
        },
{
    match range_start {
        Some(st) => {
            let end = match range_end {
                Some(e) => e,
                None => total,
            };
            Some(Some((st, end)))
        },
        None => match (limit, page) {
            (Some(l), Some(p)) => {
                if p == 0 {
                    return None;
                }
                let prod = match p.checked_mul(l) {
                    Some(m) => m,
                    None => {
                        return None;
                    },
                };
                assert((p - 1) * l + l == p * l) by (nonlinear_arith);
                assert(l == 0 ==> p * l == 0) by (nonlinear_arith);
                let start_idx = prod - l;
                let end_idx = prod;
                let end = if end_idx < total {
                    end_idx
                } else {
                    total
                };
                Some(Some((start_idx + 1, end)))
            },
            (Some(l), None) => Some(Some((1, if l < total {
                l
            } else {
                total
            }))),
            _ => Some(None),
        },
    }
}

/// Whether a todo can be shown (see `showable`).
fn can_show(item: &Todo, is_done: bool, all_todos: &Vec<Todo>) -> (r: bool)
    ensures
        r == showable(item@, is_done, todo_views(all_todos@)),
{
    let chain_ok = match item.up_id {
        Some(pid) => chain_ids(pid, all_todos.as_slice()).is_some(),
        None => true,
    };
    let due_ok = match &item.due_date {
        Some(d) => is_key_sliceable(d.as_str()),
        None => true,
    };
    let done_ok = if is_done {
        match &item.done_at {
            Some(d) => !byte_len_at_least(d.as_str(), 8) || is_key_sliceable(d.as_str()),
            None => true,
        }
    } else {
        true
    };
    chain_ok && due_ok && done_ok
}

/// The window as integers.
pub open spec fn window_view(w: Option<(usize, usize)>) -> Option<(int, int)> {
    match w {
        None => None,
        Some((a, b)) => Some((a as int, b as int)),
    }
}

proof fn lemma_shown_positions_bound(n: int, offset: int, w: Option<(int, int)>)
    ensures
        forall|k: int|
            0 <= k < shown_positions(n, offset, w).len() ==> #[trigger] shown_positions(n, offset, w)[k]
                < n,
        shown_positions(n, offset, w).len() <= if n < 0 {
            0
        } else {
            n
        },
    decreases n,
{
    if n > 0 {
        lemma_shown_positions_bound(n - 1, offset, w);
        let r = shown_positions(n - 1, offset, w);
        let s = shown_positions(n, offset, w);
        assert forall|k: int| 0 <= k < s.len() implies #[trigger] s[k] < n by {
            if k < r.len() {
                assert(s[k] == r[k]);
            }
        }
    }
}

/// The header line of the list.
fn header_text(use_order: bool, show_done: bool) -> (r: String)
    ensures
        r@ == list_header(use_order, show_done),
{
    let mut out = String::new();
    out.append("=== TODO");
    if use_order {
        out.append(" order");
    }
    if show_done {
        out.append(" show");
    }
    out.append(" ===\n");
    out
}

/// The positions among the first `n` todos of a section, numbered after
/// `offset`, whose list number lies in the window.
fn shown_of(n: usize, offset: usize, window: Option<(usize, usize)>) -> (r: Vec<usize>)
    requires
        offset + n <= usize::MAX,
    ensures
        r@ == shown_positions(n as int, offset as int, window_view(window)),
{
    let mut r: Vec<usize> = Vec::new();
    let mut i: usize = 0;
    while i < n
        invariant
            i <= n,
            offset + n <= usize::MAX,
            r@ == shown_positions(i as int, offset as int, window_view(window)),
        decreases n - i,
    {
        let num = offset + i + 1;
        let inside = match window {
            None => true,
            Some((a, b)) => a <= num && num <= b,
        };
        if inside {
            r.push(i);
        }
        i = i + 1;
    }
    r
}

/// Whether the todos of a section at the shown positions can be shown.
fn check_showable(v: &Vec<Todo>, shown: &Vec<usize>, is_done: bool, all_todos: &Vec<Todo>) -> (r: bool)
    requires
        forall|k: int| 0 <= k < shown.len() ==> #[trigger] shown@[k] < v.len(),
    ensures
        r == section_showable(todo_views(v@), shown@, is_done, todo_views(all_todos@)),
{
    let ghost vv = todo_views(v@);
    let ghost av = todo_views(all_todos@);
    let mut k: usize = 0;
    while k < shown.len()
        invariant
            k <= shown.len(),
            vv == todo_views(v@),
            av == todo_views(all_todos@),
            forall|q: int| 0 <= q < shown.len() ==> #[trigger] shown@[q] < v.len(),
            forall|q: int| 0 <= q < k ==> showable(vv[#[trigger] shown@[q] as int], is_done, av),
        decreases shown.len() - k,
    {
        let p = shown[k];
        assert(vv[p as int] == v@[p as int]@);
        if !can_show(&v[p], is_done, all_todos) {
            assert(!showable(vv[shown@[k as int] as int], is_done, av));
            return false;
        }
        k = k + 1;
    }
    true
}

proof fn lemma_insert_pairs_step(m: Map<i64, usize>, s: Seq<(i64, usize)>, k: int)
    requires
        0 <= k < s.len(),
    ensures
        insert_pairs(m, s.take(k + 1)) == insert_pairs(m, s.take(k)).insert(s[k].0, s[k].1),
{
    assert(s.take(k + 1).drop_last() =~= s.take(k));
    assert(s.take(k + 1).last() == s[k]);
}

/// The positions used for parent references (see `reference_positions`).
fn reference_map(items: &Vec<Todo>, done: &Vec<Todo>) -> (r: HashMap<i64, usize>)
    requires
        items.len() + done.len() <= usize::MAX,
    ensures
        r@ == reference_positions(todo_views(items@), todo_views(done@)),
{
    let ghost iv = todo_views(items@);
    let ghost dv = todo_views(done@);
    let ghost first = Seq::new(iv.len(), |i: int| (iv[i].id, i as usize));
    let ghost second = Seq::new(dv.len(), |k: int| (dv[k].id, (iv.len() + k) as usize));
    let ghost pairs = first + second;
    let mut m: HashMap<i64, usize> = HashMap::new();
    let mut k: usize = 0;
    assert(pairs.take(0) =~= Seq::<(i64, usize)>::empty());
    while k < items.len()
        invariant
            k <= items.len(),
            iv == todo_views(items@),
            pairs == first + second,
            first == Seq::new(iv.len(), |i: int| (iv[i].id, i as usize)),
            m@ == insert_pairs(Map::empty(), pairs.take(k as int)),
        decreases items.len() - k,
    {
        assert(iv[k as int] == items@[k as int]@);
        proof {
            lemma_insert_pairs_step(Map::empty(), pairs, k as int);
        }
        m.insert(items[k].id, k);
        k = k + 1;
    }
    let mut j: usize = 0;
    while j < done.len()
        invariant
            j <= done.len(),
            dv == todo_views(done@),
            iv == todo_views(items@),
            pairs == first + second,
            first.len() == items.len(),
            second == Seq::new(dv.len(), |k: int| (dv[k].id, (iv.len() + k) as usize)),
            items.len() + done.len() <= usize::MAX,
            m@ == insert_pairs(Map::empty(), pairs.take(items.len() + j)),
        decreases done.len() - j,
    {
        assert(dv[j as int] == done@[j as int]@);
        proof {
            lemma_insert_pairs_step(Map::empty(), pairs, items.len() + j);
        }
        m.insert(done[j].id, items.len() + j);
        j = j + 1;
    }
    assert(pairs.take(pairs.len() as int) =~= pairs);
    m
}

/// Appends the lines of the shown incomplete todos.
fn push_pending_lines(
    out: &mut String,
    items: &Vec<Todo>,
    shown: &Vec<usize>,
    width: usize,
    ids: &Vec<i64>,
    use_order: bool,
    all_todos: &Vec<Todo>,
    pos: &HashMap<i64, usize>,
    today: Date,
)
    requires
        today.valid(),
        forall|k: int| 0 <= k < shown.len() ==> #[trigger] shown@[k] < items.len(),
        section_showable(todo_views(items@), shown@, false, todo_views(all_todos@)),
    ensures
        final(out)@ == old(out)@ + pending_lines(
            todo_views(items@),
            shown@,
            shown.len() as int,
            width as nat,
            ids@,
            use_order,
            todo_views(all_todos@),
            pos@,
            today,
        ),
{
    let ghost iv = todo_views(items@);
    let ghost av = todo_views(all_todos@);
    let ghost start = out@;
    let mut j: usize = 0;
    while j < shown.len()
        invariant
            j <= shown.len(),
            today.valid(),
            iv == todo_views(items@),
            av == todo_views(all_todos@),
            start == old(out)@,
            forall|k: int| 0 <= k < shown.len() ==> #[trigger] shown@[k] < items.len(),
            forall|k: int| 0 <= k < shown.len() ==> showable(iv[#[trigger] shown@[k] as int], false, av),
            out@ == start + pending_lines(iv, shown@, j as int, width as nat, ids@, use_order, av, pos@, today),
        decreases shown.len() - j,
    {
        let p = shown[j];
        assert(iv[p as int] == items@[p as int]@);
        let line = format_todo_on(
            p + 1,
            width,
            &items[p],
            false,
            ids.as_slice(),
            use_order,
            all_todos.as_slice(),
            pos,
            today,
        );
        let ghost before = out@;
        out.append(line.as_str());
        assert(out@ =~= start + pending_lines(
            iv,
            shown@,
            j + 1,
            width as nat,
            ids@,
            use_order,
            av,
            pos@,
            today,
        ));
        j = j + 1;
    }
}

/// Appends the lines of the completed todos, numbered from `start`.
fn push_done_lines(
    out: &mut String,
    done: &Vec<Todo>,
    shown: &Vec<usize>,
    start: usize,
    width: usize,
    ids: &Vec<i64>,
    use_order: bool,
    all_todos: &Vec<Todo>,
    today: Date,
)
    requires
        today.valid(),
        start + done.len() <= usize::MAX + 1,
        forall|k: int| 0 <= k < shown.len() ==> #[trigger] shown@[k] < done.len(),
        section_showable(todo_views(done@), shown@, true, todo_views(all_todos@)),
    ensures
        final(out)@ == old(out)@ + done_lines(
            todo_views(done@),
            shown@,
            shown.len() as int,
            start as nat,
            width as nat,
            ids@,
            use_order,
            todo_views(all_todos@),
            today,
        ),
{
    let ghost dv = todo_views(done@);
    let ghost av = todo_views(all_todos@);
    let ghost first = out@;
    let empty: HashMap<i64, usize> = HashMap::new();
    let mut j: usize = 0;
    while j < shown.len()
        invariant
            j <= shown.len(),
            today.valid(),
            start + done.len() <= usize::MAX + 1,
            dv == todo_views(done@),
            av == todo_views(all_todos@),
            first == old(out)@,
            empty@ == Map::<i64, usize>::empty(),
            forall|k: int| 0 <= k < shown.len() ==> #[trigger] shown@[k] < done.len(),
            section_showable(dv, shown@, true, av),
            out@ == first + done_lines(dv, shown@, j as int, start as nat, width as nat, ids@, use_order, av, today),
        decreases shown.len() - j,
    {
        let p = shown[j];
        assert(dv[p as int] == done@[p as int]@);
        assert(showable(dv[shown@[j as int] as int], true, av));
        let line = format_todo_on(
            start + p,
            width,
            &done[p],
            true,
            ids.as_slice(),
            use_order,
            all_todos.as_slice(),
            &empty,
            today,
        );
        out.append(line.as_str());
        assert(out@ =~= first + done_lines(dv, shown@, j + 1, start as nat, width as nat, ids@, use_order, av, today));
        j = j + 1;
    }
}

/// Appends the ids of the todos.
fn push_ids(ids: &mut Vec<i64>, v: &Vec<Todo>)
    ensures
        final(ids)@ == old(ids)@ + ids_of(todo_views(v@)),
{
    let ghost vv = todo_views(v@);
    let ghost start = ids@;
    let mut j: usize = 0;
    while j < v.len()
        invariant
            j <= v.len(),
            vv == todo_views(v@),
            start == old(ids)@,
            ids@ =~= start + ids_of(vv.take(j as int)),
        decreases v.len() - j,
    {
        assert(vv[j as int] == v@[j as int]@);
        ids.push(v[j].id);
        assert(ids_of(vv.take(j + 1)) =~= ids_of(vv.take(j as int)).push(vv[j as int].id));
        j = j + 1;
    }
    assert(vv.take(v.len() as int) =~= vv);
}

/// The list screen once the todos are arranged (see `listed_screen`).
#[verifier::spinoff_prover]
#[verifier::rlimit(30)]
fn render_listed(
    head: String,
    items: &Vec<Todo>,
    done: &Vec<Todo>,
    window: Option<(usize, usize)>,
    show_done: bool,
    use_order: bool,
    all_todos: &Vec<Todo>,
    today: Date,
) -> (r: Option<ListScreen>)
    requires
        today.valid(),
        items.len() + done.len() <= usize::MAX,
    ensures
        match r {
            Some(s) => listed_screen(
                head@,
                todo_views(items@),
                todo_views(done@),
                window_view(window),
                show_done,
                use_order,
                todo_views(all_todos@),
                today,
            ) == Some((s.text@, s.display_ids@, s.listed)),
            None => listed_screen(
                head@,
                todo_views(items@),
                todo_views(done@),
                window_view(window),
                show_done,
                use_order,
                todo_views(all_todos@),
                today,
            ) is None,
        },
{
    let mut out = head;
    let n_items = items.len();
    let n_done = done.len();
    let shown = shown_of(n_items, 0, window);
    let done_shown = if show_done {
        shown_of(n_done, n_items, window)
    } else {
        Vec::new()
    };
    proof {
        lemma_shown_positions_bound(n_items as int, 0, window_view(window));
        lemma_shown_positions_bound(n_done as int, n_items as int, window_view(window));
        if !show_done {
            assert(done_shown@ =~= Seq::<usize>::empty());
        }
    }
    if !check_showable(items, &shown, false, all_todos) {
        return None;
    }
    if !check_showable(done, &done_shown, true, all_todos) {
        return None;
    }
    let mut ids: Vec<i64> = Vec::new();
    push_ids(&mut ids, items);
    if show_done {
        push_ids(&mut ids, done);
    }
    assert(ids@ =~= ids_of(todo_views(items@)) + (if show_done {
        ids_of(todo_views(done@))
    } else {
        Seq::<i64>::empty()
    }));
    if n_items > 0 {
        let pos = reference_map(items, done);
        let width = decimal_text(n_items as u128).unicode_len();
        push_pending_lines(&mut out, items, &shown, width, &ids, use_order, all_todos, &pos, today);
    }
    if done_shown.len() > 0 {
        if shown.len() > 0 {
            push_char(&mut out, '\n');
        }
        let width = decimal_text((n_items + n_done) as u128).unicode_len();
        push_done_lines(&mut out, done, &done_shown, n_items + 1, width, &ids, use_order, all_todos, today);
    }
    Some(ListScreen { text: out, display_ids: ids, listed: true })
}

/// What the list screen shows: its text, the ids behind the list numbers,
/// and whether any todo is listed.
pub struct ListScreen {
    pub text: String,
    pub display_ids: Vec<i64>,
    pub listed: bool,
}

/// List todos with various display options, seen from `today`.
///
/// Incomplete todos come first (as fetched, or in order mode parents before
/// their sub-todos), then, with `show_done`, the completed ones, latest
/// completion first. `limit`, `page` and the range pick which incomplete
/// todos are shown. `None` exactly where `list_screen` is `None`.
pub fn render_list_on(
    todos: &Vec<Todo>,
    all_todos: &Vec<Todo>,
    show_done: bool,
    use_order: bool,
    limit: Option<usize>,
    page: Option<usize>,
    range_start: Option<usize>,
    range_end: Option<usize>,
    today: Date,
) -> (r: Option<ListScreen>)
    requires
        today.valid(),
    ensures
        match r {
            Some(s) => list_screen(
                todo_views(todos@),
                todo_views(all_todos@),
                show_done,
                use_order,
                limit,
                page,
                range_start,
                range_end,
                today,
            ) == Some((s.text@, s.display_ids@, s.listed)),
            None => list_screen(
                todo_views(todos@),
                todo_views(all_todos@),
                show_done,
                use_order,
                limit,
                page,
                range_start,
                range_end,
                today,
            ) is None,
        },
{
    let mut out = header_text(use_order, show_done);
    let (open, closed) = split_by_done(todos);
    if open.len() == 0 && (!show_done || closed.len() == 0) {
        out.append("TODO가 없습니다.\n");
        return Some(ListScreen { text: out, display_ids: Vec::new(), listed: false });
    }
    let items = match arrange_pending(&open, todos, all_todos, use_order) {
        Some(v) => v,
        None => {
            return None;
        },
    };
    let done = arrange_done(&closed, todos);
    let n_items = items.len();
    let n_done = done.len();
    if n_items > usize::MAX - n_done {
        return None;
    }
    let total = if show_done {
        n_items + n_done
    } else {
        n_items
    };
    let window = match window_of(limit, page, range_start, range_end, total) {
        Some(w) => w,
        None => {
            return None;
        },
    };
    render_listed(out, &items, &done, window, show_done, use_order, all_todos, today)
}

/// List todos with various display options, as of today's local date (see
/// `render_list_on`).
pub fn render_list(
    todos: &Vec<Todo>,
    all_todos: &Vec<Todo>,
    show_done: bool,
    use_order: bool,
    limit: Option<usize>,
    page: Option<usize>,
    range_start: Option<usize>,
    range_end: Option<usize>,
) -> (r: Option<ListScreen>)
    ensures
        exists|today: Date|
            today.valid() && match r {
                Some(s) => list_screen(
                    todo_views(todos@),
                    todo_views(all_todos@),
                    show_done,
                    use_order,
                    limit,
                    page,
                    range_start,
                    range_end,
                    today,
                ) == Some((s.text@, s.display_ids@, s.listed)),
                None => list_screen(
                    todo_views(todos@),
                    todo_views(all_todos@),
                    show_done,
                    use_order,
                    limit,
                    page,
                    range_start,
                    range_end,
                    today,
                ) is None,
            },
{
    let today = local_today();
    render_list_on(todos, all_todos, show_done, use_order, limit, page, range_start, range_end, today)
}

proof fn lemma_add_missing_keeps(acc: Seq<TodoView>, rest: Seq<TodoView>)
    ensures
        forall|k: int| 0 <= k < rest.len() ==> has_id(add_missing(acc, rest), #[trigger] rest[k].id),
        forall|id: i64| has_id(acc, id) ==> has_id(add_missing(acc, rest), id),
        forall|k: int|
            0 <= k < add_missing(acc, rest).len() ==> has_id(acc, #[trigger] add_missing(acc, rest)[k].id)
                || has_id(rest, add_missing(acc, rest)[k].id),
    decreases rest.len(),
{
    if rest.len() > 0 {
        let front = rest.drop_last();
        lemma_add_missing_keeps(acc, front);
        let a = add_missing(acc, front);
        let r = add_missing(acc, rest);
        assert forall|id: i64| has_id(a, id) implies has_id(r, id) by {
            let j = choose|j: int| 0 <= j < a.len() && a[j].id == id;
            assert(r[j] == a[j]);
        }
        assert forall|k: int| 0 <= k < rest.len() implies has_id(r, #[trigger] rest[k].id) by {
            if k < front.len() {
                assert(front[k] == rest[k]);
            } else if !has_id(a, rest.last().id) {
                assert(r[a.len() as int] == rest.last());
            }
        }
        assert forall|k: int| 0 <= k < r.len() implies has_id(acc, #[trigger] r[k].id) || has_id(
            rest,
            r[k].id,
        ) by {
            if k < a.len() {
                assert(r[k] == a[k]);
                if has_id(front, a[k].id) {
                    let j = choose|j: int| 0 <= j < front.len() && front[j].id == a[k].id;
                    assert(rest[j] == front[j]);
                }
            } else {
                assert(rest[rest.len() - 1] == rest.last());
            }
        }
    }
}

proof fn lemma_walk_tree_open(all: Seq<TodoView>, open: Seq<TodoView>, i: int, acc: Seq<TodoView>, fuel: nat)
    requires
        forall|k: int| 0 <= k < acc.len() ==> has_id(open, #[trigger] acc[k].id),
    ensures
        walk_tree(all, open, i, acc, fuel) matches Some(r) ==> forall|k: int|
            0 <= k < r.len() ==> has_id(open, #[trigger] r[k].id),
    decreases fuel, 0int, 0int,
{
    if fuel > 0 {
        let next = take_if_open(all, open, i, acc);
        assert forall|k: int| 0 <= k < next.len() implies has_id(open, #[trigger] next[k].id) by {
            if k < acc.len() {
                assert(next[k] == acc[k]);
            }
        }
        lemma_walk_forest_open(all, open, sorted_children(all, all[i].id), 0, next, (fuel - 1) as nat);
    }
}

proof fn lemma_walk_forest_open(
    all: Seq<TodoView>,
    open: Seq<TodoView>,
    list: Seq<usize>,
    j: int,
    acc: Seq<TodoView>,
    fuel: nat,
)
    requires
        forall|k: int| 0 <= k < acc.len() ==> has_id(open, #[trigger] acc[k].id),
    ensures
        walk_forest(all, open, list, j, acc, fuel) matches Some(r) ==> forall|k: int|
            0 <= k < r.len() ==> has_id(open, #[trigger] r[k].id),
    decreases fuel, 1int, list.len() - j,
{
    if 0 <= j < list.len() {
        lemma_walk_tree_open(all, open, list[j] as int, acc, fuel);
        if let Some(a) = walk_tree(all, open, list[j] as int, acc, fuel) {
            lemma_walk_forest_open(all, open, list, j + 1, a, fuel);
        }
    }
}

/// Whether no two todos of `s` share an id.
pub open spec fn distinct_ids(s: Seq<TodoView>) -> bool {
    forall|i: int, j: int| 0 <= i < j < s.len() ==> s[i].id != s[j].id
}

proof fn lemma_push_new_id(s: Seq<TodoView>, t: TodoView)
    requires
        distinct_ids(s),
        !has_id(s, t.id),
    ensures
        distinct_ids(s.push(t)),
{
    let r = s.push(t);
    assert forall|i: int, j: int| 0 <= i < j < r.len() implies r[i].id != r[j].id by {
        if j == s.len() {
            assert(r[i] == s[i]);
        } else {
            assert(r[i] == s[i] && r[j] == s[j]);
        }
    }
}

proof fn lemma_add_missing_distinct(acc: Seq<TodoView>, rest: Seq<TodoView>)
    requires
        distinct_ids(acc),
    ensures
        distinct_ids(add_missing(acc, rest)),
    decreases rest.len(),
{
    if rest.len() > 0 {
        lemma_add_missing_distinct(acc, rest.drop_last());
        let a = add_missing(acc, rest.drop_last());
        if !has_id(a, rest.last().id) {
            lemma_push_new_id(a, rest.last());
        }
    }
}

proof fn lemma_walk_tree_distinct(all: Seq<TodoView>, open: Seq<TodoView>, i: int, acc: Seq<TodoView>, fuel: nat)
    requires
        distinct_ids(acc),
    ensures
        walk_tree(all, open, i, acc, fuel) matches Some(r) ==> distinct_ids(r),
    decreases fuel, 0int, 0int,
{
    if fuel > 0 {
        if has_id(open, all[i].id) && !has_id(acc, all[i].id) {
            lemma_push_new_id(acc, all[i]);
        }
        lemma_walk_forest_distinct(
            all,
            open,
            sorted_children(all, all[i].id),
            0,
            take_if_open(all, open, i, acc),
            (fuel - 1) as nat,
        );
    }
}

proof fn lemma_walk_forest_distinct(
    all: Seq<TodoView>,
    open: Seq<TodoView>,
    list: Seq<usize>,
    j: int,
    acc: Seq<TodoView>,
    fuel: nat,
)
    requires
        distinct_ids(acc),
    ensures
        walk_forest(all, open, list, j, acc, fuel) matches Some(r) ==> distinct_ids(r),
    decreases fuel, 1int, list.len() - j,
{
    if 0 <= j < list.len() {
        lemma_walk_tree_distinct(all, open, list[j] as int, acc, fuel);
        if let Some(a) = walk_tree(all, open, list[j] as int, acc, fuel) {
            lemma_walk_forest_distinct(all, open, list, j + 1, a, fuel);
        }
    }
}

/// In order mode each incomplete todo is listed once: no two arranged todos
/// share an id.
pub proof fn lemma_order_mode_lists_once(todos: Seq<TodoView>, all: Seq<TodoView>)
    requires
        display_pending(todos, all, true) is Some,
    ensures
        distinct_ids(display_pending(todos, all, true)->0),
{
    let open = pending(todos);
    let roots = sorted_positions(all, root_positions(all, all.len() as int), Arrangement::Roots);
    lemma_walk_forest_distinct(all, open, roots, 0, seq![], all.len());
    let ordered = walk_forest(all, open, roots, 0, seq![], all.len())->0;
    lemma_add_missing_distinct(ordered, open);
}

/// The arranged incomplete todos are exactly the incomplete ones by id: in
/// order mode too, every incomplete todo is listed, and every listed todo
/// has the id of an incomplete one.
pub proof fn lemma_display_pending_ids(todos: Seq<TodoView>, all: Seq<TodoView>, use_order: bool)
    requires
        display_pending(todos, all, use_order) is Some,
    ensures
        forall|k: int|
            0 <= k < pending(todos).len() ==> has_id(
                display_pending(todos, all, use_order)->0,
                #[trigger] pending(todos)[k].id,
            ),
        forall|k: int|
            0 <= k < display_pending(todos, all, use_order)->0.len() ==> has_id(
                pending(todos),
                #[trigger] display_pending(todos, all, use_order)->0[k].id,
            ),
{
    let open = pending(todos);
    let items = display_pending(todos, all, use_order)->0;
    if use_order {
        let roots = sorted_positions(all, root_positions(all, all.len() as int), Arrangement::Roots);
        lemma_walk_forest_open(all, open, roots, 0, seq![], all.len());
        let ordered = walk_forest(all, open, roots, 0, seq![], all.len())->0;
        lemma_add_missing_keeps(ordered, open);
        assert forall|k: int| 0 <= k < items.len() implies has_id(open, #[trigger] items[k].id) by {
            if has_id(ordered, items[k].id) {
                let j = choose|j: int| 0 <= j < ordered.len() && ordered[j].id == items[k].id;
                assert(has_id(open, ordered[j].id));
            }
        }
    } else {
        assert forall|k: int| 0 <= k < open.len() implies has_id(items, #[trigger] open[k].id) by {
            assert(items[k] == open[k]);
        }
        assert forall|k: int| 0 <= k < items.len() implies has_id(open, #[trigger] items[k].id) by {
            assert(items[k] == open[k]);
        }
    }
}

/// Without `show_done`, every list number stands for an incomplete todo.
pub proof fn lemma_listed_ids_incomplete(
    todos: Seq<TodoView>,
    all: Seq<TodoView>,
    use_order: bool,
    limit: Option<usize>,
    page: Option<usize>,
    range_start: Option<usize>,
    range_end: Option<usize>,
    today: Date,
)
    requires
        list_screen(todos, all, false, use_order, limit, page, range_start, range_end, today) is Some,
    ensures
        ({
            let ids = (list_screen(todos, all, false, use_order, limit, page, range_start, range_end, today)->0).1;
            forall|k: int| 0 <= k < ids.len() ==> has_id(pending(todos), #[trigger] ids[k])
        }),
{
    let ids = (list_screen(todos, all, false, use_order, limit, page, range_start, range_end, today)->0).1;
    if !(pending(todos).len() == 0) {
        lemma_display_pending_ids(todos, all, use_order);
        let items = display_pending(todos, all, use_order)->0;
        let done = display_done(todos);
        assert(ids =~= ids_of(items));
        assert forall|k: int| 0 <= k < ids.len() implies has_id(pending(todos), #[trigger] ids[k]) by {
            assert(ids[k] == items[k].id);
        }
    }
}

proof fn lemma_finished_len(s: Seq<TodoView>)
    ensures
        finished(s).len() <= s.len(),
    decreases s.len(),
{
    if s.len() > 0 {
        lemma_finished_len(s.drop_last());
    }
}

/// Completed todos are listed latest completion date first; the list holds
/// as many todos as are complete, each of them complete, and every complete
/// todo is among them.
pub proof fn lemma_display_done_latest_first(todos: Seq<TodoView>)
    requires
        todos.len() <= usize::MAX,
    ensures
        display_done(todos).len() == finished(todos).len(),
        forall|i: int, j: int|
            0 <= i < j < display_done(todos).len() ==> opt_text_order(
                display_done(todos)[j].done_at,
                display_done(todos)[i].done_at,
            ) <= 0,
        forall|i: int|
            0 <= i < display_done(todos).len() ==> finished(todos).contains(
                #[trigger] display_done(todos)[i],
            ),
        forall|k: int|
            0 <= k < finished(todos).len() ==> display_done(todos).contains(
                #[trigger] finished(todos)[k],
            ),
{
    let c = finished(todos);
    let n = c.len();
    let idx = positions_upto(n);
    let sp = sorted_positions(c, idx, Arrangement::Completed);
    let d = display_done(todos);
    lemma_finished_len(todos);
    lemma_sorted_positions_len(c, idx, Arrangement::Completed);
    lemma_sorted_positions_sorted(c, idx, Arrangement::Completed);
    assert forall|q: int| 0 <= q < sp.len() implies #[trigger] sp[q] < n by {
        assert(idx.contains(sp[q]));
    }
    assert forall|i: int, j: int| 0 <= i < j < d.len() implies opt_text_order(d[j].done_at, d[i].done_at)
        <= 0 by {
        assert(d[i] == c[sp[i] as int] && d[j] == c[sp[j] as int]);
        assert(arrangement_order(Arrangement::Completed, c[sp[i] as int], c[sp[j] as int]) <= 0);
    }
    assert forall|i: int| 0 <= i < d.len() implies c.contains(#[trigger] d[i]) by {
        assert(d[i] == c[sp[i] as int]);
    }
    assert forall|k: int| 0 <= k < n implies d.contains(#[trigger] c[k]) by {
        assert(idx[k] == k as usize);
        vstd::seq_lib::to_multiset_contains(idx, k as usize);
        vstd::seq_lib::to_multiset_contains(sp, k as usize);
        let q = choose|q: int| 0 <= q < sp.len() && sp[q] == k as usize;
        assert(d[q] == c[k]);
    }
}

/// A list number names the todo printed with it: the id at number `k`
/// (from 1) is that of the `k`-th incomplete todo, and after them, with
/// `show_done`, of the completed ones; the printed lines carry these
/// numbers, whatever the window.
pub proof fn lemma_list_numbers_name_printed_todos(
    todos: Seq<TodoView>,
    all: Seq<TodoView>,
    show_done: bool,
    use_order: bool,
    limit: Option<usize>,
    page: Option<usize>,
    range_start: Option<usize>,
    range_end: Option<usize>,
    today: Date,
)
    requires
        list_screen(todos, all, show_done, use_order, limit, page, range_start, range_end, today) matches Some((_, _, listed)) && listed,
    ensures
        ({
            let ids = (list_screen(todos, all, show_done, use_order, limit, page, range_start, range_end, today)->0).1;
            let items = display_pending(todos, all, use_order)->0;
            let done = display_done(todos);
            &&& ids.len() == items.len() + (if show_done {
                done.len()
            } else {
                0
            })
            &&& forall|k: int| 0 <= k < items.len() ==> ids[k] == (#[trigger] items[k]).id
            &&& show_done ==> forall|j: int| 0 <= j < done.len() ==> ids[items.len() + j] == (#[trigger] done[j]).id
        }),
{
    let ids = (list_screen(todos, all, show_done, use_order, limit, page, range_start, range_end, today)->0).1;
    let items = display_pending(todos, all, use_order)->0;
    let done = display_done(todos);
    assert(ids =~= ids_of(items) + (if show_done {
        ids_of(done)
    } else {
        Seq::<i64>::empty()
    }));
}

} // verus!
