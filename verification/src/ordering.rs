use vstd::prelude::*;

use crate::model::{Todo, TodoView, todo_views};
use crate::text::same_text;

verus! {

/// Lexicographic order of character sequences (by code point), as `str`
/// compares: -1, 0 or 1.
pub open spec fn text_order(a: Seq<char>, b: Seq<char>) -> int
    decreases a.len(),
{
    if a.len() == 0 {
        if b.len() == 0 {
            0
        } else {
            -1
        }
    } else if b.len() == 0 {
        1
    } else if (a[0] as u32) < (b[0] as u32) {
        -1
    } else if (a[0] as u32) > (b[0] as u32) {
        1
    } else {
        text_order(a.drop_first(), b.drop_first())
    }
}

/// A character's code is the character itself.
proof fn lemma_char_code(c: char)
    ensures
        (c as u32) as int == c as int,
{
}

/// Text order is a total order: swapping the two sides flips the sign, and
/// only equal texts compare equal.
pub proof fn lemma_text_order_antisym(a: Seq<char>, b: Seq<char>)
    ensures
        text_order(a, b) == -text_order(b, a),
        (text_order(a, b) == 0) == (a == b),
        -1 <= text_order(a, b) <= 1,
    decreases a.len(),
{
    if a.len() > 0 && b.len() > 0 {
        let x = a[0];
        let y = b[0];
        if x == y {
            lemma_text_order_antisym(a.drop_first(), b.drop_first());
            if a.drop_first() == b.drop_first() {
                assert(a =~= seq![x] + a.drop_first());
                assert(b =~= seq![y] + b.drop_first());
            }
        } else {
            lemma_char_code(x);
            lemma_char_code(y);
            assert((x as int) != (y as int));
            assert(a != b);
        }
    } else if a.len() > 0 || b.len() > 0 {
        assert(a.len() != b.len());
    } else {
        assert(a =~= b);
    }
}

/// Text order is transitive.
pub proof fn lemma_text_order_trans(a: Seq<char>, b: Seq<char>, c: Seq<char>)
    requires
        text_order(a, b) <= 0,
        text_order(b, c) <= 0,
    ensures
        text_order(a, c) <= 0,
    decreases a.len(),
{
    if a.len() > 0 && b.len() > 0 && c.len() > 0 {
        let x = a[0];
        let y = b[0];
        let z = c[0];
        if x == y && y == z {
            lemma_text_order_trans(a.drop_first(), b.drop_first(), c.drop_first());
        } else {
            lemma_char_code(x);
            lemma_char_code(y);
            lemma_char_code(z);
            if x == z {
                assert(x as int == z as int);
            }
        }
    }
}

/// Text order is lexicographic: of two texts that agree on their first `k`
/// characters, the one that ends there comes first if the other goes on,
/// and otherwise the one with the smaller character at `k` comes first.
pub proof fn lemma_text_order_lexicographic(a: Seq<char>, b: Seq<char>, k: int)
    requires
        0 <= k <= a.len(),
        k <= b.len(),
        a.take(k) == b.take(k),
    ensures
        k == a.len() && k < b.len() ==> text_order(a, b) == -1,
        k < a.len() && k < b.len() && (a[k] as u32) < (b[k] as u32) ==> text_order(a, b) == -1,
        k < a.len() && k < b.len() && (a[k] as u32) > (b[k] as u32) ==> text_order(a, b) == 1,
    decreases k,
{
    if k > 0 {
        assert(a[0] == a.take(k)[0] && b[0] == b.take(k)[0]);
        assert(a.drop_first().take(k - 1) =~= a.take(k).drop_first());
        assert(b.drop_first().take(k - 1) =~= b.take(k).drop_first());
        lemma_text_order_lexicographic(a.drop_first(), b.drop_first(), k - 1);
        assert(a.drop_first()[k - 1] == a[k] || k == a.len());
    }
}

/// Compares two strings as `Ord for str` does: -1, 0 or 1.
pub fn compare_text(a: &str, b: &str) -> (r: i8)
    ensures
        r == text_order(a@, b@),
{
    let n = a.unicode_len();
    let m = b.unicode_len();
    let mut i: usize = 0;
    assert(a@.skip(0) =~= a@);
    assert(b@.skip(0) =~= b@);
    while i < n && i < m
        invariant
            n == a@.len(),
            m == b@.len(),
            i <= n,
            i <= m,
            text_order(a@, b@) == text_order(a@.skip(i as int), b@.skip(i as int)),
        decreases n - i,
    {
        let x = a.get_char(i);
        let y = b.get_char(i);
        assert(a@.skip(i as int)[0] == x);
        assert(b@.skip(i as int)[0] == y);
        if (x as u32) < (y as u32) {
            return -1;
        }
        if (x as u32) > (y as u32) {
            return 1;
        }
        assert(a@.skip(i as int).drop_first() =~= a@.skip(i + 1));
        assert(b@.skip(i as int).drop_first() =~= b@.skip(i + 1));
        i = i + 1;
    }
    if i == n {
        if i == m {
            0
        } else {
            -1
        }
    } else {
        1
    }
}

/// Order of optional strings as `Ord for Option<String>`: none first.
pub open spec fn opt_text_order(a: Option<Seq<char>>, b: Option<Seq<char>>) -> int {
    match (a, b) {
        (None, None) => 0,
        (None, Some(_)) => -1,
        (Some(_), None) => 1,
        (Some(x), Some(y)) => text_order(x, y),
    }
}

fn compare_opt_text(a: &Option<String>, b: &Option<String>) -> (r: i8)
    ensures
        r == opt_text_order(crate::model::opt_chars(*a), crate::model::opt_chars(*b)),
{
    match (a, b) {
        (None, None) => 0,
        (None, Some(_)) => -1,
        (Some(_), None) => 1,
        (Some(x), Some(y)) => compare_text(x.as_str(), y.as_str()),
    }
}

/// Order of integers: -1, 0 or 1.
pub open spec fn int_order(x: int, y: int) -> int {
    if x < y {
        -1
    } else if x > y {
        1
    } else {
        0
    }
}

proof fn lemma_opt_text_order(a: Option<Seq<char>>, b: Option<Seq<char>>, c: Option<Seq<char>>)
    ensures
        opt_text_order(a, b) == -opt_text_order(b, a),
        (opt_text_order(a, b) == 0) == (a == b),
        -1 <= opt_text_order(a, b) <= 1,
        opt_text_order(a, b) <= 0 && opt_text_order(b, c) <= 0 ==> opt_text_order(a, c) <= 0,
{
    if let (Some(x), Some(y)) = (a, b) {
        lemma_text_order_antisym(x, y);
        if let Some(z) = c {
            if text_order(x, y) <= 0 && text_order(y, z) <= 0 {
                lemma_text_order_trans(x, y, z);
            }
        }
    }
}

/// The order of top-level todos in order mode: those with a due date first,
/// then by due date, priority, and newest id first.
pub open spec fn root_order(a: TodoView, b: TodoView) -> int {
    let ah = a.due_date is Some;
    let bh = b.due_date is Some;
    if ah != bh {
        if bh {
            1
        } else {
            -1
        }
    } else {
        let c1 = opt_text_order(a.due_date, b.due_date);
        if c1 != 0 {
            c1
        } else {
            let c2 = int_order(a.priority as int, b.priority as int);
            if c2 != 0 {
                c2
            } else {
                int_order(b.id as int, a.id as int)
            }
        }
    }
}

/// The order of sub-todos under their parent: by due date (none last, then
/// by id), then by priority.
pub open spec fn child_order(a: TodoView, b: TodoView) -> int {
    match (a.due_date, b.due_date) {
        (None, None) => int_order(a.id as int, b.id as int),
        (None, Some(_)) => 1,
        (Some(_), None) => -1,
        (Some(x), Some(y)) => if x != y {
            text_order(x, y)
        } else {
            int_order(a.priority as int, b.priority as int)
        },
    }
}

/// The order of completed todos: latest completion date first.
pub open spec fn done_order(a: TodoView, b: TodoView) -> int {
    opt_text_order(b.done_at, a.done_at)
}

/// The three orders by which todos are listed.
pub enum Arrangement {
    Roots,
    Children,
    Completed,
}

/// The order that an arrangement puts todos in.
pub open spec fn arrangement_order(kind: Arrangement, a: TodoView, b: TodoView) -> int {
    match kind {
        Arrangement::Roots => root_order(a, b),
        Arrangement::Children => child_order(a, b),
        Arrangement::Completed => done_order(a, b),
    }
}

/// Each arrangement orders todos totally: swapping two todos flips the
/// sign, and the order is transitive. (So sorting by it is well defined.)
pub proof fn lemma_arrangement_order(kind: Arrangement, a: TodoView, b: TodoView, c: TodoView)
    ensures
        arrangement_order(kind, a, b) == -arrangement_order(kind, b, a),
        -1 <= arrangement_order(kind, a, b) <= 1,
        arrangement_order(kind, a, b) <= 0 && arrangement_order(kind, b, c) <= 0
            ==> arrangement_order(kind, a, c) <= 0,
{
    lemma_opt_text_order(a.due_date, b.due_date, c.due_date);
    lemma_opt_text_order(b.due_date, c.due_date, a.due_date);
    lemma_opt_text_order(a.due_date, c.due_date, b.due_date);
    lemma_opt_text_order(c.done_at, b.done_at, a.done_at);
    lemma_opt_text_order(b.done_at, a.done_at, c.done_at);
    if let (Some(x), Some(y), Some(z)) = (a.due_date, b.due_date, c.due_date) {
        lemma_text_order_antisym(x, y);
        lemma_text_order_antisym(y, z);
        lemma_text_order_antisym(x, z);
        if text_order(x, y) <= 0 && text_order(y, z) <= 0 {
            lemma_text_order_trans(x, y, z);
        }
    }
    if let (Some(x), Some(y)) = (a.due_date, b.due_date) {
        lemma_text_order_antisym(x, y);
    }
}

/// In order mode, top-level todos come in this order: those with a due date
/// before those without; of two with due dates, the earlier date (as
/// `YYYYMMDD` text) first; with equal due dates, the higher priority (the
/// smaller number) first; and with equal priorities too, the newer todo
/// (the larger id) first.
pub proof fn lemma_root_order_rules(a: TodoView, b: TodoView)
    ensures
        a.due_date is Some && b.due_date is None ==> root_order(a, b) == -1,
        a.due_date is Some && b.due_date is Some && text_order(a.due_date->0, b.due_date->0) < 0
            ==> root_order(a, b) == -1,
        a.due_date == b.due_date && a.priority < b.priority ==> root_order(a, b) == -1,
        a.due_date == b.due_date && a.priority == b.priority && a.id > b.id ==> root_order(a, b)
            == -1,
        root_order(a, b) == -root_order(b, a),
{
    lemma_opt_text_order(a.due_date, b.due_date, a.due_date);
    if a.due_date == b.due_date {
        if let Some(x) = a.due_date {
            lemma_text_order_antisym(x, x);
        }
    }
}

/// Sub-todos come under their parent in this order: those with a due date
/// before those without; of two with due dates, the earlier date first, and
/// with equal dates the higher priority first; of two without, the older
/// (smaller id) first.
pub proof fn lemma_child_order_rules(a: TodoView, b: TodoView)
    ensures
        a.due_date is Some && b.due_date is None ==> child_order(a, b) == -1,
        a.due_date is Some && b.due_date is Some && text_order(a.due_date->0, b.due_date->0) < 0
            ==> child_order(a, b) == -1,
        a.due_date is Some && a.due_date == b.due_date && a.priority < b.priority ==> child_order(a, b)
            == -1,
        a.due_date is None && b.due_date is None && a.id < b.id ==> child_order(a, b) == -1,
{
    if let (Some(x), Some(y)) = (a.due_date, b.due_date) {
        lemma_text_order_antisym(x, y);
    }
}

/// Completed todos come latest completion first: of two with completion
/// dates, the later one (as text) first; those without one come last.
pub proof fn lemma_done_order_rules(a: TodoView, b: TodoView)
    ensures
        a.done_at is Some && b.done_at is Some && text_order(b.done_at->0, a.done_at->0) < 0
            ==> done_order(a, b) == -1,
        a.done_at is Some && b.done_at is None ==> done_order(a, b) == -1,
{
    if let (Some(x), Some(y)) = (a.done_at, b.done_at) {
        lemma_text_order_antisym(y, x);
    }
}

fn compare_int(x: i64, y: i64) -> (r: i8)
    ensures
        r == int_order(x as int, y as int),
{
    if x < y {
        -1
    } else if x > y {
        1
    } else {
        0
    }
}

/// Compares two todos in an arrangement.
pub fn compare_todos(kind: &Arrangement, a: &Todo, b: &Todo) -> (r: i8)
    ensures
        r == arrangement_order(*kind, a@, b@),
{
    match kind {
        Arrangement::Roots => {
            let ah = a.due_date.is_some();
            let bh = b.due_date.is_some();
            if ah != bh {
                if bh {
                    1
                } else {
                    -1
                }
            } else {
                let c1 = compare_opt_text(&a.due_date, &b.due_date);
                if c1 != 0 {
                    c1
                } else {
                    let c2 = compare_int(a.priority as i64, b.priority as i64);
                    if c2 != 0 {
                        c2
                    } else {
                        compare_int(b.id, a.id)
                    }
                }
            }
        },
        Arrangement::Children => match (&a.due_date, &b.due_date) {
            (None, None) => compare_int(a.id, b.id),
            (None, Some(_)) => 1,
            (Some(_), None) => -1,
            (Some(x), Some(y)) => {
                if !same_text(x.as_str(), y.as_str()) {
                    compare_text(x.as_str(), y.as_str())
                } else {
                    compare_int(a.priority as i64, b.priority as i64)
                }
            },
        },
        Arrangement::Completed => compare_opt_text(&b.done_at, &a.done_at),
    }
}

/// Where a stable insertion puts item `x` among the already sorted `sorted`
/// (looking from position `j` on): before the first item that `x` precedes.
pub open spec fn insert_position(
    items: Seq<TodoView>,
    sorted: Seq<usize>,
    x: usize,
    kind: Arrangement,
    j: int,
) -> int
    decreases sorted.len() - j,
{
    if j < 0 || j >= sorted.len() {
        sorted.len() as int
    } else if arrangement_order(kind, items[x as int], items[sorted[j] as int]) < 0 {
        j
    } else {
        insert_position(items, sorted, x, kind, j + 1)
    }
}

/// The positions `idx` of `items`, stably sorted by the arrangement's order:
/// what `sort_by` with that comparator gives.
pub open spec fn sorted_positions(items: Seq<TodoView>, idx: Seq<usize>, kind: Arrangement) -> Seq<usize>
    decreases idx.len(),
{
    if idx.len() == 0 {
        seq![]
    } else {
        let s = sorted_positions(items, idx.drop_last(), kind);
        s.insert(insert_position(items, s, idx.last(), kind, 0), idx.last())
    }
}

pub proof fn lemma_sorted_positions_len(items: Seq<TodoView>, idx: Seq<usize>, kind: Arrangement)
    ensures
        sorted_positions(items, idx, kind).len() == idx.len(),
        forall|k: int|
            0 <= k < sorted_positions(items, idx, kind).len() ==> idx.contains(
                #[trigger] sorted_positions(items, idx, kind)[k],
            ),
    decreases idx.len(),
{
    if idx.len() > 0 {
        lemma_sorted_positions_len(items, idx.drop_last(), kind);
        let s = sorted_positions(items, idx.drop_last(), kind);
        lemma_insert_position_range(items, s, idx.last(), kind, 0);
        let p = insert_position(items, s, idx.last(), kind, 0);
        let r = s.insert(p, idx.last());
        assert forall|k: int| 0 <= k < r.len() implies idx.contains(#[trigger] r[k]) by {
            if k < p {
                assert(r[k] == s[k]);
                assert(idx.drop_last().contains(s[k]));
            } else if k == p {
                assert(idx[idx.len() - 1] == idx.last());
            } else {
                assert(r[k] == s[k - 1]);
                assert(idx.drop_last().contains(s[k - 1]));
            }
        }
    }
}

proof fn lemma_insert_position_range(
    items: Seq<TodoView>,
    sorted: Seq<usize>,
    x: usize,
    kind: Arrangement,
    j: int,
)
    requires
        0 <= j,
    ensures
        j <= insert_position(items, sorted, x, kind, j) <= sorted.len() || j > sorted.len(),
        0 <= insert_position(items, sorted, x, kind, j) <= sorted.len(),
    decreases sorted.len() - j,
{
    if j < sorted.len() {
        lemma_insert_position_range(items, sorted, x, kind, j + 1);
    }
}

/// Whether the positions `s` list their todos in the arrangement's order.
pub open spec fn sorted_by(items: Seq<TodoView>, s: Seq<usize>, kind: Arrangement) -> bool {
    forall|i: int, j: int|
        0 <= i < j < s.len() ==> arrangement_order(kind, items[s[i] as int], items[s[j] as int]) <= 0
}

proof fn lemma_insert_position_facts(
    items: Seq<TodoView>,
    sorted: Seq<usize>,
    x: usize,
    kind: Arrangement,
    j: int,
)
    requires
        0 <= j <= sorted.len(),
    ensures
        j <= insert_position(items, sorted, x, kind, j) <= sorted.len(),
        forall|k: int|
            j <= k < insert_position(items, sorted, x, kind, j) ==> arrangement_order(
                kind,
                items[x as int],
                items[#[trigger] sorted[k] as int],
            ) >= 0,
        insert_position(items, sorted, x, kind, j) < sorted.len() ==> arrangement_order(
            kind,
            items[x as int],
            items[sorted[insert_position(items, sorted, x, kind, j)] as int],
        ) < 0,
    decreases sorted.len() - j,
{
    if j < sorted.len() && arrangement_order(kind, items[x as int], items[sorted[j] as int]) >= 0 {
        lemma_insert_position_facts(items, sorted, x, kind, j + 1);
    }
}

/// Sorting lists the todos in the arrangement's order, and lists each
/// position it was given as often as it was given.
pub proof fn lemma_sorted_positions_sorted(items: Seq<TodoView>, idx: Seq<usize>, kind: Arrangement)
    ensures
        sorted_by(items, sorted_positions(items, idx, kind), kind),
        sorted_positions(items, idx, kind).to_multiset() == idx.to_multiset(),
    decreases idx.len(),
{
    broadcast use vstd::seq_lib::to_multiset_insert, vstd::seq_lib::to_multiset_build;
    if idx.len() > 0 {
        lemma_sorted_positions_sorted(items, idx.drop_last(), kind);
        let s = sorted_positions(items, idx.drop_last(), kind);
        let x = idx.last();
        lemma_insert_position_facts(items, s, x, kind, 0);
        let p = insert_position(items, s, x, kind, 0);
        let r = s.insert(p, x);
        assert(idx =~= idx.drop_last().push(x));
        vstd::seq_lib::to_multiset_insert(s, p, x);
        vstd::seq_lib::to_multiset_build(idx.drop_last(), x);
        assert(r.to_multiset() =~= idx.to_multiset());
        assert forall|i: int, j: int| 0 <= i < j < r.len() implies arrangement_order(
            kind,
            items[r[i] as int],
            items[r[j] as int],
        ) <= 0 by {
            let xv = items[x as int];
            if i < p && j < p {
                assert(r[i] == s[i] && r[j] == s[j]);
            } else if i < p && j == p {
                assert(r[i] == s[i]);
                lemma_arrangement_order(kind, xv, items[s[i] as int], xv);
            } else if i < p {
                assert(r[i] == s[i] && r[j] == s[j - 1]);
            } else if i == p {
                assert(r[j] == s[j - 1]);
                lemma_arrangement_order(kind, xv, items[s[p] as int], items[s[j - 1] as int]);
            } else {
                assert(r[i] == s[i - 1] && r[j] == s[j - 1]);
            }
        }
    } else {
        assert(idx =~= Seq::<usize>::empty());
        assert(sorted_positions(items, idx, kind) =~= Seq::<usize>::empty());
    }
}

/// Stably sorts the positions `idx` of `items` by the arrangement's order.
pub fn sort_positions(items: &Vec<Todo>, idx: &Vec<usize>, kind: &Arrangement) -> (r: Vec<usize>)
    requires
        forall|k: int| 0 <= k < idx.len() ==> #[trigger] idx@[k] < items.len(),
    ensures
        r@ == sorted_positions(todo_views(items@), idx@, *kind),
        r.len() == idx.len(),
{
    let ghost views = todo_views(items@);
    let mut out: Vec<usize> = Vec::new();
    let mut k: usize = 0;
    while k < idx.len()
        invariant
            k <= idx.len(),
            views == todo_views(items@),
            forall|q: int| 0 <= q < idx.len() ==> #[trigger] idx@[q] < items.len(),
            out@ == sorted_positions(views, idx@.take(k as int), *kind),
        decreases idx.len() - k,
    {
        let x = idx[k];
        proof {
            lemma_sorted_positions_len(views, idx@.take(k as int), *kind);
        }
        let mut j: usize = 0;
        while j < out.len() && compare_todos(kind, &items[x], &items[out[j]]) >= 0
            invariant
                j <= out.len(),
                x < items.len(),
                views == todo_views(items@),
                forall|q: int| 0 <= q < out.len() ==> #[trigger] out@[q] < items.len(),
                insert_position(views, out@, x, *kind, 0) == insert_position(
                    views,
                    out@,
                    x,
                    *kind,
                    j as int,
                ),
            decreases out.len() - j,
        {
            j = j + 1;
        }
        assert(idx@.take(k + 1).drop_last() =~= idx@.take(k as int));
        out.insert(j, x);
        k = k + 1;
    }
    assert(idx@.take(idx.len() as int) =~= idx@);
    proof {
        lemma_sorted_positions_len(views, idx@, *kind);
    }
    out
}


/// Sorted for order mode, top-level todos never list a later due date
/// before an earlier one: of two listed in order that both have due dates,
/// the first one's date is not after the second's, and a todo with a due
/// date never follows one without.
pub proof fn lemma_sorted_roots_by_due_date(items: Seq<TodoView>, idx: Seq<usize>, i: int, j: int)
    requires
        0 <= i < j < idx.len(),
    ensures
        ({
            let s = sorted_positions(items, idx, Arrangement::Roots);
            let a = items[s[i] as int];
            let b = items[s[j] as int];
            &&& a.due_date is Some && b.due_date is Some ==> text_order(a.due_date->0, b.due_date->0) <= 0
            &&& a.due_date is None ==> b.due_date is None
        }),
{
    lemma_sorted_positions_sorted(items, idx, Arrangement::Roots);
    lemma_sorted_positions_len(items, idx, Arrangement::Roots);
    let s = sorted_positions(items, idx, Arrangement::Roots);
    let a = items[s[i] as int];
    let b = items[s[j] as int];
    assert(sorted_by(items, s, Arrangement::Roots));
    assert(arrangement_order(Arrangement::Roots, items[s[i] as int], items[s[j] as int]) <= 0);
    assert(root_order(a, b) <= 0);
    lemma_root_order_rules(b, a);
    if let (Some(x), Some(y)) = (a.due_date, b.due_date) {
        lemma_text_order_antisym(x, y);
    }
}

} // verus!
