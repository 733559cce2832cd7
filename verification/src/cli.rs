use vstd::prelude::*;

use crate::text::{
    lemma_pieces_nonempty, has_char, lowercase, parse_usize, parsed_unsigned, pieces, same_text, split_at_either,
    split_whitespace, str_views, tail_from, to_lowercase, words,
};

verus! {

/// CLI arguments passed to the todoj application
///
/// `list_mode`: show todos and exit immediately. `db`: path of the SQLite
/// database file; the default location `~/.todoj.db` when absent.
pub struct Args {
    pub list_mode: bool,
    pub db: Option<String>,
}

/// The full command name for a command word, given the word lowercased:
/// Korean shortcut letters become English names (`p` and `ㅔ` the `past` toggle, `ㅡ`
/// the `more` command); any other word
/// stays as it was typed.
pub open spec fn command_name(input: Seq<char>, lower: Seq<char>) -> Seq<char> {
    if lower == "ㅁ"@ {
        "add"@
    } else if lower == "ㄷ"@ {
        "edit"@
    } else if lower == "ㄱ"@ {
        "remove"@
    } else if lower == "ㅇ"@ {
        "done"@
    } else if lower == "ㅣ"@ {
        "list"@
    } else if lower == "ㅊ"@ {
        "calendar"@
    } else if lower == "ㅐ"@ {
        "order"@
    } else if lower == "ㄴ"@ {
        "search"@
    } else if lower == "ㅔ"@ {
        "past"@
    } else if lower == "p"@ {
        "past"@
    } else if lower == "ㅡ"@ {
        "more"@
    } else if lower == "ㅗ"@ {
        "help"@
    } else if lower == "ㅂ"@ {
        "quit"@
    } else if lower == "search"@ {
        "search"@
    } else {
        input
    }
}

/// The command name for a command word, given the word and its lowercase form.
pub fn command_for(input: &str, lower: &str) -> (r: String)
    ensures
        r@ == command_name(input@, lower@),
{
    if same_text(lower, "ㅁ") {
        String::from_str("add")
    } else if same_text(lower, "ㄷ") {
        String::from_str("edit")
    } else if same_text(lower, "ㄱ") {
        String::from_str("remove")
    } else if same_text(lower, "ㅇ") {
        String::from_str("done")
    } else if same_text(lower, "ㅣ") {
        String::from_str("list")
    } else if same_text(lower, "ㅊ") {
        String::from_str("calendar")
    } else if same_text(lower, "ㅐ") {
        String::from_str("order")
    } else if same_text(lower, "ㄴ") {
        String::from_str("search")
    } else if same_text(lower, "ㅔ") {
        String::from_str("past")
    } else if same_text(lower, "p") {
        String::from_str("past")
    } else if same_text(lower, "ㅡ") {
        String::from_str("more")
    } else if same_text(lower, "ㅗ") {
        String::from_str("help")
    } else if same_text(lower, "ㅂ") {
        String::from_str("quit")
    } else if same_text(lower, "search") {
        String::from_str("search")
    } else {
        String::from_str(input)
    }
}

/// Normalize command: convert Korean shortcuts to English
/// a=ㅁ, e=ㄷ, r=ㄱ, d=ㅇ, l=ㅣ, c=ㅊ, o=ㅐ, s=search, p=ㅔ, m=ㅡ, h=ㅗ, q=ㅂ
pub fn normalize_cmd(input: &str) -> (r: String)
    ensures
        r@ == command_name(input@, lowercase(input@)),
{
    let lower = to_lowercase(input);
    command_for(input, lower.as_str())
}

/// Parse a command line input into command and arguments
///
/// The first white-space separated word is the command (normalized), the
/// other words are its arguments; `None` when the input holds no word.
pub fn parse_command(input: &str) -> (r: Option<(String, Vec<&str>)>)
    ensures
        match r {
            Some((cmd, args)) => words(input@).len() > 0 && cmd@ == command_name(
                words(input@)[0],
                lowercase(words(input@)[0]),
            ) && str_views(args@) == words(input@).skip(1),
            None => words(input@).len() == 0,
        },
{
    let parts = split_whitespace(input);
    if parts.len() == 0 {
        return None;
    }
    assert(parts[0]@ == words(input@)[0]);
    let cmd = normalize_cmd(parts[0]);
    let rest = tail_from(&parts, 1);
    assert(str_views(rest@) =~= words(input@).skip(1));
    Some((cmd, rest))
}

/// `start..=end` as a sequence.
pub open spec fn inclusive_range(start: nat, end: nat) -> Seq<usize> {
    if end >= start {
        Seq::new((end - start + 1) as nat, |i: int| (start + i) as usize)
    } else {
        seq![]
    }
}

/// The numbers that one comma-separated part denotes: a number, a range
/// `a-b` of numbers (empty when `a > b`), or nothing when it is neither.
pub open spec fn part_numbers(part: Seq<char>) -> Seq<usize> {
    if part.contains('-') {
        let ends = pieces(part, '-', '-');
        if ends.len() == 2 {
            match (
                parsed_unsigned(ends[0], usize::MAX as int),
                parsed_unsigned(ends[1], usize::MAX as int),
            ) {
                (Some(a), Some(b)) => inclusive_range(a, b),
                _ => seq![],
            }
        } else {
            seq![]
        }
    } else {
        match parsed_unsigned(part, usize::MAX as int) {
            Some(n) => seq![n as usize],
            None => seq![],
        }
    }
}

/// The numbers of all parts, in order.
pub open spec fn parts_numbers(parts: Seq<Seq<char>>) -> Seq<usize>
    decreases parts.len(),
{
    if parts.len() == 0 {
        seq![]
    } else {
        parts_numbers(parts.drop_last()) + part_numbers(parts.last())
    }
}

/// The numbers that a list like `1,3-5,7` denotes.
pub open spec fn listed_numbers(input: Seq<char>) -> Seq<usize> {
    parts_numbers(pieces(input, ',', ','))
}

/// Pieces of two texts joined by a separator are the pieces of each side.
pub proof fn lemma_pieces_join(x: Seq<char>, y: Seq<char>, a: char, b: char)
    ensures
        pieces(x + seq![a] + y, a, b) == pieces(x, a, b) + pieces(y, a, b),
    decreases y.len(),
{
    let s = x + seq![a] + y;
    if y.len() == 0 {
        assert(s.drop_last() =~= x);
        assert(pieces(x, a, b).push(seq![]) =~= pieces(x, a, b) + pieces(y, a, b));
    } else {
        let y0 = y.drop_last();
        lemma_pieces_join(x, y0, a, b);
        lemma_pieces_nonempty(y0, a, b);
        assert(s.drop_last() =~= x + seq![a] + y0);
        assert(s.last() == y.last());
        let p = pieces(x, a, b);
        let q = pieces(y0, a, b);
        let c = y.last();
        if c == a || c == b {
            assert((p + q).push(seq![]) =~= p + q.push(seq![]));
        } else {
            assert((p + q).drop_last().push((p + q).last().push(c)) =~= p + q.drop_last().push(
                q.last().push(c),
            ));
        }
    }
}

proof fn lemma_parts_numbers_join(p: Seq<Seq<char>>, q: Seq<Seq<char>>)
    ensures
        parts_numbers(p + q) == parts_numbers(p) + parts_numbers(q),
    decreases q.len(),
{
    if q.len() == 0 {
        assert(p + q =~= p);
        assert(parts_numbers(p) + Seq::<usize>::empty() =~= parts_numbers(p));
    } else {
        lemma_parts_numbers_join(p, q.drop_last());
        assert((p + q).drop_last() =~= p + q.drop_last());
        assert((p + q).last() == q.last());
        assert(parts_numbers(p) + parts_numbers(q.drop_last()) + part_numbers(q.last()) =~= parts_numbers(p)
            + (parts_numbers(q.drop_last()) + part_numbers(q.last())));
    }
}

/// List numbers joined by a comma are the numbers of each side in turn:
/// `1,3-5` lists what `1` lists, then what `3-5` lists.
pub proof fn lemma_listed_numbers_join(x: Seq<char>, y: Seq<char>)
    ensures
        listed_numbers(x + seq![','] + y) == listed_numbers(x) + listed_numbers(y),
{
    lemma_pieces_join(x, y, ',', ',');
    lemma_parts_numbers_join(pieces(x, ',', ','), pieces(y, ',', ','));
}

/// Appends `start..=end` to `numbers`.
fn push_range(numbers: &mut Vec<usize>, start: usize, end: usize)
    ensures
        final(numbers)@ == old(numbers)@ + inclusive_range(start as nat, end as nat),
{
    if start > end {
        assert(inclusive_range(start as nat, end as nat) =~= Seq::<usize>::empty());
        assert(old(numbers)@ + Seq::<usize>::empty() =~= old(numbers)@);
        return ;
    }
    let mut i = start;
    loop
        invariant
            start <= i <= end,
            numbers@ =~= old(numbers)@ + inclusive_range(start as nat, (i - 1) as nat).take(
                (i - start) as int,
            ),
        decreases end - i,
    {
        let ghost before = numbers@;
        numbers.push(i);
        assert(inclusive_range(start as nat, i as nat).take((i + 1 - start) as int) =~= inclusive_range(
            start as nat,
            (i - 1) as nat,
        ).take((i - start) as int).push(i));
        if i == end {
            assert(inclusive_range(start as nat, end as nat) =~= inclusive_range(
                start as nat,
                i as nat,
            ).take((i + 1 - start) as int));
            return ;
        }
        i = i + 1;
    }
}

/// Parse number string into list of indices
///
/// Supports a single number "5" -> [5], comma-separated "1,3,5" -> [1, 3, 5]
/// and ranges "2-5" -> [2, 3, 4, 5]; parts that are none of these are skipped.
pub fn parse_numbers(input: &str) -> (r: Vec<usize>)
    ensures
        r@ == listed_numbers(input@),
{
    let mut numbers: Vec<usize> = Vec::new();
    let parts = split_at_either(input, ',', ',');
    let ghost ps = pieces(input@, ',', ',');
    let mut k: usize = 0;
    while k < parts.len()
        invariant
            k <= parts.len(),
            str_views(parts@) == ps,
            numbers@ == parts_numbers(ps.take(k as int)),
        decreases parts.len() - k,
    {
        let part = parts[k];
        assert(part@ == ps[k as int]);
        assert(ps.take(k + 1).drop_last() =~= ps.take(k as int));
        if has_char(part, '-') {
            let ends = split_at_either(part, '-', '-');
            if ends.len() == 2 {
                assert(ends[0]@ == pieces(part@, '-', '-')[0]);
                assert(ends[1]@ == pieces(part@, '-', '-')[1]);
                match (parse_usize(ends[0]), parse_usize(ends[1])) {
                    (Some(start), Some(end)) => {
                        push_range(&mut numbers, start, end);
                    },
                    _ => {
                        assert(numbers@ =~= numbers@ + Seq::<usize>::empty());
                    },
                }
            } else {
                assert(numbers@ =~= numbers@ + Seq::<usize>::empty());
            }
        } else {
            match parse_usize(part) {
                Some(n) => {
                    numbers.push(n);
                },
                None => {
                    assert(numbers@ =~= numbers@ + Seq::<usize>::empty());
                },
            }
        }
        k = k + 1;
    }
    assert(ps.take(parts.len() as int) =~= ps);
    numbers
}

/// The list display options: `(limit, page, range_start, range_end)`.
pub type ListRange = (Option<usize>, Option<usize>, Option<usize>, Option<usize>);

/// `Some` of what `text` parses to as a `usize`, else `keep`.
pub open spec fn parsed_or(text: Seq<char>, keep: Option<usize>) -> Option<usize> {
    match parsed_unsigned(text, usize::MAX as int) {
        Some(v) => Some(v as usize),
        None => keep,
    }
}

/// The display options after reading one more argument: `l/p` sets limit
/// and page, `s-e` sets the range, a plain number sets the limit.
pub open spec fn list_range_step(st: ListRange, arg: Seq<char>) -> ListRange {
    let (limit, page, start, end) = st;
    if arg.contains('/') {
        let parts = pieces(arg, '/', '/');
        if parts.len() == 2 {
            (parsed_or(parts[0], limit), parsed_or(parts[1], page), start, end)
        } else {
            st
        }
    } else if arg.contains('-') {
        let parts = pieces(arg, '-', '-');
        if parts.len() == 2 {
            (limit, page, parsed_or(parts[0], start), parsed_or(parts[1], end))
        } else {
            st
        }
    } else {
        (parsed_or(arg, limit), page, start, end)
    }
}

/// The display options that a list of arguments sets, later ones winning.
pub open spec fn list_range_of(args: Seq<Seq<char>>) -> ListRange
    decreases args.len(),
{
    if args.len() == 0 {
        (None, None, None, None)
    } else {
        list_range_step(list_range_of(args.drop_last()), args.last())
    }
}

fn usize_or(text: &str, keep: Option<usize>) -> (r: Option<usize>)
    ensures
        r == parsed_or(text@, keep),
{
    match parse_usize(text) {
        Some(v) => Some(v),
        None => keep,
    }
}

/// Parse list display options
///
/// "10" shows the first 10 items, "10/2" 10 items per page, page 2, and
/// "3-5" items 3 through 5.
pub fn parse_list_range(args: &[&str]) -> (r: (Option<usize>, Option<usize>, Option<usize>, Option<usize>))
    ensures
        r == list_range_of(str_views(args@)),
{
    let mut limit: Option<usize> = None;
    let mut page: Option<usize> = None;
    let mut range_start: Option<usize> = None;
    let mut range_end: Option<usize> = None;
    let ghost views = str_views(args@);
    let mut k: usize = 0;
    while k < args.len()
        invariant
            k <= args.len(),
            views == str_views(args@),
            (limit, page, range_start, range_end) == list_range_of(views.take(k as int)),
        decreases args.len() - k,
    {
        let arg = args[k];
        assert(arg@ == views[k as int]);
        assert(views.take(k + 1).drop_last() =~= views.take(k as int));
        if has_char(arg, '/') {
            let parts = split_at_either(arg, '/', '/');
            if parts.len() == 2 {
                assert(parts[0]@ == pieces(arg@, '/', '/')[0]);
                assert(parts[1]@ == pieces(arg@, '/', '/')[1]);
                limit = usize_or(parts[0], limit);
                page = usize_or(parts[1], page);
            }
        } else if has_char(arg, '-') {
            let parts = split_at_either(arg, '-', '-');
            if parts.len() == 2 {
                assert(parts[0]@ == pieces(arg@, '-', '-')[0]);
                assert(parts[1]@ == pieces(arg@, '-', '-')[1]);
                range_start = usize_or(parts[0], range_start);
                range_end = usize_or(parts[1], range_end);
            }
        } else {
            limit = usize_or(arg, limit);
        }
        k = k + 1;
    }
    assert(views.take(args.len() as int) =~= views);
    (limit, page, range_start, range_end)
}

/// A later list argument overrides an earlier one field by field: the
/// options after `arg` are those before it with the fields that `arg` sets
/// (a limit, a page, or a range's ends) replaced and the others kept.
pub proof fn lemma_later_list_argument_wins(args: Seq<Seq<char>>, arg: Seq<char>)
    ensures
        list_range_of(args.push(arg)) == list_range_step(list_range_of(args), arg),
        ({
            let (l0, p0, s0, e0) = list_range_of(args);
            let (l, p, s, e) = list_range_of(args.push(arg));
            &&& (l == l0 || l == parsed_or(if arg.contains('/') {
                pieces(arg, '/', '/')[0]
            } else {
                arg
            }, l0))
            &&& (p == p0 || p == parsed_or(pieces(arg, '/', '/')[1], p0))
            &&& (s == s0 || s == parsed_or(pieces(arg, '-', '-')[0], s0))
            &&& (e == e0 || e == parsed_or(pieces(arg, '-', '-')[1], e0))
        }),
{
    assert(args.push(arg).drop_last() =~= args);
}


} // verus!
