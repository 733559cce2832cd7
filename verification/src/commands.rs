use vstd::prelude::*;

use crate::calendar::Date;
use crate::dates::{date_from_lowered, date_from_text, parse_date_lowered, parse_date_on};
use crate::cli::{listed_numbers, parse_numbers};
use crate::repeat::{parse_period, period_of, period_string, period_text};
use crate::model::{copy_opt_string, opt_chars, NewTodo, Todo, TodoView, UpdateTodo};
use crate::text::{
    all_digits, first_char_is, is_digit, parse_usize, parsed_unsigned, has_char, lowercase, parse_i32, parsed_signed, push_char, same_text,
    split_whitespace, str_views, to_lowercase, trim, trimmed, words, no_ws, lemma_words_after_space,
    lemma_words_single,
};

verus! {

/// Whether `w` starts with `c` and holds more after it.
pub open spec fn marked(w: Seq<char>, c: char) -> bool {
    w.len() >= 2 && w[0] == c
}

fn is_marked(w: &str, c: char) -> (r: bool)
    ensures
        r == marked(w@, c),
{
    first_char_is(w, c) && w.unicode_len() >= 2
}

/// The priority that a word `^N` gives, for `N` from 1 to 4.
pub open spec fn inline_priority(w: Seq<char>) -> Option<i32> {
    if marked(w, '^') {
        match parsed_signed(w.drop_first(), i32::MIN as int, i32::MAX as int) {
            Some(p) => if 1 <= p <= 4 {
                Some(p as i32)
            } else {
                None
            },
            None => None,
        }
    } else {
        None
    }
}

fn priority_of(w: &str) -> (r: Option<i32>)
    ensures
        r == inline_priority(w@),
{
    if is_marked(w, '^') {
        let rest = w.substring_char(1, w.unicode_len());
        assert(rest@ =~= w@.drop_first());
        match parse_i32(rest) {
            Some(p) => if p >= 1 && p <= 4 {
                Some(p)
            } else {
                None
            },
            None => None,
        }
    } else {
        None
    }
}

/// Whether a word (without its `@`) looks like a date, given it lowercased:
/// a date keyword, or text with `/` or `-`, or ASCII digits only. Lowercasing
/// leaves `/`, `-` and digits as they are and makes no others, so these are
/// looked for in the word itself.
pub open spec fn looks_like_date(word: Seq<char>, lower: Seq<char>) -> bool {
    ||| lower == "today"@
    ||| lower == "tom"@
    ||| lower == "tomorrow"@
    ||| lower == "mon"@
    ||| lower == "monday"@
    ||| lower == "tue"@
    ||| lower == "tuesday"@
    ||| lower == "wed"@
    ||| lower == "wednesday"@
    ||| lower == "thu"@
    ||| lower == "thursday"@
    ||| lower == "fri"@
    ||| lower == "friday"@
    ||| lower == "sat"@
    ||| lower == "saturday"@
    ||| lower == "sun"@
    ||| lower == "sunday"@
    ||| lower == "오늘"@
    ||| lower == "jntn"@
    ||| lower == "내일"@
    ||| lower == "tkfq"@
    ||| lower == "월"@
    ||| lower == "화"@
    ||| lower == "수"@
    ||| lower == "목"@
    ||| lower == "금"@
    ||| lower == "토"@
    ||| lower == "일"@
    ||| word.contains('/')
    ||| word.contains('-')
    ||| all_digits(word)
}

fn all_ascii_digits(s: &str) -> (r: bool)
    ensures
        r == all_digits(s@),
{
    let n = s.unicode_len();
    let mut i: usize = 0;
    while i < n
        invariant
            n == s@.len(),
            i <= n,
            all_digits(s@.take(i as int)),
        decreases n - i,
    {
        let c = s.get_char(i);
        if !('0' <= c && c <= '9') {
            return false;
        }
        assert(s@.take(i + 1) =~= s@.take(i as int).push(c));
        i = i + 1;
    }
    assert(s@.take(n as int) =~= s@);
    true
}

fn date_like(word: &str, lower: &str) -> (r: bool)
    ensures
        r == looks_like_date(word@, lower@),
{
    same_text(lower, "today") || same_text(lower, "tom") || same_text(lower, "tomorrow")
        || same_text(lower, "mon") || same_text(lower, "monday") || same_text(lower, "tue")
        || same_text(lower, "tuesday") || same_text(lower, "wed") || same_text(lower, "wednesday")
        || same_text(lower, "thu") || same_text(lower, "thursday") || same_text(lower, "fri")
        || same_text(lower, "friday") || same_text(lower, "sat") || same_text(lower, "saturday")
        || same_text(lower, "sun") || same_text(lower, "sunday") || same_text(lower, "오늘")
        || same_text(lower, "jntn") || same_text(lower, "내일") || same_text(lower, "tkfq")
        || same_text(lower, "월") || same_text(lower, "화") || same_text(lower, "수") || same_text(
        lower,
        "목",
    ) || same_text(lower, "금") || same_text(lower, "토") || same_text(lower, "일") || has_char(
        word,
        '/',
    ) || has_char(word, '-') || all_ascii_digits(word)
}

/// The position of the word that may hold an inline date: the last word if
/// it is `@...`, else the one before it (the first, for a single word) if it
/// is `@...` and the last word is a valid `^N`.
pub open spec fn date_candidate(ws: Seq<Seq<char>>) -> Option<int> {
    let n = ws.len();
    if n == 0 {
        None
    } else if marked(ws[n - 1], '@') {
        Some(n - 1)
    } else {
        let s = if n >= 2 {
            n - 2
        } else {
            0
        };
        if marked(ws[s], '@') && inline_priority(ws[n - 1]) is Some {
            Some(s)
        } else {
            None
        }
    }
}

/// The words joined with single spaces.
pub open spec fn joined(ws: Seq<Seq<char>>) -> Seq<char>
    decreases ws.len(),
{
    if ws.len() == 0 {
        seq![]
    } else if ws.len() == 1 {
        ws[0]
    } else {
        joined(ws.drop_last()) + seq![' '] + ws.last()
    }
}

/// The first `k` words of `ws`, joined with single spaces.
pub(crate) fn join_first(ws: &Vec<&str>, k: usize) -> (r: String)
    requires
        k <= ws.len(),
    ensures
        r@ == joined(str_views(ws@).take(k as int)),
{
    let ghost views = str_views(ws@);
    let mut out = String::new();
    let mut i: usize = 0;
    assert(views.take(0) =~= Seq::<Seq<char>>::empty());
    while i < k
        invariant
            i <= k <= ws.len(),
            views == str_views(ws@),
            out@ == joined(views.take(i as int)),
        decreases k - i,
    {
        assert(views.take(i + 1).drop_last() =~= views.take(i as int));
        if i > 0 {
            push_char(&mut out, ' ');
        } else {
            assert(out@ =~= Seq::<char>::empty());
        }
        out.append(ws[i]);
        i = i + 1;
    }
    out
}

/// What parsing inline `@date` and `^priority` gives: `(content, due_date,
/// priority)`, given the lowercased date word (without `@`) as `lower`.
///
/// The date word is recognised only when it looks like a date; a date-like
/// word that is not a valid date leaves the input as it was. Recognised
/// words are dropped from the content, whose words are joined by single
/// spaces.
pub open spec fn inline_parts(input: Seq<char>, lower: Seq<char>, today: Date) -> (
    Seq<char>,
    Option<Seq<char>>,
    Option<i32>,
) {
    let ws = words(input);
    let n = ws.len();
    if n == 0 {
        (input, None, None)
    } else {
        let prio = inline_priority(ws[n - 1]);
        let plain_drop: int = if prio is Some {
            1
        } else {
            0
        };
        match date_candidate(ws) {
            Some(c) => if looks_like_date(ws[c].drop_first(), lower) {
                match date_from_lowered(ws[c].drop_first(), lower, today) {
                    Some(k) => {
                        let drop: int = if c == n - 1 {
                            1
                        } else {
                            2
                        };
                        (joined(ws.take(n - drop)), Some(k), prio)
                    },
                    None => (input, None, None),
                }
            } else {
                (joined(ws.take(n - plain_drop)), None, prio)
            },
            None => (joined(ws.take(n - plain_drop)), None, prio),
        }
    }
}

/// The lowercased date word (without `@`) of an input, empty when it has none.
pub open spec fn candidate_lower(input: Seq<char>) -> Seq<char> {
    match date_candidate(words(input)) {
        Some(c) => lowercase(words(input)[c].drop_first()),
        None => seq![],
    }
}

/// The characters of an optional string.
pub open spec fn chars_of(o: Option<String>) -> Option<Seq<char>> {
    match o {
        Some(s) => Some(s@),
        None => None,
    }
}

/// The position of the word that may hold an inline date.
fn candidate_of(ws: &Vec<&str>, priority: Option<i32>) -> (r: Option<usize>)
    requires
        ws.len() > 0,
        priority == inline_priority(str_views(ws@).last()),
    ensures
        match r {
            Some(c) => date_candidate(str_views(ws@)) == Some(c as int) && c < ws.len(),
            None => date_candidate(str_views(ws@)) is None,
        },
{
    let n = ws.len();
    let ghost views = str_views(ws@);
    assert(ws[n - 1]@ == views[n - 1]);
    if is_marked(ws[n - 1], '@') {
        Some(n - 1)
    } else {
        let s: usize = if n >= 2 {
            n - 2
        } else {
            0
        };
        assert(ws[s as int]@ == views[s as int]);
        if is_marked(ws[s], '@') && priority.is_some() {
            Some(s)
        } else {
            None
        }
    }
}

/// Parse inline date/priority from end of content, given the lowercased
/// date word (see `inline_parts`).
pub fn parse_inline_lowered(input: &str, lower: &str, today: Date) -> (r: (String, Option<String>, Option<i32>))
    requires
        today.roomy(),
    ensures
        (r.0@, chars_of(r.1), r.2) == inline_parts(input@, lower@, today),
{
    let ws = split_whitespace(input);
    let n = ws.len();
    let ghost views = str_views(ws@);
    if n == 0 {
        return (String::from_str(input), None, None);
    }
    assert(ws[n - 1]@ == views[n - 1]);
    let priority = priority_of(ws[n - 1]);
    let plain_drop: usize = if priority.is_some() {
        1
    } else {
        0
    };
    match candidate_of(&ws, priority) {
        Some(c) => {
            let word = ws[c];
            assert(word@ == views[c as int]);
            let inner = word.substring_char(1, word.unicode_len());
            assert(inner@ =~= views[c as int].drop_first());
            if date_like(inner, lower) {
                match parse_date_lowered(inner, lower, today) {
                    Some(k) => {
                        let drop: usize = if c == n - 1 {
                            1
                        } else {
                            2
                        };
                        (join_first(&ws, n - drop), Some(k), priority)
                    },
                    None => (String::from_str(input), None, None),
                }
            } else {
                (join_first(&ws, n - plain_drop), None, priority)
            }
        },
        None => (join_first(&ws, n - plain_drop), None, priority),
    }
}

/// Parse inline date/priority from end of content, seen from `today`
///
/// Extracts `@date` and `^priority` from the end of the content:
/// "Buy milk @3/15 ^2" gives ("Buy milk", the key of March 15, Some(2)),
/// "check @email" stays as it is.
pub fn parse_inline(input: &str, today: Date) -> (r: (String, Option<String>, Option<i32>))
    requires
        today.roomy(),
    ensures
        (r.0@, chars_of(r.1), r.2) == inline_parts(input@, candidate_lower(input@), today),
{
    let ws = split_whitespace(input);
    let n = ws.len();
    let ghost views = str_views(ws@);
    if n == 0 {
        let empty = String::new();
        return parse_inline_lowered(input, empty.as_str(), today);
    }
    assert(ws[n - 1]@ == views[n - 1]);
    let priority = priority_of(ws[n - 1]);
    match candidate_of(&ws, priority) {
        Some(c) => {
            let word = ws[c];
            assert(word@ == views[c as int]);
            let inner = word.substring_char(1, word.unicode_len());
            assert(inner@ =~= views[c as int].drop_first());
            let lower = to_lowercase(inner);
            parse_inline_lowered(input, lower.as_str(), today)
        },
        None => {
            let empty = String::new();
            parse_inline_lowered(input, empty.as_str(), today)
        },
    }
}

/// `raw` with the word `w` added, a space between them when `raw` is not empty.
pub open spec fn with_word(raw: Seq<char>, w: Seq<char>) -> Seq<char> {
    if raw.len() == 0 {
        w
    } else {
        raw + seq![' '] + w
    }
}

/// Whether `s` holds an ASCII digit.
pub open spec fn has_digit(s: Seq<char>) -> bool {
    exists|j: int| 0 <= j < s.len() && is_digit(#[trigger] s[j])
}

fn any_ascii_digit(s: &str) -> (r: bool)
    ensures
        r == has_digit(s@),
{
    let n = s.unicode_len();
    let mut i: usize = 0;
    while i < n
        invariant
            n == s@.len(),
            i <= n,
            forall|j: int| 0 <= j < i ==> !is_digit(#[trigger] s@[j]),
        decreases n - i,
    {
        let c = s.get_char(i);
        if '0' <= c && c <= '9' {
            return true;
        }
        i = i + 1;
    }
    false
}

/// The message for a due date flag written with `@`.
pub open spec fn msg_date_with_at() -> Seq<char> {
    "날짜는 @ 없이 입력: -d 3/15 또는 @3/15 (예: @today, @3/15, @tom)"@
}

/// The message for an invalid priority given with `-p`.
pub open spec fn msg_bad_priority_flag() -> Seq<char> {
    "잘못된 우선순위입니다. 1-4 숫자를 입력: -p 1~4 또는 ^1~4"@
}

/// The message for an inline priority that is not 1 to 4.
pub open spec fn msg_bad_priority_inline() -> Seq<char> {
    "잘못된 우선순위입니다. ^1, ^2, ^3, ^4 중 하나를 입력해주세요."@
}

/// The message for a parent number that is not a number.
pub open spec fn msg_bad_list_number() -> Seq<char> {
    "잘못된 리스트 번호입니다. 리스트 번호를 입력해주세요."@
}

/// The message for a repetition period that names none.
pub open spec fn msg_bad_period() -> Seq<char> {
    "잘못된 반복 주기입니다. -r d, e, w, 일(1-31) 또는 월/일 형식으로 입력해주세요."@
}

/// The message for empty content.
pub open spec fn msg_empty_content() -> Seq<char> {
    "TODO 내용을 입력해주세요."@
}

/// The message for a date flag that names no date.
pub open spec fn msg_bad_date_flag(v: Seq<char>) -> Seq<char> {
    "잘못된 날짜입니다: "@ + v + " - calendar 명령어로 확인하세요."@
}

/// The hint for an inline date that names no date.
pub open spec fn date_hint(inner: Seq<char>) -> Seq<char> {
    if inner.contains('/') {
        "월/일 형식으로 입력: @월/일 (예: @3/15, @12/31)"@
    } else if inner.contains('-') {
        "년-월-일 형식으로 입력: @년-월-일 (예: @26-3-15)"@
    } else if all_zeros(inner) {
        "유효한 날짜가 아닙니다. 1~31 사이 날짜"@
    } else {
        inner + "일은 없습니다. 1~31 사이 날짜"@
    }
}

/// Whether every character of `s` is `0`.
pub open spec fn all_zeros(s: Seq<char>) -> bool {
    forall|j: int| 0 <= j < s.len() ==> s[j] == '0'
}

fn only_zeros(s: &str) -> (r: bool)
    ensures
        r == all_zeros(s@),
{
    let n = s.unicode_len();
    let mut i: usize = 0;
    while i < n
        invariant
            n == s@.len(),
            i <= n,
            forall|j: int| 0 <= j < i ==> s@[j] == '0',
        decreases n - i,
    {
        if s.get_char(i) != '0' {
            return false;
        }
        i = i + 1;
    }
    true
}

/// What `add` has read so far: content words, due date, priority, parent and
/// repetition period.
pub type AddScan = (Seq<char>, Option<Seq<char>>, Option<i32>, Option<i64>, Option<Seq<char>>);

/// Reads the arguments of `add` from position `i` on: `-d DATE`, `-p N`,
/// `-u N` and `-r PERIOD` flags (each with a following value), everything
/// else content.
pub open spec fn add_scan(args: Seq<Seq<char>>, ids: Seq<i64>, today: Date, i: int, st: AddScan) -> Result<
    AddScan,
    Seq<char>,
>
    decreases args.len() - i,
{
    if i < 0 || i >= args.len() {
        Ok(st)
    } else {
        let a = args[i];
        let has_next = i + 1 < args.len();
        if a == "-d"@ && has_next {
            let v = args[i + 1];
            if v.len() > 0 && v[0] == '@' {
                Err(msg_date_with_at())
            } else {
                let due = date_from_text(v, today);
                if due is None && has_digit(v) {
                    Err(msg_bad_date_flag(v))
                } else {
                    add_scan(args, ids, today, i + 2, (st.0, due, st.2, st.3, st.4))
                }
            }
        } else if a == "-p"@ && has_next {
            match parsed_signed(args[i + 1], i32::MIN as int, i32::MAX as int) {
                Some(p) => if 1 <= p <= 4 {
                    add_scan(args, ids, today, i + 2, (st.0, st.1, Some(p as i32), st.3, st.4))
                } else {
                    Err(msg_bad_priority_flag())
                },
                None => Err(msg_bad_priority_flag()),
            }
        } else if a == "-u"@ && has_next {
            match parsed_unsigned(args[i + 1], usize::MAX as int) {
                Some(num) => {
                    let up = if 0 < num <= ids.len() {
                        Some(ids[num - 1])
                    } else {
                        st.3
                    };
                    add_scan(args, ids, today, i + 2, (st.0, st.1, st.2, up, st.4))
                },
                None => Err(msg_bad_list_number()),
            }
        } else if a == "-r"@ && has_next {
            match period_of(args[i + 1]) {
                Some(p) => add_scan(args, ids, today, i + 2, (st.0, st.1, st.2, st.3, Some(period_text(p)))),
                None => Err(msg_bad_period()),
            }
        } else {
            add_scan(args, ids, today, i + 1, (with_word(st.0, a), st.1, st.2, st.3, st.4))
        }
    }
}

/// The error that a malformed inline `@date` or `^priority` at the end of
/// the content gives, when inline parsing is in use.
pub open spec fn inline_error(raw: Seq<char>, inline_due: Option<Seq<char>>) -> Option<Seq<char>> {
    let ws = words(raw);
    if raw.len() > 0 && ws.len() > 0 {
        let last = ws.last();
        let inner = last.drop_first();
        if marked(last, '@') && (all_digits(inner) || inner.contains('/') || inner.contains('-'))
            && inline_due is None {
            Some("잘못된 날짜입니다: @"@ + inner + " - "@ + date_hint(inner))
        } else if marked(last, '^') && inline_priority(last) is None {
            Some(msg_bad_priority_inline())
        } else {
            None
        }
    } else {
        None
    }
}

/// The todo that `add` creates from its arguments, or the error it reports.
///
/// Inline `@date` and `^priority` at the end of the content are read
/// alongside the flags; where both give a value, the flag wins.
pub open spec fn add_request(args: Seq<Seq<char>>, ids: Seq<i64>, today: Date) -> Result<
    AddScan,
    Seq<char>,
> {
    match add_scan(args, ids, today, 0, (seq![], None, None, None, None)) {
        Err(e) => Err(e),
        Ok(st) => {
            let (raw, due, prio, up, rep) = st;
            let (content, inline_due, inline_pri) = inline_parts(raw, candidate_lower(raw), today);
            let bad = inline_error(raw, inline_due);
            if bad is Some {
                Err(bad->0)
            } else if content.len() == 0 {
                Err(msg_empty_content())
            } else {
                Ok(
                    (
                        content,
                        if due is Some {
                            due
                        } else {
                            inline_due
                        },
                        if prio is Some {
                            prio
                        } else {
                            inline_pri
                        },
                        up,
                        rep,
                    ),
                )
            }
        },
    }
}

/// The error, if any, of a malformed inline date or priority at the end of `raw`.
fn check_inline(raw: &str, inline_due: &Option<String>) -> (r: Option<String>)
    ensures
        chars_of(r) == inline_error(raw@, chars_of(*inline_due)),
{
    let n = raw.unicode_len();
    if n == 0 {
        return None;
    }
    let ws = split_whitespace(raw);
    let k = ws.len();
    if k == 0 {
        return None;
    }
    let last = ws[k - 1];
    assert(last@ == words(raw@).last());
    if is_marked(last, '@') {
        let inner = last.substring_char(1, last.unicode_len());
        assert(inner@ =~= last@.drop_first());
        if (all_ascii_digits(inner) || has_char(inner, '/') || has_char(inner, '-'))
            && inline_due.is_none() {
            let mut msg = String::from_str("잘못된 날짜입니다: @");
            msg.append(inner);
            msg.append(" - ");
            if has_char(inner, '/') {
                msg.append("월/일 형식으로 입력: @월/일 (예: @3/15, @12/31)");
            } else if has_char(inner, '-') {
                msg.append("년-월-일 형식으로 입력: @년-월-일 (예: @26-3-15)");
            } else if only_zeros(inner) {
                msg.append("유효한 날짜가 아닙니다. 1~31 사이 날짜");
            } else {
                msg.append(inner);
                msg.append("일은 없습니다. 1~31 사이 날짜");
                assert(msg@ =~= "잘못된 날짜입니다: @"@ + inner@ + " - "@ + (inner@
                    + "일은 없습니다. 1~31 사이 날짜"@));
            }
            return Some(msg);
        }
    }
    if is_marked(last, '^') && priority_of(last).is_none() {
        return Some(String::from_str("잘못된 우선순위입니다. ^1, ^2, ^3, ^4 중 하나를 입력해주세요."));
    }
    None
}

/// Add a new todo item: the todo that the `add` arguments ask for, seen from
/// `today`, or the message of the error they hold.
///
/// Arguments are content words and the flags `-d DATE`, `-p 1..4` and
/// `-u N` (parent by its list number in `display_ids`) and `-r PERIOD`
/// (repetition: `d`, `e`, `w`, a day `N` or a date `M/D`); an inline
/// `@date` and `^priority` at the end of the content count too, the flags
/// winning.
pub fn plan_add(args: &[&str], display_ids: &[i64], today: Date) -> (r: Result<NewTodo, String>)
    requires
        today.roomy(),
    ensures
        match r {
            Ok(t) => add_request(str_views(args@), display_ids@, today) == Ok::<AddScan, Seq<char>>(
                (t.todo@, opt_chars(t.due_date), t.priority, t.up_id, opt_chars(t.repetition)),
            ),
            Err(e) => add_request(str_views(args@), display_ids@, today) == Err::<AddScan, Seq<char>>(e@),
        },
{
    let ghost views = str_views(args@);
    let mut raw_content = String::new();
    let mut due_date: Option<String> = None;
    let mut priority: Option<i32> = None;
    let mut up_id: Option<i64> = None;
    let mut repetition: Option<String> = None;
    let mut i: usize = 0;
    let n = args.len();
    while i < n
        invariant
            n == args.len(),
            i <= n + 1,
            today.roomy(),
            views == str_views(args@),
            add_scan(views, display_ids@, today, 0, (seq![], None, None, None, None)) == add_scan(
                views,
                display_ids@,
                today,
                i as int,
                (raw_content@, opt_chars(due_date), priority, up_id, opt_chars(repetition)),
            ),
        decreases n + 1 - i,
    {
        let a = args[i];
        assert(a@ == views[i as int]);
        let has_next = i + 1 < n;
        if has_next {
            assert(args[i + 1]@ == views[i + 1]);
        }
        if same_text(a, "-d") && has_next {
            let v = args[i + 1];
            if first_char_is(v, '@') {
                return Err(String::from_str("날짜는 @ 없이 입력: -d 3/15 또는 @3/15 (예: @today, @3/15, @tom)"));
            }
            due_date = parse_date_on(v, today);
            if due_date.is_none() && any_ascii_digit(v) {
                let mut msg = String::from_str("잘못된 날짜입니다: ");
                msg.append(v);
                msg.append(" - calendar 명령어로 확인하세요.");
                return Err(msg);
            }
            i = i + 2;
        } else if same_text(a, "-p") && has_next {
            let p = parse_i32(args[i + 1]);
            match p {
                Some(v) => {
                    if v < 1 || v > 4 {
                        return Err(String::from_str("잘못된 우선순위입니다. 1-4 숫자를 입력: -p 1~4 또는 ^1~4"));
                    }
                },
                None => {
                    return Err(String::from_str("잘못된 우선순위입니다. 1-4 숫자를 입력: -p 1~4 또는 ^1~4"));
                },
            }
            priority = p;
            i = i + 2;
        } else if same_text(a, "-u") && has_next {
            match parse_usize(args[i + 1]) {
                Some(num) => {
                    if num > 0 && num <= display_ids.len() {
                        up_id = Some(display_ids[num - 1]);
                    }
                },
                None => {
                    return Err(String::from_str("잘못된 리스트 번호입니다. 리스트 번호를 입력해주세요."));
                },
            }
            i = i + 2;
        } else if same_text(a, "-r") && has_next {
            match parse_period(args[i + 1]) {
                Some(p) => {
                    repetition = Some(period_string(p));
                },
                None => {
                    return Err(String::from_str("잘못된 반복 주기입니다. -r d, e, w, 일(1-31) 또는 월/일 형식으로 입력해주세요."));
                },
            }
            i = i + 2;
        } else {
            let ghost before = raw_content@;
            if raw_content.unicode_len() > 0 {
                push_char(&mut raw_content, ' ');
            }
            raw_content.append(a);
            assert(raw_content@ =~= with_word(before, a@));
            i = i + 1;
        }
    }
    let (content, inline_due, inline_pri) = parse_inline(raw_content.as_str(), today);
    match check_inline(raw_content.as_str(), &inline_due) {
        Some(msg) => return Err(msg),
        None => {},
    }
    let final_due = match due_date {
        Some(d) => Some(d),
        None => inline_due,
    };
    let final_pri = match priority {
        Some(p) => Some(p),
        None => inline_pri,
    };
    if content.unicode_len() == 0 {
        return Err(String::from_str("TODO 내용을 입력해주세요."));
    }
    Ok(NewTodo { todo: content, due_date: final_due, priority: final_pri, up_id, repetition })
}

/// A word that the argument scans of `add` and `edit` take as content: not
/// empty, without white space, and no flag.
pub open spec fn content_word(w: Seq<char>) -> bool {
    &&& w.len() > 0
    &&& no_ws(w)
    &&& w != "-d"@
    &&& w != "-p"@
    &&& w != "-u"@
    &&& w != "-r"@
}

/// A word of content that no reading of `add` or `edit` takes for anything
/// else: a content word that is neither `@...` nor `^...`.
pub open spec fn plain_word(w: Seq<char>) -> bool {
    content_word(w) && !marked(w, '@') && !marked(w, '^')
}

proof fn lemma_joined_last(ws: Seq<Seq<char>>)
    requires
        ws.len() >= 2,
    ensures
        joined(ws) == joined(ws.drop_last()) + seq![' '] + ws.last(),
        joined(ws.drop_last()).len() >= ws[ws.len() - 2].len(),
{
    let d = ws.drop_last();
    if d.len() >= 2 {
        assert(d.last() == ws[ws.len() - 2]);
    }
}

/// Words without white space, joined by single spaces, split back into the
/// same words.
proof fn lemma_words_joined(ws: Seq<Seq<char>>)
    requires
        forall|j: int| 0 <= j < ws.len() ==> (#[trigger] ws[j]).len() > 0 && no_ws(ws[j]),
    ensures
        words(joined(ws)) == ws,
    decreases ws.len(),
{
    if ws.len() == 0 {
    } else if ws.len() == 1 {
        lemma_words_single(ws[0]);
        assert(seq![ws[0]] =~= ws);
    } else {
        let d = ws.drop_last();
        lemma_words_joined(d);
        lemma_joined_last(ws);
        lemma_words_after_space(joined(d), ws.last());
        assert(d.push(ws.last()) =~= ws);
    }
}

/// Reading plain content words only gathers them, joined by spaces.
proof fn lemma_add_scan_plain(
    args: Seq<Seq<char>>,
    ids: Seq<i64>,
    today: Date,
    i: int,
    k: int,
    st: AddScan,
)
    requires
        0 <= i <= k <= args.len(),
        forall|j: int| 0 <= j < k ==> content_word(#[trigger] args[j]),
        st.0 == joined(args.take(i)),
    ensures
        add_scan(args, ids, today, i, st) == add_scan(
            args,
            ids,
            today,
            k,
            (joined(args.take(k)), st.1, st.2, st.3, st.4),
        ),
    decreases k - i,
{
    if i < k {
        let a = args[i];
        assert(content_word(a));
        let next = joined(args.take(i + 1));
        if i == 0 {
            assert(args.take(0) =~= Seq::<Seq<char>>::empty());
            assert(args.take(1) =~= seq![a]);
        } else {
            lemma_joined_last(args.take(i + 1));
            assert(args.take(i + 1).drop_last() =~= args.take(i));
            assert(args[i - 1] == args.take(i + 1)[i - 1]);
            assert(content_word(args[i - 1]));
        }
        assert(with_word(st.0, a) == next);
        lemma_add_scan_plain(args, ids, today, i + 1, k, (next, st.1, st.2, st.3, st.4));
    } else {
        assert(st.0 == joined(args.take(k)));
    }
}

/// Plain content read to the end, with nothing after it: no inline date or
/// priority, and the content as it was.
proof fn lemma_plain_inline(c: Seq<Seq<char>>, today: Date)
    requires
        forall|j: int| 0 <= j < c.len() ==> plain_word(#[trigger] c[j]),
    ensures
        words(joined(c)) == c,
        c.len() > 0 ==> inline_parts(joined(c), candidate_lower(joined(c)), today) == (
            joined(c),
            None::<Seq<char>>,
            None::<i32>,
        ),
        inline_error(joined(c), None) is None,
        c.len() > 0 ==> joined(c).len() > 0,
        c.len() == 0 ==> joined(c).len() == 0,
{
    lemma_words_joined(c);
    let n: int = c.len() as int;
    if n > 0 {
        assert(plain_word(c[n - 1]));
        let s = if n >= 2 { n - 2 } else { 0 };
        assert(plain_word(c[s]));
        assert(c.take(n) =~= c);
        if n >= 2 {
            lemma_joined_last(c);
        }
    }
}

proof fn lemma_scan_priority_flag(
    args: Seq<Seq<char>>,
    ids: Seq<i64>,
    today: Date,
    m: int,
    st: AddScan,
    p: Seq<char>,
)
    requires
        0 <= m,
        m + 2 <= args.len(),
        args[m] == "-p"@,
        args[m + 1] == p,
        inline_priority(seq!['^'] + p) is Some,
    ensures
        add_scan(args, ids, today, m, st) == add_scan(
            args,
            ids,
            today,
            m + 2,
            (st.0, st.1, inline_priority(seq!['^'] + p), st.3, st.4),
        ),
{
    reveal_strlit("-d");
    reveal_strlit("-p");
    let w = seq!['^'] + p;
    assert(w.drop_first() =~= p);
    assert(marked(w, '^'));
    let x = parsed_signed(p, i32::MIN as int, i32::MAX as int)->0;
    assert(1 <= x <= 4);
    assert(inline_priority(w) == Some(x as i32));
    assert(("-p"@)[1] == 'p' && ("-d"@)[1] == 'd');
    assert(args[m] != "-d"@);
}

proof fn lemma_scan_date_flag(
    args: Seq<Seq<char>>,
    ids: Seq<i64>,
    today: Date,
    m: int,
    st: AddScan,
    v: Seq<char>,
)
    requires
        0 <= m,
        m + 2 <= args.len(),
        args[m] == "-d"@,
        args[m + 1] == v,
        v.len() > 0,
        v[0] != '@',
        date_from_text(v, today) is Some,
    ensures
        add_scan(args, ids, today, m, st) == add_scan(
            args,
            ids,
            today,
            m + 2,
            (st.0, date_from_text(v, today), st.2, st.3, st.4),
        ),
{
}

/// Plain content followed by `@DATE ^N`: the words split back, inline
/// parsing takes both, and no inline error is reported.
proof fn lemma_date_and_priority_marks(c: Seq<Seq<char>>, v: Seq<char>, p: Seq<char>, today: Date)
    requires
        forall|j: int| 0 <= j < c.len() ==> plain_word(#[trigger] c[j]),
        v.len() > 0,
        no_ws(v),
        looks_like_date(v, lowercase(v)),
        date_from_text(v, today) is Some,
        no_ws(p),
        inline_priority(seq!['^'] + p) is Some,
    ensures
        ({
            let ws = c + seq![seq!['@'] + v, seq!['^'] + p];
            let raw = joined(ws);
            &&& forall|j: int| 0 <= j < ws.len() ==> content_word(#[trigger] ws[j])
            &&& words(raw) == ws
            &&& inline_parts(raw, candidate_lower(raw), today) == (
                joined(c),
                date_from_text(v, today),
                inline_priority(seq!['^'] + p),
            )
            &&& inline_error(raw, date_from_text(v, today)) is None
            &&& edit_inline_error(raw, date_from_text(v, today)) is None
            &&& raw.contains('^')
            &&& raw.len() != joined(c).len()
            &&& raw.len() > 0
        }),
{
    reveal_strlit("-d");
    reveal_strlit("-p");
    reveal_strlit("-u");
    reveal_strlit("-r");
    let w1 = seq!['@'] + v;
    let w2 = seq!['^'] + p;
    assert(w1.drop_first() =~= v);
    assert(w2.drop_first() =~= p);
    assert(w1[0] == '@' && w2[0] == '^');
    assert(no_ws(w1) && no_ws(w2));
    let ws = c + seq![w1, w2];
    let n: int = ws.len() as int;
    assert forall|j: int| 0 <= j < n implies content_word(#[trigger] ws[j]) by {
        if j < c.len() {
            assert(ws[j] == c[j]);
            assert(plain_word(c[j]));
        } else if j == c.len() {
            assert(ws[j] == w1);
        } else {
            assert(ws[j] == w2);
        }
    }
    assert forall|j: int| 0 <= j < n implies (#[trigger] ws[j]).len() > 0 && no_ws(ws[j]) by {
        assert(content_word(ws[j]));
    }
    lemma_words_joined(ws);
    let raw = joined(ws);
    assert(ws[n - 1] == w2 && ws[n - 2] == w1);
    assert(ws.take(n - 2) =~= c);
    assert(date_candidate(ws) == Some(n - 2));
    assert(candidate_lower(raw) == lowercase(v));
    lemma_joined_last(ws);
    let front = joined(ws.drop_last());
    assert(raw[front.len() as int + 1] == '^');
    let d = ws.drop_last();
    assert(d == c.push(w1));
    if c.len() > 0 {
        lemma_joined_last(d);
        assert(d.drop_last() =~= c);
    } else {
        assert(joined(c).len() == 0);
    }
}

/// A due date and a priority written `-d DATE -p N` after plain content give
/// the same todo, or the same error, as `@DATE ^N` at the end of it, for a
/// date that both read.
#[verifier::spinoff_prover]
#[verifier::rlimit(30)]
pub proof fn lemma_add_flags_or_marks(
    c: Seq<Seq<char>>,
    v: Seq<char>,
    p: Seq<char>,
    ids: Seq<i64>,
    today: Date,
)
    requires
        forall|j: int| 0 <= j < c.len() ==> plain_word(#[trigger] c[j]),
        v.len() > 0,
        no_ws(v),
        v[0] != '@',
        looks_like_date(v, lowercase(v)),
        date_from_text(v, today) is Some,
        no_ws(p),
        inline_priority(seq!['^'] + p) is Some,
    ensures
        add_request(c + seq!["-d"@, v, "-p"@, p], ids, today) == add_request(
            c + seq![seq!['@'] + v, seq!['^'] + p],
            ids,
            today,
        ),
{
    reveal_strlit("-d");
    reveal_strlit("-p");
    let a1 = c + seq!["-d"@, v, "-p"@, p];
    let a2 = c + seq![seq!['@'] + v, seq!['^'] + p];
    let m: int = c.len() as int;
    let due = date_from_text(v, today);
    let pri = inline_priority(seq!['^'] + p);
    assert forall|j: int| 0 <= j < m implies content_word(#[trigger] a1[j]) by {
        assert(a1[j] == c[j]);
        assert(plain_word(c[j]));
    }
    assert(a1.take(m) =~= c);
    assert(a1.take(0) =~= Seq::<Seq<char>>::empty());
    assert(a1[m] == "-d"@ && a1[m + 1] == v && a1[m + 2] == "-p"@ && a1[m + 3] == p);
    lemma_add_scan_plain(a1, ids, today, 0, m, (seq![], None, None, None, None));
    lemma_scan_date_flag(a1, ids, today, m, (joined(c), None, None, None, None), v);
    lemma_scan_priority_flag(a1, ids, today, m + 2, (joined(c), due, None, None, None), p);
    let st1: AddScan = (joined(c), due, pri, None, None);
    assert(add_scan(a1, ids, today, m + 4, st1) == Ok::<AddScan, Seq<char>>(st1));
    lemma_plain_inline(c, today);
    lemma_date_and_priority_marks(c, v, p, today);
    assert(a2.take(0) =~= Seq::<Seq<char>>::empty());
    assert(a2.take(a2.len() as int) =~= a2);
    lemma_add_scan_plain(a2, ids, today, 0, a2.len() as int, (seq![], None, None, None, None));
    let st2: AddScan = (joined(a2), None, None, None, None);
    assert(add_scan(a2, ids, today, a2.len() as int, st2) == Ok::<AddScan, Seq<char>>(st2));
    if c.len() == 0 {
        assert(words(joined(c)) =~= Seq::<Seq<char>>::empty());
    }
}

/// A priority written `-p N` after plain content gives the same todo, or the
/// same error, as `^N` at the end of it.
pub proof fn lemma_add_priority_flag_or_mark(
    c: Seq<Seq<char>>,
    p: Seq<char>,
    ids: Seq<i64>,
    today: Date,
)
    requires
        forall|j: int| 0 <= j < c.len() ==> plain_word(#[trigger] c[j]),
        no_ws(p),
        inline_priority(seq!['^'] + p) is Some,
    ensures
        add_request(c + seq!["-p"@, p], ids, today) == add_request(c.push(seq!['^'] + p), ids, today),
{
    reveal_strlit("-d");
    reveal_strlit("-p");
    reveal_strlit("-u");
    reveal_strlit("-r");
    let w = seq!['^'] + p;
    assert(w.drop_first() =~= p);
    let k = inline_priority(w)->0;
    let a1 = c + seq!["-p"@, p];
    let a2 = c.push(w);
    assert(a1.take(c.len() as int) =~= c);
    assert(a2.take(c.len() as int) =~= c);
    assert(a2.take(a2.len() as int) =~= a2);
    assert(a1[c.len() as int] == "-p"@);
    assert(a1[c.len() as int + 1] == p);
    assert(a2[c.len() as int] == w);
    assert(a1.take(0) =~= Seq::<Seq<char>>::empty());
    assert(a2.take(0) =~= Seq::<Seq<char>>::empty());
    lemma_add_scan_plain(a1, ids, today, 0, c.len() as int, (seq![], None, None, None, None));
    lemma_add_scan_plain(a2, ids, today, 0, c.len() as int, (seq![], None, None, None, None));
    lemma_plain_inline(c, today);
    assert(no_ws(w));
    let m: int = c.len() as int;
    lemma_scan_priority_flag(a1, ids, today, m, (joined(c), None, None, None, None), p);
    let st1: AddScan = (joined(c), None, inline_priority(w), None, None);
    assert(add_scan(a1, ids, today, m + 2, st1) == Ok::<AddScan, Seq<char>>(st1));
    // the word `^N` is content to the scan
    assert(w != "-d"@ && w != "-p"@ && w != "-u"@ && w != "-r"@);
    let st2: AddScan = (with_word(joined(c), w), None, None, None, None);
    assert(add_scan(a2, ids, today, m + 1, st2) == Ok::<AddScan, Seq<char>>(st2));
    assert(add_scan(a2, ids, today, m, (joined(c), None, None, None, None)) == add_scan(a2, ids, today, m + 1, st2));
    let raw2 = with_word(joined(c), w);
    if c.len() == 0 {
        assert(raw2 == w);
        lemma_words_single(w);
        assert(seq![w].take(0) =~= Seq::<Seq<char>>::empty());
    } else {
        assert(raw2 == joined(a2)) by {
            lemma_joined_last(a2);
            assert(a2.drop_last() =~= c);
        }
        assert forall|j: int| 0 <= j < a2.len() implies (#[trigger] a2[j]).len() > 0 && no_ws(a2[j]) by {
            if j < c.len() {
                assert(plain_word(c[j]));
            }
        }
        lemma_words_joined(a2);
        let n: int = a2.len() as int;
        let s = if n >= 2 { n - 2 } else { 0 };
        assert(a2[s] == c[s]);
        assert(plain_word(c[s]));
        assert(a2.take(n - 1) =~= c);
    }
}

/// A due date written `-d DATE` after plain content gives the same todo, or
/// the same error, as `@DATE` at the end of it, for a date that both read.
pub proof fn lemma_add_date_flag_or_mark(c: Seq<Seq<char>>, v: Seq<char>, ids: Seq<i64>, today: Date)
    requires
        forall|j: int| 0 <= j < c.len() ==> plain_word(#[trigger] c[j]),
        v.len() > 0,
        no_ws(v),
        v[0] != '@',
        looks_like_date(v, lowercase(v)),
        date_from_text(v, today) is Some,
    ensures
        add_request(c + seq!["-d"@, v], ids, today) == add_request(c.push(seq!['@'] + v), ids, today),
{
    reveal_strlit("-d");
    reveal_strlit("-p");
    reveal_strlit("-u");
    reveal_strlit("-r");
    let w = seq!['@'] + v;
    assert(w.drop_first() =~= v);
    assert(w[0] == '@');
    let a1 = c + seq!["-d"@, v];
    let a2 = c.push(w);
    assert(a1.take(c.len() as int) =~= c);
    assert(a2.take(c.len() as int) =~= c);
    assert(a1[c.len() as int] == "-d"@);
    assert(a1[c.len() as int + 1] == v);
    assert(a2[c.len() as int] == w);
    assert(a1.take(0) =~= Seq::<Seq<char>>::empty());
    assert(a2.take(0) =~= Seq::<Seq<char>>::empty());
    lemma_add_scan_plain(a1, ids, today, 0, c.len() as int, (seq![], None, None, None, None));
    lemma_add_scan_plain(a2, ids, today, 0, c.len() as int, (seq![], None, None, None, None));
    lemma_plain_inline(c, today);
    assert(no_ws(w));
    let m: int = c.len() as int;
    lemma_scan_date_flag(a1, ids, today, m, (joined(c), None, None, None, None), v);
    let st1: AddScan = (joined(c), date_from_text(v, today), None, None, None);
    assert(add_scan(a1, ids, today, m + 2, st1) == Ok::<AddScan, Seq<char>>(st1));
    assert(w != "-d"@ && w != "-p"@ && w != "-u"@ && w != "-r"@);
    let st2: AddScan = (with_word(joined(c), w), None, None, None, None);
    assert(add_scan(a2, ids, today, m + 1, st2) == Ok::<AddScan, Seq<char>>(st2));
    assert(add_scan(a2, ids, today, m, (joined(c), None, None, None, None)) == add_scan(a2, ids, today, m + 1, st2));
    let raw2 = with_word(joined(c), w);
    if c.len() == 0 {
        assert(raw2 == w);
        lemma_words_single(w);
        assert(seq![w].take(0) =~= Seq::<Seq<char>>::empty());
    } else {
        assert(raw2 == joined(a2)) by {
            lemma_joined_last(a2);
            assert(a2.drop_last() =~= c);
        }
        assert forall|j: int| 0 <= j < a2.len() implies (#[trigger] a2[j]).len() > 0 && no_ws(a2[j]) by {
            if j < c.len() {
                assert(plain_word(c[j]));
            }
        }
        lemma_words_joined(a2);
        let n: int = a2.len() as int;
        assert(a2.take(n - 1) =~= c);
    }
}

/// The message for a list number that names no todo.
pub open spec fn msg_bad_number() -> Seq<char> {
    "유효한 리스트 번호를 입력해주세요."@
}

/// Whether every number lies between 1 and `len`.
pub open spec fn numbers_in_list(nums: Seq<usize>, len: int) -> bool {
    forall|i: int| 0 <= i < nums.len() ==> 1 <= #[trigger] nums[i] <= len
}

/// The ids at the list numbers `nums` (counted from 1).
pub open spec fn ids_at(nums: Seq<usize>, ids: Seq<i64>) -> Seq<i64> {
    Seq::new(nums.len(), |i: int| ids[nums[i] - 1])
}

/// The ids at the list numbers, or the error for a number outside the list.
fn pick_ids(nums: &Vec<usize>, display_ids: &[i64]) -> (r: Result<Vec<i64>, String>)
    ensures
        match r {
            Ok(v) => numbers_in_list(nums@, display_ids@.len() as int) && v@ == ids_at(
                nums@,
                display_ids@,
            ),
            Err(e) => !numbers_in_list(nums@, display_ids@.len() as int) && e@ == msg_bad_number(),
        },
{
    let mut valid_ids: Vec<i64> = Vec::new();
    let mut k: usize = 0;
    while k < nums.len()
        invariant
            k <= nums.len(),
            numbers_in_list(nums@.take(k as int), display_ids@.len() as int),
            valid_ids@ =~= ids_at(nums@.take(k as int), display_ids@),
        decreases nums.len() - k,
    {
        let n = nums[k];
        if n == 0 || n > display_ids.len() {
            assert(!(1 <= nums@[k as int] <= display_ids@.len()));
            return Err(String::from_str("유효한 리스트 번호를 입력해주세요."));
        }
        valid_ids.push(display_ids[n - 1]);
        assert(nums@.take(k + 1) =~= nums@.take(k as int).push(n));
        k = k + 1;
    }
    assert(nums@.take(nums.len() as int) =~= nums@);
    Ok(valid_ids)
}

/// The ids that `remove` deletes, or the error it reports.
pub open spec fn remove_request(args: Seq<Seq<char>>, ids: Seq<i64>) -> Result<Seq<i64>, Seq<char>> {
    if args.len() == 0 {
        Err("사용법: remove <리스트번호>[,...]"@)
    } else {
        let nums = listed_numbers(args[0]);
        if numbers_in_list(nums, ids.len() as int) {
            Ok(ids_at(nums, ids))
        } else {
            Err(msg_bad_number())
        }
    }
}

/// Remove (soft delete) todo(s): the ids that the `remove` arguments name
/// ("1", "1,3", "2-5"), or the message of the error they hold.
pub fn plan_remove(args: &[&str], display_ids: &[i64]) -> (r: Result<Vec<i64>, String>)
    ensures
        match r {
            Ok(v) => remove_request(str_views(args@), display_ids@) == Ok::<Seq<i64>, Seq<char>>(v@),
            Err(e) => remove_request(str_views(args@), display_ids@) == Err::<Seq<i64>, Seq<char>>(e@),
        },
{
    if args.len() == 0 {
        return Err(String::from_str("사용법: remove <리스트번호>[,...]"));
    }
    assert(args[0]@ == str_views(args@)[0]);
    let nums = parse_numbers(args[0]);
    pick_ids(&nums, display_ids)
}

/// The ids and done level that `done` sets, or the error it reports; no
/// level means a toggle.
pub open spec fn done_request(args: Seq<Seq<char>>, ids: Seq<i64>) -> Result<
    (Seq<i64>, Option<i32>),
    Seq<char>,
> {
    if args.len() == 0 {
        Err("사용법: done <리스트번호>[,...] [0-5]"@)
    } else {
        let nums = listed_numbers(args[0]);
        if !numbers_in_list(nums, ids.len() as int) {
            Err(msg_bad_number())
        } else if args.len() > 1 {
            match parsed_signed(args[1], i32::MIN as int, i32::MAX as int) {
                Some(l) => if 0 <= l <= 5 {
                    Ok((ids_at(nums, ids), Some(l as i32)))
                } else {
                    Err(msg_bad_done_level())
                },
                None => Err(msg_bad_done_level()),
            }
        } else {
            Ok((ids_at(nums, ids), None))
        }
    }
}

/// The message for a done level that is not 0 to 5.
pub open spec fn msg_bad_done_level() -> Seq<char> {
    "잘못된 완료 단계입니다. 0-5 숫자를 입력해주세요."@
}

/// Mark todo(s) as done or in progress: the ids and the done level (0 to 5,
/// none to toggle) that the `done` arguments name, or the message of the
/// error they hold (a level other than 0 to 5 is one).
pub fn plan_done(args: &[&str], display_ids: &[i64]) -> (r: Result<(Vec<i64>, Option<i32>), String>)
    ensures
        match r {
            Ok((v, level)) => done_request(str_views(args@), display_ids@) == Ok::<
                (Seq<i64>, Option<i32>),
                Seq<char>,
            >((v@, level)),
            Err(e) => done_request(str_views(args@), display_ids@) == Err::<
                (Seq<i64>, Option<i32>),
                Seq<char>,
            >(e@),
        },
{
    if args.len() == 0 {
        return Err(String::from_str("사용법: done <리스트번호>[,...] [0-5]"));
    }
    assert(args[0]@ == str_views(args@)[0]);
    let nums = parse_numbers(args[0]);
    let ids = match pick_ids(&nums, display_ids) {
        Ok(v) => v,
        Err(e) => return Err(e),
    };
    if args.len() > 1 {
        assert(args[1]@ == str_views(args@)[1]);
        match parse_i32(args[1]) {
            Some(l) => {
                if 0 <= l && l <= 5 {
                    Ok((ids, Some(l)))
                } else {
                    Err(String::from_str("잘못된 완료 단계입니다. 0-5 숫자를 입력해주세요."))
                }
            },
            None => Err(String::from_str("잘못된 완료 단계입니다. 0-5 숫자를 입력해주세요.")),
        }
    } else {
        Ok((ids, None))
    }
}

/// An update as plain values: content, due date, priority, parent, whether
/// the parent is removed, repetition period, and whether the repetition is
/// removed.
pub type UpdateView = (
    Option<Seq<char>>,
    Option<Seq<char>>,
    Option<i32>,
    Option<i64>,
    bool,
    Option<Seq<char>>,
    bool,
);

/// The plain values of an update.
pub open spec fn update_view(u: UpdateTodo) -> UpdateView {
    (
        opt_chars(u.todo),
        opt_chars(u.due_date),
        u.priority,
        u.up_id,
        u.top_level,
        opt_chars(u.repetition),
        u.clear_repetition,
    )
}

/// What batch `edit` has read so far: new content words, due date, priority,
/// parent, whether the parent is removed, repetition, and whether the
/// repetition is removed.
pub type EditScan = (
    Option<Seq<char>>,
    Option<Seq<char>>,
    Option<i32>,
    Option<i64>,
    bool,
    Option<Seq<char>>,
    bool,
);

/// Reads the arguments of a batch `edit` from position `i` on: `-d DATE`
/// (no date when it names none), `-p N` (1 to 4, else an error), `-u N` (a
/// list number; 0 removes the parent; kept otherwise), `-r PERIOD` (`0`
/// removes the repetition, a period that names none is an error), the other
/// words content.
pub open spec fn edit_scan(args: Seq<Seq<char>>, ids: Seq<i64>, today: Date, i: int, st: EditScan) -> Result<
    EditScan,
    Seq<char>,
>
    decreases args.len() - i,
{
    if i < 0 || i >= args.len() {
        Ok(st)
    } else {
        let a = args[i];
        let has_next = i + 1 < args.len();
        if a == "-d"@ && has_next {
            edit_scan(
                args,
                ids,
                today,
                i + 2,
                (st.0, date_from_text(args[i + 1], today), st.2, st.3, st.4, st.5, st.6),
            )
        } else if a == "-p"@ && has_next {
            match parsed_signed(args[i + 1], i32::MIN as int, i32::MAX as int) {
                Some(v) => if 1 <= v <= 4 {
                    edit_scan(args, ids, today, i + 2, (st.0, st.1, Some(v as i32), st.3, st.4, st.5, st.6))
                } else {
                    Err(msg_bad_priority_flag())
                },
                None => Err(msg_bad_priority_flag()),
            }
        } else if a == "-u"@ && has_next {
            let (up, top) = match parsed_unsigned(args[i + 1], usize::MAX as int) {
                Some(num) => if num == 0 {
                    (None, true)
                } else if num <= ids.len() {
                    (Some(ids[num - 1]), false)
                } else {
                    (st.3, st.4)
                },
                None => (st.3, st.4),
            };
            edit_scan(args, ids, today, i + 2, (st.0, st.1, st.2, up, top, st.5, st.6))
        } else if a == "-r"@ && has_next {
            if args[i + 1] == "0"@ {
                edit_scan(args, ids, today, i + 2, (st.0, st.1, st.2, st.3, st.4, None, true))
            } else {
                match period_of(args[i + 1]) {
                    Some(p) => edit_scan(
                        args,
                        ids,
                        today,
                        i + 2,
                        (st.0, st.1, st.2, st.3, st.4, Some(period_text(p)), false),
                    ),
                    None => Err(msg_bad_period()),
                }
            }
        } else {
            let raw = match st.0 {
                Some(r) => r + seq![' '] + a,
                None => a,
            };
            edit_scan(args, ids, today, i + 1, (Some(raw), st.1, st.2, st.3, st.4, st.5, st.6))
        }
    }
}

/// Whether `w` starts with `c`.
pub open spec fn starts_with(w: Seq<char>, c: char) -> bool {
    w.len() > 0 && w[0] == c
}

/// The new content of a batch edit: the content left after inline parsing,
/// when the raw content holds plain text or inline patterns that were taken
/// out, unless it is made of `@`/`^` words alone.
pub open spec fn edit_content(raw: Seq<char>, changed: Seq<char>) -> Option<Seq<char>> {
    let has_inline = (raw.contains('@') || raw.contains('^')) && changed != raw;
    let has_plain = !raw.contains('@') && !raw.contains('^');
    let ws = words(raw);
    let only_inline = ws.len() > 0 && forall|j: int|
        0 <= j < ws.len() ==> starts_with(#[trigger] ws[j], '@') || starts_with(ws[j], '^');
    if (has_inline || has_plain) && !only_inline {
        Some(changed)
    } else {
        None
    }
}

/// The error of a malformed inline date or priority in a batch edit.
pub open spec fn edit_inline_error(raw: Seq<char>, inline_due: Option<Seq<char>>) -> Option<Seq<char>> {
    let ws = words(raw);
    if ws.len() > 0 {
        let last = ws.last();
        let inner = last.drop_first();
        if marked(last, '@') && (inner.contains('/') || inner.contains('-') || all_digits(inner))
            && inline_due is None {
            Some("잘못된 날짜입니다: @"@ + inner + " - calendar 명령어로 확인하세요."@)
        } else if marked(last, '^') && inline_priority(last) is None {
            Some(msg_bad_priority_inline())
        } else {
            None
        }
    } else {
        None
    }
}

/// The update of a batch edit, or the error it reports (arguments after the
/// list numbers).
///
/// Inline `@date` and `^priority` are read, and checked, only when neither
/// `-d` nor `-p` gave a value; otherwise the content stays as typed.
pub open spec fn edit_batch_update(args: Seq<Seq<char>>, ids: Seq<i64>, today: Date) -> Result<
    UpdateView,
    Seq<char>,
> {
    match edit_scan(args, ids, today, 1, (None, None, None, None, false, None, false)) {
        Err(e) => Err(e),
        Ok(st) => {
            let (raw, due, prio, up, top, rep, clear) = st;
            let use_inline = due is None && prio is None;
            let (changed, inline_due, inline_pri) = match raw {
                Some(r) => if use_inline {
                    inline_parts(r, candidate_lower(r), today)
                } else {
                    (r, None, None)
                },
                None => (seq![], None, None),
            };
            let bad = match raw {
                Some(r) => if use_inline {
                    edit_inline_error(r, inline_due)
                } else {
                    None
                },
                None => None,
            };
            if bad is Some {
                Err(bad->0)
            } else {
                Ok(
                    (
                        match raw {
                            Some(r) => edit_content(r, changed),
                            None => None,
                        },
                        if due is Some {
                            due
                        } else {
                            inline_due
                        },
                        if prio is Some {
                            prio
                        } else {
                            inline_pri
                        },
                        up,
                        top,
                        rep,
                        clear,
                    ),
                )
            }
        },
    }
}

/// What `edit` does: batch edits of the listed todos, or an interactive edit
/// of one todo by its list number.
pub enum EditPlan {
    /// Apply `update` to each of `ids`.
    Batch { ids: Vec<i64>, update: UpdateTodo },
    /// Ask for new content for the todo with this list number (from 1).
    Interactive { number: usize },
}

/// The error that `edit` reports for its arguments, if any.
pub open spec fn edit_error(args: Seq<Seq<char>>, ids: Seq<i64>, today: Date) -> Option<Seq<char>> {
    if args.len() == 0 {
        Some("사용법: edit <리스트번호>[,...] [-d 날짜] [-p 우선순위]"@)
    } else if args.len() > 1 {
        if !numbers_in_list(listed_numbers(args[0]), ids.len() as int) {
            Some(msg_bad_number())
        } else {
            match edit_batch_update(args, ids, today) {
                Err(e) => Some(e),
                Ok(_) => None,
            }
        }
    } else {
        match parsed_unsigned(args[0], usize::MAX as int) {
            Some(num) => if num == 0 || num > ids.len() {
                Some(msg_bad_number())
            } else {
                None
            },
            None => Some(msg_bad_number()),
        }
    }
}

/// A plain word that holds neither `@` nor `^` anywhere.
pub open spec fn bare_word(w: Seq<char>) -> bool {
    plain_word(w) && !w.contains('@') && !w.contains('^')
}

proof fn lemma_joined_lacks(ws: Seq<Seq<char>>, ch: char)
    requires
        ch != ' ',
        forall|j: int| 0 <= j < ws.len() ==> !(#[trigger] ws[j]).contains(ch),
    ensures
        !joined(ws).contains(ch),
    decreases ws.len(),
{
    if ws.len() == 1 {
        assert(!ws[0].contains(ch));
    } else if ws.len() >= 2 {
        let d = ws.drop_last();
        assert forall|j: int| 0 <= j < d.len() implies !(#[trigger] d[j]).contains(ch) by {
            assert(d[j] == ws[j]);
        }
        lemma_joined_lacks(d, ch);
        lemma_joined_last(ws);
        assert(!ws[ws.len() - 1].contains(ch));
        let a = joined(d);
        let b = ws.last();
        let t = a + seq![' '] + b;
        if t.contains(ch) {
            let k = choose|k: int| 0 <= k < t.len() && t[k] == ch;
            if k < a.len() {
                assert(a[k] == ch);
            } else if k > a.len() {
                assert(b[k - a.len() - 1] == ch);
            }
        }
    }
}

/// Reading plain content words of a batch edit only gathers them, joined
/// by spaces.
proof fn lemma_edit_scan_plain(
    args: Seq<Seq<char>>,
    ids: Seq<i64>,
    today: Date,
    i: int,
    k: int,
    st: EditScan,
)
    requires
        1 <= i <= k <= args.len(),
        forall|j: int| 1 <= j < k ==> content_word(#[trigger] args[j]),
        st.0 == (if i == 1 {
            None
        } else {
            Some(joined(args.subrange(1, i)))
        }),
    ensures
        edit_scan(args, ids, today, i, st) == edit_scan(
            args,
            ids,
            today,
            k,
            (
                if k == 1 {
                    None
                } else {
                    Some(joined(args.subrange(1, k)))
                },
                st.1,
                st.2,
                st.3,
                st.4,
                st.5,
                st.6,
            ),
        ),
    decreases k - i,
{
    if i < k {
        let a = args[i];
        assert(content_word(a));
        let next = joined(args.subrange(1, i + 1));
        if i == 1 {
            assert(args.subrange(1, 2) =~= seq![a]);
        } else {
            lemma_joined_last(args.subrange(1, i + 1));
            assert(args.subrange(1, i + 1).drop_last() =~= args.subrange(1, i));
        }
        lemma_edit_scan_plain(args, ids, today, i + 1, k, (Some(next), st.1, st.2, st.3, st.4, st.5, st.6));
    }
}

proof fn lemma_edit_scan_flag(
    args: Seq<Seq<char>>,
    ids: Seq<i64>,
    today: Date,
    m: int,
    st: EditScan,
    flag: Seq<char>,
    v: Seq<char>,
)
    requires
        1 <= m,
        m + 2 <= args.len(),
        args[m] == flag,
        args[m + 1] == v,
        flag == "-d"@ || (flag == "-p"@ && inline_priority(seq!['^'] + v) is Some),
    ensures
        edit_scan(args, ids, today, m, st) == edit_scan(
            args,
            ids,
            today,
            m + 2,
            if flag == "-d"@ {
                (st.0, date_from_text(v, today), st.2, st.3, st.4, st.5, st.6)
            } else {
                (st.0, st.1, inline_priority(seq!['^'] + v), st.3, st.4, st.5, st.6)
            },
        ),
{
    reveal_strlit("-d");
    reveal_strlit("-p");
    assert(("-p"@)[1] == 'p' && ("-d"@)[1] == 'd');
    let w = seq!['^'] + v;
    assert(w.drop_first() =~= v);
    if flag == "-p"@ {
        assert(marked(w, '^'));
        let x = parsed_signed(v, i32::MIN as int, i32::MAX as int)->0;
        assert(inline_priority(w) == Some(x as i32));
    }
}

/// The content of a batch edit, read to the end with one word `w` after
/// the bare content `c` or with nothing after it.
proof fn lemma_edit_tail(
    nums: Seq<char>,
    c: Seq<Seq<char>>,
    w: Seq<char>,
    ids: Seq<i64>,
    today: Date,
)
    requires
        forall|j: int| 0 <= j < c.len() ==> bare_word(#[trigger] c[j]),
        w.len() >= 2,
        no_ws(w),
        w[0] == '@' || w[0] == '^',
        w != "-d"@ && w != "-p"@ && w != "-u"@ && w != "-r"@,
    ensures
        ({
            let a = seq![nums] + c.push(w);
            let m: int = c.len() as int;
            edit_scan(a, ids, today, 1, (None, None, None, None, false, None, false)) == Ok::<
                EditScan,
                Seq<char>,
            >(
                (
                    Some(
                        if m == 0 {
                            w
                        } else {
                            joined(c) + seq![' '] + w
                        },
                    ),
                    None,
                    None,
                    None,
                    false,
                    None,
                    false,
                ),
            )
        }),
        c.len() > 0 ==> words(joined(c) + seq![' '] + w) == c.push(w),
        c.len() > 0 ==> (joined(c) + seq![' '] + w)[joined(c).len() as int + 1] == w[0],
        c.len() > 0 ==> joined(c).len() > 0,
        c.len() > 0 ==> !joined(c).contains('@') && !joined(c).contains('^'),
        words(w) == seq![w],
{
    let a = seq![nums] + c.push(w);
    let m: int = c.len() as int;
    assert forall|j: int| 1 <= j < m + 1 implies plain_word(#[trigger] a[j]) by {
        assert(a[j] == c[j - 1]);
        assert(bare_word(c[j - 1]));
    }
    assert(a.subrange(1, m + 1) =~= c);
    lemma_edit_scan_plain(a, ids, today, 1, m + 1, (None, None, None, None, false, None, false));
    let raw = if m == 0 {
        None
    } else {
        Some(joined(c))
    };
    assert(a[m + 1] == w);
    let next = match raw {
        Some(r) => r + seq![' '] + w,
        None => w,
    };
    let st2: EditScan = (Some(next), None, None, None, false, None, false);
    assert(edit_scan(a, ids, today, m + 2, st2) == Ok::<EditScan, Seq<char>>(st2));
    assert(edit_scan(a, ids, today, m + 1, (raw, None, None, None, false, None, false)) == edit_scan(
        a,
        ids,
        today,
        m + 2,
        st2,
    ));
    lemma_words_single(w);
    if m > 0 {
        assert forall|j: int| 0 <= j < c.len() implies plain_word(#[trigger] c[j]) by {
            assert(bare_word(c[j]));
        }
        lemma_plain_inline(c, today);
        lemma_words_after_space(joined(c), w);
        assert forall|j: int| 0 <= j < c.len() implies !(#[trigger] c[j]).contains('@') by {
            assert(bare_word(c[j]));
        }
        assert forall|j: int| 0 <= j < c.len() implies !(#[trigger] c[j]).contains('^') by {
            assert(bare_word(c[j]));
        }
        lemma_joined_lacks(c, '@');
        lemma_joined_lacks(c, '^');
    }
}

/// The flag form of a batch edit, `c` followed by `flag v`, read to the end.
proof fn lemma_edit_flag_side(
    nums: Seq<char>,
    c: Seq<Seq<char>>,
    flag: Seq<char>,
    v: Seq<char>,
    ids: Seq<i64>,
    today: Date,
)
    requires
        forall|j: int| 0 <= j < c.len() ==> bare_word(#[trigger] c[j]),
        flag == "-d"@ || (flag == "-p"@ && inline_priority(seq!['^'] + v) is Some),
    ensures
        ({
            let a = seq![nums] + c + seq![flag, v];
            let raw = if c.len() == 0 {
                None::<Seq<char>>
            } else {
                Some(joined(c))
            };
            edit_scan(a, ids, today, 1, (None, None, None, None, false, None, false)) == Ok::<
                EditScan,
                Seq<char>,
            >(
                if flag == "-d"@ {
                    (raw, date_from_text(v, today), None, None, false, None, false)
                } else {
                    (raw, None, inline_priority(seq!['^'] + v), None, false, None, false)
                },
            )
        }),
        c.len() > 0 ==> inline_parts(joined(c), candidate_lower(joined(c)), today) == (
            joined(c),
            None::<Seq<char>>,
            None::<i32>,
        ),
        c.len() > 0 ==> edit_inline_error(joined(c), None) is None,
        c.len() > 0 ==> edit_content(joined(c), joined(c)) == Some(joined(c)),
{
    let a = seq![nums] + c + seq![flag, v];
    let m: int = c.len() as int + 1;
    assert forall|j: int| 1 <= j < m implies plain_word(#[trigger] a[j]) by {
        assert(a[j] == c[j - 1]);
        assert(bare_word(c[j - 1]));
    }
    assert(a.subrange(1, m) =~= c);
    let raw = if c.len() == 0 {
        None::<Seq<char>>
    } else {
        Some(joined(c))
    };
    lemma_edit_scan_plain(a, ids, today, 1, m, (None, None, None, None, false, None, false));
    lemma_edit_scan_flag(a, ids, today, m, (raw, None, None, None, false, None, false), flag, v);
    let st1: EditScan = if flag == "-d"@ {
        (raw, date_from_text(v, today), None, None, false, None, false)
    } else {
        (raw, None, inline_priority(seq!['^'] + v), None, false, None, false)
    };
    assert(edit_scan(a, ids, today, m + 2, st1) == Ok::<EditScan, Seq<char>>(st1));
    if c.len() > 0 {
        assert forall|j: int| 0 <= j < c.len() implies plain_word(#[trigger] c[j]) by {
            assert(bare_word(c[j]));
        }
        lemma_plain_inline(c, today);
        assert forall|j: int| 0 <= j < c.len() implies !(#[trigger] c[j]).contains('@') by {
            assert(bare_word(c[j]));
        }
        assert forall|j: int| 0 <= j < c.len() implies !(#[trigger] c[j]).contains('^') by {
            assert(bare_word(c[j]));
        }
        lemma_joined_lacks(c, '@');
        lemma_joined_lacks(c, '^');
        assert(bare_word(c[0]));
        assert(c[0].len() > 0);
        if c[0][0] == '@' {
            assert(c[0].contains('@'));
        }
        if c[0][0] == '^' {
            assert(c[0].contains('^'));
        }
        assert(!starts_with(c[0], '@') && !starts_with(c[0], '^'));
        let n = c.len();
        assert(bare_word(c[n - 1]));
    }
}

/// In a batch edit, a due date and a priority written `-d DATE -p N` after
/// bare content give the same update, or the same error, as `@DATE ^N` at
/// the end of it, for a date that both read.
#[verifier::spinoff_prover]
#[verifier::rlimit(30)]
pub proof fn lemma_edit_flags_or_marks(
    nums: Seq<char>,
    c: Seq<Seq<char>>,
    v: Seq<char>,
    p: Seq<char>,
    ids: Seq<i64>,
    today: Date,
)
    requires
        forall|j: int| 0 <= j < c.len() ==> bare_word(#[trigger] c[j]),
        v.len() > 0,
        no_ws(v),
        looks_like_date(v, lowercase(v)),
        date_from_text(v, today) is Some,
        no_ws(p),
        inline_priority(seq!['^'] + p) is Some,
    ensures
        edit_batch_update(seq![nums] + c + seq!["-d"@, v, "-p"@, p], ids, today) == edit_batch_update(
            seq![nums] + c + seq![seq!['@'] + v, seq!['^'] + p],
            ids,
            today,
        ),
        edit_error(seq![nums] + c + seq!["-d"@, v, "-p"@, p], ids, today) == edit_error(
            seq![nums] + c + seq![seq!['@'] + v, seq!['^'] + p],
            ids,
            today,
        ),
{
    reveal_strlit("-d");
    reveal_strlit("-p");
    assert(("-p"@)[1] == 'p' && ("-d"@)[1] == 'd');
    assert("-p"@ != "-d"@);
    let w1 = seq!['@'] + v;
    let w2 = seq!['^'] + p;
    let a1 = seq![nums] + c + seq!["-d"@, v, "-p"@, p];
    let a2 = seq![nums] + c + seq![w1, w2];
    let m: int = c.len() as int + 1;
    let due = date_from_text(v, today);
    let pri = inline_priority(w2);
    assert forall|j: int| 0 <= j < c.len() implies plain_word(#[trigger] c[j]) by {
        assert(bare_word(c[j]));
    }
    // the flag form
    assert forall|j: int| 1 <= j < m implies content_word(#[trigger] a1[j]) by {
        assert(a1[j] == c[j - 1]);
        assert(plain_word(c[j - 1]));
    }
    assert(a1.subrange(1, m) =~= c);
    assert(a1[m] == "-d"@ && a1[m + 1] == v && a1[m + 2] == "-p"@ && a1[m + 3] == p);
    let raw1 = if c.len() == 0 {
        None::<Seq<char>>
    } else {
        Some(joined(c))
    };
    lemma_edit_scan_plain(a1, ids, today, 1, m, (None, None, None, None, false, None, false));
    lemma_edit_scan_flag(a1, ids, today, m, (raw1, None, None, None, false, None, false), "-d"@, v);
    lemma_edit_scan_flag(a1, ids, today, m + 2, (raw1, due, None, None, false, None, false), "-p"@, p);
    let st1: EditScan = (raw1, due, pri, None, false, None, false);
    assert(edit_scan(a1, ids, today, m + 4, st1) == Ok::<EditScan, Seq<char>>(st1));
    lemma_edit_flag_side(nums, c, "-p"@, p, ids, today);
    // the inline form
    lemma_date_and_priority_marks(c, v, p, today);
    let ws = c + seq![w1, w2];
    let k: int = a2.len() as int;
    assert forall|j: int| 1 <= j < k implies content_word(#[trigger] a2[j]) by {
        assert(a2[j] == ws[j - 1]);
    }
    assert(a2.subrange(1, k) =~= ws);
    lemma_edit_scan_plain(a2, ids, today, 1, k, (None, None, None, None, false, None, false));
    let st2: EditScan = (Some(joined(ws)), None, None, None, false, None, false);
    assert(edit_scan(a2, ids, today, k, st2) == Ok::<EditScan, Seq<char>>(st2));
    if c.len() == 0 {
        assert(ws[0] == w1 && ws[1] == w2);
        assert(starts_with(ws[0], '@') && starts_with(ws[1], '^'));
        assert(edit_content(joined(ws), joined(c)) is None);
    } else {
        assert(ws[0] == c[0]);
        assert(bare_word(c[0]));
        if c[0][0] == '@' {
            assert(c[0].contains('@'));
        }
        if c[0][0] == '^' {
            assert(c[0].contains('^'));
        }
        assert(!starts_with(ws[0], '@') && !starts_with(ws[0], '^'));
        assert(edit_content(joined(ws), joined(c)) == Some(joined(c)));
    }
    assert(a1[0] == nums && a2[0] == nums);
}

/// In a batch edit, a priority written `-p N` after bare content gives the
/// same update, or the same error, as `^N` at the end of it.
#[verifier::spinoff_prover]
#[verifier::rlimit(30)]
pub proof fn lemma_edit_priority_flag_or_mark(
    nums: Seq<char>,
    c: Seq<Seq<char>>,
    p: Seq<char>,
    ids: Seq<i64>,
    today: Date,
)
    requires
        forall|j: int| 0 <= j < c.len() ==> bare_word(#[trigger] c[j]),
        no_ws(p),
        inline_priority(seq!['^'] + p) is Some,
    ensures
        edit_batch_update(seq![nums] + c + seq!["-p"@, p], ids, today) == edit_batch_update(
            seq![nums] + c.push(seq!['^'] + p),
            ids,
            today,
        ),
        edit_error(seq![nums] + c + seq!["-p"@, p], ids, today) == edit_error(
            seq![nums] + c.push(seq!['^'] + p),
            ids,
            today,
        ),
{
    reveal_strlit("-d");
    reveal_strlit("-p");
    reveal_strlit("-u");
    reveal_strlit("-r");
    let w = seq!['^'] + p;
    assert(w.drop_first() =~= p);
    assert(w[0] == '^');
    assert(no_ws(w));
    assert(("-p"@)[1] == 'p' && ("-d"@)[1] == 'd');
    assert("-p"@ != "-d"@);
    assert(w != "-d"@ && w != "-p"@ && w != "-u"@ && w != "-r"@);
    lemma_edit_flag_side(nums, c, "-p"@, p, ids, today);
    lemma_edit_tail(nums, c, w, ids, today);
    let k = inline_priority(w);
    let a1 = seq![nums] + c + seq!["-p"@, p];
    let a2 = seq![nums] + c.push(w);
    if c.len() == 0 {
        assert(seq![w].take(0) =~= Seq::<Seq<char>>::empty());
        assert(starts_with(seq![w][0], '^'));
        assert(date_candidate(seq![w]) is None);
        assert(inline_parts(w, candidate_lower(w), today) == (Seq::<char>::empty(), None::<Seq<char>>, k));
        assert(edit_inline_error(w, None) is None);
        assert(edit_content(w, Seq::<char>::empty()) is None);
        assert(edit_batch_update(a1, ids, today) == Ok::<UpdateView, Seq<char>>((None, None, k, None, false, None, false)));
        assert(edit_batch_update(a2, ids, today) == Ok::<UpdateView, Seq<char>>((None, None, k, None, false, None, false)));
    } else {
        let raw2 = joined(c) + seq![' '] + w;
        let ws = c.push(w);
        let n: int = ws.len() as int;
        assert(bare_word(c[n - 2]));
        assert(ws[n - 2] == c[n - 2]);
        assert(ws.take(n - 1) =~= c);
        assert(raw2.contains('^'));
        assert(raw2.len() != joined(c).len());
        assert(ws[0] == c[0]);
        assert(bare_word(c[0]));
        if c[0][0] == '@' {
            assert(c[0].contains('@'));
        }
        if c[0][0] == '^' {
            assert(c[0].contains('^'));
        }
        assert(!starts_with(ws[0], '@') && !starts_with(ws[0], '^'));
        assert(date_candidate(ws) is None);
        assert(inline_parts(raw2, candidate_lower(raw2), today) == (joined(c), None::<Seq<char>>, k));
        assert(edit_inline_error(raw2, None) is None);
        assert(edit_content(raw2, joined(c)) == Some(joined(c)));
        assert(edit_batch_update(a1, ids, today) == Ok::<UpdateView, Seq<char>>((Some(joined(c)), None, k, None, false, None, false)));
        assert(edit_batch_update(a2, ids, today) == Ok::<UpdateView, Seq<char>>((Some(joined(c)), None, k, None, false, None, false)));
    }
    assert(a1[0] == nums && a2[0] == nums);
}

/// In a batch edit, a due date written `-d DATE` after bare content gives
/// the same update, or the same error, as `@DATE` at the end of it, for a
/// date that both read.
#[verifier::spinoff_prover]
#[verifier::rlimit(30)]
pub proof fn lemma_edit_date_flag_or_mark(
    nums: Seq<char>,
    c: Seq<Seq<char>>,
    v: Seq<char>,
    ids: Seq<i64>,
    today: Date,
)
    requires
        forall|j: int| 0 <= j < c.len() ==> bare_word(#[trigger] c[j]),
        v.len() > 0,
        no_ws(v),
        looks_like_date(v, lowercase(v)),
        date_from_text(v, today) is Some,
    ensures
        edit_batch_update(seq![nums] + c + seq!["-d"@, v], ids, today) == edit_batch_update(
            seq![nums] + c.push(seq!['@'] + v),
            ids,
            today,
        ),
        edit_error(seq![nums] + c + seq!["-d"@, v], ids, today) == edit_error(
            seq![nums] + c.push(seq!['@'] + v),
            ids,
            today,
        ),
{
    reveal_strlit("-d");
    reveal_strlit("-p");
    reveal_strlit("-u");
    reveal_strlit("-r");
    let w = seq!['@'] + v;
    assert(w.drop_first() =~= v);
    assert(w[0] == '@');
    assert(no_ws(w));
    assert(w != "-d"@ && w != "-p"@ && w != "-u"@ && w != "-r"@);
    lemma_edit_flag_side(nums, c, "-d"@, v, ids, today);
    lemma_edit_tail(nums, c, w, ids, today);
    if c.len() == 0 {
        assert(seq![w].take(0) =~= Seq::<Seq<char>>::empty());
        assert(starts_with(seq![w][0], '@'));
    } else {
        let raw2 = joined(c) + seq![' '] + w;
        let ws = c.push(w);
        let n: int = ws.len() as int;
        assert(ws.take(n - 1) =~= c);
        assert(raw2.contains('@'));
        assert(raw2.len() != joined(c).len());
        assert(ws[0] == c[0]);
        assert(bare_word(c[0]));
        if c[0][0] == '@' {
            assert(c[0].contains('@'));
        }
        if c[0][0] == '^' {
            assert(c[0].contains('^'));
        }
        assert(!starts_with(ws[0], '@') && !starts_with(ws[0], '^'));
    }
    let a1 = seq![nums] + c + seq!["-d"@, v];
    let a2 = seq![nums] + c.push(w);
    assert(a1[0] == nums && a2[0] == nums);
}

/// Whether the words hold only `@...` and `^...` words (and at least one).
fn only_inline_words(ws: &Vec<&str>) -> (r: bool)
    ensures
        r == (ws.len() > 0 && forall|j: int|
            0 <= j < ws.len() ==> starts_with(#[trigger] str_views(ws@)[j], '@') || starts_with(
                str_views(ws@)[j],
                '^',
            )),
{
    let ghost views = str_views(ws@);
    let mut k: usize = 0;
    while k < ws.len()
        invariant
            k <= ws.len(),
            views == str_views(ws@),
            forall|j: int| 0 <= j < k ==> starts_with(#[trigger] views[j], '@') || starts_with(views[j], '^'),
        decreases ws.len() - k,
    {
        assert(ws[k as int]@ == views[k as int]);
        if !(first_char_is(ws[k], '@') || first_char_is(ws[k], '^')) {
            return false;
        }
        k = k + 1;
    }
    ws.len() > 0
}

/// The error of a malformed inline date or priority in a batch edit.
fn check_edit_inline(raw: &str, inline_due: &Option<String>) -> (r: Option<String>)
    ensures
        chars_of(r) == edit_inline_error(raw@, chars_of(*inline_due)),
{
    let ws = split_whitespace(raw);
    let k = ws.len();
    if k == 0 {
        return None;
    }
    let last = ws[k - 1];
    assert(last@ == words(raw@).last());
    if is_marked(last, '@') {
        let inner = last.substring_char(1, last.unicode_len());
        assert(inner@ =~= last@.drop_first());
        if (has_char(inner, '/') || has_char(inner, '-') || all_ascii_digits(inner))
            && inline_due.is_none() {
            let mut msg = String::from_str("잘못된 날짜입니다: @");
            msg.append(inner);
            msg.append(" - calendar 명령어로 확인하세요.");
            return Some(msg);
        }
    }
    if is_marked(last, '^') && priority_of(last).is_none() {
        return Some(String::from_str("잘못된 우선순위입니다. ^1, ^2, ^3, ^4 중 하나를 입력해주세요."));
    }
    None
}

/// The new content of a batch edit (see `edit_content`).
fn content_update(raw: &str, changed: String) -> (r: Option<String>)
    ensures
        chars_of(r) == edit_content(raw@, changed@),
{
    let has_at = has_char(raw, '@');
    let has_caret = has_char(raw, '^');
    let has_inline = (has_at || has_caret) && !same_text(changed.as_str(), raw);
    let has_plain = !has_at && !has_caret;
    let ws = split_whitespace(raw);
    let only_inline = only_inline_words(&ws);
    if has_inline || has_plain {
        if only_inline {
            None
        } else {
            Some(changed)
        }
    } else {
        None
    }
}

/// Edit existing todo(s): what the `edit` arguments ask for, seen from
/// `today`, or the message of the error they hold.
///
/// With more than the list numbers ("1", "1,3,5", "2-4"), a batch edit with
/// `-d DATE`, `-p 1..4`, `-u N` (`-u 0` makes the todos top-level) and new
/// content, whose inline `@date` and `^N` count too (the flags winning);
/// with a single list number, an interactive edit of that todo.
pub fn plan_edit(args: &[&str], display_ids: &[i64], today: Date) -> (r: Result<EditPlan, String>)
    requires
        today.roomy(),
    ensures
        match r {
            Err(e) => edit_error(str_views(args@), display_ids@, today) == Some(e@),
            Ok(EditPlan::Batch { ids, update }) => {
                &&& edit_error(str_views(args@), display_ids@, today) is None
                &&& args@.len() > 1
                &&& ids@ == ids_at(listed_numbers(args@[0]@), display_ids@)
                &&& edit_batch_update(str_views(args@), display_ids@, today) == Ok::<
                    UpdateView,
                    Seq<char>,
                >(update_view(update))
            },
            Ok(EditPlan::Interactive { number }) => {
                &&& edit_error(str_views(args@), display_ids@, today) is None
                &&& args@.len() == 1
                &&& parsed_unsigned(args@[0]@, usize::MAX as int) == Some(number as nat)
            },
        },
{
    let ghost views = str_views(args@);
    if args.len() == 0 {
        return Err(String::from_str("사용법: edit <리스트번호>[,...] [-d 날짜] [-p 우선순위]"));
    }
    assert(args[0]@ == views[0]);
    if args.len() > 1 {
        let nums = parse_numbers(args[0]);
        let valid_ids = match pick_ids(&nums, display_ids) {
            Ok(v) => v,
            Err(e) => return Err(e),
        };
        let mut raw_new_content: Option<String> = None;
        let mut due_date: Option<String> = None;
        let mut priority: Option<i32> = None;
        let mut up_id: Option<i64> = None;
        let mut top_level = false;
        let mut repetition: Option<String> = None;
        let mut clear_repetition = false;
        let n = args.len();
        assert(edit_error(views, display_ids@, today) == (match edit_batch_update(views, display_ids@, today) {
            Err(e) => Some(e),
            Ok(_) => None::<Seq<char>>,
        }));
        let mut i: usize = 1;
        while i < n
            invariant
                n == args.len(),
                1 <= i <= n + 1,
                today.roomy(),
                views == str_views(args@),
                edit_error(views, display_ids@, today) == (match edit_batch_update(views, display_ids@, today) {
                    Err(e) => Some(e),
                    Ok(_) => None::<Seq<char>>,
                }),
                edit_scan(views, display_ids@, today, 1, (None, None, None, None, false, None, false))
                    == edit_scan(
                    views,
                    display_ids@,
                    today,
                    i as int,
                    (
                        opt_chars(raw_new_content),
                        opt_chars(due_date),
                        priority,
                        up_id,
                        top_level,
                        opt_chars(repetition),
                        clear_repetition,
                    ),
                ),
            decreases n + 1 - i,
        {
            let a = args[i];
            assert(a@ == views[i as int]);
            let has_next = i + 1 < n;
            if has_next {
                assert(args[i + 1]@ == views[i + 1]);
            }
            if same_text(a, "-d") && has_next {
                due_date = parse_date_on(args[i + 1], today);
                i = i + 2;
            } else if same_text(a, "-p") && has_next {
                match parse_i32(args[i + 1]) {
                    Some(v) => {
                        if v < 1 || v > 4 {
                            return Err(String::from_str("잘못된 우선순위입니다. 1-4 숫자를 입력: -p 1~4 또는 ^1~4"));
                        }
                        priority = Some(v);
                    },
                    None => {
                        return Err(String::from_str("잘못된 우선순위입니다. 1-4 숫자를 입력: -p 1~4 또는 ^1~4"));
                    },
                }
                i = i + 2;
            } else if same_text(a, "-u") && has_next {
                match parse_usize(args[i + 1]) {
                    Some(num) => {
                        if num == 0 {
                            up_id = None;
                            top_level = true;
                        } else if num <= display_ids.len() {
                            up_id = Some(display_ids[num - 1]);
                            top_level = false;
                        }
                    },
                    None => {},
                }
                i = i + 2;
            } else if same_text(a, "-r") && has_next {
                if same_text(args[i + 1], "0") {
                    repetition = None;
                    clear_repetition = true;
                } else {
                    match parse_period(args[i + 1]) {
                        Some(p) => {
                            repetition = Some(period_string(p));
                            clear_repetition = false;
                        },
                        None => {
                            return Err(String::from_str("잘못된 반복 주기입니다. -r d, e, w, 일(1-31) 또는 월/일 형식으로 입력해주세요."));
                        },
                    }
                }
                i = i + 2;
            } else {
                raw_new_content = match raw_new_content {
                    None => Some(String::from_str(a)),
                    Some(r) => {
                        let ghost before = r@;
                        let mut joined_text = r;
                        push_char(&mut joined_text, ' ');
                        joined_text.append(a);
                        assert(joined_text@ =~= before + seq![' '] + a@);
                        Some(joined_text)
                    },
                };
                i = i + 1;
            }
        }
        let use_inline = due_date.is_none() && priority.is_none();
        let (content_changed, inline_due, inline_pri) = match &raw_new_content {
            Some(raw) => if use_inline {
                parse_inline(raw.as_str(), today)
            } else {
                (raw.clone(), None, None)
            },
            None => (String::new(), None, None),
        };
        if use_inline {
            match &raw_new_content {
                Some(raw) => match check_edit_inline(raw.as_str(), &inline_due) {
                    Some(msg) => return Err(msg),
                    None => {},
                },
                None => {},
            }
        }
        let final_due = match due_date {
            Some(d) => Some(d),
            None => inline_due,
        };
        let final_pri = match priority {
            Some(p) => Some(p),
            None => inline_pri,
        };
        let final_todo = match &raw_new_content {
            Some(raw) => content_update(raw.as_str(), content_changed),
            None => None,
        };
        return Ok(
            EditPlan::Batch {
                ids: valid_ids,
                update: UpdateTodo {
                    todo: final_todo,
                    due_date: final_due,
                    priority: final_pri,
                    up_id,
                    top_level,
                    repetition,
                    clear_repetition,
                },
            },
        );
    }
    match parse_usize(args[0]) {
        Some(num) => {
            if num == 0 || num > display_ids.len() {
                return Err(String::from_str("유효한 리스트 번호를 입력해주세요."));
            }
            Ok(EditPlan::Interactive { number: num })
        },
        None => Err(String::from_str("유효한 리스트 번호를 입력해주세요.")),
    }
}

/// The message for `more` without arguments.
pub open spec fn msg_more_usage() -> Seq<char> {
    "사용법: more <리스트번호>[,...] [-d 날짜] [-p 우선순위] [-u 리스트번호]"@
}

/// The todos that `more` copies (by id) and the changes asked for with the
/// copies, read as a batch edit reads them; or the error it reports.
pub open spec fn more_request(args: Seq<Seq<char>>, ids: Seq<i64>, today: Date) -> Result<
    (Seq<i64>, Option<UpdateView>),
    Seq<char>,
> {
    if args.len() == 0 {
        Err(msg_more_usage())
    } else if !numbers_in_list(listed_numbers(args[0]), ids.len() as int) {
        Err(msg_bad_number())
    } else if args.len() == 1 {
        Ok((ids_at(listed_numbers(args[0]), ids), None))
    } else {
        match edit_batch_update(args, ids, today) {
            Err(e) => Err(e),
            Ok(u) => Ok((ids_at(listed_numbers(args[0]), ids), Some(u))),
        }
    }
}

/// The changes of an optional update, as plain values.
pub open spec fn opt_update_view(u: Option<UpdateTodo>) -> Option<UpdateView> {
    match u {
        Some(u) => Some(update_view(u)),
        None => None,
    }
}

/// Copy todos: the ids of the todos that the `more` arguments name by list
/// number, and the due date, priority, parent and repetition that the
/// copies get in place of the copied ones (`-d`, `-p`, `-u`, `-r` or inline
/// `@date` and `^priority`).
pub fn plan_more(args: &[&str], display_ids: &[i64], today: Date) -> (r: Result<(Vec<i64>, Option<UpdateTodo>), String>)
    requires
        today.roomy(),
    ensures
        match r {
            Ok((ids, u)) => more_request(str_views(args@), display_ids@, today) == Ok::<
                (Seq<i64>, Option<UpdateView>),
                Seq<char>,
            >((ids@, opt_update_view(u))),
            Err(e) => more_request(str_views(args@), display_ids@, today) == Err::<
                (Seq<i64>, Option<UpdateView>),
                Seq<char>,
            >(e@),
        },
{
    let ghost views = str_views(args@);
    if args.len() == 0 {
        return Err(String::from_str("사용법: more <리스트번호>[,...] [-d 날짜] [-p 우선순위] [-u 리스트번호]"));
    }
    assert(args[0]@ == views[0]);
    if args.len() == 1 {
        let nums = parse_numbers(args[0]);
        return match pick_ids(&nums, display_ids) {
            Ok(v) => Ok((v, None)),
            Err(e) => Err(e),
        };
    }
    match plan_edit(args, display_ids, today) {
        Ok(EditPlan::Batch { ids, update }) => Ok((ids, Some(update))),
        Ok(EditPlan::Interactive { .. }) => {
            // `edit` asks interactively only for a single argument
            proof {
                assert(false);
            }
            Err(String::new())
        },
        Err(e) => Err(e),
    }
}

/// The copy of a todo that `more` creates: the same content, and the same
/// priority and parent unless the changes give new ones (`-u 0` makes it a
/// top-level todo); its due date and repetition are those the changes give.
pub open spec fn copy_view(t: TodoView, u: Option<UpdateView>) -> AddScan {
    match u {
        None => (t.todo, None, Some(t.priority), t.up_id, None),
        Some(u) => (
            t.todo,
            u.1,
            if u.2 is Some {
                u.2
            } else {
                Some(t.priority)
            },
            if u.3 is Some {
                u.3
            } else if u.4 {
                None
            } else {
                t.up_id
            },
            u.5,
        ),
    }
}

/// Reading batch-edit arguments without a `-u` flag leaves the parent
/// fields as they were.
proof fn lemma_edit_scan_keeps_parent(
    args: Seq<Seq<char>>,
    ids: Seq<i64>,
    today: Date,
    i: int,
    st: EditScan,
)
    requires
        forall|j: int| i <= j < args.len() ==> args[j] != "-u"@,
    ensures
        edit_scan(args, ids, today, i, st) matches Ok(r) ==> r.3 == st.3 && r.4 == st.4,
    decreases args.len() - i,
{
    if 0 <= i < args.len() {
        let a = args[i];
        let has_next = i + 1 < args.len();
        assert(a != "-u"@);
        if a == "-d"@ && has_next {
            lemma_edit_scan_keeps_parent(
                args,
                ids,
                today,
                i + 2,
                (st.0, date_from_text(args[i + 1], today), st.2, st.3, st.4, st.5, st.6),
            );
        } else if a == "-p"@ && has_next {
            match parsed_signed(args[i + 1], i32::MIN as int, i32::MAX as int) {
                Some(v) => if 1 <= v <= 4 {
                    lemma_edit_scan_keeps_parent(args, ids, today, i + 2, (st.0, st.1, Some(v as i32), st.3, st.4, st.5, st.6));
                },
                None => {},
            }
        } else if a == "-r"@ && has_next {
            if args[i + 1] == "0"@ {
                lemma_edit_scan_keeps_parent(args, ids, today, i + 2, (st.0, st.1, st.2, st.3, st.4, None, true));
            } else {
                match period_of(args[i + 1]) {
                    Some(p) => lemma_edit_scan_keeps_parent(
                        args,
                        ids,
                        today,
                        i + 2,
                        (st.0, st.1, st.2, st.3, st.4, Some(period_text(p)), false),
                    ),
                    None => {},
                }
            }
        } else {
            let raw = match st.0 {
                Some(r) => r + seq![' '] + a,
                None => a,
            };
            lemma_edit_scan_keeps_parent(args, ids, today, i + 1, (Some(raw), st.1, st.2, st.3, st.4, st.5, st.6));
        }
    }
}

/// A copy made by `more` keeps the copied todo's content, its priority
/// unless a new one is given, and, unless a parent change is asked for, its
/// parent: with no `-u` among the
/// arguments the copy has the same parent as the todo it copies. `-u 0`
/// makes the copy top-level, and `-u N` gives it the parent that `N` names.
/// Its due date and repetition are only those that the changes give.
#[verifier::spinoff_prover]
pub proof fn lemma_copy_keeps_parent(t: TodoView, args: Seq<Seq<char>>, ids: Seq<i64>, today: Date)
    ensures
        forall|u: Option<UpdateView>| #[trigger] copy_view(t, u).0 == t.todo,
        forall|u: Option<UpdateView>|
            (u matches Some(v) ==> v.2 is None) ==> #[trigger] copy_view(t, u).2 == Some(t.priority),
        forall|v: UpdateView| v.2 is Some ==> #[trigger] copy_view(t, Some(v)).2 == v.2,
        copy_view(t, None).1 is None && copy_view(t, None).4 is None,
        forall|v: UpdateView| #[trigger] copy_view(t, Some(v)).1 == v.1 && copy_view(t, Some(v)).4 == v.5,
        forall|u: Option<UpdateView>|
            (u matches Some(v) ==> v.3 is None && !v.4) ==> #[trigger] copy_view(t, u).3 == t.up_id,
        forall|v: UpdateView| v.3 is None && v.4 ==> #[trigger] copy_view(t, Some(v)).3 is None,
        forall|v: UpdateView| v.3 is Some ==> #[trigger] copy_view(t, Some(v)).3 == v.3,
        (forall|j: int| 0 <= j < args.len() ==> args[j] != "-u"@) ==> match more_request(args, ids, today) {
            Ok((_, u)) => copy_view(t, u).3 == t.up_id,
            Err(_) => true,
        },
{
    if forall|j: int| 0 <= j < args.len() ==> args[j] != "-u"@ {
        if args.len() > 1 {
            lemma_edit_scan_keeps_parent(args, ids, today, 1, (None, None, None, None, false, None, false));
        }
    }
}

/// The new todo that copies `t` with the changes of `more`.
pub fn copy_todo(t: &Todo, update: &Option<UpdateTodo>) -> (r: NewTodo)
    ensures
        (r.todo@, opt_chars(r.due_date), r.priority, r.up_id, opt_chars(r.repetition)) == copy_view(
            t@,
            opt_update_view(*update),
        ),
{
    match update {
        None => NewTodo {
            todo: t.todo.clone(),
            due_date: None,
            priority: Some(t.priority),
            up_id: t.up_id,
            repetition: None,
        },
        Some(u) => NewTodo {
            todo: t.todo.clone(),
            due_date: copy_opt_string(&u.due_date),
            priority: match u.priority {
                Some(p) => Some(p),
                None => Some(t.priority),
            },
            up_id: match u.up_id {
                Some(up) => Some(up),
                None => if u.top_level {
                    None
                } else {
                    t.up_id
                },
            },
            repetition: copy_opt_string(&u.repetition),
        },
    }
}

/// The update for the reply to the interactive edit prompt: none for a
/// blank reply; else the content left after inline parsing of the trimmed
/// reply (the whole trimmed reply when nothing is left), with the inline
/// date and priority.
pub open spec fn reply_update(input: Seq<char>, today: Date) -> Option<UpdateView> {
    let t = trimmed(input);
    if t.len() == 0 {
        None
    } else {
        let (content, due, prio) = inline_parts(t, candidate_lower(t), today);
        Some((Some(if content.len() > 0 {
            content
        } else {
            t
        }), due, prio, None, false, None, false))
    }
}

/// The update for the reply to the interactive edit prompt, seen from `today`.
pub fn edit_reply(input: &str, today: Date) -> (r: Option<UpdateTodo>)
    requires
        today.roomy(),
    ensures
        match r {
            Some(u) => reply_update(input@, today) == Some(update_view(u)),
            None => reply_update(input@, today) is None,
        },
{
    let new_input = trim(input);
    if new_input.unicode_len() == 0 {
        return None;
    }
    let (content, due_date, priority) = parse_inline(new_input, today);
    let update_content = if content.unicode_len() > 0 {
        Some(content)
    } else {
        Some(String::from_str(new_input))
    };
    Some(
        UpdateTodo {
            todo: update_content,
            due_date,
            priority,
            up_id: None,
            top_level: false,
            repetition: None,
            clear_repetition: false,
        },
    )
}

} // verus!
