use vstd::prelude::*;

use crate::calendar::{add_days, day_number, lemma_days_ahead, date_from_ymd, days_in_month, month_length, shifted, weekday_abbrev, weekday_index, weekday_of, Date, MAX_YEAR, MIN_YEAR};
use crate::dates::{is_key_sliceable, key_fields, key_of, key_sliceable, key_text, opt_view, read_key_fields};
use crate::model::{copy_opt_string, opt_chars, NewTodo, Todo, TodoView};
use crate::cli::lemma_pieces_join;
use crate::text::{all_digits, is_digit, lemma_decimal_digits, decimal, decimal_text, parse_u32, parsed_unsigned, pieces, push_char, same_text, split_at_either, str_views};

verus! {

/// How often a recurring todo comes back.
#[derive(Clone, Copy, Debug, PartialEq, Eq, Structural)]
pub enum Period {
    /// Every day.
    Daily,
    /// Every two days.
    EveryOtherDay,
    /// Every week, on the same weekday.
    Weekly,
    /// Every month on this day (the last day of shorter months).
    Monthly(u32),
    /// Every year on this month and day.
    Yearly(u32, u32),
}

/// The period that `-r` text names: `d`, `e`, `w`, a day of the month `N`
/// (1 to 31), or a month and day `M/D` or `M-D`.
pub open spec fn period_of(p: Seq<char>) -> Option<Period> {
    if p == "d"@ {
        Some(Period::Daily)
    } else if p == "e"@ {
        Some(Period::EveryOtherDay)
    } else if p == "w"@ {
        Some(Period::Weekly)
    } else {
        let parts = pieces(p, '/', '-');
        if parts.len() == 1 {
            match parsed_unsigned(parts[0], u32::MAX as int) {
                Some(n) => if 1 <= n <= 31 {
                    Some(Period::Monthly(n as u32))
                } else {
                    None
                },
                None => None,
            }
        } else if parts.len() == 2 {
            match (parsed_unsigned(parts[0], u32::MAX as int), parsed_unsigned(parts[1], u32::MAX as int)) {
                (Some(m), Some(d)) => if 1 <= m <= 12 && 1 <= d <= month_length(m as int, 2000) {
                    Some(Period::Yearly(m as u32, d as u32))
                } else {
                    None
                },
                _ => None,
            }
        } else {
            None
        }
    }
}

/// Whether the numbers of a period are in range: a day of the month 1 to
/// 31, a month 1 to 12 with a day from 1.
pub open spec fn period_ok(p: Period) -> bool {
    match p {
        Period::Monthly(n) => 1 <= n <= 31,
        Period::Yearly(m, d) => 1 <= m <= 12 && 1 <= d,
        _ => true,
    }
}

/// The stored text of a period: `d`, `e`, `w`, `N` or `M/D`.
pub open spec fn period_text(p: Period) -> Seq<char> {
    match p {
        Period::Daily => "d"@,
        Period::EveryOtherDay => "e"@,
        Period::Weekly => "w"@,
        Period::Monthly(n) => decimal(n as nat),
        Period::Yearly(m, d) => decimal(m as nat) + seq!['/'] + decimal(d as nat),
    }
}

/// Reads `-r` text as a period.
pub fn parse_period(p: &str) -> (r: Option<Period>)
    ensures
        r == period_of(p@),
{
    if same_text(p, "d") {
        return Some(Period::Daily);
    }
    if same_text(p, "e") {
        return Some(Period::EveryOtherDay);
    }
    if same_text(p, "w") {
        return Some(Period::Weekly);
    }
    let parts = split_at_either(p, '/', '-');
    let ghost ps = pieces(p@, '/', '-');
    if parts.len() == 1 {
        assert(parts[0]@ == ps[0]);
        match parse_u32(parts[0]) {
            Some(n) => if 1 <= n && n <= 31 {
                Some(Period::Monthly(n))
            } else {
                None
            },
            None => None,
        }
    } else if parts.len() == 2 {
        assert(parts[0]@ == ps[0]);
        assert(parts[1]@ == ps[1]);
        match (parse_u32(parts[0]), parse_u32(parts[1])) {
            (Some(m), Some(d)) => if 1 <= m && m <= 12 && 1 <= d && d <= days_in_month(m, 2000) {
                Some(Period::Yearly(m, d))
            } else {
                None
            },
            _ => None,
        }
    } else {
        None
    }
}

/// The stored text of a period.
pub fn period_string(p: Period) -> (r: String)
    ensures
        r@ == period_text(p),
{
    match p {
        Period::Daily => String::from_str("d"),
        Period::EveryOtherDay => String::from_str("e"),
        Period::Weekly => String::from_str("w"),
        Period::Monthly(n) => decimal_text(n as u128),
        Period::Yearly(m, d) => {
            let mut out = decimal_text(m as u128);
            push_char(&mut out, '/');
            out.append(decimal_text(d as u128).as_str());
            out
        },
    }
}

/// The date of a stored due date, when it reads as a valid date.
pub open spec fn due_fields(due: Option<Seq<char>>) -> Option<Date> {
    match due {
        Some(d) => if key_sliceable(d) {
            match key_fields(d) {
                Some(f) => if f.valid() {
                    Some(f)
                } else {
                    None
                },
                None => None,
            }
        } else {
            None
        },
        None => None,
    }
}

/// Reads the date of a stored due date.
fn read_due(due: &Option<String>) -> (r: Option<Date>)
    ensures
        r == due_fields(opt_chars(*due)),
{
    match due {
        Some(d) => {
            if !is_key_sliceable(d.as_str()) {
                return None;
            }
            match read_key_fields(d.as_str()) {
                Some(f) => match date_from_ymd(f.year, f.month, f.day) {
                    Some(v) => Some(v),
                    None => None,
                },
                None => None,
            }
        },
        None => None,
    }
}

/// How a period is shown after `*`: `D`, `E`, the weekday of the due date
/// (`W` without a readable one), `N`, or `M/D`.
pub open spec fn period_mark(p: Period, due: Option<Seq<char>>) -> Seq<char> {
    match p {
        Period::Daily => "D"@,
        Period::EveryOtherDay => "E"@,
        Period::Weekly => match due_fields(due) {
            Some(f) => weekday_abbrev(weekday_index(f)),
            None => "W"@,
        },
        Period::Monthly(n) => decimal(n as nat),
        Period::Yearly(m, d) => decimal(m as nat) + seq!['/'] + decimal(d as nat),
    }
}

/// The ` *X` mark of a recurring todo: nothing when its period does not
/// read as one.
pub open spec fn repetition_part(item: TodoView) -> Seq<char> {
    match item.repetition_period {
        Some(t) => match period_of(t) {
            Some(p) => seq![' ', '*'] + period_mark(p, item.due_date),
            None => seq![],
        },
        None => seq![],
    }
}

/// Appends the repetition mark of a todo.
pub fn push_repetition_part(out: &mut String, item: &Todo)
    ensures
        final(out)@ == old(out)@ + repetition_part(item@),
{
    let t = match &item.repetition_period {
        Some(t) => t,
        None => {
            return ;
        },
    };
    let p = match parse_period(t.as_str()) {
        Some(p) => p,
        None => {
            return ;
        },
    };
    push_char(out, ' ');
    push_char(out, '*');
    match p {
        Period::Daily => out.append("D"),
        Period::EveryOtherDay => out.append("E"),
        Period::Weekly => match read_due(&item.due_date) {
            Some(f) => {
                let w = weekday_of(f);
                let name = if w == 0 {
                    "Mon"
                } else if w == 1 {
                    "Tue"
                } else if w == 2 {
                    "Wed"
                } else if w == 3 {
                    "Thu"
                } else if w == 4 {
                    "Fri"
                } else if w == 5 {
                    "Sat"
                } else {
                    "Sun"
                };
                proof {
                    reveal_strlit("Mon");
                    reveal_strlit("Tue");
                    reveal_strlit("Wed");
                    reveal_strlit("Thu");
                    reveal_strlit("Fri");
                    reveal_strlit("Sat");
                    reveal_strlit("Sun");
                }
                out.append(name);
            },
            None => out.append("W"),
        },
        Period::Monthly(n) => out.append(decimal_text(n as u128).as_str()),
        Period::Yearly(m, d) => {
            out.append(decimal_text(m as u128).as_str());
            push_char(out, '/');
            out.append(decimal_text(d as u128).as_str());
        },
    }
    assert(final(out)@ =~= old(out)@ + repetition_part(item@));
}

/// The smaller of two numbers.
pub open spec fn at_most(a: int, b: int) -> int {
    if a < b {
        a
    } else {
        b
    }
}

/// The date a recurring todo comes back after `base`: a day, two days or a
/// week later; the given day of the next month (its last day when shorter);
/// the given month and day of the next year (the last day of that month
/// when shorter).
pub open spec fn next_occurrence(p: Period, base: Date) -> Date {
    match p {
        Period::Daily => shifted(base, 1),
        Period::EveryOtherDay => shifted(base, 2),
        Period::Weekly => shifted(base, 7),
        Period::Monthly(n) => {
            let y = if base.month == 12 {
                base.year + 1
            } else {
                base.year as int
            };
            let m = if base.month == 12 {
                1
            } else {
                base.month + 1
            };
            Date { year: y as i32, month: m as u32, day: at_most(n as int, month_length(m, y)) as u32 }
        },
        Period::Yearly(m, d) => {
            let y = base.year + 1;
            Date { year: y as i32, month: m, day: at_most(d as int, month_length(m as int, y)) as u32 }
        },
    }
}

/// A monthly repetition on day `n` comes back in the month after the base
/// date: on day `n` when that month has it, else on that month's last day.
/// Only the base date's month and year matter, not its day: two base dates
/// in the same month give the same next date.
pub proof fn lemma_monthly_next(n: u32, base: Date, other: Date)
    requires
        base.valid(),
        base.year < MAX_YEAR,
        1 <= n <= 31,
    ensures
        ({
            let next = next_occurrence(Period::Monthly(n), base);
            let len = month_length(next.month as int, next.year as int);
            &&& next.valid()
            &&& base.month < 12 ==> next.year == base.year && next.month == base.month + 1
            &&& base.month == 12 ==> next.year == base.year + 1 && next.month == 1
            &&& n <= len ==> next.day == n
            &&& n > len ==> next.day == len
            &&& other.year == base.year && other.month == base.month ==> next_occurrence(
                Period::Monthly(n),
                other,
            ) == next
        }),
{
    let next = next_occurrence(Period::Monthly(n), base);
    assert(28 <= month_length(next.month as int, next.year as int) <= 31);
}

/// Daily, every-other-day and weekly repetitions come back one, two and
/// seven days after the base date.
pub proof fn lemma_day_periods_next(base: Date)
    requires
        base.valid(),
        base.year < MAX_YEAR,
    ensures
        next_occurrence(Period::Daily, base).valid(),
        day_number(next_occurrence(Period::Daily, base)) == day_number(base) + 1,
        next_occurrence(Period::EveryOtherDay, base).valid(),
        day_number(next_occurrence(Period::EveryOtherDay, base)) == day_number(base) + 2,
        next_occurrence(Period::Weekly, base).valid(),
        day_number(next_occurrence(Period::Weekly, base)) == day_number(base) + 7,
{
    lemma_days_ahead(base, 1);
    lemma_days_ahead(base, 2);
    lemma_days_ahead(base, 7);
}

/// A yearly repetition on month `m`, day `d` comes back in the year after
/// the base date, in month `m`, on day `d` when that month has it, else on
/// its last day; the base date's month and day do not matter.
pub proof fn lemma_yearly_next(m: u32, d: u32, base: Date, other: Date)
    requires
        base.valid(),
        base.year < MAX_YEAR,
        1 <= m <= 12,
        1 <= d,
    ensures
        ({
            let next = next_occurrence(Period::Yearly(m, d), base);
            let len = month_length(m as int, next.year as int);
            &&& next.valid()
            &&& next.year == base.year + 1 && next.month == m
            &&& d <= len ==> next.day == d
            &&& d > len ==> next.day == len
            &&& other.year == base.year ==> next_occurrence(Period::Yearly(m, d), other) == next
        }),
{
    let next = next_occurrence(Period::Yearly(m, d), base);
    assert(28 <= month_length(m as int, next.year as int) <= 31);
}

/// The date from which a completed recurring todo comes back: its due
/// date, when it reads as a date well inside chrono's range, else the day
/// it was completed.
pub open spec fn recurrence_base(item: TodoView, today: Date) -> Date {
    match due_fields(item.due_date) {
        Some(f) => if f.roomy() {
            f
        } else {
            today
        },
        None => today,
    }
}

/// The todo that completing a recurring todo creates, seen from `today`:
/// the same content, priority, parent and period, due at the next
/// occurrence (stored as a key). `None` for a todo that is not complete,
/// has no period that reads as one, or whose next date has no key.
pub open spec fn recurrence(
    item: TodoView,
    today: Date,
) -> Option<(Seq<char>, Option<Seq<char>>, Option<i32>, Option<i64>, Option<Seq<char>>)> {
    if item.done != 5 {
        None
    } else {
        match item.repetition_period {
            Some(t) => match period_of(t) {
                Some(p) => match key_of(next_occurrence(p, recurrence_base(item, today))) {
                    Some(k) => Some((item.todo, Some(k), Some(item.priority), item.up_id, Some(period_text(p)))),
                    None => None,
                },
                None => None,
            },
            None => None,
        }
    }
}

/// The date of the next occurrence, stored as a key.
fn next_due(p: Period, base: Date) -> (r: Option<String>)
    requires
        base.roomy(),
        period_ok(p),
    ensures
        opt_view(r) == key_of(next_occurrence(p, base)),
        next_occurrence(p, base).valid(),
{
    match p {
        Period::Daily => {
            let d = add_days(base, 1);
            key_text(d)
        },
        Period::EveryOtherDay => {
            let d = add_days(base, 2);
            key_text(d)
        },
        Period::Weekly => {
            let d = add_days(base, 7);
            key_text(d)
        },
        Period::Monthly(n) => {
            let (y, m) = if base.month == 12 {
                (base.year + 1, 1u32)
            } else {
                (base.year, base.month + 1)
            };
            let last = days_in_month(m, y);
            let day = if n < last {
                n
            } else {
                last
            };
            let d = Date { year: y, month: m, day };
            assert(d == next_occurrence(p, base));
            key_text(d)
        },
        Period::Yearly(m, dd) => {
            let y = base.year + 1;
            let last = days_in_month(m, y);
            let day = if dd < last {
                dd
            } else {
                last
            };
            let d = Date { year: y, month: m, day };
            assert(d == next_occurrence(p, base));
            key_text(d)
        },
    }
}

/// The todo to create when a recurring todo has been completed, seen from
/// `today` (see `recurrence`).
pub fn recurrence_of(item: &Todo, today: Date) -> (r: Option<NewTodo>)
    requires
        today.roomy(),
    ensures
        match r {
            Some(t) => recurrence(item@, today) == Some(
                (t.todo@, opt_chars(t.due_date), t.priority, t.up_id, opt_chars(t.repetition)),
            ),
            None => recurrence(item@, today) is None,
        },
{
    if item.done != 5 {
        return None;
    }
    let text = match &item.repetition_period {
        Some(t) => t,
        None => {
            return None;
        },
    };
    let p = match parse_period(text.as_str()) {
        Some(p) => p,
        None => {
            return None;
        },
    };
    let base = match read_due(&item.due_date) {
        Some(f) => if MIN_YEAR < f.year && f.year < MAX_YEAR {
            f
        } else {
            today
        },
        None => today,
    };
    assert(base == recurrence_base(item@, today));
    match next_due(p, base) {
        Some(k) => Some(
            NewTodo {
                todo: item.todo.clone(),
                due_date: Some(k),
                priority: Some(item.priority),
                up_id: item.up_id,
                repetition: Some(period_string(p)),
            },
        ),
        None => None,
    }
}

proof fn lemma_pieces_of_digits(s: Seq<char>)
    requires
        all_digits(s),
    ensures
        pieces(s, '/', '-') == seq![s],
    decreases s.len(),
{
    if s.len() == 0 {
        assert(s =~= Seq::<char>::empty());
        assert(pieces(s, '/', '-') =~= seq![s]);
    } else {
        let t = s.drop_last();
        assert(all_digits(t)) by {
            assert forall|i: int| 0 <= i < t.len() implies is_digit(#[trigger] t[i]) by {
                assert(t[i] == s[i]);
            }
        }
        lemma_pieces_of_digits(t);
        assert(is_digit(s[s.len() - 1]));
        assert(t.push(s.last()) =~= s);
        assert(seq![t].drop_last().push(t.push(s.last())) =~= seq![s]);
    }
}

proof fn lemma_reads_decimal(n: nat)
    requires
        n <= u32::MAX,
    ensures
        parsed_unsigned(decimal(n), u32::MAX as int) == Some(n),
        all_digits(decimal(n)),
        decimal(n).len() >= 1,
{
    lemma_decimal_digits(n);
    assert(is_digit(decimal(n)[0]));
}

/// A stored period reads back as that period.
pub proof fn lemma_period_text_reads_back(p: Period)
    requires
        period_ok(p),
        p matches Period::Yearly(m, d) ==> d <= month_length(m as int, 2000),
    ensures
        period_of(period_text(p)) == Some(p),
{
    reveal_strlit("d");
    reveal_strlit("e");
    reveal_strlit("w");
    match p {
        Period::Monthly(n) => {
            lemma_reads_decimal(n as nat);
            lemma_pieces_of_digits(decimal(n as nat));
            assert(is_digit(decimal(n as nat)[0]));
        },
        Period::Yearly(m, d) => {
            let x = decimal(m as nat);
            let y = decimal(d as nat);
            lemma_reads_decimal(m as nat);
            lemma_reads_decimal(d as nat);
            lemma_pieces_of_digits(x);
            lemma_pieces_of_digits(y);
            lemma_pieces_join(x, y, '/', '-');
            assert(pieces(x + seq!['/'] + y, '/', '-') =~= seq![x, y]);
            assert(is_digit(x[0]));
            assert((x + seq!['/'] + y)[0] == x[0]);
        },
        _ => {},
    }
}


/// Completing a recurring todo creates a todo only for a completed todo
/// whose period reads as one; the new todo has the same content, priority,
/// parent and period, and is due at the next occurrence after the old due
/// date (after `today` when the old todo had no due date).
pub proof fn lemma_recurrence_copies(item: TodoView, today: Date)
    ensures
        item.done != 5 ==> recurrence(item, today) is None,
        recurrence(item, today) matches Some(r) ==> {
            &&& item.repetition_period matches Some(t) && period_of(t) matches Some(p) && {
                &&& r.4 == Some(period_text(p))
                &&& period_of(period_text(p)) == Some(p)
                &&& forall|f: Date|
                    #![trigger next_occurrence(p, f)]
                    due_fields(item.due_date) == Some(f) && f.roomy() ==> r.1 == key_of(
                        next_occurrence(p, f),
                    )
                &&& (item.due_date is None ==> r.1 == key_of(next_occurrence(p, today)))
            }
            &&& r.0 == item.todo
            &&& r.2 == Some(item.priority)
            &&& r.3 == item.up_id
        },
{
    if let Some(t) = item.repetition_period {
        if let Some(p) = period_of(t) {
            lemma_period_of_ok(t);
            lemma_period_text_reads_back(p);
        }
    }
}


/// A period read from text has its numbers in range.
proof fn lemma_period_of_ok(t: Seq<char>)
    ensures
        period_of(t) matches Some(p) ==> period_ok(p) && (p matches Period::Yearly(m, d) ==> d
            <= month_length(m as int, 2000)),
{
}

} // verus!
