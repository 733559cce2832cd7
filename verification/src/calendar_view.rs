use vstd::prelude::*;

use crate::calendar::{
    add_days, date_from_ymd, day_in_range, day_number, days_between, lemma_last_day_of_month,
    local_today, month_length, previous_day, shifted, weekday_index, weekday_of, Date, MAX_YEAR,
    MIN_YEAR,
};
use crate::text::{
    decimal, lemma_pieces_nonempty, left_pad, repeat, signed_text, parse_i32, parse_u32, parsed_signed, parsed_unsigned, pieces, push_char,
    push_right_aligned, signed_decimal, signed_decimal_text, decimal_text, split_at_either,
    str_views, all_digits, lemma_decimal_digits,
};

verus! {

/// A two-digit year read as a year of this century.
pub open spec fn full_year(y: int) -> int {
    if y < 100 {
        2000 + y
    } else {
        y
    }
}

/// The `(year, month)` that calendar arguments ask for, seen from the current
/// `year` and `month`: nothing for this month, `m`, `m/y` or `y/m` (the part
/// above 12 is the year), or `m y`; the month must lie in 1 to 12.
pub open spec fn calendar_choice(args: Seq<Seq<char>>, year: i32, month: u32) -> Option<(i32, u32)> {
    if args.len() == 0 {
        Some((year, month))
    } else if args.len() == 1 {
        let parts = pieces(args[0], '/', '-');
        if parts.len() == 1 {
            match parsed_unsigned(parts[0], u32::MAX as int) {
                Some(m) => if 1 <= m <= 12 {
                    Some((year, m as u32))
                } else {
                    None
                },
                None => None,
            }
        } else if parts.len() == 2 {
            match (
                parsed_signed(parts[0], i32::MIN as int, i32::MAX as int),
                parsed_signed(parts[1], i32::MIN as int, i32::MAX as int),
            ) {
                (Some(a), Some(b)) => if a <= 12 {
                    if 1 <= a {
                        Some((full_year(b) as i32, a as u32))
                    } else {
                        None
                    }
                } else if 1 <= b <= 12 {
                    Some((full_year(a) as i32, b as u32))
                } else {
                    None
                },
                _ => None,
            }
        } else {
            None
        }
    } else if args.len() == 2 {
        match (
            parsed_unsigned(args[0], u32::MAX as int),
            parsed_signed(args[1], i32::MIN as int, i32::MAX as int),
        ) {
            (Some(m), Some(y)) => if 1 <= m <= 12 {
                Some((full_year(y) as i32, m as u32))
            } else {
                None
            },
            _ => None,
        }
    } else {
        None
    }
}

proof fn lemma_pieces_have_no_separator(s: Seq<char>, a: char, b: char)
    ensures
        forall|i: int, j: int|
            0 <= i < pieces(s, a, b).len() && 0 <= j < pieces(s, a, b)[i].len() ==> #[trigger] pieces(
                s,
                a,
                b,
            )[i][j] != a && pieces(s, a, b)[i][j] != b,
    decreases s.len(),
{
    if s.len() > 0 {
        lemma_pieces_have_no_separator(s.drop_last(), a, b);
        lemma_pieces_nonempty(s.drop_last(), a, b);
        let ps = pieces(s, a, b);
        let init = pieces(s.drop_last(), a, b);
        let c = s.last();
        assert forall|i: int, j: int| 0 <= i < ps.len() && 0 <= j < ps[i].len() implies #[trigger] ps[i][j] != a
            && ps[i][j] != b by {
            if c == a || c == b {
                if i < init.len() {
                    assert(ps[i] == init[i]);
                }
            } else {
                if i < init.len() - 1 {
                    assert(ps[i] == init[i]);
                } else {
                    assert(ps[i] == init.last().push(c));
                    if j < init.last().len() {
                        assert(ps[i][j] == init[init.len() - 1][j]);
                    }
                }
            }
        }
    }
}

proof fn lemma_no_minus_not_negative(s: Seq<char>)
    requires
        forall|j: int| 0 <= j < s.len() ==> s[j] != '-',
    ensures
        signed_text(s) matches Some(v) ==> v >= 0,
{
}

/// Parse calendar arguments to year and month, seen from `today`.
pub fn parse_calendar_args_on(args: &[&str], today: Date) -> (r: Option<(i32, u32)>)
    ensures
        r == calendar_choice(str_views(args@), today.year, today.month),
{
    let current_year = today.year;
    let current_month = today.month;
    if args.len() == 0 {
        Some((current_year, current_month))
    } else if args.len() == 1 {
        let parts = split_at_either(args[0], '/', '-');
        let ghost ps = pieces(args@[0]@, '/', '-');
        assert(str_views(args@)[0] == args@[0]@);
        if parts.len() == 1 {
            assert(parts[0]@ == ps[0]);
            let month = match parse_u32(parts[0]) {
                Some(m) => m,
                None => return None,
            };
            if month >= 1 && month <= 12 {
                Some((current_year, month))
            } else {
                None
            }
        } else if parts.len() == 2 {
            assert(parts[0]@ == ps[0]);
            assert(parts[1]@ == ps[1]);
            let part0 = match parse_i32(parts[0]) {
                Some(v) => v,
                None => return None,
            };
            let part1 = match parse_i32(parts[1]) {
                Some(v) => v,
                None => return None,
            };
            proof {
                lemma_pieces_have_no_separator(args@[0]@, '/', '-');
                lemma_no_minus_not_negative(ps[0]);
                lemma_no_minus_not_negative(ps[1]);
            }
            if part0 <= 12 {
                if part0 < 1 {
                    return None;
                }
                let year = if part1 < 100 {
                    2000 + part1
                } else {
                    part1
                };
                Some((year, part0 as u32))
            } else {
                if part1 < 1 || part1 > 12 {
                    return None;
                }
                let year = if part0 < 100 {
                    2000 + part0
                } else {
                    part0
                };
                Some((year, part1 as u32))
            }
        } else {
            None
        }
    } else if args.len() == 2 {
        assert(str_views(args@)[0] == args@[0]@);
        assert(str_views(args@)[1] == args@[1]@);
        let month = match parse_u32(args[0]) {
            Some(m) => m,
            None => return None,
        };
        let year = match parse_i32(args[1]) {
            Some(y) => y,
            None => return None,
        };
        let full = if year < 100 {
            2000 + year
        } else {
            year
        };
        if month >= 1 && month <= 12 {
            Some((full, month))
        } else {
            None
        }
    } else {
        None
    }
}

/// Parse calendar arguments to year and month
///
/// With no arguments, today's year and month; `4` is April of this year,
/// `25/3` and `3/25` March 2025, `3 2026` March 2026.
pub fn parse_calendar_args(args: &[&str]) -> (r: Option<(i32, u32)>)
    ensures
        exists|today: Date| today.valid() && r == calendar_choice(str_views(args@), today.year, today.month),
{
    let today = local_today();
    parse_calendar_args_on(args, today)
}

/// One day of a calendar grid: the day right-aligned in three columns (with
/// `◉` before a marked day) and a space.
pub open spec fn day_cell(day: int, marked: bool) -> Seq<char> {
    (if marked {
        seq!['◉'] + left_pad(decimal(day as nat), 2)
    } else {
        left_pad(decimal(day as nat), 3)
    }) + seq![' ']
}

/// Appends a calendar cell for `day`.
fn push_day_cell(out: &mut String, day: u32, marked: bool)
    ensures
        final(out)@ == old(out)@ + day_cell(day as int, marked),
{
    let digits = decimal_text(day as u128);
    if marked {
        push_char(out, '◉');
        push_right_aligned(out, digits.as_str(), 2);
    } else {
        push_right_aligned(out, digits.as_str(), 3);
    }
    push_char(out, ' ');
    proof {
        let l = if marked {
            seq!['◉'] + left_pad(decimal(day as nat), 2)
        } else {
            left_pad(decimal(day as nat), 3)
        };
        assert(old(out)@ + day_cell(day as int, marked) =~= old(out)@ + l + seq![' ']);
    }
}

/// The header line of the week days, Sunday first.
pub open spec fn week_header() -> Seq<char> {
    "Sun Mon Tue Wed Thu Fri Sat\n"@
}

/// The cells of days 1 to `k` of a month whose first day falls `start` days
/// after Sunday, a line ending after each Saturday.
pub open spec fn month_cells(start: int, marked_day: int, k: int) -> Seq<char>
    decreases k,
{
    if k <= 0 {
        seq![]
    } else {
        month_cells(start, marked_day, k - 1) + day_cell(k, k == marked_day) + (if (start + k) % 7
            == 0 {
            seq!['\n']
        } else {
            seq![]
        })
    }
}

/// The text that shows the calendar of `month` in `year`, with today's day
/// marked when `today` falls in that month.
pub open spec fn month_calendar(year: i32, month: u32, today: Date) -> Seq<char> {
    let first = Date { year, month, day: 1 };
    if !first.valid() {
        "잘못된 날짜입니다.\n"@
    } else {
        let last = month_length(month as int, year as int);
        let start = (weekday_index(first) + 1) % 7;
        let marked = if today.year == year && today.month == month {
            today.day as int
        } else {
            0
        };
        seq!['\n'] + signed_decimal(year as int) + seq!['/'] + decimal(month as nat) + seq!['\n']
            + week_header() + repeat(' ', (4 * start) as nat) + month_cells(start, marked, last) + (
        if (start + last) % 7 != 0 {
            seq!['\n']
        } else {
            seq![]
        })
    }
}

proof fn lemma_concat_lacks(a: Seq<char>, b: Seq<char>, c: char)
    requires
        !a.contains(c),
        !b.contains(c),
    ensures
        !(a + b).contains(c),
{
    if (a + b).contains(c) {
        let i = choose|i: int| 0 <= i < (a + b).len() && (a + b)[i] == c;
        if i < a.len() {
            assert(a[i] == c);
        } else {
            assert(b[i - a.len()] == c);
        }
    }
}

proof fn lemma_digits_lack_mark(s: Seq<char>)
    requires
        all_digits(s),
    ensures
        !s.contains('◉'),
{
    if s.contains('◉') {
        let i = choose|i: int| 0 <= i < s.len() && s[i] == '◉';
        assert(crate::text::is_digit(s[i]));
    }
}

proof fn lemma_spaces_lack_mark(n: nat)
    ensures
        !repeat(' ', n).contains('◉'),
{
    if repeat(' ', n).contains('◉') {
        let i = choose|i: int| 0 <= i < repeat(' ', n).len() && repeat(' ', n)[i] == '◉';
        assert(repeat(' ', n)[i] == ' ');
    }
}

/// A number right-aligned with spaces holds no mark.
proof fn lemma_padded_number_lacks_mark(n: nat, width: nat)
    ensures
        !left_pad(decimal(n), width).contains('◉'),
{
    lemma_decimal_digits(n);
    lemma_digits_lack_mark(decimal(n));
    if decimal(n).len() < width {
        lemma_spaces_lack_mark((width - decimal(n).len()) as nat);
        lemma_concat_lacks(repeat(' ', (width - decimal(n).len()) as nat), decimal(n), '◉');
    }
}

/// No cell of a month is marked unless the marked day is one of its days.
proof fn lemma_cells_lack_mark(start: int, marked_day: int, k: int)
    requires
        !(1 <= marked_day <= k),
    ensures
        !month_cells(start, marked_day, k).contains('◉'),
    decreases k,
{
    if k > 0 {
        lemma_cells_lack_mark(start, marked_day, k - 1);
        lemma_padded_number_lacks_mark(k as nat, 3);
        assert(!seq![' '].contains('◉'));
        lemma_concat_lacks(left_pad(decimal(k as nat), 3), seq![' '], '◉');
        assert(!seq!['\n'].contains('◉'));
        assert(!Seq::<char>::empty().contains('◉'));
        let tail = if (start + k) % 7 == 0 {
            seq!['\n']
        } else {
            seq![]
        };
        lemma_concat_lacks(month_cells(start, marked_day, k - 1), day_cell(k, false), '◉');
        lemma_concat_lacks(month_cells(start, marked_day, k - 1) + day_cell(k, false), tail, '◉');
    }
}

/// The cells of a month hold the marked day's cell, `◉` and the day.
proof fn lemma_cells_hold_mark(start: int, d: int, k: int)
    requires
        1 <= d <= k <= 31,
    ensures
        exists|i: int|
            0 <= i && i + 3 <= month_cells(start, d, k).len() && #[trigger] month_cells(
                start,
                d,
                k,
            ).subrange(i, i + 3) == seq!['◉'] + left_pad(decimal(d as nat), 2),
    decreases k,
{
    let prev = month_cells(start, d, k - 1);
    let tail = if (start + k) % 7 == 0 {
        seq!['\n']
    } else {
        seq![]
    };
    let cells = month_cells(start, d, k);
    assert(cells == prev + day_cell(k, k == d) + tail);
    if k == d {
        lemma_decimal_digits(d as nat);
        let mark = seq!['◉'] + left_pad(decimal(d as nat), 2);
        assert(mark.len() == 3);
        let i = prev.len() as int;
        assert(cells.subrange(i, i + 3) =~= mark);
    } else {
        lemma_cells_hold_mark(start, d, k - 1);
        let i = choose|i: int|
            0 <= i && i + 3 <= prev.len() && #[trigger] prev.subrange(i, i + 3) == seq!['◉']
                + left_pad(decimal(d as nat), 2);
        assert(cells.subrange(i, i + 3) =~= prev.subrange(i, i + 3));
    }
}

/// How many `◉` marks a text holds.
pub open spec fn mark_count(s: Seq<char>) -> nat
    decreases s.len(),
{
    if s.len() == 0 {
        0
    } else {
        mark_count(s.drop_last()) + if s.last() == '◉' {
            1nat
        } else {
            0nat
        }
    }
}

proof fn lemma_mark_count_concat(a: Seq<char>, b: Seq<char>)
    ensures
        mark_count(a + b) == mark_count(a) + mark_count(b),
    decreases b.len(),
{
    if b.len() > 0 {
        lemma_mark_count_concat(a, b.drop_last());
        assert((a + b).drop_last() =~= a + b.drop_last());
    } else {
        assert(a + b =~= a);
    }
}

proof fn lemma_no_mark_count(s: Seq<char>)
    requires
        !s.contains('◉'),
    ensures
        mark_count(s) == 0,
    decreases s.len(),
{
    if s.len() > 0 {
        let t = s.drop_last();
        if t.contains('◉') {
            let i = choose|i: int| 0 <= i < t.len() && t[i] == '◉';
            assert(s[i] == '◉');
        }
        lemma_no_mark_count(t);
        assert(s[s.len() - 1] != '◉');
    }
}

proof fn lemma_single_mark_count(c: char)
    ensures
        mark_count(seq![c]) == (if c == '◉' {
            1nat
        } else {
            0nat
        }),
{
    assert(seq![c].drop_last() =~= Seq::<char>::empty());
    assert(mark_count(Seq::<char>::empty()) == 0);
}

/// The cells of a month hold one mark when the marked day is one of its
/// days, and none otherwise.
#[verifier::spinoff_prover]
#[verifier::rlimit(30)]
proof fn lemma_cells_mark_count(start: int, d: int, k: int)
    requires
        k <= 31,
    ensures
        mark_count(month_cells(start, d, k)) == (if 1 <= d <= k {
            1nat
        } else {
            0nat
        }),
    decreases k,
{
    if k > 0 {
        lemma_cells_mark_count(start, d, k - 1);
        let prev = month_cells(start, d, k - 1);
        let tail = if (start + k) % 7 == 0 {
            seq!['\n']
        } else {
            seq![]
        };
        lemma_padded_number_lacks_mark(k as nat, 3);
        lemma_padded_number_lacks_mark(k as nat, 2);
        lemma_no_mark_count(left_pad(decimal(k as nat), 3));
        lemma_no_mark_count(left_pad(decimal(k as nat), 2));
        lemma_mark_count_concat(seq!['◉'], left_pad(decimal(k as nat), 2));
        lemma_single_mark_count('◉');
        lemma_single_mark_count(' ');
        lemma_single_mark_count('\n');
        assert(mark_count(Seq::<char>::empty()) == 0);
        let body = if k == d {
            seq!['◉'] + left_pad(decimal(k as nat), 2)
        } else {
            left_pad(decimal(k as nat), 3)
        };
        lemma_mark_count_concat(body, seq![' ']);
        assert(day_cell(k, k == d) == body + seq![' ']);
        lemma_mark_count_concat(prev, day_cell(k, k == d));
        lemma_mark_count_concat(prev + day_cell(k, k == d), tail);
    }
}

/// The calendar of a month marks a day only when that month of that year
/// is today's: then it holds exactly one `◉`, followed by today's day; for
/// any other month, or the same month of another year, it holds no mark.
#[verifier::spinoff_prover]
pub proof fn lemma_month_calendar_marks_today(year: i32, month: u32, today: Date)
    requires
        today.valid(),
    ensures
        !(today.year == year && today.month == month) ==> !month_calendar(year, month, today).contains(
            '◉',
        ),
        mark_count(month_calendar(year, month, today)) == (if today.year == year && today.month
            == month {
            1nat
        } else {
            0nat
        }),
        today.year == year && today.month == month ==> exists|i: int|
            0 <= i && i + 3 <= month_calendar(year, month, today).len() && #[trigger] month_calendar(
                year,
                month,
                today,
            ).subrange(i, i + 3) == seq!['◉'] + left_pad(decimal(today.day as nat), 2),
{
    reveal_strlit("Sun Mon Tue Wed Thu Fri Sat\n");
    reveal_strlit("잘못된 날짜입니다.\n");
    let first = Date { year, month, day: 1 };
    if first.valid() {
        let last = month_length(month as int, year as int);
        let start = (weekday_index(first) + 1) % 7;
        let marked = if today.year == year && today.month == month {
            today.day as int
        } else {
            0
        };
        let sd = signed_decimal(year as int);
        lemma_decimal_digits(month as nat);
        lemma_digits_lack_mark(decimal(month as nat));
        if year < 0 {
            lemma_decimal_digits((-year) as nat);
            lemma_digits_lack_mark(decimal((-year) as nat));
            assert(!seq!['-'].contains('◉'));
            lemma_concat_lacks(seq!['-'], decimal((-year) as nat), '◉');
        } else {
            lemma_decimal_digits(year as nat);
            lemma_digits_lack_mark(decimal(year as nat));
        }
        assert(!sd.contains('◉'));
        assert(!seq!['\n'].contains('◉'));
        assert(!seq!['/'].contains('◉'));
        assert(!week_header().contains('◉'));
        lemma_spaces_lack_mark((4 * start) as nat);
        let h1 = seq!['\n'] + sd;
        lemma_concat_lacks(seq!['\n'], sd, '◉');
        let h2 = h1 + seq!['/'];
        lemma_concat_lacks(h1, seq!['/'], '◉');
        let h3 = h2 + decimal(month as nat);
        lemma_concat_lacks(h2, decimal(month as nat), '◉');
        let h4 = h3 + seq!['\n'];
        lemma_concat_lacks(h3, seq!['\n'], '◉');
        let h5 = h4 + week_header();
        lemma_concat_lacks(h4, week_header(), '◉');
        let h6 = h5 + repeat(' ', (4 * start) as nat);
        lemma_concat_lacks(h5, repeat(' ', (4 * start) as nat), '◉');
        let cells = month_cells(start, marked, last);
        let tail = if (start + last) % 7 != 0 {
            seq!['\n']
        } else {
            seq![]
        };
        assert(!tail.contains('◉'));
        assert(month_calendar(year, month, today) == h6 + cells + tail);
        lemma_no_mark_count(h6);
        lemma_no_mark_count(tail);
        lemma_cells_mark_count(start, marked, last);
        lemma_mark_count_concat(h6, cells);
        lemma_mark_count_concat(h6 + cells, tail);
        if today.year == year && today.month == month {
            lemma_cells_hold_mark(start, marked, last);
            let i = choose|i: int|
                0 <= i && i + 3 <= cells.len() && #[trigger] cells.subrange(i, i + 3) == seq!['◉']
                    + left_pad(decimal(marked as nat), 2);
            let j = h6.len() + i;
            assert((h6 + cells + tail).subrange(j, j + 3) =~= cells.subrange(i, i + 3));
        } else {
            lemma_cells_lack_mark(start, marked, last);
            lemma_concat_lacks(h6, cells, '◉');
            lemma_concat_lacks(h6 + cells, tail, '◉');
        }
    } else {
        assert(!(today.year == year && today.month == month));
        let msg = "잘못된 날짜입니다.\n"@;
        if msg.contains('◉') {
            let i = choose|i: int| 0 <= i < msg.len() && msg[i] == '◉';
            assert(false);
        }
        lemma_no_mark_count(msg);
    }
}

/// Show calendar for a specific month and year, seen from `today`
///
/// Sunday is the first day of the week; today's day is marked with ◉.
pub fn month_calendar_on(year: i32, month: u32, today: Date) -> (r: String)
    requires
        today.valid(),
        !(month == 12 && year == MAX_YEAR),
    ensures
        r@ == month_calendar(year, month, today),
{
    let first_day = match date_from_ymd(year, month, 1) {
        Some(d) => d,
        None => {
            return String::from_str("잘못된 날짜입니다.\n");
        },
    };
    proof {
        lemma_last_day_of_month(year as int, month as int);
    }
    let next_first = if month == 12 {
        date_from_ymd(year + 1, 1, 1)
    } else {
        date_from_ymd(year, month + 1, 1)
    };
    let last_day = match next_first {
        Some(n) => match previous_day(n) {
            Some(p) => p.day,
            None => 0,
        },
        None => 0,
    };
    assert(last_day == month_length(month as int, year as int));
    let start_weekday: u32 = (weekday_of(first_day) + 1) % 7;
    let is_current_month = today.year == year && today.month == month;
    let today_day: u32 = if is_current_month {
        today.day
    } else {
        0
    };
    let mut out = String::new();
    push_char(&mut out, '\n');
    out.append(signed_decimal_text(year as i64).as_str());
    push_char(&mut out, '/');
    out.append(decimal_text(month as u128).as_str());
    push_char(&mut out, '\n');
    out.append("Sun Mon Tue Wed Thu Fri Sat\n");
    let ghost head = out@;
    let mut k: u32 = 0;
    while k < start_weekday
        invariant
            k <= start_weekday < 7,
            out@ == head + repeat(' ', (4 * k) as nat),
        decreases start_weekday - k,
    {
        out.append("    ");
        proof {
            reveal_strlit("    ");
            assert(repeat(' ', (4 * (k + 1)) as nat) =~= repeat(' ', (4 * k) as nat) + "    "@);
        }
        k = k + 1;
    }
    let ghost lead = out@;
    let mut day: u32 = 1;
    let mut pos: u32 = start_weekday;
    while day <= last_day
        invariant
            1 <= day <= last_day + 1,
            last_day <= 31,
            start_weekday < 7,
            pos == (start_weekday + day - 1) % 7,
            !is_current_month ==> today_day == 0,
            out@ == lead + month_cells(start_weekday as int, today_day as int, day - 1),
        decreases last_day + 1 - day,
    {
        let ghost before = out@;
        let marked = is_current_month && day == today_day;
        assert(marked == (day == today_day));
        push_day_cell(&mut out, day, marked);
        assert(((start_weekday + day) % 7 == 0) == (pos + 1 > 6));
        let ghost cell_end = out@;
        day = day + 1;
        pos = pos + 1;
        if pos > 6 {
            push_char(&mut out, '\n');
            pos = 0;
        }
        assert(month_cells(start_weekday as int, today_day as int, day - 1) == month_cells(
            start_weekday as int,
            today_day as int,
            day - 2,
        ) + day_cell((day - 1) as int, marked) + (if (start_weekday + day - 1) % 7 == 0 {
            seq!['\n']
        } else {
            seq![]
        }));
        assert(out@ =~= lead + month_cells(start_weekday as int, today_day as int, day - 1));
    }
    if pos != 0 {
        push_char(&mut out, '\n');
    }
    out
}

/// The calendar of `month` in `year`, with today's day marked.
pub fn month_calendar_text(year: i32, month: u32) -> (r: String)
    requires
        !(month == 12 && year == MAX_YEAR),
    ensures
        exists|today: Date| today.valid() && r@ == month_calendar(year, month, today),
{
    let today = local_today();
    month_calendar_on(year, month, today)
}

/// How many days today lies after the Sunday that starts its week.
pub open spec fn days_since_sunday(today: Date) -> int {
    (weekday_index(today) + 1) % 7
}

/// The cells of the first `k` of the 28 days shown from the Sunday `back` days
/// before today, a line ending after each Saturday; today is marked.
pub open spec fn week_cells(today: Date, back: int, k: int) -> Seq<char>
    decreases k,
{
    if k <= 0 {
        seq![]
    } else {
        let d = shifted(today, k - 1 - back);
        week_cells(today, back, k - 1) + day_cell(d.day as int, d == today) + (if k % 7 == 0 {
            seq!['\n']
        } else {
            seq![]
        })
    }
}

/// `year/month`, as the calendar headers write a month.
pub open spec fn year_month(d: Date) -> Seq<char> {
    signed_decimal(d.year as int) + seq!['/'] + decimal(d.month as nat)
}

/// The four-week calendar from the Sunday of this week, headed by the month
/// of its first day and, when it differs, that of its last day.
pub open spec fn weeks_calendar(today: Date) -> Seq<char> {
    let back = days_since_sunday(today);
    let first = shifted(today, -back);
    let last = shifted(today, 27 - back);
    (if first.year == last.year && first.month == last.month {
        seq!['\n'] + year_month(first) + seq!['\n']
    } else {
        seq!['\n'] + year_month(first) + " - "@ + year_month(last) + seq!['\n']
    }) + week_header() + week_cells(today, back, 28)
}

/// Appends `year/month` of `d`.
fn push_year_month(out: &mut String, d: Date)
    ensures
        final(out)@ == old(out)@ + year_month(d),
{
    out.append(signed_decimal_text(d.year as i64).as_str());
    push_char(out, '/');
    out.append(decimal_text(d.month as u128).as_str());
    assert(final(out)@ =~= old(out)@ + year_month(d));
}

/// Whether the days from six before `today` to 27 after it lie in chrono's
/// range, as the four weeks shown around `today` need.
pub open spec fn weeks_fit(today: Date) -> bool {
    day_in_range(day_number(today) - 6) && day_in_range(day_number(today) + 27)
}

/// Displays 4 weeks (28 days) starting from the Sunday of the week of `today`.
pub fn weeks_calendar_on(today: Date) -> (r: String)
    requires
        today.valid(),
        weeks_fit(today),
    ensures
        r@ == weeks_calendar(today),
{
    let back: u32 = (weekday_of(today) + 1) % 7;
    let back_days: i64 = back as i64;
    let first = add_days(today, -back_days);
    let last = add_days(today, 27 - back_days);
    let mut out = String::new();
    push_char(&mut out, '\n');
    push_year_month(&mut out, first);
    if !(first.year == last.year && first.month == last.month) {
        out.append(" - ");
        push_year_month(&mut out, last);
    }
    push_char(&mut out, '\n');
    out.append("Sun Mon Tue Wed Thu Fri Sat\n");
    let ghost head = out@;
    assert(head =~= (if first.year == last.year && first.month == last.month {
        seq!['\n'] + year_month(first) + seq!['\n']
    } else {
        seq!['\n'] + year_month(first) + " - "@ + year_month(last) + seq!['\n']
    }) + week_header());
    let mut i: i64 = 0;
    while i < 28
        invariant
            0 <= i <= 28,
            today.valid(),
            weeks_fit(today),
            back_days == days_since_sunday(today),
            0 <= back_days < 7,
            out@ == head + week_cells(today, back_days as int, i as int),
        decreases 28 - i,
    {
        let d = add_days(today, i - back_days);
        let is_today = d == today;
        push_day_cell(&mut out, d.day, is_today);
        if (i + 1) % 7 == 0 {
            push_char(&mut out, '\n');
        }
        i = i + 1;
        assert(out@ =~= head + week_cells(today, back_days as int, i as int));
    }
    out
}

/// The four-week calendar around today.
///
/// Within a week of the ends of chrono's range, where the dates of the four
/// weeks would leave that range, the text is the message for an impossible
/// date.
pub fn weeks_calendar_text() -> (r: String)
    ensures
        exists|today: Date|
            today.valid() && r@ == (if weeks_fit(today) {
                weeks_calendar(today)
            } else {
                "잘못된 날짜입니다.\n"@
            }),
{
    let today = local_today();
    let after_first = days_between(today, Date { year: MIN_YEAR, month: 1, day: 1 });
    let before_last = days_between(Date { year: MAX_YEAR, month: 12, day: 31 }, today);
    if after_first >= 6 && before_last >= 27 {
        weeks_calendar_on(today)
    } else {
        String::from_str("잘못된 날짜입니다.\n")
    }
}

} // verus!

