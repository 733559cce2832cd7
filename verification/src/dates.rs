use vstd::prelude::*;

use crate::calendar::{
    add_days, date_key, format_date_as, month_length, shifted, weekday_index, weekday_of, Date,
};
use crate::calendar::{date_from_ymd, days_in_month, local_today, MAX_YEAR, MIN_YEAR};
use crate::colors::{DUE_FUTURE, DUE_TODAY, DUE_WEEK};
use crate::calendar::{day_number, days_between, short_date, weekday_abbrev};
use crate::calendar::{lemma_days_ahead, lemma_zero_pad_digits, two_digits, year_text};
use crate::text::{all_digits, decimal, digits_value, is_digit, lemma_decimal_digits, lemma_digits_byte_len, lemma_digits_byte_slice};
use crate::text::{
    byte_len, byte_len_at_least, is_boundary_at, lemma_start_is_boundary, byte_range, byte_slice, is_boundary, push_char, lowercase, parse_i32, parse_u32, parsed_signed, parsed_unsigned, pieces, same_text,
    split_at_either, str_views, to_lowercase,
};

verus! {

/// The weekday (0 is Monday) that a keyword names: the Korean one-syllable
/// names, the English three-letter names and their plurals.
pub open spec fn weekday_word(w: Seq<char>) -> Option<int> {
    if w == "월"@ || w == "mon"@ || w == "mons"@ {
        Some(0)
    } else if w == "화"@ || w == "tue"@ || w == "tues"@ {
        Some(1)
    } else if w == "수"@ || w == "wed"@ || w == "weds"@ {
        Some(2)
    } else if w == "목"@ || w == "thu"@ || w == "thus"@ {
        Some(3)
    } else if w == "금"@ || w == "fri"@ || w == "fris"@ {
        Some(4)
    } else if w == "토"@ || w == "sat"@ || w == "sats"@ {
        Some(5)
    } else if w == "일"@ || w == "sun"@ || w == "suns"@ {
        Some(6)
    } else {
        None
    }
}

/// Days from a day with weekday `from` to the next day with weekday `to`:
/// 1 to 7, a full week when the two are the same.
pub open spec fn days_to_weekday(from: int, to: int) -> int {
    ((to - from + 6) % 7) + 1
}

/// The stored key of a date: its `YYYYMMDD` form, for the years 0 to 9999
/// that take four digits; no key for other years.
pub open spec fn key_of(d: Date) -> Option<Seq<char>> {
    if 0 <= d.year <= 9999 {
        Some(date_key(d))
    } else {
        None
    }
}

/// The first of the 365 days after `today`, from the `i`-th on, that falls on
/// the `day`-th of its month, as a date key.
pub open spec fn next_day_of_month(today: Date, day: int, i: int) -> Option<Seq<char>>
    decreases 366 - i,
{
    if i > 365 || i < 1 {
        None
    } else if shifted(today, i).day == day {
        key_of(shifted(today, i))
    } else {
        next_day_of_month(today, day, i + 1)
    }
}

/// A key of a valid date of the years 0 to 9999 reads back as that date.
proof fn lemma_key_of_reads_back(d: Date, k: Seq<char>)
    requires
        d.valid(),
        key_of(d) == Some(k),
    ensures
        exists|e: Date|
            e.valid() && 0 <= e.year <= 9999 && k == date_key(e) && key_fields(k) == Some(e)
                && byte_len(k) == 8,
{
    lemma_date_key_reads_back(d);
}

/// Every date that date input names is stored as an eight-byte `YYYYMMDD`
/// key of a valid date of the years 0 to 9999, which reads back as that date.
pub proof fn lemma_date_input_gives_key(input: Seq<char>, lower: Seq<char>, today: Date)
    requires
        today.valid(),
        today.year < MAX_YEAR,
    ensures
        date_from_lowered(input, lower, today) matches Some(k) ==> exists|e: Date|
            e.valid() && 0 <= e.year <= 9999 && k == date_key(e) && key_fields(k) == Some(e)
                && byte_len(k) == 8,
{
    if let Some(k) = date_from_lowered(input, lower, today) {
        let ps = pieces(input, '/', '-');
        if ps.len() == 3 {
            let year = parsed_signed(ps[0], i32::MIN as int, i32::MAX as int)->0;
            let full_year = if year < 100 {
                2000 + year
            } else {
                year
            };
            let d = Date {
                year: full_year as i32,
                month: parsed_unsigned(ps[1], u32::MAX as int)->0 as u32,
                day: parsed_unsigned(ps[2], u32::MAX as int)->0 as u32,
            };
            lemma_key_of_reads_back(d, k);
        } else if lower == "today"@ {
            lemma_key_of_reads_back(today, k);
        } else if lower == "tomorrow"@ || lower == "tom"@ {
            lemma_days_ahead(today, 1);
            lemma_key_of_reads_back(shifted(today, 1), k);
        } else if lower == "오늘"@ || lower == "jntn"@ {
            lemma_key_of_reads_back(today, k);
        } else if lower == "내일"@ || lower == "tkfq"@ {
            lemma_days_ahead(today, 1);
            lemma_key_of_reads_back(shifted(today, 1), k);
        } else if weekday_word(lower) is Some {
            let n = days_to_weekday(weekday_index(today), weekday_word(lower)->0);
            assert(0 <= weekday_index(today) < 7);
            lemma_days_ahead(today, n);
            lemma_key_of_reads_back(shifted(today, n), k);
        } else if ps.len() == 1 {
            let day = parsed_unsigned(ps[0], u32::MAX as int)->0;
            lemma_next_day_of_month(today, day as int, 1);
            let j = choose|j: int|
                1 <= j <= 365 && Some(k) == key_of(shifted(today, j)) && shifted(today, j).day == day
                    && forall|q: int| 1 <= q < j ==> (#[trigger] shifted(today, q)).day != day;
            lemma_days_ahead(today, j);
            lemma_key_of_reads_back(shifted(today, j), k);
        } else {
            let d = Date {
                year: today.year,
                month: parsed_unsigned(ps[0], u32::MAX as int)->0 as u32,
                day: parsed_unsigned(ps[1], u32::MAX as int)->0 as u32,
            };
            lemma_key_of_reads_back(d, k);
        }
    }
}

/// A day of the month alone names the nearest date after today that falls
/// on that day: no earlier day in between has that number. `None` comes only
/// when none of the next 365 days has it, or that nearest date has no key.
pub proof fn lemma_next_day_of_month(today: Date, day: int, i: int)
    requires
        1 <= i,
    ensures
        match next_day_of_month(today, day, i) {
            Some(key) => exists|k: int|
                i <= k <= 365 && Some(key) == key_of(shifted(today, k)) && shifted(today, k).day == day
                    && forall|j: int| i <= j < k ==> (#[trigger] shifted(today, j)).day != day,
            None => (forall|j: int| i <= j <= 365 ==> (#[trigger] shifted(today, j)).day != day)
                || exists|k: int|
                i <= k <= 365 && shifted(today, k).day == day && key_of(shifted(today, k)) is None
                    && forall|j: int| i <= j < k ==> (#[trigger] shifted(today, j)).day != day,
        },
    decreases 366 - i,
{
    if i <= 365 && shifted(today, i).day != day {
        lemma_next_day_of_month(today, day, i + 1);
    }
}

/// The date key for a full date, split at `/` and `-` into year, month and
/// day (a year below 100 counted from 2000); it needs no today.
pub open spec fn full_date(parts: Seq<Seq<char>>) -> Option<Seq<char>> {
    match (
        parsed_signed(parts[0], i32::MIN as int, i32::MAX as int),
        parsed_unsigned(parts[1], u32::MAX as int),
        parsed_unsigned(parts[2], u32::MAX as int),
    ) {
        (Some(year), Some(month), Some(day)) => {
            let full_year = if year < 100 {
                2000 + year
            } else {
                year
            };
            let d = Date { year: full_year as i32, month: month as u32, day: day as u32 };
            if month < 1 || month > 12 || day < 1 || day > 31 || day > month_length(
                month as int,
                full_year,
            ) || !d.valid() {
                None
            } else {
                key_of(d)
            }
        },
        _ => None,
    }
}

/// The date key for numeric input split at `/` and `-`: a day of the month,
/// month and day, or year, month and day.
pub open spec fn numeric_date(parts: Seq<Seq<char>>, today: Date) -> Option<Seq<char>> {
    if parts.len() == 1 {
        match parsed_unsigned(parts[0], u32::MAX as int) {
            Some(day) => if day < 1 || day > 31 {
                None
            } else {
                next_day_of_month(today, day as int, 1)
            },
            None => None,
        }
    } else if parts.len() == 2 {
        match (parsed_unsigned(parts[0], u32::MAX as int), parsed_unsigned(parts[1], u32::MAX as int)) {
            (Some(month), Some(day)) => if month < 1 || month > 12 || day < 1 || day > 31 || day
                > month_length(month as int, today.year as int) {
                None
            } else {
                key_of(Date { year: today.year, month: month as u32, day: day as u32 })
            },
            _ => None,
        }
    } else if parts.len() == 3 {
        full_date(parts)
    } else {
        None
    }
}

/// The due date key that user input names, seen from `today`.
pub open spec fn date_from_text(input: Seq<char>, today: Date) -> Option<Seq<char>> {
    date_from_lowered(input, lowercase(input), today)
}

/// The due date key that user input names, given the input lowercased: a
/// full date (which needs no today), a keyword, or numeric input.
pub open spec fn date_from_lowered(input: Seq<char>, lower: Seq<char>, today: Date) -> Option<
    Seq<char>,
> {
    if pieces(input, '/', '-').len() == 3 {
        full_date(pieces(input, '/', '-'))
    } else if lower == "today"@ {
        key_of(today)
    } else if lower == "tomorrow"@ || lower == "tom"@ {
        key_of(shifted(today, 1))
    } else if lower == "오늘"@ || lower == "jntn"@ {
        key_of(today)
    } else if lower == "내일"@ || lower == "tkfq"@ {
        key_of(shifted(today, 1))
    } else if weekday_word(lower) is Some {
        key_of(shifted(today, days_to_weekday(weekday_index(today), weekday_word(lower)->0)))
    } else {
        numeric_date(pieces(input, '/', '-'), today)
    }
}

/// The weekday `j` days after a day with weekday `from`.
spec fn weekday_after(from: int, j: int) -> int {
    (from + j) % 7
}

proof fn lemma_days_to_weekday(from: int, to: int)
    requires
        0 <= from < 7,
        0 <= to < 7,
    ensures
        1 <= days_to_weekday(from, to) <= 7,
        weekday_after(from, days_to_weekday(from, to)) == to,
        forall|j: int| 1 <= j < days_to_weekday(from, to) ==> #[trigger] weekday_after(from, j) != to,
{
}

proof fn lemma_weekday_step(n: int, j: int)
    requires
        0 <= j <= 7,
    ensures
        (n + j - 1) % 7 == ((n - 1) % 7 + j) % 7,
{
    let q = (n - 1) / 7;
    let r = (n - 1) % 7;
    assert(n - 1 == 7 * q + r);
    assert(n + j - 1 == 7 * q + (r + j));
    assert((7 * q + (r + j)) % 7 == (r + j) % 7) by {
        vstd::arithmetic::div_mod::lemma_mod_multiples_vanish(q, r + j, 7);
    }
}

/// No weekday keyword is also a keyword for today or tomorrow.
proof fn lemma_weekday_word_is_no_day_word(lower: Seq<char>)
    requires
        weekday_word(lower) is Some,
    ensures
        lower != "today"@ && lower != "tomorrow"@ && lower != "tom"@,
        lower != "오늘"@ && lower != "jntn"@ && lower != "내일"@ && lower != "tkfq"@,
{
    reveal_strlit("today");
    reveal_strlit("tomorrow");
    reveal_strlit("tom");
    reveal_strlit("오늘");
    reveal_strlit("jntn");
    reveal_strlit("내일");
    reveal_strlit("tkfq");
    reveal_strlit("월");
    reveal_strlit("화");
    reveal_strlit("수");
    reveal_strlit("목");
    reveal_strlit("금");
    reveal_strlit("토");
    reveal_strlit("일");
    reveal_strlit("mon");
    reveal_strlit("tue");
    reveal_strlit("wed");
    reveal_strlit("thu");
    reveal_strlit("fri");
    reveal_strlit("sat");
    reveal_strlit("sun");
    reveal_strlit("mons");
    reveal_strlit("tues");
    reveal_strlit("weds");
    reveal_strlit("thus");
    reveal_strlit("fris");
    reveal_strlit("sats");
    reveal_strlit("suns");
    assert(lower.len() <= 4 && lower.len() != 2);
    if lower.len() == 3 {
        assert(lower[0] != 't' || lower[1] != 'o');
        assert("tom"@[0] == 't' && "tom"@[1] == 'o');
    }
    if lower.len() == 4 {
        assert(lower[0] != 'j' && lower[1] != 'k');
        assert("jntn"@[0] == 'j' && "tkfq"@[1] == 'k');
    }
}

/// A weekday keyword names the next such weekday: a date one to seven days
/// after today that falls on that weekday, with no day of that weekday in
/// between.
pub proof fn lemma_weekday_keyword(input: Seq<char>, lower: Seq<char>, today: Date)
    requires
        today.valid(),
        today.year < MAX_YEAR,
        weekday_word(lower) is Some,
        pieces(input, '/', '-').len() != 3,
    ensures
        exists|k: int|
            1 <= k <= 7 && date_from_lowered(input, lower, today) == key_of(shifted(today, k))
                && weekday_index(shifted(today, k)) == weekday_word(lower)->0 && forall|j: int|
                1 <= j < k ==> weekday_index(#[trigger] shifted(today, j)) != weekday_word(lower)->0,
{
    lemma_weekday_word_is_no_day_word(lower);
    let w = weekday_word(lower)->0;
    let from = weekday_index(today);
    let k = days_to_weekday(from, w);
    lemma_days_to_weekday(from, w);
    assert(date_from_lowered(input, lower, today) == key_of(shifted(today, k)));
    assert forall|j: int| 1 <= j <= 7 implies weekday_index(#[trigger] shifted(today, j)) == weekday_after(from, j) by {
        lemma_days_ahead(today, j);
        lemma_weekday_step(day_number(today), j);
    }
}

/// The characters of an optional string.
pub open spec fn opt_view(o: Option<String>) -> Option<Seq<char>> {
    match o {
        Some(s) => Some(s@),
        None => None,
    }
}

/// The stored key of a valid date (see `key_of`).
pub(crate) fn key_text(d: Date) -> (r: Option<String>)
    requires
        d.valid(),
    ensures
        opt_view(r) == key_of(d),
{
    if 0 <= d.year && d.year <= 9999 {
        Some(format_date_as(d, "%Y%m%d"))
    } else {
        None
    }
}

/// The date key for input holding a full date (see `full_date`).
fn full_date_text(input: &str) -> (r: Option<String>)
    requires
        pieces(input@, '/', '-').len() == 3,
    ensures
        opt_view(r) == full_date(pieces(input@, '/', '-')),
{
    let parts = split_at_either(input, '/', '-');
    let ghost ps = pieces(input@, '/', '-');
    assert(parts[0]@ == ps[0]);
    assert(parts[1]@ == ps[1]);
    assert(parts[2]@ == ps[2]);
    let year = match parse_i32(parts[0]) {
        Some(y) => y,
        None => return None,
    };
    let month = match parse_u32(parts[1]) {
        Some(m) => m,
        None => return None,
    };
    let day = match parse_u32(parts[2]) {
        Some(d) => d,
        None => return None,
    };
    if month < 1 || month > 12 {
        return None;
    }
    if day < 1 || day > 31 {
        return None;
    }
    let full_year = if year < 100 {
        2000 + year
    } else {
        year
    };
    if day > days_in_month(month, full_year) {
        return None;
    }
    match date_from_ymd(full_year, month, day) {
        Some(d) => key_text(d),
        None => None,
    }
}

/// The first of the 365 days after `today` that falls on the `day`-th of its month.
fn next_with_day(today: Date, day: u32) -> (r: Option<String>)
    requires
        today.roomy(),
    ensures
        opt_view(r) == next_day_of_month(today, day as int, 1),
{
    let mut i: i64 = 1;
    while i <= 365
        invariant
            today.roomy(),
            1 <= i <= 366,
            next_day_of_month(today, day as int, 1) == next_day_of_month(today, day as int, i as int),
        decreases 366 - i,
    {
        let check = add_days(today, i);
        if check.day == day {
            return key_text(check);
        }
        i = i + 1;
    }
    None
}

/// The weekday (0 is Monday) that a lowercased keyword names, if any.
fn weekday_keyword(lower: &str) -> (r: Option<u32>)
    ensures
        match r {
            Some(w) => weekday_word(lower@) == Some(w as int),
            None => weekday_word(lower@) is None,
        },
{
    if same_text(lower, "월") || same_text(lower, "mon") || same_text(lower, "mons") {
        Some(0)
    } else if same_text(lower, "화") || same_text(lower, "tue") || same_text(lower, "tues") {
        Some(1)
    } else if same_text(lower, "수") || same_text(lower, "wed") || same_text(lower, "weds") {
        Some(2)
    } else if same_text(lower, "목") || same_text(lower, "thu") || same_text(lower, "thus") {
        Some(3)
    } else if same_text(lower, "금") || same_text(lower, "fri") || same_text(lower, "fris") {
        Some(4)
    } else if same_text(lower, "토") || same_text(lower, "sat") || same_text(lower, "sats") {
        Some(5)
    } else if same_text(lower, "일") || same_text(lower, "sun") || same_text(lower, "suns") {
        Some(6)
    } else {
        None
    }
}

/// The date key for numeric date input (see `numeric_date`).
fn numeric_date_text(input: &str, today: Date) -> (r: Option<String>)
    requires
        today.roomy(),
    ensures
        opt_view(r) == numeric_date(pieces(input@, '/', '-'), today),
{
    let parts = split_at_either(input, '/', '-');
    let ghost ps = pieces(input@, '/', '-');
    assert(ps.len() == parts.len());
    if parts.len() == 1 {
        assert(parts[0]@ == ps[0]);
        let day = match parse_u32(parts[0]) {
            Some(d) => d,
            None => return None,
        };
        if day < 1 || day > 31 {
            return None;
        }
        next_with_day(today, day)
    } else if parts.len() == 2 {
        assert(parts[0]@ == ps[0]);
        assert(parts[1]@ == ps[1]);
        let month = match parse_u32(parts[0]) {
            Some(m) => m,
            None => return None,
        };
        let day = match parse_u32(parts[1]) {
            Some(d) => d,
            None => return None,
        };
        if month < 1 || month > 12 {
            return None;
        }
        if day < 1 || day > 31 {
            return None;
        }
        if day > days_in_month(month, today.year) {
            return None;
        }
        match date_from_ymd(today.year, month, day) {
            Some(d) => key_text(d),
            None => None,
        }
    } else if parts.len() == 3 {
        full_date_text(input)
    } else {
        None
    }
}

/// Parse user date input into database format, seen from the date `today`.
///
/// Supports day-only (15), month/day (3/15), full (26/3/15) and keywords
/// (today, tom, mon, 오늘, 내일, 월, ...).
pub fn parse_date_on(input: &str, today: Date) -> (r: Option<String>)
    requires
        today.roomy(),
    ensures
        opt_view(r) == date_from_text(input@, today),
{
    let lower = to_lowercase(input);
    parse_date_lowered(input, lower.as_str(), today)
}

/// Parse user date input, given the input and its lowercase form.
pub fn parse_date_lowered(input: &str, lower: &str, today: Date) -> (r: Option<String>)
    requires
        today.roomy(),
    ensures
        opt_view(r) == date_from_lowered(input@, lower@, today),
{
    if split_at_either(input, '/', '-').len() == 3 {
        return full_date_text(input);
    }
    if same_text(lower, "today") {
        return key_text(today);
    }
    if same_text(lower, "tomorrow") || same_text(lower, "tom") {
        return key_text(add_days(today, 1));
    }
    if same_text(lower, "오늘") || same_text(lower, "jntn") {
        return key_text(today);
    }
    if same_text(lower, "내일") || same_text(lower, "tkfq") {
        return key_text(add_days(today, 1));
    }
    match weekday_keyword(lower) {
        Some(target) => {
            let today_num = weekday_of(today);
            let days_until = ((target + 13 - today_num) % 7) + 1;
            assert(days_until == days_to_weekday(today_num as int, target as int));
            key_text(add_days(today, days_until as i64))
        },
        None => numeric_date_text(input, today),
    }
}

/// Parse user date input into database format, seen from today's date.
///
/// The result is what `parse_date_on` gives for the local date at the time of
/// the call. A full `y/m/d` date needs no today. When today lies in the first
/// or last year of chrono's range, the other forms give `None`: every date
/// they can name there has a year beyond 9999, which has no key.
pub fn parse_date(input: &str) -> (r: Option<String>)
    ensures
        pieces(input@, '/', '-').len() == 3 ==> opt_view(r) == full_date(pieces(input@, '/', '-')),
        exists|today: Date|
            today.valid() && opt_view(r) == (if today.roomy() {
                date_from_text(input@, today)
            } else if pieces(input@, '/', '-').len() == 3 {
                full_date(pieces(input@, '/', '-'))
            } else {
                None
            }),
{
    if split_at_either(input, '/', '-').len() == 3 {
        let r = full_date_text(input);
        proof {
            let t = Date { year: 2000, month: 1, day: 1 };
            assert(t.roomy());
            assert(opt_view(r) == date_from_text(input@, t));
        }
        return r;
    }
    let today = local_today();
    if MIN_YEAR < today.year && today.year < MAX_YEAR {
        parse_date_on(input, today)
    } else {
        None
    }
}

/// The date fields of a stored `YYYYMMDD` key, read from its first eight
/// bytes as `(year, month, day)`, each parsed as an integer.
pub open spec fn key_fields(s: Seq<char>) -> Option<Date> {
    match (
        parsed_signed(byte_slice(s, 0, 4), i32::MIN as int, i32::MAX as int),
        parsed_unsigned(byte_slice(s, 4, 6), u32::MAX as int),
        parsed_unsigned(byte_slice(s, 6, 8), u32::MAX as int),
    ) {
        (Some(y), Some(m), Some(d)) => Some(Date { year: y as i32, month: m as u32, day: d as u32 }),
        _ => None,
    }
}

/// Whether the first eight bytes of `s` can be sliced at 4, 6 and 8.
pub open spec fn key_sliceable(s: Seq<char>) -> bool {
    is_boundary(s, 4) && is_boundary(s, 6) && is_boundary(s, 8)
}

/// Whether a stored date can be sliced at bytes 4, 6 and 8.
pub fn is_key_sliceable(s: &str) -> (r: bool)
    ensures
        r == key_sliceable(s@),
{
    is_boundary_at(s, 4) && is_boundary_at(s, 6) && is_boundary_at(s, 8)
}

/// The display form of a stored date key: `YY-MM-DD(Wkd)`.
pub open spec fn display_date(s: Seq<char>) -> Option<Seq<char>> {
    if byte_len(s) >= 8 {
        match key_fields(s) {
            Some(d) => if d.valid() {
                Some(short_date(d) + seq!['('] + weekday_abbrev(weekday_index(d)) + seq![')'])
            } else {
                None
            },
            None => None,
        }
    } else {
        None
    }
}

/// Reads the date fields of a stored key.
pub(crate) fn read_key_fields(date_str: &str) -> (r: Option<Date>)
    requires
        key_sliceable(date_str@),
    ensures
        r == key_fields(date_str@),
{
    proof {
        lemma_start_is_boundary(date_str@);
    }
    let year = match parse_i32(byte_range(date_str, 0, 4)) {
        Some(y) => y,
        None => return None,
    };
    let month = match parse_u32(byte_range(date_str, 4, 6)) {
        Some(m) => m,
        None => return None,
    };
    let day = match parse_u32(byte_range(date_str, 6, 8)) {
        Some(d) => d,
        None => return None,
    };
    Some(Date { year, month, day })
}

/// Format database date string for display
///
/// Converts "YYYYMMDD" to "YY-MM-DD(Wday)" format.
pub fn format_date(date_str: &str) -> (r: Option<String>)
    requires
        byte_len(date_str@) >= 8 ==> key_sliceable(date_str@),
    ensures
        opt_view(r) == display_date(date_str@),
{
    if byte_len_at_least(date_str, 8) {
        let fields = match read_key_fields(date_str) {
            Some(f) => f,
            None => return None,
        };
        let date = match date_from_ymd(fields.year, fields.month, fields.day) {
            Some(d) => d,
            None => return None,
        };
        let weekday = format_date_as(date, "%a");
        let formatted = format_date_as(date, "%y-%m-%d");
        let mut out = formatted;
        push_char(&mut out, '(');
        out.append(weekday.as_str());
        push_char(&mut out, ')');
        Some(out)
    } else {
        None
    }
}

/// Two digits below 100: a run of digits of length two with that value.
proof fn lemma_two_digits(v: int)
    requires
        0 <= v < 100,
    ensures
        all_digits(two_digits(v)),
        digits_value(two_digits(v)) == v,
        two_digits(v).len() == 2,
{
    lemma_decimal_digits(v as nat);
    lemma_zero_pad_digits(decimal(v as nat), 2);
}

/// What is stored for a due date is read back as that date: the key
/// `date_key(d)` takes eight bytes, its fields are `d`, and `format_date`
/// shows it as `YY-MM-DD(Wkd)` (for the years 0 to 9999, which `%Y` writes
/// with four digits).
pub proof fn lemma_date_key_reads_back(d: Date)
    requires
        d.valid(),
        0 <= d.year <= 9999,
    ensures
        byte_len(date_key(d)) == 8,
        key_sliceable(date_key(d)),
        key_fields(date_key(d)) == Some(d),
        display_date(date_key(d)) == Some(
            short_date(d) + seq!['('] + weekday_abbrev(weekday_index(d)) + seq![')'],
        ),
{
    let y = year_text(d.year as int);
    let m = two_digits(d.month as int);
    let dd = two_digits(d.day as int);
    lemma_decimal_digits(d.year as nat);
    lemma_zero_pad_digits(decimal(d.year as nat), 4);
    lemma_two_digits(d.month as int);
    lemma_two_digits(d.day as int);
    let key = date_key(d);
    assert(key == y + m + dd);
    assert(y.len() == 4);
    assert(all_digits(key)) by {
        assert forall|i: int| 0 <= i < key.len() implies is_digit(#[trigger] key[i]) by {
            if i < 4 {
                assert(key[i] == y[i]);
            } else if i < 6 {
                assert(key[i] == m[i - 4]);
            } else {
                assert(key[i] == dd[i - 6]);
            }
        }
    }
    lemma_digits_byte_len(key, 8);
    assert(key.take(8) =~= key);
    lemma_digits_byte_slice(key, 0, 4);
    lemma_digits_byte_slice(key, 4, 6);
    lemma_digits_byte_slice(key, 6, 8);
    assert(key.subrange(0, 4) =~= y);
    assert(key.subrange(4, 6) =~= m);
    assert(key.subrange(6, 8) =~= dd);
    assert(is_digit(y[0]));
    assert(is_digit(m[0]));
    assert(is_digit(dd[0]));
}

/// The color for a due date that lies `days_until` days after today.
pub open spec fn color_for_days(days_until: int) -> &'static str {
    if days_until <= 0 {
        DUE_TODAY
    } else if days_until <= 7 {
        DUE_WEEK
    } else {
        DUE_FUTURE
    }
}

/// The color of a stored due date seen from `today`: red for today or
/// overdue, yellow within seven days, green otherwise and for keys that are
/// not dates.
pub open spec fn due_color(s: Seq<char>, today: Date) -> &'static str {
    match key_fields(s) {
        Some(d) => if d.valid() {
            color_for_days(day_number(d) - day_number(today))
        } else {
            DUE_FUTURE
        },
        None => DUE_FUTURE,
    }
}

/// Get color for due date, seen from the date `today`.
pub fn color_for_due_date_on(due_date: &str, today: Date) -> (r: &'static str)
    requires
        key_sliceable(due_date@),
        today.valid(),
    ensures
        r == due_color(due_date@, today),
{
    match read_key_fields(due_date) {
        Some(f) => match date_from_ymd(f.year, f.month, f.day) {
            Some(due) => {
                let days_until = days_between(due, today);
                if days_until <= 0 {
                    DUE_TODAY
                } else if days_until <= 7 {
                    DUE_WEEK
                } else {
                    DUE_FUTURE
                }
            },
            None => DUE_FUTURE,
        },
        None => DUE_FUTURE,
    }
}

/// Get color for due date
///
/// Compares the due date ("YYYYMMDD") with today's local date: today or past
/// is red, within seven days yellow, later green.
pub fn color_for_due_date(due_date: &str) -> (r: &'static str)
    requires
        key_sliceable(due_date@),
    ensures
        exists|today: Date| today.valid() && r == due_color(due_date@, today),
{
    let today = local_today();
    color_for_due_date_on(due_date, today)
}

} // verus!
