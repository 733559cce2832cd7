use chrono::Datelike;
use vstd::prelude::*;

use crate::text::{all_digits, decimal, digits_value, is_digit, lemma_leading_zero, signed_decimal};

verus! {

/// The first year that chrono's `NaiveDate` can hold.
pub const MIN_YEAR: i32 = -262143;

/// The last year that chrono's `NaiveDate` can hold.
pub const MAX_YEAR: i32 = 262142;

/// Whether `y` is a leap year of the proleptic Gregorian calendar.
pub open spec fn is_leap_year(y: int) -> bool {
    (y % 4 == 0 && y % 100 != 0) || y % 400 == 0
}

/// Number of days in `month` of `year`; months outside 1..=12 count 30 days.
pub open spec fn month_length(month: int, year: int) -> int {
    if month == 1 || month == 3 || month == 5 || month == 7 || month == 8 || month == 10 || month
        == 12 {
        31
    } else if month == 4 || month == 6 || month == 9 || month == 11 {
        30
    } else if month == 2 {
        if is_leap_year(year) {
            29
        } else {
            28
        }
    } else {
        30
    }
}

/// Get number of days in a month
pub fn days_in_month(month: u32, year: i32) -> (r: u32)
    ensures
        r == month_length(month as int, year as int),
{
    match month {
        1 | 3 | 5 | 7 | 8 | 10 | 12 => 31,
        4 | 6 | 9 | 11 => 30,
        2 => {
            if (year % 4 == 0 && year % 100 != 0) || (year % 400 == 0) {
                29
            } else {
                28
            }
        },
        _ => 30,
    }
}

/// A calendar date of the proleptic Gregorian calendar, as plain numbers.
#[derive(Clone, Copy, Debug, PartialEq, Eq, Structural)]
pub struct Date {
    pub year: i32,
    pub month: u32,
    pub day: u32,
}

impl Date {
    /// A date that exists and that chrono's `NaiveDate` can hold.
    pub open spec fn valid(self) -> bool {
        &&& MIN_YEAR <= self.year <= MAX_YEAR
        &&& 1 <= self.month <= 12
        &&& 1 <= self.day <= month_length(self.month as int, self.year as int)
    }

    /// A valid date from which a year's worth of days can be added or taken
    /// without leaving chrono's range.
    pub open spec fn roomy(self) -> bool {
        self.valid() && MIN_YEAR < self.year < MAX_YEAR
    }
}

/// Days in the years before `y`, counted from the year 1.
pub open spec fn days_before_year(y: int) -> int {
    let p = y - 1;
    365 * p + p / 4 - p / 100 + p / 400
}

/// Days in the months of `year` before `month`.
pub open spec fn days_before_month(month: int, year: int) -> int {
    let base: int = if month <= 1 {
        0
    } else if month == 2 {
        31
    } else if month == 3 {
        59
    } else if month == 4 {
        90
    } else if month == 5 {
        120
    } else if month == 6 {
        151
    } else if month == 7 {
        181
    } else if month == 8 {
        212
    } else if month == 9 {
        243
    } else if month == 10 {
        273
    } else if month == 11 {
        304
    } else {
        334
    };
    if month > 2 && is_leap_year(year) {
        base + 1
    } else {
        base
    }
}

/// The number of a date counted in days, 0001-01-01 being day 1.
pub open spec fn day_number(d: Date) -> int {
    days_before_year(d.year as int) + days_before_month(d.month as int, d.year as int) + d.day
}

/// The valid date with day number `n`.
pub open spec fn date_at(n: int) -> Date {
    choose|d: Date| d.valid() && day_number(d) == n
}

/// The date `n` days after `d` (before it, for a negative `n`).
pub open spec fn shifted(d: Date, n: int) -> Date {
    date_at(day_number(d) + n)
}

/// The day of the week of `d`, counted from Monday (0) to Sunday (6);
/// 0001-01-01 was a Monday.
pub open spec fn weekday_index(d: Date) -> int {
    (day_number(d) - 1) % 7
}

proof fn lemma_year_step(y: int)
    ensures
        days_before_year(y + 1) == days_before_year(y) + 365 + (if is_leap_year(y) {
            1int
        } else {
            0int
        }),
{
    let p = y - 1;
    assert((p + 1) / 4 - p / 4 == (if (p + 1) % 4 == 0 {
        1int
    } else {
        0int
    }));
    assert((p + 1) / 100 - p / 100 == (if (p + 1) % 100 == 0 {
        1int
    } else {
        0int
    }));
    assert((p + 1) / 400 - p / 400 == (if (p + 1) % 400 == 0 {
        1int
    } else {
        0int
    }));
    assert(p + 1 == y);
}

proof fn lemma_years_ordered(x: int, y: int)
    requires
        x <= y,
    ensures
        days_before_year(x) + 365 * (y - x) <= days_before_year(y),
    decreases y - x,
{
    if x < y {
        lemma_years_ordered(x, y - 1);
        lemma_year_step(y - 1);
    }
}

/// A valid date's day number lies within its year.
proof fn lemma_day_number_in_year(d: Date)
    requires
        d.valid(),
    ensures
        days_before_year(d.year as int) < day_number(d) <= days_before_year(d.year + 1),
{
    lemma_year_step(d.year as int);
}

/// Within a year, a valid date's day number lies within its month.
proof fn lemma_month_step(m: int, y: int)
    requires
        1 <= m < 12,
    ensures
        days_before_month(m + 1, y) == days_before_month(m, y) + month_length(m, y),
{
}

/// Two valid dates with the same day number are the same date.
pub proof fn lemma_day_number_injective(a: Date, b: Date)
    requires
        a.valid(),
        b.valid(),
        day_number(a) == day_number(b),
    ensures
        a == b,
{
    lemma_day_number_in_year(a);
    lemma_day_number_in_year(b);
    if a.year < b.year {
        lemma_years_ordered(a.year + 1, b.year as int);
    } else if b.year < a.year {
        lemma_years_ordered(b.year + 1, a.year as int);
    }
    assert(a.year == b.year);
    if a.month < b.month {
        lemma_months_ordered(a.month as int, b.month as int, a.year as int);
    } else if b.month < a.month {
        lemma_months_ordered(b.month as int, a.month as int, a.year as int);
    }
}

proof fn lemma_months_ordered(m: int, n: int, y: int)
    requires
        1 <= m < n <= 12,
    ensures
        days_before_month(m, y) + month_length(m, y) <= days_before_month(n, y),
    decreases n - m,
{
    lemma_month_step(m, y);
    if m + 1 < n {
        lemma_months_ordered(m + 1, n, y);
        lemma_month_step(m + 1, y);
    }
}

/// `date_at` gives back a valid date from its day number.
pub proof fn lemma_date_at_day_number(d: Date)
    requires
        d.valid(),
    ensures
        date_at(day_number(d)) == d,
{
    let c = date_at(day_number(d));
    assert(c.valid() && day_number(c) == day_number(d));
    lemma_day_number_injective(c, d);
}

/// The day after `d`.
pub open spec fn following(d: Date) -> Date {
    if d.day < month_length(d.month as int, d.year as int) {
        Date { day: (d.day + 1) as u32, ..d }
    } else if d.month < 12 {
        Date { month: (d.month + 1) as u32, day: 1, ..d }
    } else {
        Date { year: (d.year + 1) as i32, month: 1, day: 1 }
    }
}

proof fn lemma_following(d: Date)
    requires
        d.valid(),
        d.year < MAX_YEAR,
    ensures
        following(d).valid(),
        day_number(following(d)) == day_number(d) + 1,
{
    if d.day < month_length(d.month as int, d.year as int) {
    } else if d.month < 12 {
        lemma_month_step(d.month as int, d.year as int);
    } else {
        lemma_year_step(d.year as int);
    }
}

/// The dates up to a year after a date before chrono's last year exist:
/// `shifted(d, k)` is the valid date `k` days after `d`.
pub proof fn lemma_days_ahead(d: Date, k: int)
    requires
        d.valid(),
        d.year < MAX_YEAR,
        0 <= k <= 365,
    ensures
        shifted(d, k).valid(),
        day_number(shifted(d, k)) == day_number(d) + k,
    decreases k,
{
    if k == 0 {
        lemma_date_at_day_number(d);
    } else {
        lemma_days_ahead(d, k - 1);
        let e = shifted(d, k - 1);
        lemma_day_number_in_year(d);
        lemma_years_ordered(d.year + 1, MAX_YEAR as int);
        lemma_day_number_in_year(e);
        if e.year >= MAX_YEAR {
            // a date of the last year lies at most 364 days into it
            assert(e.year == MAX_YEAR);
            assert(!is_leap_year(MAX_YEAR as int));
            assert(day_number(e) <= days_before_year(MAX_YEAR as int) + 364);
            assert(e.month < 12 || e.day < 31);
            let f = following(e);
            if e.day < month_length(e.month as int, e.year as int) {
            } else {
                lemma_month_step(e.month as int, e.year as int);
            }
            lemma_date_at_day_number(f);
        } else {
            lemma_following(e);
            lemma_date_at_day_number(following(e));
        }
    }
}

/// The day before the first of the next month is the last day of the month.
pub proof fn lemma_last_day_of_month(y: int, m: int)
    requires
        MIN_YEAR <= y <= MAX_YEAR,
        1 <= m <= 12,
        m == 12 ==> y < MAX_YEAR,
    ensures
        ({
            let next = if m == 12 {
                Date { year: (y + 1) as i32, month: 1, day: 1 }
            } else {
                Date { year: y as i32, month: (m + 1) as u32, day: 1 }
            };
            let last = Date { year: y as i32, month: m as u32, day: month_length(m, y) as u32 };
            &&& next.valid()
            &&& last.valid()
            &&& shifted(next, -1) == last
        }),
{
    let next = if m == 12 {
        Date { year: (y + 1) as i32, month: 1, day: 1 }
    } else {
        Date { year: y as i32, month: (m + 1) as u32, day: 1 }
    };
    let last = Date { year: y as i32, month: m as u32, day: month_length(m, y) as u32 };
    if m == 12 {
        lemma_year_step(y);
    } else {
        lemma_month_step(m, y);
    }
    assert(day_number(last) == day_number(next) - 1);
    lemma_date_at_day_number(last);
}

/// `s` with `0` in front until it is at least `width` long.
pub open spec fn zero_pad(s: Seq<char>, width: nat) -> Seq<char>
    decreases width,
{
    if s.len() >= width || width == 0 {
        s
    } else {
        seq!['0'] + zero_pad(s, (width - 1) as nat)
    }
}

/// Zeros in front keep a run of digits a run of digits with the same value,
/// `width` long unless it was longer.
pub proof fn lemma_zero_pad_digits(s: Seq<char>, width: nat)
    requires
        all_digits(s),
    ensures
        all_digits(zero_pad(s, width)),
        digits_value(zero_pad(s, width)) == digits_value(s),
        zero_pad(s, width).len() == if s.len() >= width {
            s.len()
        } else {
            width as nat
        },
    decreases width,
{
    if !(s.len() >= width || width == 0) {
        lemma_zero_pad_digits(s, (width - 1) as nat);
        let p = zero_pad(s, (width - 1) as nat);
        lemma_leading_zero(p);
        let z = seq!['0'] + p;
        assert forall|i: int| 0 <= i < z.len() implies is_digit(#[trigger] z[i]) by {
            if i > 0 {
                assert(z[i] == p[i - 1]);
            }
        }
    }
}

/// How chrono writes a year for `%Y`: four digits at least, with a sign
/// outside 0..=9999.
pub open spec fn year_text(y: int) -> Seq<char> {
    if 0 <= y <= 9999 {
        zero_pad(decimal(y as nat), 4)
    } else if y < 0 {
        seq!['-'] + zero_pad(decimal((-y) as nat), 4)
    } else {
        seq!['+'] + zero_pad(decimal(y as nat), 4)
    }
}

/// A number below 100 as two digits.
pub open spec fn two_digits(v: int) -> Seq<char> {
    zero_pad(decimal(v as nat), 2)
}

/// The `%Y%m%d` form of a date, such as `20260315`: how due dates are stored.
pub open spec fn date_key(d: Date) -> Seq<char> {
    year_text(d.year as int) + two_digits(d.month as int) + two_digits(d.day as int)
}

/// The `%y-%m-%d` form of a date, such as `26-03-15`.
pub open spec fn short_date(d: Date) -> Seq<char> {
    two_digits((d.year as int) % 100) + seq!['-'] + two_digits(d.month as int) + seq!['-']
        + two_digits(d.day as int)
}

/// The three-letter English name of the weekday `w` (0 is Monday).
pub open spec fn weekday_abbrev(w: int) -> Seq<char> {
    if w == 0 {
        seq!['M', 'o', 'n']
    } else if w == 1 {
        seq!['T', 'u', 'e']
    } else if w == 2 {
        seq!['W', 'e', 'd']
    } else if w == 3 {
        seq!['T', 'h', 'u']
    } else if w == 4 {
        seq!['F', 'r', 'i']
    } else if w == 5 {
        seq!['S', 'a', 't']
    } else {
        seq!['S', 'u', 'n']
    }
}

/// Today's date in the local time zone: `Local::now().naive_local().date()`.
/// The clock decides; the contract says only that the result is a date that
/// `NaiveDate` can hold.
#[verifier::external_body]
pub(crate) fn local_today() -> (r: Date)
    ensures
        r.valid(),
{
    let t = chrono::Local::now().naive_local().date();
    Date { year: t.year(), month: t.month(), day: t.day() }
}

/// `NaiveDate::from_ymd_opt`: the date when it exists and lies in chrono's range.
#[verifier::external_body]
pub(crate) fn date_from_ymd(year: i32, month: u32, day: u32) -> (r: Option<Date>)
    ensures
        r is Some <==> (Date { year, month, day }).valid(),
        r is Some ==> r->0 == (Date { year, month, day }),
{
    match chrono::NaiveDate::from_ymd_opt(year, month, day) {
        Some(d) => Some(Date { year: d.year(), month: d.month(), day: d.day() }),
        None => None,
    }
}

/// The first date that chrono's `NaiveDate` holds.
pub open spec fn first_date() -> Date {
    Date { year: MIN_YEAR, month: 1, day: 1 }
}

/// The last date that chrono's `NaiveDate` holds.
pub open spec fn last_date() -> Date {
    Date { year: MAX_YEAR, month: 12, day: 31 }
}

/// Whether the day with number `n` lies in chrono's range.
pub open spec fn day_in_range(n: int) -> bool {
    day_number(first_date()) <= n <= day_number(last_date())
}

/// `date + Duration::days(n)`: the date `n` days later. When the result
/// stays in chrono's range (as it does within a year of a roomy date), chrono
/// neither overflows nor panics.
#[verifier::external_body]
pub(crate) fn add_days(date: Date, n: i64) -> (r: Date)
    requires
        date.valid(),
        -365 <= n <= 365,
        date.roomy() || day_in_range(day_number(date) + n),
    ensures
        r.valid(),
        day_number(r) == day_number(date) + n,
        r == shifted(date, n as int),
        date.year - 1 <= r.year <= date.year + 1,
{
    let d = chrono::NaiveDate::from_ymd_opt(date.year, date.month, date.day).unwrap();
    let t = d + chrono::Duration::days(n);
    Date { year: t.year(), month: t.month(), day: t.day() }
}

/// `date.pred_opt()`: the previous day, absent only before chrono's first date.
#[verifier::external_body]
pub(crate) fn previous_day(date: Date) -> (r: Option<Date>)
    requires
        date.valid(),
    ensures
        r is Some <==> !(date.year == MIN_YEAR && date.month == 1 && date.day == 1),
        r is Some ==> r->0.valid() && day_number(r->0) == day_number(date) - 1 && r->0 == shifted(date, -1),
{
    let d = chrono::NaiveDate::from_ymd_opt(date.year, date.month, date.day).unwrap();
    match d.pred_opt() {
        Some(t) => Some(Date { year: t.year(), month: t.month(), day: t.day() }),
        None => None,
    }
}

/// `date.weekday()`, as the number of days since Monday.
#[verifier::external_body]
pub(crate) fn weekday_of(date: Date) -> (r: u32)
    requires
        date.valid(),
    ensures
        r == weekday_index(date),
        r < 7,
{
    let d = chrono::NaiveDate::from_ymd_opt(date.year, date.month, date.day).unwrap();
    match d.weekday() {
        chrono::Weekday::Mon => 0,
        chrono::Weekday::Tue => 1,
        chrono::Weekday::Wed => 2,
        chrono::Weekday::Thu => 3,
        chrono::Weekday::Fri => 4,
        chrono::Weekday::Sat => 5,
        chrono::Weekday::Sun => 6,
    }
}

/// `(a - b).num_days()`: how many days `a` lies after `b`.
#[verifier::external_body]
pub(crate) fn days_between(a: Date, b: Date) -> (r: i64)
    requires
        a.valid(),
        b.valid(),
    ensures
        r == day_number(a) - day_number(b),
{
    let x = chrono::NaiveDate::from_ymd_opt(a.year, a.month, a.day).unwrap();
    let y = chrono::NaiveDate::from_ymd_opt(b.year, b.month, b.day).unwrap();
    (x - y).num_days()
}

/// `date.format(pattern).to_string()`, for the three patterns that this
/// library uses: `%Y%m%d`, `%y-%m-%d` and `%a` (other patterns, such as time
/// fields, make chrono's formatting fail).
#[verifier::external_body]
pub(crate) fn format_date_as(date: Date, pattern: &str) -> (r: String)
    requires
        date.valid(),
        pattern@ == "%Y%m%d"@ || pattern@ == "%y-%m-%d"@ || pattern@ == "%a"@,
    ensures
        pattern@ == "%Y%m%d"@ ==> r@ == date_key(date),
        pattern@ == "%y-%m-%d"@ ==> r@ == short_date(date),
        pattern@ == "%a"@ ==> r@ == weekday_abbrev(weekday_index(date)),
{
    let d = chrono::NaiveDate::from_ymd_opt(date.year, date.month, date.day).unwrap();
    d.format(pattern).to_string()
}

} // verus!
