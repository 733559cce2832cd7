use vstd::prelude::*;

verus! {

/// The characters that have the Unicode `White_Space` property, which is what
/// `char::is_whitespace` tests.
pub open spec fn is_ws(c: char) -> bool {
    let u = c as u32;
    ||| 0x09 <= u && u <= 0x0D
    ||| u == 0x20
    ||| u == 0x85
    ||| u == 0xA0
    ||| u == 0x1680
    ||| 0x2000 <= u && u <= 0x200A
    ||| u == 0x2028
    ||| u == 0x2029
    ||| u == 0x202F
    ||| u == 0x205F
    ||| u == 0x3000
}

/// Whether `c` is Unicode white space.
pub fn is_whitespace(c: char) -> (r: bool)
    ensures
        r == is_ws(c),
{
    let u = c as u32;
    (0x09 <= u && u <= 0x0D) || u == 0x20 || u == 0x85 || u == 0xA0 || u == 0x1680 || (0x2000
        <= u && u <= 0x200A) || u == 0x2028 || u == 0x2029 || u == 0x202F || u == 0x205F || u
        == 0x3000
}

/// The maximal runs of non-white-space characters of `s`, in order: what
/// `str::split_whitespace` yields.
pub open spec fn words(s: Seq<char>) -> Seq<Seq<char>>
    decreases s.len(),
{
    if s.len() == 0 {
        seq![]
    } else {
        let init = words(s.drop_last());
        let c = s.last();
        if is_ws(c) {
            init
        } else if s.len() >= 2 && !is_ws(s[s.len() - 2]) {
            init.drop_last().push(init.last().push(c))
        } else {
            init.push(seq![c])
        }
    }
}

/// Whether `w` holds no white space.
pub open spec fn no_ws(w: Seq<char>) -> bool {
    forall|j: int| 0 <= j < w.len() ==> !is_ws(#[trigger] w[j])
}

/// A word without white space, written after some text and a space, is the
/// last word of the whole.
pub proof fn lemma_words_after_space(s: Seq<char>, w: Seq<char>)
    requires
        w.len() > 0,
        no_ws(w),
    ensures
        words(s + seq![' '] + w) == words(s).push(w),
    decreases w.len(),
{
    let t = s + seq![' '] + w;
    let sp = s + seq![' '];
    assert(is_ws(' '));
    assert(sp.drop_last() =~= s);
    assert(words(sp) == words(s));
    if w.len() == 1 {
        assert(t.drop_last() =~= sp);
        assert(t.last() == w[0]);
        assert(t[t.len() - 2] == ' ');
        assert(seq![w[0]] =~= w);
    } else {
        let v = w.drop_last();
        assert(no_ws(v));
        lemma_words_after_space(s, v);
        assert(t.drop_last() =~= s + seq![' '] + v);
        assert(t.last() == w.last());
        assert(t[t.len() - 2] == w[w.len() - 2]);
        assert(v.push(w.last()) =~= w);
    }
}

/// A non-empty text without white space is a single word.
pub proof fn lemma_words_single(w: Seq<char>)
    requires
        w.len() > 0,
        no_ws(w),
    ensures
        words(w) == seq![w],
    decreases w.len(),
{
    if w.len() == 1 {
        assert(!is_ws(w[0]));
        assert(w.drop_last() =~= Seq::<char>::empty());
        assert(words(w.drop_last()) =~= Seq::<Seq<char>>::empty());
        assert(seq![w[0]] =~= w);
        assert(words(w) =~= seq![seq![w[0]]]);
    } else {
        let v = w.drop_last();
        assert(no_ws(v));
        lemma_words_single(v);
        assert(!is_ws(w[w.len() - 1]));
        assert(!is_ws(w[w.len() - 2]));
        assert(seq![v].drop_last() =~= Seq::<Seq<char>>::empty());
        assert(words(w) =~= seq![v.push(w.last())]);
        assert(v.push(w.last()) =~= w);
    }
}

/// The character sequences of a list of string slices.
pub open spec fn str_views(v: Seq<&str>) -> Seq<Seq<char>> {
    v.map_values(|t: &str| t@)
}

/// Splits `s` into its white-space separated words.
pub fn split_whitespace(s: &str) -> (r: Vec<&str>)
    ensures
        str_views(r@) == words(s@),
{
    let n = s.unicode_len();
    let mut out: Vec<&str> = Vec::new();
    let mut start: usize = 0;
    let mut in_word = false;
    let mut i: usize = 0;
    while i < n
        invariant
            n == s@.len(),
            start <= i <= n,
            in_word <==> (i > 0 && !is_ws(s@[i - 1])),
            in_word ==> start < i && str_views(out@).push(s@.subrange(start as int, i as int))
                =~= words(s@.take(i as int)),
            !in_word ==> str_views(out@) =~= words(s@.take(i as int)),
        decreases n - i,
    {
        let c = s.get_char(i);
        let ghost prev = s@.take(i as int);
        let ghost next = s@.take(i + 1);
        assert(next.drop_last() =~= prev);
        assert(next.last() == c);
        if is_whitespace(c) {
            if in_word {
                let w = s.substring_char(start, i);
                out.push(w);
                assert(str_views(out@) =~= str_views(out@.drop_last()).push(w@));
            }
            in_word = false;
        } else {
            if !in_word {
                start = i;
                in_word = true;
                assert(s@.subrange(start as int, i + 1) =~= seq![c]);
            } else {
                assert(next[next.len() - 2] == s@[i - 1]);
                assert(s@.subrange(start as int, i + 1) =~= s@.subrange(start as int, i as int).push(c));
            }
        }
        i = i + 1;
    }
    if in_word {
        let w = s.substring_char(start, n);
        out.push(w);
        assert(str_views(out@) =~= str_views(out@.drop_last()).push(w@));
    }
    assert(s@.take(n as int) =~= s@);
    out
}

/// The pieces of `s` between occurrences of `a` or `b`: what `str::split`
/// yields for a pattern that matches either character. There is always one
/// more piece than there are separators.
pub open spec fn pieces(s: Seq<char>, a: char, b: char) -> Seq<Seq<char>>
    decreases s.len(),
{
    if s.len() == 0 {
        seq![seq![]]
    } else {
        let init = pieces(s.drop_last(), a, b);
        let c = s.last();
        if c == a || c == b {
            init.push(seq![])
        } else {
            init.drop_last().push(init.last().push(c))
        }
    }
}

pub proof fn lemma_pieces_nonempty(s: Seq<char>, a: char, b: char)
    ensures
        pieces(s, a, b).len() >= 1,
    decreases s.len(),
{
    if s.len() > 0 {
        lemma_pieces_nonempty(s.drop_last(), a, b);
    }
}

/// Splits `s` at every occurrence of `a` or `b` (pass the same character twice
/// to split at one character).
pub fn split_at_either(s: &str, a: char, b: char) -> (r: Vec<&str>)
    ensures
        str_views(r@) == pieces(s@, a, b),
{
    let n = s.unicode_len();
    let mut out: Vec<&str> = Vec::new();
    let mut start: usize = 0;
    let mut i: usize = 0;
    assert(s@.take(0) =~= Seq::<char>::empty());
    assert(s@.subrange(0, 0) =~= Seq::<char>::empty());
    assert(str_views(out@) =~= Seq::<Seq<char>>::empty());
    while i < n
        invariant
            n == s@.len(),
            start <= i <= n,
            str_views(out@).push(s@.subrange(start as int, i as int)) =~= pieces(
                s@.take(i as int),
                a,
                b,
            ),
        decreases n - i,
    {
        let c = s.get_char(i);
        let ghost prev = s@.take(i as int);
        let ghost next = s@.take(i + 1);
        assert(next.drop_last() =~= prev);
        assert(next.last() == c);
        proof {
            lemma_pieces_nonempty(prev, a, b);
        }
        if c == a || c == b {
            let w = s.substring_char(start, i);
            out.push(w);
            assert(str_views(out@) =~= str_views(out@.drop_last()).push(w@));
            start = i + 1;
            assert(s@.subrange(start as int, i + 1) =~= Seq::<char>::empty());
        } else {
            assert(s@.subrange(start as int, i + 1) =~= s@.subrange(start as int, i as int).push(
                c,
            ));
        }
        i = i + 1;
    }
    let w = s.substring_char(start, n);
    out.push(w);
    assert(str_views(out@) =~= str_views(out@.drop_last()).push(w@));
    assert(s@.take(n as int) =~= s@);
    out
}

/// Whether `s` holds the character `c`.
pub fn has_char(s: &str, c: char) -> (r: bool)
    ensures
        r == s@.contains(c),
{
    let n = s.unicode_len();
    let mut i: usize = 0;
    while i < n
        invariant
            n == s@.len(),
            i <= n,
            forall|j: int| 0 <= j < i ==> s@[j] != c,
        decreases n - i,
    {
        if s.get_char(i) == c {
            return true;
        }
        i = i + 1;
    }
    false
}

/// Whether `s` begins with the character `c`.
pub fn first_char_is(s: &str, c: char) -> (r: bool)
    ensures
        r == (s@.len() > 0 && s@[0] == c),
{
    let n = s.unicode_len();
    n > 0 && s.get_char(0) == c
}

/// Whether `c` is one of the ASCII digits `0` to `9`.
pub open spec fn is_digit(c: char) -> bool {
    '0' <= c && c <= '9'
}

/// Whether every character of `s` is an ASCII digit (true of the empty sequence).
pub open spec fn all_digits(s: Seq<char>) -> bool {
    forall|i: int| 0 <= i < s.len() ==> is_digit(#[trigger] s[i])
}

/// The number that a sequence of decimal digits denotes.
pub open spec fn digits_value(s: Seq<char>) -> nat
    decreases s.len(),
{
    if s.len() == 0 {
        0
    } else {
        digits_value(s.drop_last()) * 10 + ((s.last() as u32) - ('0' as u32)) as nat
    }
}

/// The number that std's integer parsing reads from `s` for an unsigned type,
/// before the range check: an optional `+` followed by at least one ASCII digit.
pub open spec fn unsigned_text(s: Seq<char>) -> Option<nat> {
    let body = if s.len() > 0 && s[0] == '+' {
        s.drop_first()
    } else {
        s
    };
    if body.len() > 0 && all_digits(body) {
        Some(digits_value(body))
    } else {
        None
    }
}

/// The number that std's integer parsing reads from `s` for a signed type,
/// before the range check: an optional sign followed by at least one ASCII digit.
pub open spec fn signed_text(s: Seq<char>) -> Option<int> {
    if s.len() > 0 && s[0] == '-' {
        let body = s.drop_first();
        if body.len() > 0 && all_digits(body) {
            Some(-(digits_value(body) as int))
        } else {
            None
        }
    } else {
        match unsigned_text(s) {
            Some(v) => Some(v as int),
            None => None,
        }
    }
}

/// What `s.parse::<T>()` gives for an unsigned integer type whose largest value is `max`.
pub open spec fn parsed_unsigned(s: Seq<char>, max: int) -> Option<nat> {
    match unsigned_text(s) {
        Some(v) => if v <= max {
            Some(v)
        } else {
            None
        },
        None => None,
    }
}

/// What `s.parse::<T>()` gives for a signed integer type whose range is `min..=max`.
pub open spec fn parsed_signed(s: Seq<char>, min: int, max: int) -> Option<int> {
    match signed_text(s) {
        Some(v) => if min <= v <= max {
            Some(v)
        } else {
            None
        },
        None => None,
    }
}

/// Reads the digits of `s` from position `from` on, as long as the value stays
/// within `max`.
fn digits_upto(s: &str, from: usize, max: u64) -> (r: Option<u64>)
    requires
        from <= s@.len(),
    ensures
        match r {
            Some(v) => all_digits(s@.skip(from as int)) && v == digits_value(s@.skip(from as int))
                && v <= max,
            None => !all_digits(s@.skip(from as int)) || digits_value(s@.skip(from as int)) > max,
        },
{
    let n = s.unicode_len();
    let mut acc: u64 = 0;
    let mut i: usize = from;
    let mut overflow = false;
    while i < n
        invariant
            n == s@.len(),
            from <= i <= n,
            all_digits(s@.subrange(from as int, i as int)),
            !overflow ==> acc == digits_value(s@.subrange(from as int, i as int)) && acc <= max,
            overflow ==> digits_value(s@.subrange(from as int, i as int)) > max,
        decreases n - i,
    {
        let c = s.get_char(i);
        let ghost prev = s@.subrange(from as int, i as int);
        let ghost next = s@.subrange(from as int, i + 1);
        assert(next.drop_last() =~= prev);
        if !('0' <= c && c <= '9') {
            assert(s@.skip(from as int)[i - from] == c);
            return None;
        }
        let d = (c as u32 - '0' as u32) as u64;
        assert(digits_value(next) == digits_value(prev) * 10 + d);
        if !overflow {
            let wide = (acc as u128) * 10 + (d as u128);
            if wide > max as u128 {
                overflow = true;
            } else {
                acc = wide as u64;
            }
        } else {
            assert(digits_value(next) >= digits_value(prev)) by (nonlinear_arith)
                requires
                    digits_value(next) == digits_value(prev) * 10 + d,
            ;
        }
        assert(all_digits(next)) by {
            assert forall|j: int| 0 <= j < next.len() implies is_digit(#[trigger] next[j]) by {
                if j < prev.len() {
                    assert(next[j] == prev[j]);
                }
            }
        }
        i = i + 1;
    }
    assert(s@.subrange(from as int, n as int) =~= s@.skip(from as int));
    if overflow {
        None
    } else {
        Some(acc)
    }
}

/// Parses `s` as std does for an unsigned integer type whose largest value is `max`.
pub fn parse_unsigned(s: &str, max: u64) -> (r: Option<u64>)
    ensures
        match r {
            Some(v) => parsed_unsigned(s@, max as int) == Some(v as nat),
            None => parsed_unsigned(s@, max as int) is None,
        },
{
    let n = s.unicode_len();
    let from: usize = if n > 0 && s.get_char(0) == '+' {
        1
    } else {
        0
    };
    let ghost body = if s@.len() > 0 && s@[0] == '+' {
        s@.drop_first()
    } else {
        s@
    };
    assert(s@.skip(from as int) =~= body);
    if from == n {
        return None;
    }
    digits_upto(s, from, max)
}

/// `s.parse::<usize>()`, as an `Option`.
pub fn parse_usize(s: &str) -> (r: Option<usize>)
    ensures
        match r {
            Some(v) => parsed_unsigned(s@, usize::MAX as int) == Some(v as nat),
            None => parsed_unsigned(s@, usize::MAX as int) is None,
        },
{
    match parse_unsigned(s, usize::MAX as u64) {
        Some(v) => Some(v as usize),
        None => None,
    }
}

/// `s.parse::<u32>()`, as an `Option`.
pub fn parse_u32(s: &str) -> (r: Option<u32>)
    ensures
        match r {
            Some(v) => parsed_unsigned(s@, u32::MAX as int) == Some(v as nat),
            None => parsed_unsigned(s@, u32::MAX as int) is None,
        },
{
    match parse_unsigned(s, u32::MAX as u64) {
        Some(v) => Some(v as u32),
        None => None,
    }
}

/// `s.parse::<i32>()`, as an `Option`.
pub fn parse_i32(s: &str) -> (r: Option<i32>)
    ensures
        match r {
            Some(v) => parsed_signed(s@, i32::MIN as int, i32::MAX as int) == Some(v as int),
            None => parsed_signed(s@, i32::MIN as int, i32::MAX as int) is None,
        },
{
    let n = s.unicode_len();
    if n > 0 && s.get_char(0) == '-' {
        assert(s@.skip(1) =~= s@.drop_first());
        if n == 1 {
            return None;
        }
        match digits_upto(s, 1, 0x8000_0000u64) {
            Some(v) => {
                let neg: i64 = -(v as i64);
                Some(neg as i32)
            },
            None => None,
        }
    } else {
        match parse_unsigned(s, 0x7fff_ffffu64) {
            Some(v) => Some(v as i32),
            None => None,
        }
    }
}

/// The decimal digit character for `d` (0 to 9).
pub open spec fn digit_char(d: int) -> char {
    if d == 0 {
        '0'
    } else if d == 1 {
        '1'
    } else if d == 2 {
        '2'
    } else if d == 3 {
        '3'
    } else if d == 4 {
        '4'
    } else if d == 5 {
        '5'
    } else if d == 6 {
        '6'
    } else if d == 7 {
        '7'
    } else if d == 8 {
        '8'
    } else {
        '9'
    }
}

/// The digit character for `d`, which is below ten.
pub fn digit_to_char(d: u128) -> (c: char)
    requires
        d < 10,
    ensures
        c == digit_char(d as int),
{
    match d {
        0 => '0',
        1 => '1',
        2 => '2',
        3 => '3',
        4 => '4',
        5 => '5',
        6 => '6',
        7 => '7',
        8 => '8',
        _ => '9',
    }
}

/// The decimal representation of `n`, without sign or padding.
pub open spec fn decimal(n: nat) -> Seq<char>
    decreases n,
{
    if n < 10 {
        seq![digit_char(n as int)]
    } else {
        decimal(n / 10).push(digit_char((n % 10) as int))
    }
}

/// The decimal form of `n` is a nonempty run of digits that denotes `n`,
/// one digit long below 10, at most two below 100 and at most four below
/// 10000.
pub proof fn lemma_decimal_digits(n: nat)
    ensures
        all_digits(decimal(n)),
        digits_value(decimal(n)) == n,
        decimal(n).len() >= 1,
        n < 10 ==> decimal(n).len() == 1,
        n < 100 ==> decimal(n).len() <= 2,
        n < 1000 ==> decimal(n).len() <= 3,
        n < 10000 ==> decimal(n).len() <= 4,
    decreases n,
{
    if n >= 10 {
        lemma_decimal_digits(n / 10);
        let s = decimal(n / 10);
        let t = decimal(n);
        let c = digit_char((n % 10) as int);
        assert(t.drop_last() =~= s);
        assert(t.last() == c);
        assert forall|i: int| 0 <= i < t.len() implies is_digit(#[trigger] t[i]) by {
            if i < s.len() {
                assert(t[i] == s[i]);
            }
        }
        assert((c as u32) - ('0' as u32) == n % 10);
        assert(digits_value(t) == digits_value(s) * 10 + ((t.last() as u32) - ('0' as u32)) as nat);
        assert((n / 10) * 10 + n % 10 == n);
    } else {
        assert(decimal(n).drop_last() =~= Seq::<char>::empty());
        assert((digit_char(n as int) as u32) - ('0' as u32) == n);
        assert(digits_value(decimal(n)) == digits_value(decimal(n).drop_last()) * 10 + ((decimal(
            n,
        ).last() as u32) - ('0' as u32)) as nat);
    }
}

/// A `0` in front does not change the value of a run of digits.
pub proof fn lemma_leading_zero(t: Seq<char>)
    ensures
        digits_value(seq!['0'] + t) == digits_value(t),
    decreases t.len(),
{
    let z = seq!['0'] + t;
    if t.len() == 0 {
        assert(z.drop_last() =~= Seq::<char>::empty());
        assert(digits_value(z) == digits_value(z.drop_last()) * 10 + ((z.last() as u32) - ('0' as u32)) as nat);
    } else {
        lemma_leading_zero(t.drop_last());
        assert(z.drop_last() =~= seq!['0'] + t.drop_last());
        assert(z.last() == t.last());
        assert(digits_value(z) == digits_value(z.drop_last()) * 10 + ((z.last() as u32) - ('0' as u32)) as nat);
        assert(digits_value(t) == digits_value(t.drop_last()) * 10 + ((t.last() as u32) - ('0' as u32)) as nat);
    }
}

/// Every character of a run of digits takes one byte, so byte offsets and
/// character positions agree.
pub proof fn lemma_digits_byte_len(s: Seq<char>, k: int)
    requires
        all_digits(s),
        0 <= k <= s.len(),
    ensures
        byte_len(s.take(k)) == k,
        is_boundary(s, k),
        char_index(s, k) == k,
    decreases k,
{
    if k > 0 {
        lemma_digits_byte_len(s, k - 1);
        assert(s.take(k).drop_last() =~= s.take(k - 1));
        assert(is_digit(s[k - 1]));
    } else {
        assert(s.take(0) =~= Seq::<char>::empty());
    }
    lemma_char_index_unique(s, k, k);
}

/// Between two offsets of a run of digits lie the characters at those
/// positions.
pub proof fn lemma_digits_byte_slice(s: Seq<char>, a: int, b: int)
    requires
        all_digits(s),
        0 <= a <= b <= s.len(),
    ensures
        byte_slice(s, a, b) == s.subrange(a, b),
        is_boundary(s, a),
        is_boundary(s, b),
{
    lemma_digits_byte_len(s, a);
    lemma_digits_byte_len(s, b);
}

/// How `Display` writes the integer `v`: a `-` before negative values.
pub open spec fn signed_decimal(v: int) -> Seq<char> {
    if v < 0 {
        seq!['-'] + decimal((-v) as nat)
    } else {
        decimal(v as nat)
    }
}

/// Appends the character `c` to `s` (`String::push`).
#[verifier::external_body]
pub(crate) fn push_char(s: &mut String, c: char)
    ensures
        final(s)@ == old(s)@.push(c),
{
    s.push(c);
}

/// Writes `n` in decimal.
pub fn decimal_text(n: u128) -> (r: String)
    ensures
        r@ == decimal(n as nat),
{
    let mut digits: Vec<char> = Vec::new();
    let mut m = n;
    // digits are collected least significant first
    while m >= 10
        invariant
            decimal(n as nat) == decimal(m as nat) + digits@.reverse(),
        decreases m,
    {
        let d = m % 10;
        let c = digit_to_char(d);
        proof {
            assert(decimal(m as nat) == decimal((m / 10) as nat).push(digit_char(d as int)));
        }
        digits.push(c);
        assert(digits@.reverse() =~= seq![c] + digits@.drop_last().reverse());
        m = m / 10;
    }
    let c0 = digit_to_char(m);
    let mut out = String::new();
    push_char(&mut out, c0);
    let mut k = digits.len();
    while k > 0
        invariant
            k <= digits.len(),
            decimal(n as nat) == out@ + digits@.subrange(0, k as int).reverse(),
        decreases k,
    {
        k = k - 1;
        let ghost before = digits@.subrange(0, k + 1).reverse();
        assert(before =~= seq![digits@[k as int]] + digits@.subrange(0, k as int).reverse());
        push_char(&mut out, digits[k]);
    }
    assert(digits@.subrange(0, 0).reverse() =~= Seq::<char>::empty());
    out
}

/// Writes `v` in decimal, with a leading `-` when negative.
pub fn signed_decimal_text(v: i64) -> (r: String)
    ensures
        r@ == signed_decimal(v as int),
{
    if v < 0 {
        let mag: u64 = if v == i64::MIN {
            0x8000_0000_0000_0000u64
        } else {
            (-v) as u64
        };
        let mut out = String::new();
        push_char(&mut out, '-');
        let body = decimal_text(mag as u128);
        out.append(body.as_str());
        out
    } else {
        decimal_text(v as u128)
    }
}

/// Whether `a` and `b` hold the same characters.
pub fn same_text(a: &str, b: &str) -> (r: bool)
    ensures
        r == (a@ == b@),
{
    let n = a.unicode_len();
    let m = b.unicode_len();
    if n != m {
        return false;
    }
    let mut i: usize = 0;
    while i < n
        invariant
            n == a@.len(),
            m == b@.len(),
            n == m,
            i <= n,
            forall|j: int| 0 <= j < i ==> a@[j] == b@[j],
        decreases n - i,
    {
        if a.get_char(i) != b.get_char(i) {
            return false;
        }
        i = i + 1;
    }
    assert(a@ =~= b@);
    true
}

/// What `str::to_lowercase` gives for `s`: the Unicode lowercase mapping
/// (which for a final sigma looks at the neighbouring characters).
pub uninterp spec fn lowercase(s: Seq<char>) -> Seq<char>;

/// `str::to_lowercase`: the result depends on the characters of `s` alone.
#[verifier::external_body]
pub(crate) fn to_lowercase(s: &str) -> (r: String)
    ensures
        r@ == lowercase(s@),
{
    s.to_lowercase()
}

/// The string slices of `v` from position `from` on, copied into a new vector.
pub fn tail_from<'a>(v: &Vec<&'a str>, from: usize) -> (r: Vec<&'a str>)
    requires
        from <= v.len(),
    ensures
        r@ == v@.skip(from as int),
{
    let mut out: Vec<&'a str> = Vec::new();
    let mut i = from;
    while i < v.len()
        invariant
            from <= i <= v.len(),
            out@ =~= v@.subrange(from as int, i as int),
        decreases v.len() - i,
    {
        out.push(v[i]);
        i = i + 1;
    }
    out
}

/// How many bytes UTF-8 takes for `c`.
pub open spec fn char_width(c: char) -> nat {
    let u = c as u32;
    if u < 0x80 {
        1
    } else if u < 0x800 {
        2
    } else if u < 0x10000 {
        3
    } else {
        4
    }
}

/// How many bytes `s` takes in UTF-8: what `str::len` returns.
pub open spec fn byte_len(s: Seq<char>) -> nat
    decreases s.len(),
{
    if s.len() == 0 {
        0
    } else {
        byte_len(s.drop_last()) + char_width(s.last())
    }
}

/// Whether the byte offset `b` falls between two characters of `s` (or at an
/// end): where a `str` may be sliced.
pub open spec fn is_boundary(s: Seq<char>, b: int) -> bool {
    exists|k: int| 0 <= k <= s.len() && byte_len(s.take(k)) == b
}

/// Offset 0 is a boundary of every string.
pub proof fn lemma_start_is_boundary(s: Seq<char>)
    ensures
        is_boundary(s, 0),
{
    assert(s.take(0) =~= Seq::<char>::empty());
    assert(byte_len(s.take(0)) == 0);
}

/// The position of the character that starts at byte offset `b`.
pub open spec fn char_index(s: Seq<char>, b: int) -> int {
    choose|k: int| 0 <= k <= s.len() && byte_len(s.take(k)) == b
}

/// The characters between the byte offsets `a` and `b`: what `&s[a..b]` holds.
pub open spec fn byte_slice(s: Seq<char>, a: int, b: int) -> Seq<char> {
    s.subrange(char_index(s, a), char_index(s, b))
}

/// A longer prefix takes more bytes.
pub proof fn lemma_byte_len_grows(s: Seq<char>, i: int, j: int)
    requires
        0 <= i < j <= s.len(),
    ensures
        byte_len(s.take(i)) < byte_len(s.take(j)),
    decreases j - i,
{
    assert(s.take(j).drop_last() =~= s.take(j - 1));
    if i < j - 1 {
        lemma_byte_len_grows(s, i, j - 1);
    }
}

/// A prefix of `k` characters that takes `b` bytes ends at a boundary, and
/// `k` is the character position of that boundary.
pub proof fn lemma_char_index_unique(s: Seq<char>, b: int, k: int)
    requires
        0 <= k <= s.len(),
        byte_len(s.take(k)) == b,
    ensures
        is_boundary(s, b),
        char_index(s, b) == k,
{
    let c = char_index(s, b);
    assert(0 <= c <= s.len() && byte_len(s.take(c)) == b);
    if c < k {
        lemma_byte_len_grows(s, c, k);
    } else if k < c {
        lemma_byte_len_grows(s, k, c);
    }
}

/// The number of characters of `s` before byte offset `b`, if `b` is a boundary.
pub fn char_index_of(s: &str, b: u128) -> (r: Option<usize>)
    ensures
        match r {
            Some(k) => is_boundary(s@, b as int) && k == char_index(s@, b as int),
            None => !is_boundary(s@, b as int),
        },
{
    let n = s.unicode_len();
    let mut k: usize = 0;
    let mut at: u128 = 0;
    assert(s@.take(0) =~= Seq::<char>::empty());
    while k < n && at < b
        invariant
            n == s@.len(),
            k <= n,
            at == byte_len(s@.take(k as int)),
            at <= b || k == 0,
            forall|j: int| 0 <= j < k ==> byte_len(s@.take(j)) < b,
        decreases n - k,
    {
        let c = s.get_char(k);
        let u = c as u32;
        let w: u128 = if u < 0x80 {
            1
        } else if u < 0x800 {
            2
        } else if u < 0x10000 {
            3
        } else {
            4
        };
        assert(s@.take(k + 1).drop_last() =~= s@.take(k as int));
        if w > b - at {
            // the next boundary lies past `b`
            assert forall|j: int| 0 <= j <= n implies byte_len(#[trigger] s@.take(j)) != b by {
                if j <= k {
                    if j < k {
                        lemma_byte_len_grows(s@, j, k as int);
                    }
                } else {
                    if j > k + 1 {
                        lemma_byte_len_grows(s@, k + 1, j);
                    }
                }
            }
            return None;
        }
        at = at + w;
        k = k + 1;
    }
    if at == b {
        proof {
            lemma_char_index_unique(s@, b as int, k as int);
        }
        Some(k)
    } else {
        assert forall|j: int| 0 <= j <= n implies byte_len(#[trigger] s@.take(j)) != b by {
            if j > k {
                lemma_byte_len_grows(s@, k as int, j);
            }
        }
        None
    }
}

/// Whether the byte offset `b` is a boundary between characters of `s`.
pub fn is_boundary_at(s: &str, b: usize) -> (r: bool)
    ensures
        r == is_boundary(s@, b as int),
{
    char_index_of(s, b as u128).is_some()
}

/// Whether `s` takes at least `b` bytes in UTF-8.
pub fn byte_len_at_least(s: &str, b: usize) -> (r: bool)
    ensures
        r == (byte_len(s@) >= b),
{
    let n = s.unicode_len();
    let mut k: usize = 0;
    let mut at: u128 = 0;
    assert(s@.take(0) =~= Seq::<char>::empty());
    while k < n && at < b as u128
        invariant
            n == s@.len(),
            k <= n,
            at == byte_len(s@.take(k as int)),
            at < b + 4,
        decreases n - k,
    {
        let c = s.get_char(k);
        let u = c as u32;
        let w: u128 = if u < 0x80 {
            1
        } else if u < 0x800 {
            2
        } else if u < 0x10000 {
            3
        } else {
            4
        };
        assert(s@.take(k + 1).drop_last() =~= s@.take(k as int));
        at = at + w;
        k = k + 1;
    }
    proof {
        assert(s@.take(n as int) =~= s@);
        if k < n {
            lemma_byte_len_grows(s@, k as int, n as int);
        }
    }
    at >= b as u128
}

/// `&s[a..b]` for byte offsets that are boundaries with `a <= b`.
pub fn byte_range(s: &str, a: usize, b: usize) -> (r: &str)
    requires
        a <= b,
        is_boundary(s@, a as int),
        is_boundary(s@, b as int),
    ensures
        r@ == byte_slice(s@, a as int, b as int),
{
    let ka = char_index_of(s, a as u128).unwrap();
    let kb = char_index_of(s, b as u128).unwrap();
    proof {
        if kb < ka {
            lemma_byte_len_grows(s@, kb as int, ka as int);
        }
    }
    s.substring_char(ka, kb)
}

/// `n` copies of `c`.
pub open spec fn repeat(c: char, n: nat) -> Seq<char> {
    Seq::new(n, |i: int| c)
}

/// `s` right-aligned in a field of `width` characters, as `{:>width$}` writes it.
pub open spec fn left_pad(s: Seq<char>, width: nat) -> Seq<char> {
    if s.len() >= width {
        s
    } else {
        repeat(' ', (width - s.len()) as nat) + s
    }
}

/// Appends `s` right-aligned in a field of `width` characters.
pub fn push_right_aligned(out: &mut String, s: &str, width: usize)
    ensures
        final(out)@ == old(out)@ + left_pad(s@, width as nat),
{
    let n = s.unicode_len();
    if n < width {
        let mut k: usize = 0;
        while k < width - n
            invariant
                n == s@.len(),
                n < width,
                k <= width - n,
                out@ == old(out)@ + repeat(' ', k as nat),
            decreases width - n - k,
        {
            push_char(out, ' ');
            assert(repeat(' ', (k + 1) as nat) =~= repeat(' ', k as nat).push(' '));
            k = k + 1;
        }
    }
    out.append(s);
    proof {
        if n < width {
            assert(old(out)@ + repeat(' ', (width - n) as nat) + s@ =~= old(out)@ + (repeat(
                ' ',
                (width - n) as nat,
            ) + s@));
        }
    }
}

/// `s` without its leading white space.
pub open spec fn trim_front(s: Seq<char>) -> Seq<char>
    decreases s.len(),
{
    if s.len() > 0 && is_ws(s[0]) {
        trim_front(s.drop_first())
    } else {
        s
    }
}

/// `s` without its trailing white space.
pub open spec fn trim_back(s: Seq<char>) -> Seq<char>
    decreases s.len(),
{
    if s.len() > 0 && is_ws(s.last()) {
        trim_back(s.drop_last())
    } else {
        s
    }
}

/// `s` without leading and trailing white space: what `str::trim` gives.
pub open spec fn trimmed(s: Seq<char>) -> Seq<char> {
    trim_back(trim_front(s))
}

/// `str::trim`: `s` without leading and trailing white space.
pub fn trim(s: &str) -> (r: &str)
    ensures
        r@ == trimmed(s@),
{
    let n = s.unicode_len();
    let mut a: usize = 0;
    assert(s@.skip(0) =~= s@);
    while a < n && is_whitespace(s.get_char(a))
        invariant
            n == s@.len(),
            a <= n,
            trim_front(s@) == trim_front(s@.skip(a as int)),
        decreases n - a,
    {
        assert(s@.skip(a as int).drop_first() =~= s@.skip(a + 1));
        a = a + 1;
    }
    assert(trim_front(s@) == s@.subrange(a as int, n as int)) by {
        assert(s@.skip(a as int) =~= s@.subrange(a as int, n as int));
    }
    let mut b: usize = n;
    while b > a && is_whitespace(s.get_char(b - 1))
        invariant
            n == s@.len(),
            a <= b <= n,
            trim_back(s@.subrange(a as int, n as int)) == trim_back(s@.subrange(a as int, b as int)),
        decreases b,
    {
        assert(s@.subrange(a as int, b as int).drop_last() =~= s@.subrange(a as int, b - 1));
        b = b - 1;
    }
    s.substring_char(a, b)
}

} // verus!
