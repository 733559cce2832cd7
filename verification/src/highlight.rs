use vstd::prelude::*;

use crate::listing::RESET;
use crate::text::{
    byte_len, byte_slice, char_index, char_index_of, char_width, is_boundary, lemma_byte_len_grows,
    lemma_char_index_unique, lowercase, same_text, to_lowercase, trim, trimmed,
};

verus! {

/// How many search results one page shows.
pub const SEARCH_PAGE: usize = 10;

/// The results shown on the page that starts after the first `shown` of
/// `total` results: from `start` to `end`, at most `SEARCH_PAGE` of them.
pub fn search_page(total: usize, shown: usize) -> (r: (usize, usize))
    ensures
        r.0 == (if shown < total {
            shown
        } else {
            total
        }),
        r.1 == (if shown + SEARCH_PAGE < total {
            shown + SEARCH_PAGE
        } else {
            total as int
        }),
{
    let start = if shown < total {
        shown
    } else {
        total
    };
    let end = if total - start > SEARCH_PAGE {
        start + SEARCH_PAGE
    } else {
        total
    };
    (start, end)
}

/// Whether the reply to a page of search results asks for the next page:
/// anything but `q` (surrounding white space aside) goes on.
pub fn search_goes_on(reply: &str) -> (r: bool)
    ensures
        r == (trimmed(reply@) != "q"@),
{
    !same_text(trim(reply), "q")
}

/// Blue, for a search match.
pub const MATCH_COLOR: &'static str = "\x1b[38;2;59;130;246m";

/// Whether `needle` occurs in `hay` at character position `i`.
pub open spec fn occurs_at(hay: Seq<char>, needle: Seq<char>, i: int) -> bool {
    0 <= i && i + needle.len() <= hay.len() && hay.subrange(i, i + needle.len()) == needle
}

/// The first character position, from `i` on, at which `needle` occurs in
/// `hay`: where `str::find` finds it, counted in characters.
pub open spec fn find_from(hay: Seq<char>, needle: Seq<char>, i: int) -> Option<int>
    decreases hay.len() + 1 - i,
{
    if i < 0 || i + needle.len() > hay.len() {
        None
    } else if occurs_at(hay, needle, i) {
        Some(i)
    } else {
        find_from(hay, needle, i + 1)
    }
}

/// Whether `needle` occurs in `hay` at character position `i`.
fn matches_at(hay: &str, needle: &str, i: usize) -> (r: bool)
    requires
        i + needle@.len() <= hay@.len(),
    ensures
        r == occurs_at(hay@, needle@, i as int),
{
    let _hn = hay.unicode_len();
    let nn = needle.unicode_len();
    let mut k: usize = 0;
    while k < nn
        invariant
            nn == needle@.len(),
            i + nn <= hay@.len() <= usize::MAX,
            k <= nn,
            forall|q: int| 0 <= q < k ==> hay@[i + q] == needle@[q],
        decreases nn - k,
    {
        if hay.get_char(i + k) != needle.get_char(k) {
            assert(hay@.subrange(i as int, i + nn)[k as int] != needle@[k as int]);
            return false;
        }
        k = k + 1;
    }
    assert(hay@.subrange(i as int, i + nn) =~= needle@);
    true
}

/// The first character position at which `needle` occurs in `hay`.
pub fn find_chars(hay: &str, needle: &str) -> (r: Option<usize>)
    ensures
        match r {
            Some(k) => find_from(hay@, needle@, 0) == Some(k as int),
            None => find_from(hay@, needle@, 0) is None,
        },
{
    let hn = hay.unicode_len();
    let nn = needle.unicode_len();
    if nn > hn {
        return None;
    }
    let last = hn - nn;
    let mut i: usize = 0;
    loop
        invariant
            hn == hay@.len(),
            nn == needle@.len(),
            last == hn - nn,
            i <= last,
            find_from(hay@, needle@, 0) == find_from(hay@, needle@, i as int),
        decreases last - i,
    {
        if matches_at(hay, needle, i) {
            return Some(i);
        }
        if i == last {
            return None;
        }
        i = i + 1;
    }
}

/// A match found from position `i` on lies at or after `i` and fits in `hay`.
pub proof fn lemma_find_from_fits(hay: Seq<char>, needle: Seq<char>, i: int)
    ensures
        find_from(hay, needle, i) matches Some(k) ==> i <= k && occurs_at(hay, needle, k),
    decreases hay.len() + 1 - i,
{
    if !(i < 0 || i + needle.len() > hay.len()) && !occurs_at(hay, needle, i) {
        lemma_find_from_fits(hay, needle, i + 1);
    }
}

/// How many bytes the first `k` characters of `s` take in UTF-8.
pub fn prefix_byte_len(s: &str, k: usize) -> (r: u128)
    requires
        k <= s@.len(),
    ensures
        r == byte_len(s@.take(k as int)),
        r <= 4 * k,
{
    let mut at: u128 = 0;
    let mut j: usize = 0;
    assert(s@.take(0) =~= Seq::<char>::empty());
    while j < k
        invariant
            j <= k <= s@.len(),
            at == byte_len(s@.take(j as int)),
            at <= 4 * j,
        decreases k - j,
    {
        let c = s.get_char(j);
        let u = c as u32;
        let w: u128 = if u < 0x80 {
            1
        } else if u < 0x800 {
            2
        } else if u < 0x10000 {
            3
        } else {
            4
        };
        assert(s@.take(j + 1).drop_last() =~= s@.take(j as int));
        assert(w == char_width(c));
        at = at + w;
        j = j + 1;
    }
    at
}

/// Where the match lies in `text`, in bytes: the start of the first
/// occurrence of `lower_keyword` in `lower_text`, and that start plus the
/// byte length of `keyword`.
pub open spec fn match_bytes(
    text: Seq<char>,
    keyword: Seq<char>,
    lower_text: Seq<char>,
    lower_keyword: Seq<char>,
) -> Option<(int, int)> {
    match find_from(lower_text, lower_keyword, 0) {
        None => None,
        Some(ci) => {
            let a = byte_len(lower_text.take(ci)) as int;
            Some((a, a + byte_len(keyword)))
        },
    }
}

/// Whether highlighting can slice `text` where the match lies: an empty
/// keyword, no match, or both ends of the match on character boundaries of
/// `text`.
pub open spec fn highlight_fits(
    text: Seq<char>,
    keyword: Seq<char>,
    lower_text: Seq<char>,
    lower_keyword: Seq<char>,
) -> bool {
    keyword.len() == 0 || match match_bytes(text, keyword, lower_text, lower_keyword) {
        None => true,
        Some((a, b)) => is_boundary(text, a) && is_boundary(text, b),
    }
}

/// `text` with the first match of the keyword colored, given the lowercase
/// forms in which the match is searched: unchanged for an empty keyword or
/// no match.
pub open spec fn highlighted(
    text: Seq<char>,
    keyword: Seq<char>,
    lower_text: Seq<char>,
    lower_keyword: Seq<char>,
) -> Seq<char> {
    if keyword.len() == 0 {
        text
    } else {
        match match_bytes(text, keyword, lower_text, lower_keyword) {
            None => text,
            Some((a, b)) => byte_slice(text, 0, a) + MATCH_COLOR@ + byte_slice(text, a, b) + RESET@
                + byte_slice(text, b, byte_len(text) as int),
        }
    }
}

/// Where the match lies in `text`, in characters, when it can be sliced.
fn match_chars(text: &str, keyword: &str, lower_text: &str, lower_keyword: &str) -> (r: Option<
    Option<(usize, usize)>,
>)
    requires
        keyword@.len() > 0,
    ensures
        match r {
            None => !highlight_fits(text@, keyword@, lower_text@, lower_keyword@),
            Some(None) => match_bytes(text@, keyword@, lower_text@, lower_keyword@) is None,
            Some(Some((x, y))) => {
                &&& match_bytes(text@, keyword@, lower_text@, lower_keyword@) matches Some((a, b))
                &&& is_boundary(text@, a) && is_boundary(text@, b)
                &&& x == char_index(text@, a) && y == char_index(text@, b)
            },
        },
{
    match find_chars(lower_text, lower_keyword) {
        None => Some(None),
        Some(ci) => {
            proof {
                lemma_find_from_fits(lower_text@, lower_keyword@, 0);
            }
            let a = prefix_byte_len(lower_text, ci);
            let kn = keyword.unicode_len();
            let kb = prefix_byte_len(keyword, kn);
            assert(keyword@.take(kn as int) =~= keyword@);
            let b = a + kb;
            match (char_index_of(text, a), char_index_of(text, b)) {
                (Some(x), Some(y)) => Some(Some((x, y))),
                _ => None,
            }
        },
    }
}

/// `text` with the first match colored, given the lowercase forms in which
/// the match is searched.
pub fn highlight_with(text: &str, keyword: &str, lower_text: &str, lower_keyword: &str) -> (r: String)
    requires
        highlight_fits(text@, keyword@, lower_text@, lower_keyword@),
    ensures
        r@ == highlighted(text@, keyword@, lower_text@, lower_keyword@),
{
    if keyword.unicode_len() == 0 {
        return String::from_str(text);
    }
    match match_chars(text, keyword, lower_text, lower_keyword) {
        Some(Some((x, y))) => {
            let n = text.unicode_len();
            proof {
                lemma_char_index_unique(text@, 0, 0);
                assert(text@.take(n as int) =~= text@);
                lemma_char_index_unique(text@, byte_len(text@) as int, n as int);
                assert(text@.take(0) =~= Seq::<char>::empty());
                if y < x {
                    lemma_byte_len_grows(text@, y as int, x as int);
                }
            }
            let mut out = String::from_str(text.substring_char(0, x));
            out.append(MATCH_COLOR);
            out.append(text.substring_char(x, y));
            out.append(RESET);
            out.append(text.substring_char(y, n));
            out
        },
        _ => String::from_str(text),
    }
}

/// Highlight keyword in text with blue color: the first place where the
/// lowercase keyword occurs in the lowercase text, carried over to `text`
/// by byte offset.
pub fn highlight_keyword(text: &str, keyword: &str) -> (r: String)
    requires
        highlight_fits(text@, keyword@, lowercase(text@), lowercase(keyword@)),
    ensures
        r@ == highlighted(text@, keyword@, lowercase(text@), lowercase(keyword@)),
{
    if keyword.unicode_len() == 0 {
        return String::from_str(text);
    }
    let lower_text = to_lowercase(text);
    let lower_keyword = to_lowercase(keyword);
    highlight_with(text, keyword, lower_text.as_str(), lower_keyword.as_str())
}

/// `highlight_keyword` where the match can be sliced out of `text`; `None`
/// where it cannot (the lowercase forms take other byte lengths).
pub fn try_highlight_keyword(text: &str, keyword: &str) -> (r: Option<String>)
    ensures
        match r {
            Some(s) => highlight_fits(text@, keyword@, lowercase(text@), lowercase(keyword@)) && s@
                == highlighted(text@, keyword@, lowercase(text@), lowercase(keyword@)),
            None => !highlight_fits(text@, keyword@, lowercase(text@), lowercase(keyword@)),
        },
{
    if keyword.unicode_len() == 0 {
        return Some(String::from_str(text));
    }
    let lower_text = to_lowercase(text);
    let lower_keyword = to_lowercase(keyword);
    match match_chars(text, keyword, lower_text.as_str(), lower_keyword.as_str()) {
        None => None,
        Some(_) => Some(highlight_keyword(text, keyword)),
    }
}

/// Highlighting only adds color codes: without the two codes, the
/// highlighted text is the text itself (and with no match, or an empty
/// keyword, nothing is added).
pub proof fn lemma_highlight_adds_only_colors(
    text: Seq<char>,
    keyword: Seq<char>,
    lower_text: Seq<char>,
    lower_keyword: Seq<char>,
)
    requires
        highlight_fits(text, keyword, lower_text, lower_keyword),
    ensures
        keyword.len() == 0 || match_bytes(text, keyword, lower_text, lower_keyword) is None
            ==> highlighted(text, keyword, lower_text, lower_keyword) == text,
        keyword.len() > 0 ==> (match_bytes(text, keyword, lower_text, lower_keyword) matches Some((a, b))
            ==> byte_slice(text, 0, a) + byte_slice(text, a, b) + byte_slice(
            text,
            b,
            byte_len(text) as int,
        ) == text),
{
    if keyword.len() > 0 {
        if let Some((a, b)) = match_bytes(text, keyword, lower_text, lower_keyword) {
            let n = text.len() as int;
            lemma_char_index_unique(text, 0, 0);
            assert(text.take(0) =~= Seq::<char>::empty());
            assert(text.take(n) =~= text);
            lemma_char_index_unique(text, byte_len(text) as int, n);
            let x = char_index(text, a);
            let y = char_index(text, b);
            assert(0 <= x <= n && byte_len(text.take(x)) == a);
            assert(0 <= y <= n && byte_len(text.take(y)) == b);
            if y < x {
                lemma_byte_len_grows(text, y, x);
            }
            assert(text.subrange(0, x) + text.subrange(x, y) + text.subrange(y, n) =~= text);
        }
    }
}

} // verus!
