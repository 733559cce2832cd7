use todoj::highlight::{find_chars, highlight_keyword, search_goes_on, search_page, try_highlight_keyword};

const BLUE: &str = "\x1b[38;2;59;130;246m";
const RESET: &str = "\x1b[0m";

#[test]
fn highlights_the_first_match_ignoring_case() {
    assert_eq!(highlight_keyword("Buy Milk and milk", "milk"), format!("Buy {}Milk{} and milk", BLUE, RESET));
}

#[test]
fn highlights_korean_text() {
    assert_eq!(highlight_keyword("우유 사기", "사기"), format!("우유 {}사기{}", BLUE, RESET));
}

#[test]
fn no_keyword_or_no_match_leaves_text() {
    assert_eq!(highlight_keyword("abc", ""), "abc");
    assert_eq!(highlight_keyword("abc", "x"), "abc");
}

#[test]
fn match_at_the_start_and_end() {
    assert_eq!(highlight_keyword("Test", "TEST"), format!("{}Test{}", BLUE, RESET));
    assert_eq!(highlight_keyword("a b", "b"), format!("a {}b{}", BLUE, RESET));
}

#[test]
fn checked_highlight_where_lowercase_keeps_lengths() {
    assert_eq!(try_highlight_keyword("xİ", "x"), Some(format!("{}x{}İ", BLUE, RESET)));
    assert_eq!(try_highlight_keyword("abc", "zz"), Some("abc".to_string()));
}

#[test]
fn checked_highlight_refuses_what_cannot_be_sliced() {
    // lowercase `İ` takes three bytes where `İ` takes two
    assert_eq!(try_highlight_keyword("İx", "x"), None);
}

#[test]
fn find_counts_characters() {
    assert_eq!(find_chars("우유 사기", "사기"), Some(3));
    assert_eq!(find_chars("abc", ""), Some(0));
    assert_eq!(find_chars("abc", "d"), None);
    assert_eq!(find_chars("ab", "abc"), None);
}

#[test]
fn search_results_come_ten_at_a_time() {
    assert_eq!(search_page(25, 0), (0, 10));
    assert_eq!(search_page(25, 10), (10, 20));
    assert_eq!(search_page(25, 20), (20, 25));
    assert_eq!(search_page(5, 0), (0, 5));
    assert_eq!(search_page(5, 10), (5, 5));
}

#[test]
fn search_goes_on_until_q() {
    assert!(search_goes_on("\n"));
    assert!(search_goes_on(""));
    assert!(!search_goes_on("q\n"));
    assert!(!search_goes_on("  q "));
    assert!(search_goes_on("Q"));
    assert!(search_goes_on("quit"));
}
