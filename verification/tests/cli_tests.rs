use todoj::cli::{normalize_cmd, parse_command, parse_list_range, parse_numbers};

#[test]
fn parse_command_splits_command_and_arguments() {
    let (cmd, args) = parse_command("add Buy milk -d 3/15 -p 2").unwrap();
    assert_eq!(cmd, "add");
    assert_eq!(args, vec!["Buy", "milk", "-d", "3/15", "-p", "2"]);
}

#[test]
fn parse_command_trims_surrounding_white_space() {
    let (cmd, args) = parse_command("   done   1,2  5 \n").unwrap();
    assert_eq!(cmd, "done");
    assert_eq!(args, vec!["1,2", "5"]);
}

#[test]
fn parse_command_of_blank_input_is_none() {
    assert!(parse_command("").is_none());
    assert!(parse_command("   \t \n").is_none());
}

#[test]
fn parse_command_normalizes_korean_shortcuts() {
    let (cmd, args) = parse_command("ㅁ 우유 사기").unwrap();
    assert_eq!(cmd, "add");
    assert_eq!(args, vec!["우유", "사기"]);
}

#[test]
fn normalize_cmd_maps_each_shortcut() {
    assert_eq!(normalize_cmd("ㅁ"), "add");
    assert_eq!(normalize_cmd("ㄷ"), "edit");
    assert_eq!(normalize_cmd("ㄱ"), "remove");
    assert_eq!(normalize_cmd("ㅇ"), "done");
    assert_eq!(normalize_cmd("ㅣ"), "list");
    assert_eq!(normalize_cmd("ㅊ"), "calendar");
    assert_eq!(normalize_cmd("ㅐ"), "order");
    assert_eq!(normalize_cmd("ㄴ"), "search");
    assert_eq!(normalize_cmd("ㅔ"), "past");
    assert_eq!(normalize_cmd("ㅗ"), "help");
    assert_eq!(normalize_cmd("ㅂ"), "quit");
}

#[test]
fn normalize_cmd_compares_lowercase_but_keeps_other_words() {
    assert_eq!(normalize_cmd("P"), "past");
    assert_eq!(normalize_cmd("p"), "past");
    assert_eq!(normalize_cmd("SEARCH"), "search");
    assert_eq!(normalize_cmd("ADD"), "ADD");
    assert_eq!(normalize_cmd("list"), "list");
}

#[test]
fn parse_numbers_single_number() {
    assert_eq!(parse_numbers("1"), vec![1]);
}

#[test]
fn parse_numbers_comma_separated() {
    assert_eq!(parse_numbers("1,3,5"), vec![1, 3, 5]);
}

#[test]
fn parse_numbers_range() {
    assert_eq!(parse_numbers("2-4"), vec![2, 3, 4]);
    assert_eq!(parse_numbers("2-5"), vec![2, 3, 4, 5]);
}

#[test]
fn parse_numbers_mixed() {
    assert_eq!(parse_numbers("1,3-5,7"), vec![1, 3, 4, 5, 7]);
}

#[test]
fn parse_numbers_skips_parts_that_are_not_numbers() {
    assert_eq!(parse_numbers("a,2"), vec![2]);
    assert_eq!(parse_numbers("1-2-3"), Vec::<usize>::new());
    assert_eq!(parse_numbers("5-3"), Vec::<usize>::new());
    assert_eq!(parse_numbers(""), Vec::<usize>::new());
    assert_eq!(parse_numbers("-3"), Vec::<usize>::new());
}

#[test]
fn parse_list_range_limit_only() {
    assert_eq!(parse_list_range(&["10"]), (Some(10), None, None, None));
}

#[test]
fn parse_list_range_page() {
    assert_eq!(parse_list_range(&["10/2"]), (Some(10), Some(2), None, None));
}

#[test]
fn parse_list_range_range() {
    assert_eq!(parse_list_range(&["3-5"]), (None, None, Some(3), Some(5)));
}

#[test]
fn parse_list_range_without_arguments() {
    assert_eq!(parse_list_range(&[]), (None, None, None, None));
    assert_eq!(parse_list_range(&["x"]), (None, None, None, None));
}

#[test]
fn parse_list_range_later_arguments_win() {
    assert_eq!(parse_list_range(&["10", "5"]), (Some(5), None, None, None));
    assert_eq!(parse_list_range(&["x/3"]), (None, Some(3), None, None));
    assert_eq!(parse_list_range(&["3-x"]), (None, None, Some(3), None));
}

#[test]
fn korean_shortcut_for_more() {
    assert_eq!(normalize_cmd("ㅡ"), "more");
    assert_eq!(normalize_cmd("m"), "m");
}
