use structured_json_pipeline::proximity::assign::{build_pairs, greedy_assign};
use structured_json_pipeline::cleanup::clean_json_blocks;
use structured_json_pipeline::gliner::quotes::expand_to_quote;
use structured_json_pipeline::proximity::words::{clean_number, parses_as_decimal};
use structured_json_pipeline::text::{lowercase_chars, split_chars, str_chars, trim_chars, Separator};

#[test]
fn lowercase_of_mixed_text() {
    assert_eq!(lowercase_chars("HeLLo WORLD"), str_chars("hello world"));
    assert_eq!(lowercase_chars("ÀB"), vec!['à', 'b']);
}

#[test]
fn whitespace_separates_name_parts() {
    let parts = split_chars(&str_chars("a\tb c"), Separator::NamePart);
    let parts: Vec<String> = parts.iter().map(|p| p.iter().collect()).collect();
    assert_eq!(parts, vec!["a", "b", "c"]);
}

#[test]
fn alphanumeric_characters_are_kept_together() {
    let parts = split_chars(&str_chars("x7é-y"), Separator::NonAlphanumeric);
    let parts: Vec<String> = parts.iter().map(|p| p.iter().collect()).collect();
    assert_eq!(parts, vec!["x7é", "y"]);
}

#[test]
fn apostrophe_between_letters_is_no_quote() {
    assert_eq!(expand_to_quote("it's 'tea'", 6, 9), Some("tea".to_string()));
    assert_eq!(expand_to_quote("it'3 'tea'", 0, 2), Some("3".to_string()));
}

#[test]
fn numeric_characters_are_kept_by_cleaning() {
    assert_eq!(clean_number(&str_chars("a1\u{663}b")), vec!['1', '\u{663}']);
    assert!(!parses_as_decimal(&vec!['1', '\u{663}']));
    assert!(parses_as_decimal(&str_chars("-12.5")));
}

#[test]
fn chars_round_trip() {
    assert_eq!(str_chars("añb"), vec!['a', 'ñ', 'b']);
    assert_eq!(clean_json_blocks("ok"), "ok");
}

#[test]
fn trim_both_ends() {
    assert_eq!(trim_chars(&str_chars("  a b \n")), vec!['a', ' ', 'b']);
    assert_eq!(trim_chars(&str_chars("   ")), Vec::<char>::new());
}

#[test]
fn split_on_name_separators() {
    let parts = split_chars(&str_chars("unit_price-usd now"), Separator::NamePart);
    let parts: Vec<String> = parts.iter().map(|p| p.iter().collect()).collect();
    assert_eq!(parts, vec!["unit", "price", "usd", "now"]);
}

#[test]
fn split_keeps_empty_pieces() {
    let parts = split_chars(&str_chars("a, b"), Separator::NonAlphanumeric);
    let parts: Vec<String> = parts.iter().map(|p| p.iter().collect()).collect();
    assert_eq!(parts, vec!["a", "", "b"]);
}

#[test]
fn greedy_assignment_is_one_to_one() {
    let rows = vec![vec![5, 1], vec![2, 3]];
    let pairs = build_pairs(&rows);
    assert_eq!(greedy_assign(pairs, 2, 2), vec![Some(1), Some(0)]);
}

#[test]
fn greedy_assignment_breaks_ties_in_list_order() {
    let rows = vec![vec![4, 4], vec![4, 9]];
    let pairs = build_pairs(&rows);
    assert_eq!(greedy_assign(pairs, 2, 2), vec![Some(0), Some(1)]);
}

#[test]
fn greedy_assignment_leaves_fields_without_candidates() {
    let rows = vec![vec![3], vec![1]];
    let pairs = build_pairs(&rows);
    assert_eq!(greedy_assign(pairs, 2, 1), vec![None, Some(0)]);
}
