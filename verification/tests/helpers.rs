use aoc_tree::algorithm::{contains_all, get_first_not_in_set, has_only_unique};
use aoc_tree::direction::Direction;
use aoc_tree::lines::{foreach_line, foreach_linegroup};
use aoc_tree::sums::checked_total;
use aoc_tree::text::{
    chars_of, find_char, is_text, is_whitespace, parse_i32, parse_u128, parse_u32, parse_usize, same_text, slice_of,
    split_once, split_once_str, split_whitespace, trim,
};
use aoc_tree::window_iter::make_window_iter;
use std::collections::HashSet;

fn lines(text: &[&str]) -> Vec<String> {
    text.iter().map(|s| s.to_string()).collect()
}

fn chars(text: &str) -> Vec<char> {
    text.chars().collect()
}

#[test]
fn unique_items_are_told_from_repeated_ones() {
    assert!(has_only_unique(&[1u8, 2, 3, 4]));
    assert!(!has_only_unique(&[1u8, 2, 3, 1]));
    assert!(!has_only_unique(&[7u32, 7]));
    assert!(has_only_unique::<u64>(&[]));
    assert!(has_only_unique(&[b'j', b'p', b'q', b'm']));
    assert!(!has_only_unique(&[b'm', b'j', b'q', b'j']));
}

#[test]
fn a_set_holds_all_needles_or_not() {
    let haystack: HashSet<u32> = [1, 2, 3].into_iter().collect();
    assert!(contains_all(&haystack, &[3, 1]));
    assert!(contains_all(&haystack, &[]));
    assert!(!contains_all(&haystack, &[1, 4]));
}

#[test]
fn the_first_missing_needle_is_found() {
    let haystack: HashSet<u32> = [1, 2, 3].into_iter().collect();
    assert_eq!(Some(9), get_first_not_in_set(&haystack, &[1, 9, 3, 8]));
    assert_eq!(None, get_first_not_in_set(&haystack, &[1, 2, 3, 1]));
    assert_eq!(None, get_first_not_in_set(&haystack, &[]));
}

#[test]
fn directions_come_in_a_fixed_order() {
    assert_eq!([Direction::Up, Direction::Left, Direction::Down, Direction::Right], Direction::iter());
}

#[test]
fn opposite_turns_round() {
    assert_eq!(Direction::Down, Direction::Up.opposite());
    assert_eq!(Direction::Up, Direction::Down.opposite());
    assert_eq!(Direction::Left, Direction::Right.opposite());
    assert_eq!(Direction::Right, Direction::Left.opposite());
    for d in Direction::iter() {
        assert_eq!(d, d.opposite().opposite());
        assert!(d != d.opposite());
    }
}

#[test]
fn the_default_direction_is_down() {
    assert_eq!(Direction::Down, Direction::default());
}

#[test]
fn a_direction_is_read_from_its_letter() {
    assert_eq!(Some(Direction::Up), Direction::from_letter("U"));
    assert_eq!(Some(Direction::Down), Direction::from_letter("D"));
    assert_eq!(Some(Direction::Left), Direction::from_letter("L"));
    assert_eq!(Some(Direction::Right), Direction::from_letter("R"));
    assert_eq!(None, Direction::from_letter("u"));
    assert_eq!(None, Direction::from_letter("UD"));
    assert_eq!(None, Direction::from_letter(""));
}

#[test]
fn windows_slide_by_one_byte() {
    let mut iter = make_window_iter::<3>(vec![1, 2, 3, 4, 5]);
    assert_eq!(Some([1, 2, 3]), iter.next());
    assert_eq!(Some([2, 3, 4]), iter.next());
    assert_eq!(Some([3, 4, 5]), iter.next());
    assert_eq!(None, iter.next());
    assert_eq!(None, iter.next());
}

#[test]
fn a_source_shorter_than_the_window_gives_nothing() {
    let mut iter = make_window_iter::<4>(vec![1, 2, 3]);
    assert_eq!(None, iter.next());
    assert_eq!(None, iter.next());
    let mut empty = make_window_iter::<1>(vec![]);
    assert_eq!(None, empty.next());
}

#[test]
fn a_window_of_one_byte_hands_out_every_byte() {
    let mut iter = make_window_iter::<1>(vec![9, 8]);
    assert_eq!(Some([9]), iter.next());
    assert_eq!(Some([8]), iter.next());
    assert_eq!(None, iter.next());
}

#[test]
fn every_line_is_handed_to_the_callback() {
    let input = lines(&["a", "", "ccc"]);
    let lengths = foreach_line(&input, |line| line.len());
    assert_eq!(vec![1, 0, 3], lengths);
    let mut seen = String::new();
    foreach_line(&input, |line| seen.push_str(line));
    assert_eq!("accc", seen);
}

#[test]
fn lines_are_grouped_and_leftovers_dropped() {
    let input = lines(&["a", "b", "c", "d", "e", "f", "g"]);
    let groups = foreach_linegroup(&input, 3, |group| group.join(""));
    assert_eq!(vec!["abc", "def"], groups);
    let pairs = foreach_linegroup(&input, 2, |group| group.len());
    assert_eq!(vec![2, 2, 2], pairs);
    let none = foreach_linegroup(&input, 0, |group| group.len());
    assert!(none.is_empty());
    let too_few = foreach_linegroup(&input, 8, |group| group.len());
    assert!(too_few.is_empty());
}

#[test]
fn costs_are_added_up_unless_one_is_missing() {
    assert_eq!(Some(0), checked_total(&vec![]));
    assert_eq!(Some(6), checked_total(&vec![Some(1), Some(2), Some(3)]));
    assert_eq!(None, checked_total(&vec![Some(1), None, Some(3)]));
    assert_eq!(Some(u32::MAX), checked_total(&vec![Some(u32::MAX - 1), Some(1)]));
    assert_eq!(None, checked_total(&vec![Some(u32::MAX), Some(1)]));
}

#[test]
fn characters_and_slices() {
    assert_eq!(vec!['a', 'ß', 'c'], chars_of("aßc"));
    assert!(chars_of("").is_empty());
    assert_eq!(vec!['b', 'c'], slice_of(&chars("abcd"), 1, 3));
    assert!(slice_of(&chars("abcd"), 2, 2).is_empty());
    assert!(same_text("abc", "abc"));
    assert!(!same_text("abc", "abd"));
    assert!(is_text(&chars("abc"), "abc"));
    assert!(!is_text(&chars("abc"), "ab"));
    assert!(!is_text(&chars("abc"), "abx"));
}

#[test]
fn text_is_split_at_the_first_separator() {
    assert_eq!(Some(1), find_char(&chars("a-b-c"), '-'));
    assert_eq!(None, find_char(&chars("abc"), '-'));
    assert_eq!(Some((chars("a"), chars("b-c"))), split_once(&chars("a-b-c"), '-'));
    assert_eq!(Some((chars(""), chars(""))), split_once(&chars("-"), '-'));
    assert_eq!(None, split_once(&chars("abc"), '-'));
    assert_eq!(Some(("ä", "b c")), split_once_str("ä b c", ' '));
    assert_eq!(None, split_once_str("abc", ' '));
}

#[test]
fn unsigned_numbers_are_parsed() {
    assert_eq!(Some(0), parse_u32(&chars("0")));
    assert_eq!(Some(42), parse_u32(&chars("42")));
    assert_eq!(Some(42), parse_u32(&chars("+42")));
    assert_eq!(Some(7), parse_u32(&chars("007")));
    assert_eq!(Some(4294967295), parse_u32(&chars("4294967295")));
    assert_eq!(None, parse_u32(&chars("4294967296")));
    assert_eq!(None, parse_u32(&chars("")));
    assert_eq!(None, parse_u32(&chars("+")));
    assert_eq!(None, parse_u32(&chars("-1")));
    assert_eq!(None, parse_u32(&chars("1 ")));
    assert_eq!(None, parse_u32(&chars("1a")));
    assert_eq!(Some(u128::MAX), parse_u128(&chars("340282366920938463463374607431768211455")));
    assert_eq!(None, parse_u128(&chars("340282366920938463463374607431768211456")));
    assert_eq!(Some(123), parse_usize(&chars("123")));
    assert_eq!(None, parse_usize(&chars("99999999999999999999999999")));
}

#[test]
fn signed_numbers_are_parsed() {
    assert_eq!(Some(-5), parse_i32(&chars("-5")));
    assert_eq!(Some(5), parse_i32(&chars("+5")));
    assert_eq!(Some(5), parse_i32(&chars("5")));
    assert_eq!(Some(0), parse_i32(&chars("-0")));
    assert_eq!(Some(i32::MIN), parse_i32(&chars("-2147483648")));
    assert_eq!(Some(i32::MAX), parse_i32(&chars("2147483647")));
    assert_eq!(None, parse_i32(&chars("2147483648")));
    assert_eq!(None, parse_i32(&chars("-2147483649")));
    assert_eq!(None, parse_i32(&chars("-")));
    assert_eq!(None, parse_i32(&chars("--1")));
    assert_eq!(None, parse_i32(&chars("")));
}

#[test]
fn white_space_splits_words() {
    assert!(is_whitespace(' '));
    assert!(is_whitespace('\t'));
    assert!(is_whitespace('\n'));
    assert!(is_whitespace('\u{a0}'));
    assert!(is_whitespace('\u{3000}'));
    assert!(!is_whitespace('a'));
    assert!(!is_whitespace('\u{200b}'));
    assert_eq!(vec![chars("move"), chars("1"), chars("to")], split_whitespace(&chars("  move 1\t\tto ")));
    assert!(split_whitespace(&chars("   ")).is_empty());
    assert!(split_whitespace(&chars("")).is_empty());
    assert_eq!(vec![chars("x")], split_whitespace(&chars("x")));
    for text in ["a b", " a  b ", "", "  ", "one\ttwo\nthree", "\u{a0}x\u{2003}y"] {
        let expected: Vec<Vec<char>> = text.split_whitespace().map(|w| w.chars().collect()).collect();
        assert_eq!(expected, split_whitespace(&chars(text)));
    }
}

#[test]
fn trim_takes_white_space_off_both_ends() {
    assert_eq!(chars("a b"), trim(&chars("  a b \n")));
    assert_eq!(chars("a"), trim(&chars("a")));
    assert!(trim(&chars(" \t ")).is_empty());
    assert!(trim(&chars("")).is_empty());
    for text in ["R 4", " R 4", "R 4  ", "\t x ", "   "] {
        assert_eq!(chars(text.trim()), trim(&chars(text)));
    }
}
