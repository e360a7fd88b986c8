use aoc_tree::days::day4::{number_any_overlaps, number_full_overlaps, parse_rangepair, Range};

#[test]
fn test_range_contains() {
    let r1 = Range { start: 0, end: 5 };
    let r2 = Range { start: 1, end: 4 };
    assert_eq!(true, r1.contains(&r2));
    assert_eq!(false, r2.contains(&r1));
    let r3 = Range { start: 0, end: 5 };
    assert_eq!(true, r1.contains(&r3));
    assert_eq!(true, r3.contains(&r1));

    let r4 = Range { start: 6, end: 6 };
    let r5 = Range { start: 4, end: 6 };
    assert_eq!(true, r5.contains(&r4));
}

#[test]
fn test_range_overlaps() {
    let r1 = Range { start: 0, end: 5 };
    let r2 = Range { start: 1, end: 4 };
    assert_eq!(true, r1.overlaps(&r2));
    assert_eq!(true, r2.overlaps(&r1));
    let r3 = Range { start: 5, end: 10 };
    assert_eq!(true, r1.overlaps(&r3));
    assert_eq!(true, r3.overlaps(&r1));

    let r4 = Range { start: 0, end: 5 };
    let r5 = Range { start: 6, end: 6 };
    assert_eq!(false, r5.overlaps(&r4));
    assert_eq!(false, r4.overlaps(&r5));
}

#[test]
fn test_from_str() {
    let r1 = Range::from_str("1-4").unwrap();
    let r2 = Range::from_str("365-786").unwrap();
    assert_eq!(1, r1.start);
    assert_eq!(4, r1.end);
    assert_eq!(365, r2.start);
    assert_eq!(786, r2.end);
}

#[test]
fn test_from_strs() {
    let r1 = Range::from_strs("1", "4").unwrap();
    let r2 = Range::from_strs("365", "786").unwrap();
    assert_eq!(1, r1.start);
    assert_eq!(4, r1.end);
    assert_eq!(365, r2.start);
    assert_eq!(786, r2.end);
}

#[test]
fn range_has_its_bounds_and_what_lies_between() {
    let r = Range { start: 3, end: 5 };
    assert!(!r.has(2));
    assert!(r.has(3));
    assert!(r.has(4));
    assert!(r.has(5));
    assert!(!r.has(6));
}

#[test]
fn from_str_without_dash_is_an_error() {
    let e = Range::from_str("14").unwrap_err();
    assert_eq!("Cannot split '14' on '-'", e.msg);
}

#[test]
fn from_str_with_bad_number_is_an_error() {
    let e = Range::from_str("1-x").unwrap_err();
    assert_eq!("Failed to parse number '1-x'", e.msg);
    assert!(Range::from_str("-4").is_err());
    assert!(Range::from_str("1-99999999999").is_err());
}

#[test]
fn from_strs_with_bad_number_is_an_error() {
    let e = Range::from_strs("a", "7").unwrap_err();
    assert_eq!("Failed to parse number 'a-7'", e.msg);
    assert!(Range::from_strs("", "7").is_err());
    assert!(Range::from_strs("4294967296", "7").is_err());
    assert_eq!(4294967295, Range::from_strs("+4294967295", "7").unwrap().start);
}

#[test]
fn rangepair_is_read_from_a_line() {
    let (a, b) = parse_rangepair("2-4,6-8").unwrap();
    assert_eq!(Range { start: 2, end: 4 }, a);
    assert_eq!(Range { start: 6, end: 8 }, b);
    assert!(parse_rangepair("2-4 6-8").is_none());
    assert!(parse_rangepair("2-4,6").is_none());
}

fn lines(text: &[&str]) -> Vec<String> {
    text.iter().map(|s| s.to_string()).collect()
}

#[test]
fn overlaps_are_counted() {
    let input = lines(&["2-4,6-8", "2-3,4-5", "5-7,7-9", "2-8,3-7", "6-6,4-6", "2-6,4-8"]);
    assert_eq!(Some(2), number_full_overlaps(&input));
    assert_eq!(Some(4), number_any_overlaps(&input));
}

#[test]
fn a_bad_line_gives_no_count() {
    let input = lines(&["2-4,6-8", "nonsense"]);
    assert_eq!(None, number_full_overlaps(&input));
    assert_eq!(None, number_any_overlaps(&input));
}
