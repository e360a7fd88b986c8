use aoc_tree::days::day1::{get_calories, sort_descending, top_calories};
use aoc_tree::days::day2::{
    correct_score, hand_index, incorrect_score, rock_paper_scissors, run_strategy, score_as_hands, score_as_strategy,
    strategy_to_hand, Hand, Strategy,
};
use aoc_tree::days::day5::{
    move_crates_onebyone, move_crates_together, parse_into_stacks, parse_move, top_of_stack, MoveOp,
};
use aoc_tree::days::day6::{find_first_unique, NoStart};

fn lines(text: &[&str]) -> Vec<String> {
    text.iter().map(|s| s.to_string()).collect()
}

#[test]
fn calories_are_added_up_by_elf() {
    let input = lines(&[
        "1000", "2000", "3000", "", "4000", "", "5000", "6000", "", "7000", "8000", "9000", "", "10000", "",
    ]);
    let sums = get_calories(&input).unwrap();
    assert_eq!(vec![6000, 4000, 11000, 24000, 10000], sums);
    assert_eq!(Some((24000, 45000)), top_calories(&sums));
}

#[test]
fn numbers_after_the_last_empty_line_belong_to_no_elf() {
    assert_eq!(Some(vec![3]), get_calories(&lines(&["1", "2", "", "10000"])));
    assert_eq!(Some(vec![]), get_calories(&lines(&["1", "2"])));
    assert_eq!(Some(vec![0, 0]), get_calories(&lines(&["", ""])));
}

#[test]
fn calories_that_are_no_number_or_too_many_give_nothing() {
    assert_eq!(None, get_calories(&lines(&["1", "x", ""])));
    assert_eq!(None, get_calories(&lines(&["2147483647", "1", ""])));
    assert_eq!(Some(vec![-5]), get_calories(&lines(&["-5", ""])));
}

#[test]
fn numbers_are_sorted_from_the_largest_on() {
    assert_eq!(vec![9, 5, 5, 1, -3], sort_descending(&vec![5, -3, 9, 1, 5]));
    assert!(sort_descending(&vec![]).is_empty());
}

#[test]
fn top_calories_need_three_elves() {
    assert_eq!(None, top_calories(&vec![1, 2]));
    assert_eq!(Some((3, 6)), top_calories(&vec![1, 2, 3]));
    assert_eq!(Some((9, 21)), top_calories(&vec![1, 7, 2, 9, 5]));
    assert_eq!(None, top_calories(&vec![i32::MAX, 1, 1]));
}

#[test]
fn hands_and_strategies_have_letters() {
    assert_eq!("A", Hand::Rock.as_str());
    assert_eq!("B", Hand::Paper.as_str());
    assert_eq!("C", Hand::Scissors.as_str());
    assert_eq!("X", Strategy::Lose.as_str());
    assert_eq!("Y", Strategy::Draw.as_str());
    assert_eq!("Z", Strategy::Win.as_str());
    for (letter, hand) in [("A", Hand::Rock), ("X", Hand::Rock), ("B", Hand::Paper), ("Y", Hand::Paper)] {
        assert_eq!(hand, Hand::from_str(letter).unwrap());
    }
    assert_eq!(Hand::Scissors, Hand::from_str("C").unwrap());
    assert_eq!(Hand::Scissors, Hand::from_str("Z").unwrap());
    assert_eq!(Strategy::Lose, Strategy::from_str("X").unwrap());
    assert_eq!(Strategy::Draw, Strategy::from_str("Y").unwrap());
    assert_eq!(Strategy::Win, Strategy::from_str("Z").unwrap());
}

#[test]
fn letters_that_name_nothing_are_errors() {
    let e = Hand::from_str("Q").unwrap_err();
    assert_eq!("Q", e.msg);
    assert_eq!("Could not convert to Hand : Q", e.to_text());
    let e = Strategy::from_str("A").unwrap_err();
    assert_eq!("A", e.msg);
    assert_eq!("Could not convert to Strategy: A", e.to_text());
    assert!(Hand::from_str("").is_err());
    assert!(Hand::from_str("AX").is_err());
}

#[test]
fn rounds_are_scored() {
    assert_eq!(0, hand_index(&Hand::Rock));
    assert_eq!(1, hand_index(&Hand::Paper));
    assert_eq!(2, hand_index(&Hand::Scissors));
    // opponent, player
    assert_eq!(4, rock_paper_scissors(Hand::Rock, Hand::Rock));
    assert_eq!(8, rock_paper_scissors(Hand::Rock, Hand::Paper));
    assert_eq!(3, rock_paper_scissors(Hand::Rock, Hand::Scissors));
    assert_eq!(1, rock_paper_scissors(Hand::Paper, Hand::Rock));
    assert_eq!(5, rock_paper_scissors(Hand::Paper, Hand::Paper));
    assert_eq!(9, rock_paper_scissors(Hand::Paper, Hand::Scissors));
    assert_eq!(7, rock_paper_scissors(Hand::Scissors, Hand::Rock));
    assert_eq!(2, rock_paper_scissors(Hand::Scissors, Hand::Paper));
    assert_eq!(6, rock_paper_scissors(Hand::Scissors, Hand::Scissors));
}

#[test]
fn a_strategy_picks_the_hand() {
    assert_eq!(Hand::Scissors, strategy_to_hand(Hand::Rock, Strategy::Lose));
    assert_eq!(Hand::Rock, strategy_to_hand(Hand::Paper, Strategy::Lose));
    assert_eq!(Hand::Paper, strategy_to_hand(Hand::Scissors, Strategy::Lose));
    assert_eq!(Hand::Paper, strategy_to_hand(Hand::Paper, Strategy::Draw));
    assert_eq!(Hand::Paper, strategy_to_hand(Hand::Rock, Strategy::Win));
    assert_eq!(Hand::Scissors, strategy_to_hand(Hand::Paper, Strategy::Win));
    assert_eq!(Hand::Rock, strategy_to_hand(Hand::Scissors, Strategy::Win));
}

#[test]
fn a_guide_is_scored_both_ways() {
    let guide = lines(&["A Y", "B X", "C Z"]);
    assert_eq!(Some(15), incorrect_score(&guide));
    assert_eq!(Some(12), correct_score(&guide));
    assert_eq!(Some(15), run_strategy(&guide, score_as_hands));
    assert_eq!(Some(12), run_strategy(&guide, score_as_strategy));
    assert_eq!(Some(3), run_strategy(&guide, |_, _| Some(1)));
}

#[test]
fn lines_without_blank_score_nothing_and_bad_letters_spoil_the_sum() {
    assert_eq!(Some(8), incorrect_score(&lines(&["A Y", "", "nothing"])));
    assert_eq!(None, incorrect_score(&lines(&["A Y", "A Q"])));
    assert_eq!(None, correct_score(&lines(&["A A"])));
    assert_eq!(Some(8), score_as_hands("A", "Y"));
    assert_eq!(None, score_as_hands("A", " Y"));
    assert_eq!(Some(4), score_as_strategy("A", "Y"));
}

fn drawing() -> Vec<String> {
    lines(&["    [D]", "[N] [C]", "[Z] [M] [P]", " 1   2   3"])
}

fn moves() -> Vec<MoveOp> {
    ["move 1 from 2 to 1", "move 3 from 1 to 3", "move 2 from 2 to 1", "move 1 from 1 to 2"]
        .iter()
        .map(|line| parse_move(line).unwrap())
        .collect()
}

#[test]
fn a_drawing_of_stacks_is_read() {
    let stacks = parse_into_stacks(&drawing()).unwrap();
    assert_eq!(vec![vec!['Z', 'N'], vec!['M', 'C', 'D'], vec!['P']], stacks);
    assert_eq!("NDP", top_of_stack(&stacks));
}

#[test]
fn a_drawing_that_is_no_drawing_gives_nothing() {
    assert!(parse_into_stacks(&vec![]).is_none());
    assert!(parse_into_stacks(&lines(&["[A]", "1"])).is_none());
    assert!(parse_into_stacks(&lines(&["[A]", " x"])).is_none());
    assert!(parse_into_stacks(&lines(&["[A] [B]", " 1"])).is_none());
    assert_eq!(Some(vec![vec!['A'], vec![]]), parse_into_stacks(&lines(&["[A]", " 1   2"])));
    assert_eq!(Some(vec![]), parse_into_stacks(&lines(&[" 0"])));
}

#[test]
fn a_move_is_read() {
    let op = parse_move("move 3 from 1 to 2").unwrap();
    assert_eq!((3, 0, 1), (op.n, op.src, op.dest));
    assert!(parse_move("move 3 from 0 to 2").is_none());
    assert!(parse_move("move 3 from 1 to").is_none());
    assert!(parse_move("move x from 1 to 2").is_none());
    assert!(parse_move("").is_none());
}

#[test]
fn crates_are_moved_one_by_one() {
    let mut stacks = parse_into_stacks(&drawing()).unwrap();
    move_crates_onebyone(&mut stacks, &moves());
    assert_eq!(vec![vec!['C'], vec!['M'], vec!['P', 'D', 'N', 'Z']], stacks);
    assert_eq!("CMZ", top_of_stack(&stacks));
}

#[test]
fn crates_are_moved_together() {
    let mut stacks = parse_into_stacks(&drawing()).unwrap();
    assert!(move_crates_together(&mut stacks, &moves()));
    assert_eq!(vec![vec!['M'], vec!['C'], vec!['P', 'Z', 'N', 'D']], stacks);
    assert_eq!("MCD", top_of_stack(&stacks));
}

#[test]
fn moving_more_than_there_is() {
    let mut stacks = vec![vec!['a', 'b'], vec!['c']];
    move_crates_onebyone(&mut stacks, &vec![MoveOp { n: 5, src: 0, dest: 1 }]);
    assert_eq!(vec![vec![], vec!['c', 'b', 'a']], stacks);
    let mut stacks = vec![vec!['a', 'b'], vec!['c']];
    let ops = vec![MoveOp { n: 1, src: 0, dest: 1 }, MoveOp { n: 5, src: 0, dest: 1 }, MoveOp { n: 1, src: 1, dest: 0 }];
    assert!(!move_crates_together(&mut stacks, &ops));
    assert_eq!(vec![vec!['a'], vec!['c', 'b']], stacks);
    let mut stacks = vec![vec!['a', 'b'], vec!['c']];
    move_crates_onebyone(&mut stacks, &vec![MoveOp { n: 2, src: 0, dest: 0 }]);
    assert!(move_crates_together(&mut stacks, &vec![MoveOp { n: 2, src: 0, dest: 0 }]));
    assert_eq!(vec![vec!['a', 'b'], vec!['c']], stacks);
    assert_eq!("", top_of_stack(&vec![vec![], vec![]]));
}

#[test]
fn the_first_marker_is_found() {
    let stream = "mjqjpqmgbljsphdztnvjfqwrcgsmlb".as_bytes().to_vec();
    assert_eq!((3, *b"jpqm"), find_first_unique::<4>(stream.clone()).unwrap());
    let (pos, marker) = find_first_unique::<14>(stream).unwrap();
    assert_eq!(19, pos + marker.len());
    assert_eq!(*b"qmgbljsphdztnv", marker);
    let stream = "bvwbjplbgvbhsrlpgdmjqwftvncz".as_bytes().to_vec();
    assert_eq!(5, find_first_unique::<4>(stream.clone()).unwrap().0 + 4);
    assert_eq!(23, find_first_unique::<14>(stream).unwrap().0 + 14);
}

#[test]
fn a_stream_without_marker_is_an_error() {
    assert!(find_first_unique::<4>(b"aaaaaaaa".to_vec()).is_err());
    assert!(find_first_unique::<4>(b"abc".to_vec()).is_err());
    assert!(find_first_unique::<2>(vec![]).is_err());
    assert_eq!("Could not find start marker!", NoStart.to_text());
}
