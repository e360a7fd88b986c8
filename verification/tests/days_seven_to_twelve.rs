use aoc_tree::days::day10::{foreach_cycle, parse_instruction, render, sum_signal_strengths, Instruction};
use aoc_tree::days::day11::{
    gcd, highscore, lcd, monkeybusiness, parse_monkeys, play_monkey_keepaway, Monkey, Operation, Relief, Score,
};
use aoc_tree::days::day12;
use aoc_tree::days::day7::{
    aggregate_sizes, build_tree_from_log, cd, dir_total, is_dir, parse_entry, parse_line, smallest_dir_at_least,
    space_needed, sum_of_small_dirs, Entry, FsNode, LogError,
};
use aoc_tree::days::day8::{
    count_visible, count_visible_trees, foreach_dp_step, get_iter_ranges, get_prev_row_col, highest_scenic_score,
    in_bounds, is_visible, parse_map, visibility, Directional, DpDirection,
};
use aoc_tree::days::day9::{parse_motion, step, visited_coords, Coord};
use aoc_tree::direction::Direction;
use aoc_tree::tree::{add_node_below, get_value, go_down, new_node_ref, Arena};

fn lines(text: &[&str]) -> Vec<String> {
    text.iter().map(|s| s.to_string()).collect()
}

fn terminal_log() -> Vec<String> {
    lines(&[
        "$ cd /",
        "$ ls",
        "dir a",
        "14848514 b.txt",
        "8504156 c.dat",
        "dir d",
        "$ cd a",
        "$ ls",
        "dir e",
        "29116 f",
        "2557 g",
        "62596 h.lst",
        "$ cd e",
        "$ ls",
        "584 i",
        "$ cd ..",
        "$ cd ..",
        "$ cd d",
        "$ ls",
        "4060174 j",
        "8033020 d.log",
        "5626152 d.ext",
        "7214296 k",
    ])
}

#[test]
fn a_log_builds_a_tree_with_sizes() {
    let mut arena: Arena<FsNode> = Arena::new();
    let root = new_node_ref(&mut arena, "root", FsNode::Dir(0));
    assert!(add_node_below(&mut arena, root, "/", FsNode::Dir(0)).is_ok());
    assert_eq!(Ok(()), build_tree_from_log(&mut arena, &terminal_log(), root));
    let slash = go_down(&arena, root, "/").unwrap();
    let a = go_down(&arena, slash, "a").unwrap();
    let e = go_down(&arena, a, "e").unwrap();
    let d = go_down(&arena, slash, "d").unwrap();
    let i = go_down(&arena, e, "i").unwrap();
    assert_eq!(FsNode::Dir(584), get_value(&arena, e));
    assert_eq!(FsNode::Dir(94853), get_value(&arena, a));
    assert_eq!(FsNode::Dir(24933642), get_value(&arena, d));
    assert_eq!(FsNode::Dir(48381165), get_value(&arena, slash));
    assert_eq!(FsNode::Dir(48381165), get_value(&arena, root));
    assert_eq!(FsNode::File(584), get_value(&arena, i));
    assert_eq!(15, arena.len());
    let mut small = 0;
    for node in 0..arena.len() {
        if let FsNode::Dir(size) = get_value(&arena, node) {
            if size <= 100000 {
                small += size;
            }
        }
    }
    assert_eq!(95437, small);
    assert_eq!(Some(95437), sum_of_small_dirs(&arena, root, 100000));
    assert_eq!(Some(584), sum_of_small_dirs(&arena, root, 584));
    assert_eq!(Some(0), sum_of_small_dirs(&arena, root, 583));
    assert_eq!(Some(584 + 94853), sum_of_small_dirs(&arena, a, usize::MAX));
    assert_eq!(Some(584 + 94853 + 24933642 + 2 * 48381165), sum_of_small_dirs(&arena, root, usize::MAX));
    assert_eq!(Some(8381165), space_needed(48381165));
    assert_eq!(24933642, smallest_dir_at_least(&arena, root, 8381165));
    assert_eq!(584, smallest_dir_at_least(&arena, root, 0));
    assert_eq!(94853, smallest_dir_at_least(&arena, root, 585));
    assert_eq!(48381165, smallest_dir_at_least(&arena, root, 24933643));
    assert_eq!(usize::MAX, smallest_dir_at_least(&arena, root, 48381166));
    assert_eq!(usize::MAX, smallest_dir_at_least(&arena, e, 585));
    assert_eq!(usize::MAX, smallest_dir_at_least(&arena, i, 0));
}

#[test]
fn the_space_that_is_needed() {
    assert_eq!(Some(0), space_needed(40000000));
    assert_eq!(Some(30000000), space_needed(70000000));
    assert_eq!(Some(1), space_needed(40000001));
    assert_eq!(None, space_needed(39999999));
    assert_eq!(None, space_needed(70000001));
    assert_eq!(None, space_needed(0));
}

#[test]
fn sizes_of_small_directories_may_be_too_many() {
    let mut arena: Arena<FsNode> = Arena::new();
    let root = new_node_ref(&mut arena, "root", FsNode::Dir(usize::MAX));
    assert!(add_node_below(&mut arena, root, "d", FsNode::Dir(1)).is_ok());
    assert!(add_node_below(&mut arena, root, "f", FsNode::File(7)).is_ok());
    assert_eq!(None, sum_of_small_dirs(&arena, root, usize::MAX));
    assert_eq!(Some(1), sum_of_small_dirs(&arena, root, 5));
    assert_eq!(Some(1), sum_of_small_dirs(&arena, 1, usize::MAX));
    assert_eq!(Some(0), sum_of_small_dirs(&arena, 2, usize::MAX));
}

#[test]
fn a_log_that_cannot_be_replayed_stops_where_it_fails() {
    let mut arena: Arena<FsNode> = Arena::new();
    let root = new_node_ref(&mut arena, "root", FsNode::Dir(0));
    let log = lines(&["dir a", "12 f", "$ cd b", "dir never"]);
    assert_eq!(Err(LogError::NoSuchEntry), build_tree_from_log(&mut arena, &log, root));
    assert_eq!(3, arena.len());
    assert_eq!(FsNode::Dir(0), get_value(&arena, root));
}

#[test]
fn entries_of_a_log_are_read() {
    assert!(matches!(parse_entry("$ ls"), Ok(Entry::Ls)));
    assert!(matches!(parse_entry("$ cd .."), Ok(Entry::Cd(dir)) if dir == ".."));
    assert!(matches!(parse_entry("  $   cd   x "), Ok(Entry::Cd(dir)) if dir == "x"));
    assert!(matches!(parse_entry("dir abc"), Ok(Entry::Dir(name)) if name == "abc"));
    assert!(matches!(parse_entry("123 a.txt"), Ok(Entry::File(123, name)) if name == "a.txt"));
    assert!(matches!(parse_entry(""), Err(LogError::EmptyLine)));
    assert!(matches!(parse_entry("   "), Err(LogError::InvalidLine)));
    assert!(matches!(parse_entry("$ rm x"), Err(LogError::UnrecognizedCommand)));
    assert!(matches!(parse_entry("$ ls -l"), Err(LogError::UnrecognizedCommand)));
    assert!(matches!(parse_entry("$"), Err(LogError::UnrecognizedCommand)));
    assert!(matches!(parse_entry("dir"), Err(LogError::MissingName)));
    assert!(matches!(parse_entry("12"), Err(LogError::MissingName)));
    assert!(matches!(parse_entry("12 a b"), Err(LogError::MissingName)));
    assert!(matches!(parse_entry("file 12"), Err(LogError::UnrecognizedStart)));
}

#[test]
fn lines_move_the_cursor_or_add_nodes() {
    let mut arena: Arena<FsNode> = Arena::new();
    let root = new_node_ref(&mut arena, "root", FsNode::Dir(0));
    assert_eq!(Ok(root), parse_line(&mut arena, "dir a", root));
    assert_eq!(Ok(root), parse_line(&mut arena, "dir a", root));
    assert_eq!(Ok(root), parse_line(&mut arena, "7 f", root));
    assert_eq!(Ok(root), parse_line(&mut arena, "$ ls", root));
    assert_eq!(3, arena.len());
    let a = parse_line(&mut arena, "$ cd a", root).unwrap();
    assert_eq!(1, a);
    assert_eq!(Ok(root), parse_line(&mut arena, "$ cd ..", a));
    assert_eq!(Err(LogError::NoParent), parse_line(&mut arena, "$ cd ..", root));
    assert_eq!(Err(LogError::NoSuchEntry), parse_line(&mut arena, "$ cd b", root));
    assert_eq!(Err(LogError::EmptyLine), parse_line(&mut arena, "", root));
    assert_eq!(Ok(a), cd(&arena, root, "a"));
    assert_eq!(Ok(2), cd(&arena, root, "f"));
    assert_eq!(3, arena.len());
}

#[test]
fn a_directory_adds_up_its_children() {
    let mut arena: Arena<FsNode> = Arena::new();
    let root = new_node_ref(&mut arena, "root", FsNode::Dir(5));
    assert!(add_node_below(&mut arena, root, "f", FsNode::File(3)).is_ok());
    assert!(add_node_below(&mut arena, root, "d", FsNode::Dir(4)).is_ok());
    assert!(add_node_below(&mut arena, 2, "g", FsNode::File(10)).is_ok());
    assert!(is_dir(&arena, root));
    assert!(!is_dir(&arena, 1));
    assert_eq!(FsNode::Dir(7), dir_total(&arena, root));
    assert_eq!(FsNode::Dir(0), dir_total(&arena, 1));
    aggregate_sizes(&mut arena, root);
    assert_eq!(FsNode::Dir(13), get_value(&arena, root));
    assert_eq!(FsNode::Dir(10), get_value(&arena, 2));
    assert_eq!(FsNode::File(3), get_value(&arena, 1));
}

#[test]
fn sizes_stop_at_the_largest_number() {
    let mut arena: Arena<FsNode> = Arena::new();
    let root = new_node_ref(&mut arena, "root", FsNode::Dir(0));
    assert!(add_node_below(&mut arena, root, "f", FsNode::File(usize::MAX)).is_ok());
    assert!(add_node_below(&mut arena, root, "g", FsNode::File(2)).is_ok());
    aggregate_sizes(&mut arena, root);
    assert_eq!(FsNode::Dir(usize::MAX), get_value(&arena, root));
}

fn forest() -> Vec<Vec<i32>> {
    parse_map(&lines(&["30373", "25512", "", "65332", "33549", "35390"])).unwrap()
}

#[test]
fn a_map_of_trees_is_read() {
    let map = forest();
    assert_eq!(5, map.len());
    assert_eq!(vec![3, 0, 3, 7, 3], map[0]);
    assert_eq!(vec![3, 5, 3, 9, 0], map[4]);
    assert!(parse_map(&lines(&["12", "1x"])).is_none());
    assert_eq!(Some(vec![]), parse_map(&vec![]));
}

#[test]
fn the_steps_of_a_filling_run_both_ways() {
    let table = vec![vec![0u8; 3]; 3];
    let forth = foreach_dp_step(&table, DpDirection::DownRight).unwrap();
    let seen: Vec<(usize, usize, usize, usize)> =
        forth.iter().map(|s| (s.row, s.col, s.prev_row, s.prev_col)).collect();
    assert_eq!(vec![(1, 1, 0, 0), (1, 2, 0, 1), (2, 1, 1, 0), (2, 2, 1, 1)], seen);
    let back = foreach_dp_step(&table, DpDirection::UpLeft).unwrap();
    let seen: Vec<(usize, usize, usize, usize)> =
        back.iter().map(|s| (s.row, s.col, s.prev_row, s.prev_col)).collect();
    assert_eq!(vec![(1, 1, 2, 2), (1, 0, 2, 1), (0, 1, 1, 2), (0, 0, 1, 1)], seen);
    assert!(foreach_dp_step(&vec![vec![1], vec![1, 2]], DpDirection::UpLeft).is_none());
    assert!(foreach_dp_step::<u8>(&vec![], DpDirection::UpLeft).is_none());
    assert!(foreach_dp_step(&vec![vec![1, 2, 3]], DpDirection::DownRight).unwrap().is_empty());
}

#[test]
fn ranges_run_upwards_or_downwards() {
    let (rows, cols) = get_iter_ranges(4, 3, &DpDirection::DownRight);
    assert_eq!(vec![1, 2, 3], rows.collect::<Vec<usize>>());
    assert_eq!(vec![1, 2], cols.collect::<Vec<usize>>());
    let (rows, cols) = get_iter_ranges(4, 3, &DpDirection::UpLeft);
    assert_eq!(vec![2, 1, 0], rows.collect::<Vec<usize>>());
    assert_eq!(vec![1, 0], cols.collect::<Vec<usize>>());
    let (rows, cols) = get_iter_ranges(0, 1, &DpDirection::DownRight);
    assert!(rows.collect::<Vec<usize>>().is_empty());
    assert!(cols.collect::<Vec<usize>>().is_empty());
    assert_eq!((2, 4), get_prev_row_col(3, 5, &DpDirection::DownRight));
    assert_eq!((4, 6), get_prev_row_col(3, 5, &DpDirection::UpLeft));
}

#[test]
fn trees_are_seen_from_outside() {
    let map = forest();
    assert_eq!(Some(21), count_visible(&map));
    let viz = visibility(&map).unwrap();
    // the 5 in the second row: 0 above, 2 left, 3 below and 5 to the right
    let around: &Directional = &viz[1][1];
    assert_eq!((0, 5, 2, 5), (around.up, around.down, around.left, around.right));
    // the 3 in the middle is hidden
    let around: &Directional = &viz[2][2];
    assert_eq!((5, 5, 6, 3), (around.up, around.down, around.left, around.right));
    assert!(!is_visible(map[2][2], &viz[2][2]));
    assert!(is_visible(map[1][1], &viz[1][1]));
    assert!(is_visible(5, &Directional { up: 5, down: 9, left: 4, right: 7 }));
    assert!(!is_visible(5, &Directional { up: 5, down: 9, left: 5, right: 7 }));
    assert_eq!(Some(1), count_visible(&vec![vec![0]]));
    assert_eq!(None, count_visible(&vec![]));
    assert_eq!(None, count_visible(&vec![vec![1, 2], vec![3]]));
}

#[test]
fn trees_are_counted_from_a_tree_house() {
    let map = forest();
    assert_eq!(1, count_visible_trees(&map, 1, 2, &Direction::Up));
    assert_eq!(1, count_visible_trees(&map, 1, 2, &Direction::Left));
    assert_eq!(2, count_visible_trees(&map, 1, 2, &Direction::Right));
    assert_eq!(2, count_visible_trees(&map, 1, 2, &Direction::Down));
    assert_eq!(2, count_visible_trees(&map, 3, 2, &Direction::Up));
    assert_eq!(2, count_visible_trees(&map, 3, 2, &Direction::Left));
    assert_eq!(1, count_visible_trees(&map, 3, 2, &Direction::Down));
    assert_eq!(2, count_visible_trees(&map, 3, 2, &Direction::Right));
    assert_eq!(0, count_visible_trees(&map, 0, 0, &Direction::Up));
    assert_eq!(Some(8), highest_scenic_score(&map));
    assert_eq!(Some(0), highest_scenic_score(&vec![vec![4]]));
    assert_eq!(None, highest_scenic_score(&vec![]));
    assert!(in_bounds(&map, 4, 4));
    assert!(in_bounds(&map, 0, 0));
    assert!(!in_bounds(&map, 5, 0));
    assert!(!in_bounds(&map, 0, 5));
    assert!(!in_bounds(&map, -1, 0));
    assert!(!in_bounds(&map, 0, -1));
}

#[test]
fn a_rope_leaves_a_trail() {
    let motions = lines(&["R 4", "U 4", "L 3", "D 1", "R 4", "D 1", "L 5", "R 2"]);
    assert_eq!(13, visited_coords(&motions, 2).unwrap().len());
    assert_eq!(1, visited_coords(&motions, 10).unwrap().len());
    let larger = lines(&["R 5", "U 8", "L 8", "D 3", "R 17", "D 10", "L 25", "U 20"]);
    assert_eq!(36, visited_coords(&larger, 10).unwrap().len());
    let first = visited_coords(&lines(&["R 2", "", "U 1"]), 1).unwrap();
    assert_eq!(
        vec![Coord { x: 0, y: 0 }, Coord { x: 1, y: 0 }, Coord { x: 2, y: 0 }, Coord { x: 2, y: 1 }],
        first
    );
}

#[test]
fn a_rope_needs_knots_and_motions() {
    assert!(visited_coords(&lines(&["R 4"]), 0).is_none());
    assert!(visited_coords(&lines(&["R 4", "X 1"]), 2).is_none());
    assert!(visited_coords(&lines(&["R  4"]), 2).is_none());
    assert!(visited_coords(&lines(&["  "]), 2).is_none());
    assert!(visited_coords(&lines(&["R"]), 2).is_none());
    assert_eq!(Some(vec![Coord { x: 0, y: 0 }]), visited_coords(&vec![], 3));
    assert_eq!(Some((Direction::Left, 12)), parse_motion(" L 12 "));
    assert_eq!(None, parse_motion("L12"));
}

#[test]
fn knots_step_and_touch() {
    assert_eq!(1, step(1, 5));
    assert_eq!(-1, step(5, 1));
    assert_eq!(0, step(5, 5));
    let mut knot = Coord { x: 0, y: 0 };
    knot.step(&Direction::Up);
    assert_eq!(Coord { x: 0, y: 1 }, knot);
    knot.step(&Direction::Left);
    assert_eq!(Coord { x: -1, y: 1 }, knot);
    knot.step(&Direction::Down);
    knot.step(&Direction::Right);
    assert_eq!(Coord { x: 0, y: 0 }, knot);
    let origin = Coord { x: 0, y: 0 };
    assert!(origin.touches(&origin));
    assert!(!origin.is_adjacent(&origin));
    assert!(origin.is_adjacent(&Coord { x: 1, y: 1 }));
    assert!(origin.is_adjacent(&Coord { x: 0, y: -1 }));
    assert!(!origin.touches(&Coord { x: 2, y: 0 }));
    assert!(!origin.touches(&Coord { x: 1, y: 2 }));
    assert!(Coord { x: i32::MIN, y: 0 }.is_adjacent(&Coord { x: i32::MIN + 1, y: 0 }));
    let mut knot = Coord { x: 0, y: 0 };
    knot.step_toward(&Coord { x: 2, y: 1 });
    assert_eq!(Coord { x: 1, y: 1 }, knot);
    knot.step_toward(&Coord { x: 1, y: -4 });
    assert_eq!(Coord { x: 1, y: 0 }, knot);
}

#[test]
fn instructions_are_read_and_run() {
    assert_eq!(Some(Instruction::Noop), parse_instruction("noop"));
    assert_eq!(Some(Instruction::Noop), parse_instruction("noop 7"));
    assert_eq!(Some(Instruction::Addx(-11)), parse_instruction("addx -11"));
    assert_eq!(None, parse_instruction("addx"));
    assert_eq!(None, parse_instruction("addx x"));
    assert_eq!(None, parse_instruction("addx 1 2"));
    assert_eq!(None, parse_instruction("jump 1"));
    assert_eq!(None, parse_instruction(""));
    let program = lines(&["noop", "addx 3", "", "addx -5", "noop"]);
    assert_eq!(Some(vec![1, 1, 1, 4, 4, -1]), foreach_cycle(&program));
    assert_eq!(None, foreach_cycle(&lines(&["noop", "nop"])));
    assert_eq!(None, foreach_cycle(&lines(&["addx 2147483647"])));
    assert_eq!(Some(vec![]), foreach_cycle(&vec![]));
}

#[test]
fn signal_strengths_are_added_up() {
    let mut during = vec![1; 60];
    during[19] = 21;
    during[59] = 19;
    assert_eq!(Some(20 * 21 + 60 * 19), sum_signal_strengths(&during));
    assert_eq!(Some(0), sum_signal_strengths(&vec![5; 19]));
    assert_eq!(Some(100), sum_signal_strengths(&vec![5; 20]));
    assert_eq!(Some(20 + 60 + 100 + 140 + 180 + 220), sum_signal_strengths(&vec![1; 500]));
    assert_eq!(None, sum_signal_strengths(&vec![i32::MAX; 20]));
}

#[test]
fn the_register_draws_a_picture() {
    let image = render(&vec![1, 1, 1, 4, 4, -1]).unwrap();
    assert_eq!(6, image.len());
    assert!(image.iter().all(|row| row.len() == 40));
    assert_eq!(vec![true, true, true, true, true, false], image[0][..6].to_vec());
    assert_eq!(5, image.iter().flatten().filter(|lit| **lit).count());
    let mut during = vec![100; 241];
    assert_eq!(Some(0), render(&during).map(|image| image.iter().flatten().filter(|lit| **lit).count()));
    during[240] = 1;
    assert!(render(&during).is_none());
    during = vec![100; 240];
    during[239] = 38;
    assert!(render(&during).unwrap()[5][39]);
}

fn notes() -> Vec<String> {
    lines(&[
        "Monkey 0:",
        "  Starting items: 79, 98",
        "  Operation: new = old * 19",
        "  Test: divisible by 23",
        "    If true: throw to monkey 2",
        "    If false: throw to monkey 3",
        "",
        "Monkey 1:",
        "  Starting items: 54, 65, 75, 74",
        "  Operation: new = old + 6",
        "  Test: divisible by 19",
        "    If true: throw to monkey 2",
        "    If false: throw to monkey 0",
        "",
        "Monkey 2:",
        "  Starting items: 79, 60, 97",
        "  Operation: new = old * old",
        "  Test: divisible by 13",
        "    If true: throw to monkey 1",
        "    If false: throw to monkey 3",
        "",
        "Monkey 3:",
        "  Starting items: 74",
        "  Operation: new = old + 3",
        "  Test: divisible by 17",
        "    If true: throw to monkey 0",
        "    If false: throw to monkey 1",
    ])
}

#[test]
fn notes_about_monkeys_are_read() {
    let monkeys = parse_monkeys(&notes()).unwrap();
    assert_eq!(4, monkeys.len());
    assert_eq!(vec![79, 98], monkeys[0].items);
    assert_eq!(Operation::Mul(Some(19)), monkeys[0].op);
    assert_eq!(23, monkeys[0].divisor);
    assert_eq!((2, 3), (monkeys[0].true_targ, monkeys[0].false_targ));
    assert_eq!(vec![54, 65, 75, 74], monkeys[1].items);
    assert_eq!(Operation::Add(Some(6)), monkeys[1].op);
    assert_eq!(Operation::Mul(None), monkeys[2].op);
    assert_eq!(0, monkeys[3].inspect_count);
    assert!(parse_monkeys(&lines(&["  Starting items: 1"])).is_none());
    assert!(parse_monkeys(&lines(&["Monkey 0:", "  Starting items: 1, x"])).is_none());
    assert!(parse_monkeys(&lines(&["Monkey 0:", "  Operation: new = old - 1"])).is_none());
    assert!(parse_monkeys(&lines(&["Monkey 0:", "  If maybe: throw to monkey 1"])).is_none());
    assert!(parse_monkeys(&lines(&["Monkey 0:", "  Sleeps a lot"])).is_none());
    assert!(parse_monkeys(&lines(&["Monkey"])).is_none());
    assert_eq!(Some(0), parse_monkeys(&vec![]).map(|monkeys| monkeys.len()));
}

#[test]
fn monkeys_play_keep_away() {
    let scores = play_monkey_keepaway(&notes(), 20, true).unwrap();
    assert_eq!(
        vec![
            Score { score: 105, id: 3 },
            Score { score: 101, id: 0 },
            Score { score: 95, id: 1 },
            Score { score: 7, id: 2 }
        ],
        scores
    );
    assert_eq!(Some(10605), monkeybusiness(&scores));
    let scores = play_monkey_keepaway(&notes(), 10000, false).unwrap();
    assert_eq!(Score { score: 52166, id: 0 }, scores[0]);
    assert_eq!(Score { score: 52013, id: 3 }, scores[1]);
    assert_eq!(Some(2713310158), monkeybusiness(&scores));
    for rounds in [1usize, 2, 20, 100] {
        let scores = play_monkey_keepaway(&notes(), rounds, true).unwrap();
        let inspections: u128 = scores.iter().map(|s| s.score).sum();
        assert!(inspections >= rounds as u128 * 10);
    }
    let scores = play_monkey_keepaway(&notes(), 0, true).unwrap();
    assert_eq!(vec![3, 2, 1, 0], scores.iter().map(|s| s.id).collect::<Vec<usize>>());
}

#[test]
fn a_game_that_cannot_be_played_gives_nothing() {
    let to_itself = lines(&[
        "Monkey 0:",
        "  Starting items: 1",
        "  Operation: new = old + 1",
        "  Test: divisible by 2",
        "    If true: throw to monkey 0",
        "    If false: throw to monkey 0",
        "Monkey 1:",
        "  Test: divisible by 3",
    ]);
    assert!(play_monkey_keepaway(&to_itself, 1, true).is_none());
    assert!(play_monkey_keepaway(&to_itself, 0, true).is_some());
    let alone = lines(&["Monkey 0:", "  Test: divisible by 2"]);
    assert!(play_monkey_keepaway(&alone, 1, false).is_none());
    assert!(play_monkey_keepaway(&alone, 1, true).is_some());
    assert!(play_monkey_keepaway(&lines(&["what"]), 1, true).is_none());
    assert_eq!(None, monkeybusiness(&vec![Score { score: 1, id: 0 }]));
    assert_eq!(None, monkeybusiness(&vec![Score { score: u128::MAX, id: 0 }, Score { score: 2, id: 1 }]));
}

#[test]
fn a_monkey_inspects_its_last_item() {
    let mut monkey = Monkey::new();
    assert_eq!(None, monkey.inspect(Relief::DivideByThree));
    monkey.items = vec![5, 79];
    monkey.op = Operation::Mul(Some(19));
    monkey.divisor = 23;
    monkey.true_targ = 2;
    monkey.false_targ = 3;
    assert_eq!(Some(1501), monkey.operation(79));
    assert_eq!(Some((500, 3)), monkey.inspect(Relief::DivideByThree));
    assert_eq!(vec![5], monkey.items);
    assert_eq!(1, monkey.inspect_count);
    assert_eq!(Some((95 % 30, 3)), monkey.inspect(Relief::Modulo(30)));
    assert_eq!(2, monkey.inspect_count);
    monkey.items = vec![23];
    monkey.op = Operation::Add(None);
    assert_eq!(Some((46, 2)), monkey.inspect(Relief::Modulo(1000)));
    monkey.items = vec![u128::MAX];
    assert_eq!(None, monkey.inspect(Relief::DivideByThree));
    assert_eq!(vec![u128::MAX], monkey.items);
    monkey.items = vec![1];
    assert_eq!(None, monkey.inspect(Relief::Modulo(0)));
    monkey.divisor = 0;
    assert_eq!(None, monkey.inspect(Relief::DivideByThree));
    assert_eq!(None, Monkey::new().operation(u128::MAX));
}

#[test]
fn divisors_and_multiples() {
    assert_eq!(6, gcd(12, 18));
    assert_eq!(1, gcd(17, 5));
    assert_eq!(5, gcd(0, 5));
    assert_eq!(5, gcd(5, 0));
    assert_eq!(0, gcd(0, 0));
    assert_eq!(Some(36), lcd(12, 18));
    assert_eq!(Some(437), lcd(23, 19));
    assert_eq!(Some(0), lcd(0, 5));
    assert_eq!(None, lcd(0, 0));
    assert_eq!(None, lcd(u128::MAX, 2));
    let busy = highscore(&vec![Monkey::new(), Monkey::new()]);
    assert_eq!(vec![Score { score: 0, id: 1 }, Score { score: 0, id: 0 }], busy);
}

fn hill() -> Vec<String> {
    lines(&["Sabqponm", "abcryxxl", "accszExk", "acctuvwj", "", "abdefghi"])
}

#[test]
fn the_shortest_way_up_the_hill_is_found() {
    let mut map = day12::parse_map(&hill()).unwrap();
    assert!(!map.is_empty());
    assert_eq!((8, 5), (map.x_end, map.y_end));
    assert_eq!((0, 0, 0), (map.my_pos.x, map.my_pos.y, map.my_pos.distance));
    assert_eq!((5, 2), (map.target_pos.x, map.target_pos.y));
    assert_eq!(10, map.at(&map.my_pos).height);
    assert_eq!(0, map.at(&map.my_pos).distance);
    assert_eq!(35, map.at(&map.target_pos).height);
    assert_eq!(usize::MAX, map.at(&map.target_pos).distance);
    assert!(map.is_ready());
    assert_eq!(Some(31), day12::dijkstra(&mut map));
    assert_eq!(Some(31), day12::dijkstra(&mut map));
}

#[test]
fn a_goal_that_cannot_be_reached() {
    let mut map = day12::parse_map(&lines(&["SacE"])).unwrap();
    assert_eq!(None, day12::dijkstra(&mut map));
    let mut map = day12::parse_map(&lines(&["SabcdefghijklmnopqrstuvwxyE"])).unwrap();
    assert_eq!(Some(26), day12::dijkstra(&mut map));
    let mut map = day12::parse_map(&lines(&["EzS"])).unwrap();
    assert_eq!(None, day12::dijkstra(&mut map));
    let mut map = day12::parse_map(&lines(&["Eza", "zzS"])).unwrap();
    assert_eq!(None, day12::dijkstra(&mut map));
    let mut map = day12::parse_map(&lines(&["a"])).unwrap();
    assert_eq!(Some(0), day12::dijkstra(&mut map));
    let mut map = day12::parse_map(&lines(&["zzzz", "zSaE"])).unwrap();
    assert_eq!(None, day12::dijkstra(&mut map));
    let mut map = day12::parse_map(&lines(&["ESzy", "zzzy"])).unwrap();
    assert_eq!(None, day12::dijkstra(&mut map));
    let mut map = day12::parse_map(&lines(&["yzE", "xSb", "cba"])).unwrap();
    assert_eq!(None, day12::dijkstra(&mut map));
    let mut map = day12::parse_map(&lines(&["zyE", "aSb", "cba"])).unwrap();
    assert_eq!(None, day12::dijkstra(&mut map));
}

#[test]
fn going_down_is_free() {
    let mut map = day12::parse_map(&lines(&["zzzz", "zSaz", "zbaz", "zcEz"])).unwrap();
    assert_eq!(None, day12::dijkstra(&mut map));
    let mut map = day12::parse_map(&lines(&["Saaa", "bbbb", "cccz", "dEzz"])).unwrap();
    assert_eq!(None, day12::dijkstra(&mut map));
    let mut map = day12::parse_map(&lines(&["S0", "0E"])).unwrap();
    assert_eq!(None, day12::dijkstra(&mut map));
    let mut map = day12::parse_map(&lines(&["E0", "0S"])).unwrap();
    assert_eq!(None, day12::dijkstra(&mut map));
    let mut map = day12::parse_map(&lines(&["SE"])).unwrap();
    assert_eq!(None, day12::dijkstra(&mut map));
    map.map[0][1].height = 11;
    assert_eq!(Some(1), day12::dijkstra(&mut map));
    map.map[0][0].height = 200;
    assert_eq!(Some(1), day12::dijkstra(&mut map));
}

#[test]
fn a_map_of_heights_is_read_or_refused() {
    assert!(day12::parse_map(&vec![]).is_none());
    assert!(day12::parse_map(&lines(&["", ""])).is_none());
    assert!(day12::parse_map(&lines(&["abc", "ab"])).is_none());
    assert!(day12::parse_map(&lines(&["a-c"])).is_none());
    let map = day12::parse_map(&lines(&["SbS", "EbE"])).unwrap();
    assert_eq!((2, 0), (map.my_pos.x, map.my_pos.y));
    assert_eq!((2, 1), (map.target_pos.x, map.target_pos.y));
    assert_eq!(0, map.map[0][0].distance);
    assert_eq!(usize::MAX, map.map[0][1].distance);
    assert!(!map.map[0][0].visited);
    assert_eq!(Some(10), day12::to_height('a'));
    assert_eq!(Some(35), day12::to_height('z'));
    assert_eq!(Some(10), day12::to_height('S'));
    assert_eq!(Some(35), day12::to_height('E'));
    assert_eq!(Some(7), day12::to_height('7'));
    assert_eq!(Some(11), day12::to_height('B'));
    assert_eq!(None, day12::to_height('-'));
    assert_eq!(None, day12::to_height('ä'));
}

#[test]
fn neighbours_stay_on_the_map() {
    let map = day12::parse_map(&lines(&["abc", "def"])).unwrap();
    let corner = day12::Coord::new(0, 0);
    assert_eq!(usize::MAX, corner.distance);
    assert!(map.neighbour(&corner, &Direction::Up).is_none());
    assert!(map.neighbour(&corner, &Direction::Left).is_none());
    let below = map.neighbour(&corner, &Direction::Down).unwrap();
    assert_eq!((0, 1), (below.x, below.y));
    let right = map.neighbour(&corner, &Direction::Right).unwrap();
    assert_eq!((1, 0), (right.x, right.y));
    let last = day12::Coord::new(2, 1);
    assert!(map.neighbour(&last, &Direction::Down).is_none());
    assert!(map.neighbour(&last, &Direction::Right).is_none());
    let all = map.get_neighbours_if(&day12::Coord::new(1, 0), |_| true);
    assert_eq!(vec![(0, 0), (1, 1), (2, 0)], all.iter().map(|c| (c.x, c.y)).collect::<Vec<(usize, usize)>>());
    let some = map.get_neighbours_if(&day12::Coord::new(1, 0), |c| c.y == 0);
    assert_eq!(vec![(0, 0), (2, 0)], some.iter().map(|c| (c.x, c.y)).collect::<Vec<(usize, usize)>>());
    assert!(map.is_inside(2, 1));
    assert!(!map.is_inside(3, 1));
    assert!(!map.is_inside(2, 2));
    assert!(!map.is_inside(-1, 0));
    assert!(corner.same_place(&day12::Coord { x: 0, y: 0, distance: 5 }));
    assert!(day12::Coord { x: 0, y: 0, distance: 1 }.is_before(&day12::Coord { x: 9, y: 9, distance: 2 }));
    assert!(day12::Coord { x: 3, y: 0, distance: 1 }.is_before(&day12::Coord { x: 2, y: 9, distance: 1 }));
    assert!(!day12::Coord { x: 2, y: 0, distance: 1 }.is_before(&day12::Coord { x: 2, y: 9, distance: 1 }));
    assert!(day12::HeightMap::new().is_empty());
    assert_eq!(usize::MAX, day12::Grid::new().distance);
}
