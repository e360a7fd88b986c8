use aoc_tree::days::day3::{
    find_first_common, sum_backpack_rearrangement_costs, sum_group_badge_costs, to_priority, to_set,
};

#[test]
fn test_to_priority() {
    assert_eq!(Some(1u32), to_priority('a'));
    assert_eq!(Some(2u32), to_priority('b'));
    assert_eq!(Some(3u32), to_priority('c'));
    assert_eq!(Some(4u32), to_priority('d'));
    assert_eq!(Some(5u32), to_priority('e'));
    assert_eq!(Some(24u32), to_priority('x'));
    assert_eq!(Some(25u32), to_priority('y'));
    assert_eq!(Some(26u32), to_priority('z'));

    assert_eq!(Some(26 + 1u32), to_priority('A'));
    assert_eq!(Some(26 + 2u32), to_priority('B'));
    assert_eq!(Some(26 + 3u32), to_priority('C'));
    assert_eq!(Some(26 + 4u32), to_priority('D'));
    assert_eq!(Some(26 + 5u32), to_priority('E'));
    assert_eq!(Some(26 + 24u32), to_priority('X'));
    assert_eq!(Some(26 + 25u32), to_priority('Y'));
    assert_eq!(Some(26 + 26u32), to_priority('Z'));

    assert_eq!(None, to_priority('0'));
    assert_eq!(None, to_priority('1'));
    assert_eq!(None, to_priority('2'));
    assert_eq!(None, to_priority('8'));
    assert_eq!(None, to_priority('9'));
    assert_eq!(None, to_priority('Ä'));
    assert_eq!(None, to_priority('ö'));
}

#[test]
fn test_find_first_common() {
    assert_eq!(Some('E'), find_first_common("ABCDE", "EFGHI"));
    assert_eq!(Some('C'), find_first_common("abCdef", "ghiCjkkC"));
    assert_eq!(Some('p'), find_first_common("vJrwpWtwJgWr", "hcsFMMfFFhFp"));
    assert_eq!(
        Some('L'),
        find_first_common("jqHRNqRjqzjGDLGL", "rsFMfFZSrLrFZsSL")
    );
    assert_eq!(Some('P'), find_first_common("PmmdzqPrV", "vPwwTWBwg"));

    assert_eq!(None, find_first_common("ABC", "DEF"));
}

#[test]
fn set_holds_each_character_once() {
    assert_eq!(vec!['a', 'b', 'c'], to_set("abacab"));
    assert!(to_set("").is_empty());
}

fn lines(text: &[&str]) -> Vec<String> {
    text.iter().map(|s| s.to_string()).collect()
}

#[test]
fn rearrangement_costs_are_added_up() {
    let input = lines(&[
        "vJrwpWtwJgWrhcsFMMfFFhFp",
        "jqHRNqRjqzjGDLGLrsFMfFZSrLrFZsSL",
        "PmmdzqPrVvPwwTWBwg",
        "wMqvLMZHhHMvwLHjbvcjnnSBnvTQFn",
        "ttgJtRGJQctTZtZT",
        "CrZsJsPPZsGzwwsLwLmpwMDw",
    ]);
    assert_eq!(Some(157), sum_backpack_rearrangement_costs(&input));
}

#[test]
fn badge_costs_are_added_up_by_groups_of_three() {
    let input = lines(&[
        "vJrwpWtwJgWrhcsFMMfFFhFp",
        "jqHRNqRjqzjGDLGLrsFMfFZSrLrFZsSL",
        "PmmdzqPrVvPwwTWBwg",
        "wMqvLMZHhHMvwLHjbvcjnnSBnvTQFn",
        "ttgJtRGJQctTZtZT",
        "CrZsJsPPZsGzwwsLwLmpwMDw",
        "left over",
    ]);
    assert_eq!(Some(70), sum_group_badge_costs(&input));
}

#[test]
fn a_rucksack_without_common_item_has_no_cost() {
    assert_eq!(None, sum_backpack_rearrangement_costs(&lines(&["abcdef"])));
    assert_eq!(None, sum_group_badge_costs(&lines(&["ab", "cd", "ef"])));
    assert_eq!(None, sum_backpack_rearrangement_costs(&lines(&["1a1b"])));
}
