//! Rucksacks: the item that two compartments, or the three packs of a
//! group, have in common, and what it costs.

use crate::lines::{foreach_line, foreach_linegroup, returned_for, returned_for_group};
use crate::sums::{bounded, checked_total, total};
use crate::text::{chars_of, slice_of};
use vstd::prelude::*;

verus! {

/// Priority of an item: `a..=z` are 1 to 26, `A..=Z` are 27 to 52.
pub open spec fn priority_of(c: char) -> Option<u32> {
    if 'a' <= c <= 'z' {
        Some((c as u32 - 'a' as u32 + 1) as u32)
    } else if 'A' <= c <= 'Z' {
        Some((c as u32 - 'A' as u32 + 27) as u32)
    } else {
        None
    }
}

/// The first item of `items[k..]` that occurs in every one of `others`.
pub open spec fn first_shared(items: Seq<char>, others: Seq<Seq<char>>, k: int) -> Option<char>
    decreases items.len() - k,
{
    if k < 0 || k >= items.len() {
        None
    } else if forall|j: int| 0 <= j < others.len() ==> (#[trigger] others[j]).contains(items[k]) {
        Some(items[k])
    } else {
        first_shared(items, others, k + 1)
    }
}

/// The first item of `lhs` that also occurs in `rhs`.
pub open spec fn first_common(lhs: Seq<char>, rhs: Seq<char>) -> Option<char> {
    first_shared(lhs, seq![rhs], 0)
}

/// The cost of one rucksack: the priority of the first item of its first
/// half that its second half holds too.
pub open spec fn rearrangement_cost(line: Seq<char>) -> Option<u32> {
    let mid = line.len() / 2;
    match first_common(line.take(mid as int), line.skip(mid as int)) {
        Some(c) => priority_of(c),
        None => None,
    }
}

/// The cost of a group: the priority of the first item of its first pack
/// that every other pack holds too.
pub open spec fn badge_cost(group: Seq<String>) -> Option<u32> {
    if group.len() == 0 {
        None
    } else {
        match first_shared(group[0]@, Seq::new((group.len() - 1) as nat, |j: int| group[j + 1]@), 0) {
            Some(c) => priority_of(c),
            None => None,
        }
    }
}

/// Priority of an item; `None` for anything but a letter of `a..=z`, `A..=Z`.
pub fn to_priority(c: char) -> (r: Option<u32>)
    ensures
        r == priority_of(c),
{
    if c >= 'a' && c <= 'z' {
        Some(c as u32 - 'a' as u32 + 1)
    } else if c >= 'A' && c <= 'Z' {
        Some(c as u32 - 'A' as u32 + 27)
    } else {
        None
    }
}

/// Whether `set` holds exactly the characters of `s`, each of them once.
pub open spec fn is_set_of(set: Seq<char>, s: Seq<char>) -> bool {
    &&& set.no_duplicates()
    &&& forall|c: char| set.contains(c) <==> #[trigger] s.contains(c)
}

/// Whether `c` is among `items`.
pub fn holds(items: &Vec<char>, c: char) -> (r: bool)
    ensures
        r == items@.contains(c),
{
    let mut i: usize = 0;
    while i < items.len()
        invariant
            i <= items.len(),
            forall|j: int| 0 <= j < i ==> items@[j] != c,
        decreases items.len() - i,
    {
        if items[i] == c {
            return true;
        }
        i += 1;
    }
    false
}

/// The set of the characters of a text: each of them once, in the order
/// of their first occurrence.
pub fn to_set(iterable: &str) -> (set: Vec<char>)
    ensures
        is_set_of(set@, iterable@),
{
    let chars = chars_of(iterable);
    set_of(&chars)
}

fn set_of(chars: &Vec<char>) -> (set: Vec<char>)
    ensures
        is_set_of(set@, chars@),
{
    let mut set: Vec<char> = Vec::new();
    let mut i: usize = 0;
    while i < chars.len()
        invariant
            i <= chars.len(),
            is_set_of(set@, chars@.take(i as int)),
        decreases chars.len() - i,
    {
        let ghost before = set@;
        let ghost seen = chars@.take(i as int);
        let ghost next = chars@.take(i + 1);
        let c = chars[i];
        proof {
            assert(next =~= seen.push(c));
            assert(next[i as int] == c);
        }
        if !holds(&set, c) {
            set.push(c);
        }
        proof {
            assert forall|x: char| set@.contains(x) <==> #[trigger] next.contains(x) by {
                if seen.contains(x) {
                    let j = choose|j: int| 0 <= j < seen.len() && seen[j] == x;
                    assert(next[j] == x);
                    assert(before.contains(x));
                    let k = choose|k: int| 0 <= k < before.len() && before[k] == x;
                    assert(set@[k] == x);
                }
                if x == c {
                    if before.contains(c) {
                        let k = choose|k: int| 0 <= k < before.len() && before[k] == c;
                        assert(set@[k] == c);
                    } else {
                        assert(set@[before.len() as int] == c);
                    }
                }
                if next.contains(x) && x != c {
                    let j = choose|j: int| 0 <= j < next.len() && next[j] == x;
                    assert(seen[j] == x);
                }
                if set@.contains(x) && x != c {
                    let k = choose|k: int| 0 <= k < set@.len() && set@[k] == x;
                    assert(before[k] == x);
                    assert(seen.contains(x));
                }
            }
        }
        i += 1;
    }
    proof {
        assert(chars@.take(i as int) =~= chars@);
    }
    set
}

fn first_shared_of(items: &Vec<char>, sets: &Vec<Vec<char>>, Ghost(others): Ghost<Seq<Seq<char>>>) -> (r: Option<
    char,
>)
    requires
        sets.len() == others.len(),
        forall|j: int| 0 <= j < sets.len() ==> is_set_of(#[trigger] sets[j]@, others[j]),
    ensures
        r == first_shared(items@, others, 0),
{
    let mut k: usize = 0;
    while k < items.len()
        invariant
            k <= items.len(),
            sets.len() == others.len(),
            forall|j: int| 0 <= j < sets.len() ==> is_set_of(#[trigger] sets[j]@, others[j]),
            first_shared(items@, others, 0) == first_shared(items@, others, k as int),
        decreases items.len() - k,
    {
        let c = items[k];
        let mut everywhere = true;
        let mut j: usize = 0;
        while j < sets.len()
            invariant
                j <= sets.len(),
                sets.len() == others.len(),
                forall|i: int| 0 <= i < sets.len() ==> is_set_of(#[trigger] sets[i]@, others[i]),
                everywhere == (forall|i: int| 0 <= i < j ==> (#[trigger] others[i]).contains(c)),
            decreases sets.len() - j,
        {
            assert(is_set_of(sets[j as int]@, others[j as int]));
            if !holds(&sets[j], c) {
                everywhere = false;
            }
            j += 1;
        }
        if everywhere {
            return Some(c);
        }
        k += 1;
    }
    None
}

/// The first item of `lhs` that `rhs` holds too.
pub fn find_first_common(lhs: &str, rhs: &str) -> (r: Option<char>)
    ensures
        r == first_common(lhs@, rhs@),
{
    let items = chars_of(lhs);
    let mut sets: Vec<Vec<char>> = Vec::new();
    sets.push(to_set(rhs));
    let ghost others = seq![rhs@];
    first_shared_of(&items, &sets, Ghost(others))
}


/// The cost of each rucksack, line by line.
pub open spec fn rearrangement_costs(lines: Seq<String>) -> Seq<Option<u32>> {
    Seq::new(lines.len(), |i: int| rearrangement_cost(lines[i]@))
}

/// The cost of each full group of three lines.
pub open spec fn badge_costs(lines: Seq<String>) -> Seq<Option<u32>> {
    Seq::new((lines.len() / 3) as nat, |k: int| badge_cost(lines.subrange(k * 3, (k + 1) * 3)))
}

/// The cost of one rucksack; `None` if its halves share no item or the
/// shared item has no priority.
pub fn backpack_cost(line: &str) -> (r: Option<u32>)
    ensures
        r == rearrangement_cost(line@),
{
    let chars = chars_of(line);
    let mid = chars.len() / 2;
    let first = slice_of(&chars, 0, mid);
    let second = slice_of(&chars, mid, chars.len());
    let mut sets: Vec<Vec<char>> = Vec::new();
    sets.push(set_of(&second));
    let ghost others = seq![second@];
    proof {
        assert(first@ =~= line@.take(mid as int));
        assert(second@ =~= line@.skip(mid as int));
    }
    match first_shared_of(&first, &sets, Ghost(others)) {
        Some(c) => to_priority(c),
        None => None,
    }
}

/// The cost of one group; `None` if its packs share no item or the shared
/// item has no priority.
pub fn group_badge_cost(group: &Vec<String>) -> (r: Option<u32>)
    ensures
        r == badge_cost(group@),
{
    if group.len() == 0 {
        return None;
    }
    let items = chars_of(group[0].as_str());
    let ghost others = Seq::new((group.len() - 1) as nat, |j: int| group@[j + 1]@);
    let mut sets: Vec<Vec<char>> = Vec::new();
    let mut j: usize = 1;
    while j < group.len()
        invariant
            1 <= j <= group.len(),
            others == Seq::new((group.len() - 1) as nat, |j: int| group@[j + 1]@),
            sets.len() == j - 1,
            forall|i: int| 0 <= i < sets.len() ==> is_set_of(#[trigger] sets[i]@, others[i]),
        decreases group.len() - j,
    {
        let ghost before = sets@;
        sets.push(to_set(group[j].as_str()));
        proof {
            assert forall|i: int| 0 <= i < sets.len() implies is_set_of(#[trigger] sets[i]@, others[i]) by {
                if i < before.len() {
                    assert(sets[i] == before[i]);
                }
            }
        }
        j += 1;
    }
    match first_shared_of(&items, &sets, Ghost(others)) {
        Some(c) => to_priority(c),
        None => None,
    }
}

/// Adds up the costs of all rucksacks. `None` if a rucksack has no cost or
/// the sum leaves 32 bits.
pub fn sum_backpack_rearrangement_costs(lines: &Vec<String>) -> (r: Option<u32>)
    ensures
        r == bounded(total(rearrangement_costs(lines@))),
{
    let costs = foreach_line(lines, backpack_cost);
    proof {
        assert(costs@ =~= rearrangement_costs(lines@)) by {
            assert forall|i: int| 0 <= i < lines.len() implies costs@[i] == rearrangement_cost(lines[i]@) by {
                assert(returned_for(backpack_cost, lines[i]@, costs@[i]));
            }
        }
    }
    checked_total(&costs)
}

/// Adds up the costs of all groups of three lines. `None` if a group has
/// no cost or the sum leaves 32 bits.
pub fn sum_group_badge_costs(lines: &Vec<String>) -> (r: Option<u32>)
    ensures
        r == bounded(total(badge_costs(lines@))),
{
    let costs = foreach_linegroup(lines, 3, group_badge_cost);
    proof {
        assert(costs@ =~= badge_costs(lines@)) by {
            assert forall|k: int| 0 <= k < costs.len() implies costs@[k] == badge_cost(
                lines@.subrange(k * 3, (k + 1) * 3),
            ) by {
                assert(returned_for_group(group_badge_cost, lines@.subrange(k * 3, (k + 1) * 3), costs@[k]));
            }
        }
    }
    checked_total(&costs)
}

} // verus!
