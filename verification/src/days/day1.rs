//! Calories that elves carry: the lines of a list are added up group by
//! group, and the largest sums are picked.

use crate::text::{chars_of, parse_i32, signed_literal};
use vstd::prelude::*;

verus! {

/// The number of calories that a line gives.
pub open spec fn calories_of(line: Seq<char>) -> Option<i32> {
    match signed_literal(line) {
        Some(n) => if i32::MIN <= n <= i32::MAX {
            Some(n as i32)
        } else {
            None
        },
        None => None,
    }
}

/// The sums that are complete, and the sum of the group that is open.
pub struct Tally {
    pub done: Seq<i32>,
    pub open: i32,
}

/// The tally after the first `k` lines: an empty line closes a group, any
/// other line adds its number to the open group. `None` if a line holds no
/// number or a sum leaves the range of an `i32`.
pub open spec fn tally_after(lines: Seq<String>, k: int) -> Option<Tally>
    decreases k,
{
    if k <= 0 {
        Some(Tally { done: Seq::empty(), open: 0 })
    } else {
        match tally_after(lines, k - 1) {
            Some(tally) => if lines[k - 1]@.len() == 0 {
                Some(Tally { done: tally.done.push(tally.open), open: 0 })
            } else {
                match calories_of(lines[k - 1]@) {
                    Some(n) => if i32::MIN <= tally.open + n <= i32::MAX {
                        Some(Tally { done: tally.done, open: (tally.open + n) as i32 })
                    } else {
                        None
                    },
                    None => None,
                }
            },
            None => None,
        }
    }
}

proof fn lemma_tally_fails(lines: Seq<String>, k: int, n: int)
    requires
        0 <= k <= n,
        tally_after(lines, k) is None,
    ensures
        tally_after(lines, n) is None,
    decreases n - k,
{
    if k < n {
        lemma_tally_fails(lines, k, n - 1);
    }
}

/// Adds up the calories of each elf: the groups that an empty line closes;
/// numbers after the last empty line belong to no group. `None` if a line
/// holds no number or a sum leaves the range of an `i32`.
pub fn get_calories(lines: &Vec<String>) -> (r: Option<Vec<i32>>)
    ensures
        match r {
            Some(sums) => tally_after(lines@, lines.len() as int) matches Some(tally) && tally.done == sums@,
            None => tally_after(lines@, lines.len() as int) is None,
        },
{
    let mut calories_of_elf: Vec<i32> = Vec::new();
    let mut cur_calories: i32 = 0;
    let mut k: usize = 0;
    while k < lines.len()
        invariant
            k <= lines.len(),
            tally_after(lines@, k as int) == Some(Tally { done: calories_of_elf@, open: cur_calories }),
        decreases lines.len() - k,
    {
        let line = chars_of(lines[k].as_str());
        if line.len() == 0 {
            calories_of_elf.push(cur_calories);
            cur_calories = 0;
        } else {
            let sum = match parse_i32(&line) {
                Some(calories) => cur_calories.checked_add(calories),
                None => None,
            };
            match sum {
                Some(sum) => {
                    cur_calories = sum;
                },
                None => {
                    proof {
                        lemma_tally_fails(lines@, k as int + 1, lines.len() as int);
                    }
                    return None;
                },
            }
        }
        k += 1;
    }
    Some(calories_of_elf)
}

/// Whether the numbers are listed from the largest on.
pub open spec fn descending(v: Seq<i32>) -> bool {
    forall|i: int, j: int| 0 <= i < j < v.len() ==> v[i] >= v[j]
}

/// Lists the numbers from the largest on.
pub fn sort_descending(v: &Vec<i32>) -> (sorted: Vec<i32>)
    ensures
        descending(sorted@),
        sorted@.to_multiset() == v@.to_multiset(),
{
    let mut sorted: Vec<i32> = Vec::new();
    let mut i: usize = 0;
    proof {
        assert(v@.take(0) =~= Seq::<i32>::empty());
    }
    while i < v.len()
        invariant
            i <= v.len(),
            descending(sorted@),
            sorted@.to_multiset() == v@.take(i as int).to_multiset(),
        decreases v.len() - i,
    {
        let x = v[i];
        let mut at: usize = 0;
        while at < sorted.len() && sorted[at] >= x
            invariant
                at <= sorted.len(),
                forall|j: int| 0 <= j < at ==> sorted@[j] >= x,
            decreases sorted.len() - at,
        {
            at += 1;
        }
        proof {
            let longer = sorted@.insert(at as int, x);
            vstd::seq_lib::to_multiset_insert(sorted@, at as int, x);
            assert(v@.take(i + 1) =~= v@.take(i as int).push(x));
            vstd::seq_lib::to_multiset_build(v@.take(i as int), x);
            assert forall|a: int, b: int| 0 <= a < b < longer.len() implies longer[a] >= longer[b] by {
                if a < at && b < at {
                    assert(longer[a] == sorted@[a] && longer[b] == sorted@[b]);
                } else if a < at && b == at {
                } else if a < at {
                    assert(longer[b] == sorted@[b - 1]);
                } else if a == at {
                    assert(longer[b] == sorted@[b - 1]);
                    assert(sorted@[at as int] >= sorted@[b - 1] || b - 1 == at);
                } else {
                    assert(longer[a] == sorted@[a - 1] && longer[b] == sorted@[b - 1]);
                }
            }
        }
        sorted.insert(at, x);
        i += 1;
    }
    proof {
        assert(v@.take(i as int) =~= v@);
    }
    sorted
}

/// Whether `top` is the largest of the numbers and `top_three` the sum of
/// the three largest.
pub open spec fn tops_of(numbers: Seq<i32>, top: i32, top_three: i32) -> bool {
    exists|sorted: Seq<i32>|
        {
            &&& #[trigger] descending(sorted)
            &&& sorted.to_multiset() == numbers.to_multiset()
            &&& sorted.len() >= 3
            &&& top == sorted[0]
            &&& top_three == sorted[0] + sorted[1] + sorted[2]
        }
}

/// Whether the three largest of the numbers add up to something beyond an
/// `i32`.
pub open spec fn tops_overflow(numbers: Seq<i32>) -> bool {
    forall|sorted: Seq<i32>|
        #[trigger] descending(sorted) && sorted.to_multiset() == numbers.to_multiset() ==> !(i32::MIN <= sorted[0]
            + sorted[1] + sorted[2] <= i32::MAX)
}

/// The largest sum, and the three largest sums added up. `None` if there
/// are fewer than three sums or the three leave the range of an `i32`.
pub fn top_calories(calories_of_elf: &Vec<i32>) -> (r: Option<(i32, i32)>)
    ensures
        match r {
            Some((top, top_three)) => tops_of(calories_of_elf@, top, top_three),
            None => calories_of_elf.len() < 3 || tops_overflow(calories_of_elf@),
        },
{
    let sorted = sort_descending(calories_of_elf);
    proof {
        vstd::seq_lib::to_multiset_len(sorted@);
        vstd::seq_lib::to_multiset_len(calories_of_elf@);
    }
    if sorted.len() < 3 {
        return None;
    }
    let sum = sorted[0] as i64 + sorted[1] as i64 + sorted[2] as i64;
    if sum < -0x8000_0000 || sum > 0x7fff_ffff {
        proof {
            assert forall|other: Seq<i32>| #[trigger]
                descending(other) && other.to_multiset() == calories_of_elf@.to_multiset() implies !(i32::MIN
                <= other[0] + other[1] + other[2] <= i32::MAX) by {
                lemma_descending_unique(sorted@, other);
            }
        }
        return None;
    }
    assert(tops_of(calories_of_elf@, sorted[0], sum as i32)) by {
        assert(descending(sorted@));
    }
    Some((sorted[0], sum as i32))
}

/// Two lists of the same numbers, both from the largest on, are the same
/// list.
pub proof fn lemma_descending_unique(a: Seq<i32>, b: Seq<i32>)
    requires
        descending(a),
        descending(b),
        a.to_multiset() == b.to_multiset(),
    ensures
        a == b,
    decreases a.len(),
{
    vstd::seq_lib::to_multiset_len(a);
    vstd::seq_lib::to_multiset_len(b);
    if a.len() > 0 {
        // the last entry of each list is the smallest of the numbers
        let x = a.last();
        let y = b.last();
        assert(a.to_multiset().count(x) > 0) by {
            vstd::seq_lib::to_multiset_contains(a, x);
            assert(a.contains(x));
        }
        assert(b.contains(x)) by {
            vstd::seq_lib::to_multiset_contains(b, x);
        }
        assert(b.to_multiset().count(y) > 0) by {
            vstd::seq_lib::to_multiset_contains(b, y);
            assert(b.contains(y));
        }
        assert(a.contains(y)) by {
            vstd::seq_lib::to_multiset_contains(a, y);
        }
        let i = choose|i: int| 0 <= i < b.len() && b[i] == x;
        let j = choose|j: int| 0 <= j < a.len() && a[j] == y;
        assert(x == y);
        vstd::seq_lib::to_multiset_remove(a, a.len() - 1);
        vstd::seq_lib::to_multiset_remove(b, b.len() - 1);
        assert(a.remove(a.len() - 1) =~= a.drop_last());
        assert(b.remove(b.len() - 1) =~= b.drop_last());
        assert(descending(a.drop_last()));
        assert(descending(b.drop_last()));
        lemma_descending_unique(a.drop_last(), b.drop_last());
        assert(a =~= a.drop_last().push(x));
        assert(b =~= b.drop_last().push(y));
    } else {
        assert(a =~= b);
    }
}

} // verus!
