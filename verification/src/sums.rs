//! Adding up costs of which some may be missing.

use vstd::prelude::*;

verus! {

/// The sum of all costs, or `None` if one of them is missing.
pub open spec fn total(costs: Seq<Option<u32>>) -> Option<nat>
    decreases costs.len(),
{
    if costs.len() == 0 {
        Some(0)
    } else {
        match (total(costs.drop_last()), costs.last()) {
            (Some(t), Some(c)) => Some(t + c as nat),
            _ => None,
        }
    }
}

/// A sum as far as 32 bits hold it.
pub open spec fn bounded(sum: Option<nat>) -> Option<u32> {
    match sum {
        Some(t) => if t <= u32::MAX {
            Some(t as u32)
        } else {
            None
        },
        None => None,
    }
}

proof fn lemma_total_grows(costs: Seq<Option<u32>>, k: int)
    requires
        0 <= k <= costs.len(),
        total(costs) is Some,
    ensures
        total(costs.take(k)) is Some,
        total(costs.take(k))->0 <= total(costs)->0,
    decreases costs.len() - k,
{
    if k < costs.len() {
        lemma_total_grows(costs, k + 1);
        assert(costs.take(k + 1).drop_last() =~= costs.take(k));
    } else {
        assert(costs.take(k) =~= costs);
    }
}

/// Adds up the costs. `None` if one is missing or the sum leaves 32 bits.
pub fn checked_total(costs: &Vec<Option<u32>>) -> (r: Option<u32>)
    ensures
        r == bounded(total(costs@)),
{
    let mut sum: u32 = 0;
    let mut i: usize = 0;
    while i < costs.len()
        invariant
            i <= costs.len(),
            total(costs@.take(i as int)) == Some(sum as nat),
        decreases costs.len() - i,
    {
        proof {
            assert(costs@.take(i + 1).drop_last() =~= costs@.take(i as int));
            assert(costs@.take(i + 1).last() == costs@[i as int]);
            if total(costs@) is Some {
                lemma_total_grows(costs@, i + 1);
            }
        }
        match costs[i] {
            Some(c) => match sum.checked_add(c) {
                Some(next) => {
                    sum = next;
                },
                None => {
                    return None;
                },
            },
            None => {
                return None;
            },
        }
        i += 1;
    }
    proof {
        assert(costs@.take(i as int) =~= costs@);
    }
    Some(sum)
}

} // verus!
