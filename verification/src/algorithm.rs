//! Questions about the items of a slice, answered with the help of a hash
//! set.

use std::collections::HashSet;
use std::hash::Hash;
use vstd::prelude::*;
use vstd::std_specs::hash::obeys_key_model;

verus! {

/// The first item of `needles[k..]` that `haystack` lacks.
pub open spec fn first_missing<T>(haystack: Set<T>, needles: Seq<T>, k: int) -> Option<T>
    decreases needles.len() - k,
{
    if k < 0 || k >= needles.len() {
        None
    } else if !haystack.contains(needles[k]) {
        Some(needles[k])
    } else {
        first_missing(haystack, needles, k + 1)
    }
}

/// Whether no item occurs twice in `a`.
pub fn has_only_unique<I: Eq + Hash + Copy>(a: &[I]) -> (r: bool)
    requires
        obeys_key_model::<I>(),
    ensures
        r == a@.no_duplicates(),
{
    let mut items: HashSet<I> = HashSet::new();
    let mut i: usize = 0;
    while i < a.len()
        invariant
            obeys_key_model::<I>(),
            i <= a.len(),
            forall|x: I| items@.contains(x) <==> a@.take(i as int).contains(x),
            a@.take(i as int).no_duplicates(),
        decreases a.len() - i,
    {
        if items.contains(&a[i]) {
            proof {
                let j = choose|j: int| 0 <= j < i && a@.take(i as int)[j] == a[i as int];
                assert(a@[j] == a@[i as int]);
            }
            return false;
        }
        items.insert(a[i]);
        proof {
            assert(a@.take(i + 1) =~= a@.take(i as int).push(a[i as int]));
            assert forall|x: I| items@.contains(x) <==> a@.take(i + 1).contains(x) by {
                if a@.take(i as int).contains(x) {
                    let j = choose|j: int| 0 <= j < i && a@.take(i as int)[j] == x;
                    assert(a@.take(i + 1)[j] == x);
                }
                if x == a[i as int] {
                    assert(a@.take(i + 1)[i as int] == x);
                }
            }
        }
        i += 1;
    }
    assert(a@.take(i as int) =~= a@);
    true
}

/// Whether `haystack` holds every item of `needles`.
pub fn contains_all<T: Eq + Hash>(haystack: &HashSet<T>, needles: &[T]) -> (r: bool)
    requires
        obeys_key_model::<T>(),
    ensures
        r == (forall|i: int| 0 <= i < needles@.len() ==> haystack@.contains(#[trigger] needles@[i])),
{
    let mut i: usize = 0;
    while i < needles.len()
        invariant
            obeys_key_model::<T>(),
            i <= needles.len(),
            forall|j: int| 0 <= j < i ==> haystack@.contains(#[trigger] needles@[j]),
        decreases needles.len() - i,
    {
        if !haystack.contains(&needles[i]) {
            return false;
        }
        i += 1;
    }
    true
}

/// The first item of `needles` that `haystack` does not hold.
pub fn get_first_not_in_set<T: Eq + Hash + Copy>(haystack: &HashSet<T>, needles: &[T]) -> (r: Option<T>)
    requires
        obeys_key_model::<T>(),
    ensures
        r == first_missing(haystack@, needles@, 0),
{
    let mut i: usize = 0;
    while i < needles.len()
        invariant
            obeys_key_model::<T>(),
            i <= needles.len(),
            first_missing(haystack@, needles@, 0) == first_missing(haystack@, needles@, i as int),
        decreases needles.len() - i,
    {
        if !haystack.contains(&needles[i]) {
            return Some(needles[i]);
        }
        i += 1;
    }
    None
}

} // verus!
