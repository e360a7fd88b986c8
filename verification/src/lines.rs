//! Going through the lines of an input that has already been read.

use vstd::prelude::*;

verus! {

/// Whether `text` is one of the lines.
pub open spec fn is_line_of(lines: Seq<String>, text: Seq<char>) -> bool {
    exists|i: int| 0 <= i < lines.len() && (#[trigger] lines[i])@ == text
}

/// Whether `result` is what `f` may return for a line that reads `text`.
pub open spec fn returned_for<F: FnMut(&str) -> R, R>(f: F, text: Seq<char>, result: R) -> bool {
    exists|line: &str| line@ == text && #[trigger] call_ensures(f, (line,), result)
}

/// Whether `result` is what `f` may return for a group of these lines.
pub open spec fn returned_for_group<F: FnMut(&Vec<String>) -> R, R>(f: F, lines: Seq<String>, result: R) -> bool {
    exists|group: &Vec<String>| group@ == lines && #[trigger] call_ensures(f, (group,), result)
}

/// Calls `f` on every line, in order, and collects what it returns.
pub fn foreach_line<F, R>(lines: &Vec<String>, mut f: F) -> (results: Vec<R>) where F: FnMut(&str) -> R
    requires
        forall|line: &str| is_line_of(lines@, line@) ==> #[trigger] call_requires(f, (line,)),
    ensures
        results.len() == lines.len(),
        forall|i: int| 0 <= i < lines.len() ==> #[trigger] returned_for(f, lines[i]@, results[i]),
{
    let ghost callback = f;
    let mut results: Vec<R> = Vec::new();
    let mut i: usize = 0;
    while i < lines.len()
        invariant
            i <= lines.len(),
            f == callback,
            results.len() == i,
            forall|line: &str| is_line_of(lines@, line@) ==> #[trigger] call_requires(f, (line,)),
            forall|j: int| 0 <= j < i ==> #[trigger] returned_for(f, lines[j]@, results[j]),
        decreases lines.len() - i,
    {
        let line = lines[i].as_str();
        let ghost before = results@;
        assert(lines@[i as int]@ == line@);
        let r = f(line);
        results.push(r);
        proof {
            assert forall|j: int| 0 <= j < i + 1 implies #[trigger] returned_for(f, lines[j]@, results[j]) by {
                if j < i {
                    assert(results[j] == before[j]);
                    assert(returned_for(f, lines[j]@, before[j]));
                } else {
                    assert(call_ensures(f, (line,), results[j]));
                }
            }
        }
        i += 1;
    }
    results
}

/// Calls `f` on every full group of `group_size` consecutive lines, in
/// order, and collects what it returns. Lines left over at the end form no
/// group; with a `group_size` of zero there is no group at all.
pub fn foreach_linegroup<F, R>(lines: &Vec<String>, group_size: usize, mut f: F) -> (results: Vec<R>) where
    F: FnMut(&Vec<String>) -> R,

    requires
        forall|group: &Vec<String>| group.len() == group_size ==> #[trigger] call_requires(f, (group,)),
    ensures
        group_size == 0 ==> results.len() == 0,
        group_size > 0 ==> results.len() == lines.len() / group_size,
        forall|k: int|
            0 <= k < results.len() ==> #[trigger] returned_for_group(
                f,
                lines@.subrange(k * group_size, (k + 1) * group_size),
                results[k],
            ),
{
    let ghost callback = f;
    let mut results: Vec<R> = Vec::new();
    let mut group: Vec<String> = Vec::new();
    let mut i: usize = 0;
    while i < lines.len()
        invariant
            i <= lines.len(),
            f == callback,
            forall|g: &Vec<String>| g.len() == group_size ==> #[trigger] call_requires(f, (g,)),
            group_size == 0 ==> results.len() == 0 && group.len() == i,
            group_size > 0 ==> group.len() < group_size,
            results.len() * group_size + group.len() == i,
            group@ == lines@.subrange(results.len() * group_size, i as int),
            forall|k: int|
                0 <= k < results.len() ==> #[trigger] returned_for_group(
                    f,
                    lines@.subrange(k * group_size, (k + 1) * group_size),
                    results[k],
                ),
        decreases lines.len() - i,
    {
        let ghost start = results.len() * group_size;
        group.push(lines[i].clone());
        proof {
            assert(group@ =~= lines@.subrange(start, i + 1));
        }
        if group.len() == group_size {
            let ghost before = results@;
            let r = f(&group);
            results.push(r);
            proof {
                assert((before.len() + 1) * group_size == before.len() * group_size + group_size)
                    by (nonlinear_arith);
                assert forall|k: int| 0 <= k < results.len() implies #[trigger] returned_for_group(
                    f,
                    lines@.subrange(k * group_size, (k + 1) * group_size),
                    results[k],
                ) by {
                    if k < before.len() {
                        assert(results[k] == before[k]);
                        assert(returned_for_group(
                            f,
                            lines@.subrange(k * group_size, (k + 1) * group_size),
                            before[k],
                        ));
                    } else {
                        assert(call_ensures(f, (&group,), results[k]));
                    }
                }
            }
            group = Vec::new();
            proof {
                assert(group@ =~= lines@.subrange(results.len() * group_size, i + 1));
            }
        }
        i += 1;
    }
    proof {
        if group_size > 0 {
            vstd::arithmetic::div_mod::lemma_fundamental_div_mod_converse(
                lines.len() as int,
                group_size as int,
                results.len() as int,
                group.len() as int,
            );
        }
    }
    results
}

} // verus!
