//! Stacks of crates, and a crane that rearranges them.

use crate::text::{chars_of, parse_usize, split_whitespace, string_of, texts, unsigned_literal, words_of};
use vstd::prelude::*;

verus! {

/// One step of the crane: move `n` crates from stack `src` to stack `dest`.
pub struct MoveOp {
    pub n: usize,
    pub src: usize,
    pub dest: usize,
}

/// A number that fits in a `usize`, read from a decimal literal.
pub open spec fn count_of(word: Seq<char>) -> Option<usize> {
    match unsigned_literal(word) {
        Some(n) => if n <= usize::MAX {
            Some(n as usize)
        } else {
            None
        },
        None => None,
    }
}

/// The step that a line of the form `move 3 from 1 to 2` describes; stacks
/// are counted from one in the text and from zero in the step.
pub open spec fn move_of(line: Seq<char>) -> Option<MoveOp> {
    let parts = words_of(line);
    if parts.len() != 6 {
        None
    } else {
        match (count_of(parts[1]), count_of(parts[3]), count_of(parts[5])) {
            (Some(n), Some(src), Some(dest)) => if src >= 1 && dest >= 1 {
                Some(MoveOp { n, src: (src - 1) as usize, dest: (dest - 1) as usize })
            } else {
                None
            },
            _ => None,
        }
    }
}

/// Reads one step of the crane.
pub fn parse_move(line: &str) -> (r: Option<MoveOp>)
    ensures
        r == move_of(line@),
{
    let chars = chars_of(line);
    let parts = split_whitespace(&chars);
    if parts.len() != 6 {
        return None;
    }
    proof {
        assert(texts(parts@)[1] == parts@[1]@);
        assert(texts(parts@)[3] == parts@[3]@);
        assert(texts(parts@)[5] == parts@[5]@);
    }
    match (parse_usize(&parts[1]), parse_usize(&parts[3]), parse_usize(&parts[5])) {
        (Some(n), Some(src), Some(dest)) => if src >= 1 && dest >= 1 {
            Some(MoveOp { n, src: src - 1, dest: dest - 1 })
        } else {
            None
        },
        _ => None,
    }
}

/// Position of the last blank in `s[..k]`, or -1 if there is none.
pub open spec fn last_blank(s: Seq<char>, k: int) -> int
    decreases k,
{
    if k <= 0 || k > s.len() {
        -1
    } else if s[k - 1] == ' ' {
        k - 1
    } else {
        last_blank(s, k - 1)
    }
}

/// The number of stacks that the line of labels announces: the number
/// after its last blank.
pub open spec fn announced(labels: Seq<char>) -> Option<usize> {
    let at = last_blank(labels, labels.len() as int);
    if at < 0 {
        None
    } else {
        count_of(labels.skip(at + 1))
    }
}

/// The crate that a row of the drawing holds for stack `x`, if any: the
/// character at position `4 * x + 1`, unless it is a blank.
pub open spec fn crate_at(row: Seq<char>, x: int) -> Option<char> {
    if 0 <= 4 * x + 1 < row.len() && row[4 * x + 1] != ' ' {
        Some(row[4 * x + 1])
    } else {
        None
    }
}

/// Stack `x` as the rows draw it, bottom first; the rows come top first.
pub open spec fn stack_of(rows: Seq<Seq<char>>, x: int) -> Seq<char>
    decreases rows.len(),
{
    if rows.len() == 0 {
        Seq::empty()
    } else {
        let below = stack_of(rows.drop_first(), x);
        match crate_at(rows[0], x) {
            Some(c) => below.push(c),
            None => below,
        }
    }
}

/// Whether no row draws a crate beyond the last of `size` stacks.
pub open spec fn rows_fit(rows: Seq<Seq<char>>, size: int) -> bool {
    forall|i: int, x: int| 0 <= i < rows.len() && size <= x ==> #[trigger] crate_at(rows[i], x) is None
}

/// The stacks that a drawing shows: rows of crates, top row first, and a
/// last line of labels.
pub open spec fn stacks_of(drawing: Seq<Seq<char>>) -> Option<Seq<Seq<char>>> {
    if drawing.len() == 0 {
        None
    } else {
        let rows = drawing.drop_last();
        match announced(drawing.last()) {
            Some(size) => if rows_fit(rows, size as int) {
                Some(Seq::new(size as nat, |x: int| stack_of(rows, x)))
            } else {
                None
            },
            None => None,
        }
    }
}

fn announced_size(labels: &Vec<char>) -> (r: Option<usize>)
    ensures
        r == announced(labels@),
{
    let mut k = labels.len();
    while k > 0
        invariant
            k <= labels.len(),
            last_blank(labels@, labels.len() as int) == last_blank(labels@, k as int),
        decreases k,
    {
        if labels[k - 1] == ' ' {
            let word = crate::text::slice_of(labels, k, labels.len());
            proof {
                assert(labels@.skip(k as int) =~= labels@.subrange(k as int, labels.len() as int));
            }
            return parse_usize(&word);
        }
        k -= 1;
    }
    None
}

/// Reads a drawing of stacks. `None` if the drawing is empty, its last line
/// does not end in a blank and the number of stacks, or a row draws a crate
/// beyond the last stack.
pub fn parse_into_stacks(input: &Vec<String>) -> (r: Option<Vec<Vec<char>>>)
    ensures
        match r {
            Some(stacks) => stacks_of(Seq::new(input.len() as nat, |i: int| input[i]@)) == Some(texts(stacks@)),
            None => stacks_of(Seq::new(input.len() as nat, |i: int| input[i]@)) is None,
        },
{
    let ghost drawing = Seq::new(input.len() as nat, |i: int| input[i]@);
    if input.len() == 0 {
        return None;
    }
    let ghost rows = drawing.drop_last();
    let labels = chars_of(input[input.len() - 1].as_str());
    assert(drawing.last() == labels@);
    let size = match announced_size(&labels) {
        Some(size) => size,
        None => {
            return None;
        },
    };
    let mut stacks: Vec<Vec<char>> = Vec::new();
    let mut x: usize = 0;
    while x < size
        invariant
            x <= size,
            stacks.len() == x,
            forall|j: int| 0 <= j < x ==> (#[trigger] stacks[j])@ == Seq::<char>::empty(),
        decreases size - x,
    {
        stacks.push(Vec::new());
        x += 1;
    }
    let mut i: usize = input.len() - 1;
    proof {
        assert(rows.skip(i as int) =~= Seq::<Seq<char>>::empty());
    }
    while i > 0
        invariant
            i <= input.len() - 1,
            drawing.len() > 0,
            announced(drawing.last()) == Some(size),
            rows == drawing.drop_last(),
            drawing == Seq::new(input.len() as nat, |i: int| input[i]@),
            stacks.len() == size,
            rows_fit(rows.skip(i as int), size as int),
            forall|j: int| 0 <= j < size ==> (#[trigger] stacks[j])@ == stack_of(rows.skip(i as int), j),
        decreases i,
    {
        i -= 1;
        let line = chars_of(input[i].as_str());
        let ghost row = rows[i as int];
        let ghost lower = rows.skip(i + 1);
        let ghost upper = rows.skip(i as int);
        proof {
            assert(row == line@);
            assert(upper.drop_first() =~= lower);
            assert(upper[0] == row);
        }
        let mut k: usize = 0;
        while k < line.len()
            invariant
                k <= line.len(),
                line@ == row,
                i < rows.len(),
                row == rows[i as int],
                rows == drawing.drop_last(),
                drawing.len() > 0,
                announced(drawing.last()) == Some(size),
                drawing == Seq::new(input.len() as nat, |i: int| input[i]@),
                stacks.len() == size,
                forall|j: int| 0 <= j < size && k <= 4 * j + 1 ==> (#[trigger] stacks[j])@ == stack_of(lower, j),
                forall|j: int| 0 <= j < size && 4 * j + 1 < k ==> (#[trigger] stacks[j])@ == stack_of(upper, j),
                forall|j: int| size <= j && 4 * j + 1 < k ==> #[trigger] crate_at(row, j) is None,
                upper.drop_first() == lower,
                upper.len() > 0,
                upper[0] == row,
            decreases line.len() - k,
        {
            let c = line[k];
            if k != 0 && (k - 1) % 4 == 0 {
                let x = k / 4;
                assert(4 * x + 1 == k);
                if c != ' ' {
                    if x >= size {
                        proof {
                            assert(crate_at(rows[i as int], x as int) is Some);
                            assert(!rows_fit(rows, size as int));
                        }
                        return None;
                    }
                    let ghost before = stacks@;
                    stacks[x].push(c);
                    proof {
                        assert(crate_at(row, x as int) == Some(c));
                        assert forall|j: int| 0 <= j < size && j != x implies stacks@[j] == before[j] by {}
                    }
                } else {
                    assert(crate_at(row, x as int) is None);
                }
            }
            proof {
                assert forall|j: int| size <= j && 4 * j + 1 < k + 1 implies #[trigger] crate_at(row, j) is None by {
                    if 4 * j + 1 == k {
                    }
                }
            }
            k += 1;
        }
        proof {
            assert forall|j: int| 0 <= j < size implies (#[trigger] stacks[j])@ == stack_of(upper, j) by {
                if 4 * j + 1 >= line.len() {
                    assert(crate_at(row, j) is None);
                }
            }
            assert forall|r: int, j: int| 0 <= r < upper.len() && size <= j implies #[trigger] crate_at(
                upper[r],
                j,
            ) is None by {
                if r == 0 {
                    if 4 * j + 1 >= line.len() {
                        assert(crate_at(row, j) is None);
                    }
                } else {
                    assert(upper[r] == lower[r - 1]);
                }
            }
        }
    }
    proof {
        assert(rows.skip(0) =~= rows);
        assert(texts(stacks@) =~= Seq::new(size as nat, |x: int| stack_of(rows, x)));
    }
    Some(stacks)
}

/// The top crate of every stack that has one, from the first stack to
/// the last of `stacks[..k]`.
pub open spec fn tops(stacks: Seq<Seq<char>>, k: int) -> Seq<char>
    decreases k,
{
    if k <= 0 || k > stacks.len() {
        Seq::empty()
    } else if stacks[k - 1].len() > 0 {
        tops(stacks, k - 1).push(stacks[k - 1].last())
    } else {
        tops(stacks, k - 1)
    }
}

/// The top crates of the stacks, read from left to right.
pub fn top_of_stack(stacks: &Vec<Vec<char>>) -> (top: String)
    ensures
        top@ == tops(texts(stacks@), stacks.len() as int),
{
    let mut top_of_stack: Vec<char> = Vec::new();
    let mut k: usize = 0;
    while k < stacks.len()
        invariant
            k <= stacks.len(),
            top_of_stack@ == tops(texts(stacks@), k as int),
        decreases stacks.len() - k,
    {
        let stack = &stacks[k];
        assert(texts(stacks@)[k as int] == stack@);
        if stack.len() > 0 {
            top_of_stack.push(stack[stack.len() - 1]);
        }
        k += 1;
    }
    string_of(&top_of_stack)
}

/// Whether a step names stacks that exist.
pub open spec fn in_range(op: MoveOp, stacks: int) -> bool {
    op.src < stacks && op.dest < stacks
}

/// The stacks after the crane has moved crates one by one: up to `op.n`
/// crates leave the top of `src` and arrive on `dest` in reverse order.
pub open spec fn moved_one_by_one(stacks: Seq<Seq<char>>, op: MoveOp) -> Seq<Seq<char>> {
    let from = stacks[op.src as int];
    let m = if op.n <= from.len() {
        op.n as int
    } else {
        from.len() as int
    };
    if op.src == op.dest {
        stacks
    } else {
        stacks.update(op.src as int, from.take(from.len() - m)).update(
            op.dest as int,
            stacks[op.dest as int] + from.skip(from.len() - m).reverse(),
        )
    }
}

/// The stacks after the crane has moved `op.n` crates at once: they leave
/// the top of `src` and arrive on `dest` in the same order.
pub open spec fn moved_together(stacks: Seq<Seq<char>>, op: MoveOp) -> Seq<Seq<char>> {
    let from = stacks[op.src as int];
    if op.src == op.dest {
        stacks
    } else {
        stacks.update(op.src as int, from.take(from.len() - op.n)).update(
            op.dest as int,
            stacks[op.dest as int] + from.skip(from.len() - op.n),
        )
    }
}

/// The stacks after the first `k` steps, crates moved one by one.
pub open spec fn after_one_by_one(stacks: Seq<Seq<char>>, ops: Seq<MoveOp>, k: int) -> Seq<Seq<char>>
    decreases k,
{
    if k <= 0 {
        stacks
    } else {
        moved_one_by_one(after_one_by_one(stacks, ops, k - 1), ops[k - 1])
    }
}

/// The stacks after the first `k` steps, crates moved together; `None` if
/// one of the steps asks for more crates than its stack holds.
pub open spec fn after_together(stacks: Seq<Seq<char>>, ops: Seq<MoveOp>, k: int) -> Option<Seq<Seq<char>>>
    decreases k,
{
    if k <= 0 {
        Some(stacks)
    } else {
        match after_together(stacks, ops, k - 1) {
            Some(now) => if ops[k - 1].n <= now[ops[k - 1].src as int].len() {
                Some(moved_together(now, ops[k - 1]))
            } else {
                None
            },
            None => None,
        }
    }
}

/// Carries out all steps, moving the crates of each step one by one.
pub fn move_crates_onebyone(stacks: &mut Vec<Vec<char>>, ops: &Vec<MoveOp>)
    requires
        forall|i: int| 0 <= i < ops.len() ==> in_range(#[trigger] ops[i], old(stacks).len() as int),
    ensures
        texts(final(stacks)@) == after_one_by_one(texts(old(stacks)@), ops@, ops.len() as int),
{
    let mut k: usize = 0;
    while k < ops.len()
        invariant
            k <= ops.len(),
            stacks.len() == old(stacks).len(),
            forall|i: int| 0 <= i < ops.len() ==> in_range(#[trigger] ops[i], stacks.len() as int),
            texts(stacks@) == after_one_by_one(texts(old(stacks)@), ops@, k as int),
        decreases ops.len() - k,
    {
        let op = &ops[k];
        assert(in_range(ops[k as int], stacks.len() as int));
        let ghost start = texts(stacks@);
        let ghost from = start[op.src as int];
        let mut done: usize = 0;
        proof {
            assert(from.take(from.len() as int) =~= from);
            assert(from.skip(from.len() as int).reverse() =~= Seq::<char>::empty());
            assert(start.update(op.src as int, from).update(op.dest as int, start[op.dest as int] + Seq::<
                char,
            >::empty()) =~= start);
        }
        while done < op.n && stacks[op.src].len() > 0
            invariant
                done <= op.n,
                stacks.len() == old(stacks).len(),
                op.src < stacks.len(),
                op.dest < stacks.len(),
                start.len() == stacks.len(),
                from == start[op.src as int],
                op.src != op.dest ==> done <= from.len(),
                op.src == op.dest ==> texts(stacks@) == start,
                op.src != op.dest ==> texts(stacks@) == start.update(
                    op.src as int,
                    from.take(from.len() - done),
                ).update(op.dest as int, start[op.dest as int] + from.skip(from.len() - done).reverse()),
            decreases op.n - done,
        {
            let ghost before = texts(stacks@);
            assert(before[op.src as int] == stacks@[op.src as int]@);
            assert(before[op.dest as int] == stacks@[op.dest as int]@);
            let c = stacks[op.src].pop().unwrap();
            stacks[op.dest].push(c);
            proof {
                let now = texts(stacks@);
                if op.src == op.dest {
                    assert(now[op.src as int] =~= before[op.src as int]);
                    assert(now =~= before);
                } else {
                    let left = from.len() - done;
                    assert(c == from[left - 1]);
                    assert(from.take(left).drop_last() =~= from.take(left - 1));
                    assert(from.skip(left - 1).reverse() =~= from.skip(left).reverse().push(c));
                    assert(now[op.src as int] =~= from.take(left - 1));
                    assert(now[op.dest as int] =~= start[op.dest as int] + from.skip(left - 1).reverse());
                    let goal = start.update(op.src as int, from.take(left - 1)).update(
                        op.dest as int,
                        start[op.dest as int] + from.skip(left - 1).reverse(),
                    );
                    assert forall|j: int| 0 <= j < now.len() implies now[j] == goal[j] by {
                        if j != op.src && j != op.dest {
                            assert(now[j] == before[j]);
                        }
                    }
                    assert(now =~= goal);
                }
            }
            done += 1;
        }
        proof {
            assert(texts(stacks@)[op.src as int] == stacks@[op.src as int]@);
            if op.src != op.dest {
                assert(texts(stacks@)[op.src as int] == from.take(from.len() - done));
            } else {
                assert(from.take(from.len() as int) =~= from);
            }
            assert(texts(stacks@) =~= moved_one_by_one(start, ops[k as int]));
        }
        k += 1;
    }
}

/// Whether step `k` is the first that asks for more crates than its stack
/// holds, and `left` is what the steps before it made of the stacks.
pub open spec fn stuck_at(stacks: Seq<Seq<char>>, ops: Seq<MoveOp>, k: int, left: Seq<Seq<char>>) -> bool {
    &&& 0 <= k < ops.len()
    &&& after_together(stacks, ops, k) == Some(left)
    &&& ops[k].n > left[ops[k].src as int].len()
}

/// Carries out the steps, moving the crates of each step together. Stops
/// before the first step that asks for more crates than its stack holds,
/// and says whether all steps were carried out.
pub fn move_crates_together(stacks: &mut Vec<Vec<char>>, ops: &Vec<MoveOp>) -> (done: bool)
    requires
        forall|i: int| 0 <= i < ops.len() ==> in_range(#[trigger] ops[i], old(stacks).len() as int),
    ensures
        done ==> after_together(texts(old(stacks)@), ops@, ops.len() as int) == Some(texts(final(stacks)@)),
        !done ==> exists|k: int| #[trigger] stuck_at(texts(old(stacks)@), ops@, k, texts(final(stacks)@)),
{
    let mut k: usize = 0;
    while k < ops.len()
        invariant
            k <= ops.len(),
            stacks.len() == old(stacks).len(),
            forall|i: int| 0 <= i < ops.len() ==> in_range(#[trigger] ops[i], stacks.len() as int),
            after_together(texts(old(stacks)@), ops@, k as int) == Some(texts(stacks@)),
        decreases ops.len() - k,
    {
        let op = &ops[k];
        assert(in_range(ops[k as int], stacks.len() as int));
        let ghost start = texts(stacks@);
        let ghost from = start[op.src as int];
        assert(from == stacks@[op.src as int]@);
        assert(start[op.dest as int] == stacks@[op.dest as int]@);
        if op.n > stacks[op.src].len() {
            assert(stuck_at(texts(old(stacks)@), ops@, k as int, texts(stacks@)));
            return false;
        }
        let n = stacks[op.src].len() - op.n;
        let mut tmp: Vec<char> = stacks[op.src].split_off(n);
        stacks[op.dest].append(&mut tmp);
        proof {
            let now = texts(stacks@);
            if op.src == op.dest {
                assert(now[op.src as int] =~= from);
                assert(now =~= start);
            } else {
                assert(now[op.src as int] =~= from.take(from.len() - op.n));
                assert(now[op.dest as int] =~= start[op.dest as int] + from.skip(from.len() - op.n));
                assert(now =~= moved_together(start, ops[k as int]));
            }
        }
        k += 1;
    }
    true
}

} // verus!
