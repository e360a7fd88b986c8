//! A grid of trees: which of them can be seen from outside, and how far
//! one sees from each.

use crate::direction::Direction;
use crate::text::chars_of;
use itertools::Either;
use std::iter::Rev;
use std::ops::Range;
use vstd::prelude::*;

verus! {

/// The `Either` of the itertools crate: a value that is one of two kinds.
/// Here it holds a range of indices that runs upwards or downwards.
#[verifier::external_type_specification]
#[verifier::external_body]
#[verifier::reject_recursive_types(L)]
#[verifier::reject_recursive_types(R)]
pub struct ExEither<L, R>(Either<L, R>);

/// The indices that a range of either direction has yet to hand out, in
/// the order in which it will do so.
pub uninterp spec fn either_items(range: Either<Range<usize>, Rev<Range<usize>>>) -> Seq<usize>;

/// The indices `start, start + 1, .., end - 1`.
pub open spec fn ascending(start: int, end: int) -> Seq<usize> {
    Seq::new(
        if end >= start {
            (end - start) as nat
        } else {
            0
        },
        |i: int| (start + i) as usize,
    )
}

/// The indices `end - 1, end - 2, .., start`.
pub open spec fn descending(start: int, end: int) -> Seq<usize> {
    Seq::new(
        if end >= start {
            (end - start) as nat
        } else {
            0
        },
        |i: int| (end - 1 - i) as usize,
    )
}

/// Wraps the range `start..end` in `Either::Left`. As an iterator,
/// `Either` hands on what the range inside it yields: the indices from
/// `start` up to `end - 1`.
#[verifier::external_body]
fn upwards(start: usize, end: usize) -> (range: Either<Range<usize>, Rev<Range<usize>>>)
    ensures
        either_items(range) == ascending(start as int, end as int),
{
    Either::Left(start..end)
}

/// Wraps the reversed range `start..end` in `Either::Right`. As an
/// iterator, `Either` hands on what the reversed range inside it yields:
/// the indices from `end - 1` down to `start`.
#[verifier::external_body]
fn downwards(start: usize, end: usize) -> (range: Either<Range<usize>, Rev<Range<usize>>>)
    ensures
        either_items(range) == descending(start as int, end as int),
{
    Either::Right((start..end).rev())
}

/// Calls `Iterator::next` of `Either`, which calls `next` of the range
/// inside: the first index that is left is handed out and removed, and an
/// exhausted range gives `None` and stays exhausted.
#[verifier::external_body]
fn next_index(range: &mut Either<Range<usize>, Rev<Range<usize>>>) -> (r: Option<usize>)
    ensures
        match r {
            Some(i) => either_items(*old(range)).len() > 0 && i == either_items(*old(range))[0] && either_items(
                *final(range),
            ) == either_items(*old(range)).drop_first(),
            None => either_items(*old(range)).len() == 0 && either_items(*final(range)) == either_items(*old(range)),
        },
{
    range.next()
}

/// Calls `Clone::clone` of `Either`, which clones the range inside: the
/// copy has the same indices left.
#[verifier::external_body]
fn same_range(range: &Either<Range<usize>, Rev<Range<usize>>>) -> (copy: Either<Range<usize>, Rev<Range<usize>>>)
    ensures
        either_items(copy) == either_items(*range),
{
    range.clone()
}

/// The order in which a table is filled.
#[derive(Clone, Copy, Debug, PartialEq, Eq, Structural)]
pub enum DpDirection {
    /// From the top left corner, each cell after those above and left of it.
    DownRight,
    /// From the bottom right corner, each cell after those below and right
    /// of it.
    UpLeft,
}

/// The rows, or columns, that are filled, in order: all of `0..len` but
/// the one where the filling starts.
pub open spec fn fill_order(len: int, d: DpDirection) -> Seq<usize> {
    match d {
        DpDirection::DownRight => ascending(1, len),
        DpDirection::UpLeft => descending(0, len - 1),
    }
}

/// The cell that was filled before `(row, col)` in both directions.
pub open spec fn prev_of(row: usize, col: usize, d: DpDirection) -> (int, int) {
    match d {
        DpDirection::DownRight => (row - 1, col - 1),
        DpDirection::UpLeft => (row + 1, col + 1),
    }
}

/// The neighbour from which `(row, col)` is filled.
pub fn get_prev_row_col(row: usize, col: usize, d: &DpDirection) -> (prev: (usize, usize))
    requires
        *d == DpDirection::DownRight ==> row >= 1 && col >= 1,
        *d == DpDirection::UpLeft ==> row < usize::MAX && col < usize::MAX,
    ensures
        (prev.0 as int, prev.1 as int) == prev_of(row, col, *d),
{
    match d {
        DpDirection::DownRight => (row - 1, col - 1),
        DpDirection::UpLeft => (row + 1, col + 1),
    }
}

/// The ranges of rows and of columns in which a table of `m` rows and `n`
/// columns is filled.
pub fn get_iter_ranges(m: usize, n: usize, d: &DpDirection) -> (ranges: (
    Either<Range<usize>, Rev<Range<usize>>>,
    Either<Range<usize>, Rev<Range<usize>>>,
))
    requires
        *d == DpDirection::UpLeft ==> m >= 1 && n >= 1,
    ensures
        either_items(ranges.0) == fill_order(m as int, *d),
        either_items(ranges.1) == fill_order(n as int, *d),
{
    match d {
        DpDirection::DownRight => (upwards(1, m), upwards(1, n)),
        DpDirection::UpLeft => (downwards(0, m - 1), downwards(0, n - 1)),
    }
}

/// One step of the filling: the cell to fill and the cell before it.
pub struct DpStep {
    pub row: usize,
    pub col: usize,
    pub prev_row: usize,
    pub prev_col: usize,
}

/// The step that fills `(row, col)`.
pub open spec fn step_for(row: usize, col: usize, d: DpDirection) -> DpStep {
    DpStep { row, col, prev_row: prev_of(row, col, d).0 as usize, prev_col: prev_of(row, col, d).1 as usize }
}

/// The steps that fill a table of `m` rows and `n` columns: row after row
/// and, within a row, column after column.
pub open spec fn dp_steps(m: int, n: int, d: DpDirection) -> Seq<DpStep> {
    let rows = fill_order(m, d);
    let cols = fill_order(n, d);
    Seq::new(rows.len() * cols.len(), |i: int| step_for(rows[i / cols.len() as int], cols[i % cols.len() as int], d))
}

/// Whether the table has at least one row and all rows have the length of
/// the first, which is not zero.
pub open spec fn is_table<T>(mat: Seq<Vec<T>>) -> bool {
    &&& mat.len() >= 1
    &&& mat[0].len() >= 1
    &&& forall|i: int| 0 <= i < mat.len() ==> (#[trigger] mat[i]).len() == mat[0].len()
}

fn check_table<T>(mat: &Vec<Vec<T>>) -> (r: bool)
    ensures
        r == is_table(mat@),
{
    if mat.len() == 0 || mat[0].len() == 0 {
        return false;
    }
    let n = mat[0].len();
    let mut i: usize = 0;
    while i < mat.len()
        invariant
            i <= mat.len(),
            mat.len() >= 1,
            n == mat[0].len(),
            forall|j: int| 0 <= j < i ==> (#[trigger] mat@[j]).len() == n,
        decreases mat.len() - i,
    {
        if mat[i].len() != n {
            return false;
        }
        i += 1;
    }
    true
}

/// Lists the steps in which a table is filled in direction `d`; `None` if
/// `mat` is no table.
pub fn foreach_dp_step<T>(mat: &Vec<Vec<T>>, d: DpDirection) -> (r: Option<Vec<DpStep>>)
    ensures
        match r {
            Some(steps) => is_table(mat@) && steps@ == dp_steps(mat.len() as int, mat[0].len() as int, d),
            None => !is_table(mat@),
        },
{
    if !check_table(mat) {
        return None;
    }
    let m = mat.len();
    let n = mat[0].len();
    let (mut row_range, col_range) = get_iter_ranges(m, n, &d);
    let ghost rows = fill_order(m as int, d);
    let ghost cols = fill_order(n as int, d);
    let mut steps: Vec<DpStep> = Vec::new();
    let ghost mut done: int = 0;
    loop
        invariant
            m >= 1,
            n >= 1,
            rows == fill_order(m as int, d),
            cols == fill_order(n as int, d),
            either_items(col_range) == cols,
            0 <= done <= rows.len(),
            either_items(row_range) == rows.skip(done),
            steps@.len() == done * cols.len(),
            forall|i: int| 0 <= i < steps@.len() ==> steps@[i] == #[trigger] dp_steps(m as int, n as int, d)[i],
        ensures
            done == rows.len(),
            steps@.len() == rows.len() * cols.len(),
            forall|i: int| 0 <= i < steps@.len() ==> steps@[i] == #[trigger] dp_steps(m as int, n as int, d)[i],
        decreases rows.len() - done,
    {
        let row = match next_index(&mut row_range) {
            Some(row) => row,
            None => {
                proof {
                    assert(rows.skip(done).len() == 0);
                }
                break ;
            },
        };
        assert(row == rows[done]);
        let mut cols_left = same_range(&col_range);
        let ghost mut at: int = 0;
        loop
            invariant
                m >= 1,
                n >= 1,
                rows == fill_order(m as int, d),
                cols == fill_order(n as int, d),
                0 <= done < rows.len(),
                row == rows[done],
                0 <= at <= cols.len(),
                either_items(cols_left) == cols.skip(at),
                steps@.len() == done * cols.len() + at,
                forall|i: int| 0 <= i < steps@.len() ==> steps@[i] == #[trigger] dp_steps(m as int, n as int, d)[i],
            ensures
                at == cols.len(),
                steps@.len() == done * cols.len() + at,
                forall|i: int| 0 <= i < steps@.len() ==> steps@[i] == #[trigger] dp_steps(m as int, n as int, d)[i],
            decreases cols.len() - at,
        {
            let col = match next_index(&mut cols_left) {
                Some(col) => col,
                None => {
                    proof {
                        assert(cols.skip(at).len() == 0);
                    }
                    break ;
                },
            };
            assert(col == cols[at]);
            let (prev_row, prev_col) = get_prev_row_col(row, col, &d);
            let ghost before = steps@;
            steps.push(DpStep { row, col, prev_row, prev_col });
            proof {
                let i = done * cols.len() + at;
                assert(i / cols.len() as int == done && i % cols.len() as int == at) by {
                    vstd::arithmetic::div_mod::lemma_fundamental_div_mod_converse(i, cols.len() as int, done, at);
                }
                assert(i < rows.len() * cols.len()) by (nonlinear_arith)
                    requires
                        i == done * cols.len() + at,
                        0 <= done < rows.len(),
                        0 <= at < cols.len(),
                ;
                assert(cols.skip(at).drop_first() =~= cols.skip(at + 1));
                at = at + 1;
            }
        }
        proof {
            assert(rows.skip(done).drop_first() =~= rows.skip(done + 1));
            assert((done + 1) * cols.len() == done * cols.len() + cols.len()) by (nonlinear_arith);
            done = done + 1;
        }
    }
    proof {
        assert(steps@ =~= dp_steps(m as int, n as int, d));
    }
    Some(steps)
}


/// For one tree, a height for each of the four directions.
#[derive(Clone, Copy, Debug)]
pub struct Directional {
    pub up: i32,
    pub down: i32,
    pub left: i32,
    pub right: i32,
}

/// The heights that a line of digits gives; `None` if it holds anything
/// but digits.
pub open spec fn row_of(line: Seq<char>) -> Option<Seq<i32>> {
    if crate::text::all_digits(line) {
        Some(Seq::new(line.len(), |i: int| (line[i] as int - '0' as int) as i32))
    } else {
        None
    }
}

/// The rows that the first `k` lines give, empty lines left out; `None`
/// if one of them holds anything but digits.
pub open spec fn map_of(lines: Seq<String>, k: int) -> Option<Seq<Seq<i32>>>
    decreases k,
{
    if k <= 0 {
        Some(Seq::empty())
    } else {
        match map_of(lines, k - 1) {
            Some(rows) => if lines[k - 1]@.len() == 0 {
                Some(rows)
            } else {
                match row_of(lines[k - 1]@) {
                    Some(row) => Some(rows.push(row)),
                    None => None,
                }
            },
            None => None,
        }
    }
}

/// The rows of a map as sequences.
pub open spec fn rows_of(map: Seq<Vec<i32>>) -> Seq<Seq<i32>> {
    Seq::new(map.len(), |i: int| map[i]@)
}

fn parse_row(line: &Vec<char>) -> (r: Option<Vec<i32>>)
    ensures
        match r {
            Some(row) => row_of(line@) == Some(row@),
            None => row_of(line@) is None,
        },
{
    let mut row: Vec<i32> = Vec::new();
    let mut i: usize = 0;
    while i < line.len()
        invariant
            i <= line.len(),
            row.len() == i,
            forall|j: int| 0 <= j < i ==> crate::text::is_digit(#[trigger] line@[j]),
            forall|j: int| 0 <= j < i ==> row@[j] == (line@[j] as int - '0' as int) as i32,
        decreases line.len() - i,
    {
        let c = line[i];
        if c < '0' || c > '9' {
            assert(!crate::text::is_digit(line@[i as int]));
            return None;
        }
        row.push((c as u32 - '0' as u32) as i32);
        i += 1;
    }
    proof {
        assert(row@ =~= Seq::new(line@.len(), |i: int| (line@[i] as int - '0' as int) as i32));
    }
    Some(row)
}

/// Reads a map of tree heights, one digit for each tree; empty lines are
/// passed over. `None` if a line holds anything but digits.
pub fn parse_map(lines: &Vec<String>) -> (r: Option<Vec<Vec<i32>>>)
    ensures
        match r {
            Some(map) => map_of(lines@, lines.len() as int) == Some(rows_of(map@)),
            None => map_of(lines@, lines.len() as int) is None,
        },
{
    let mut map: Vec<Vec<i32>> = Vec::new();
    let mut k: usize = 0;
    while k < lines.len()
        invariant
            k <= lines.len(),
            map_of(lines@, k as int) == Some(rows_of(map@)),
        decreases lines.len() - k,
    {
        let line = chars_of(lines[k].as_str());
        if line.len() > 0 {
            match parse_row(&line) {
                Some(row) => {
                    let ghost before = rows_of(map@);
                    let ghost added = row@;
                    map.push(row);
                    proof {
                        assert(rows_of(map@) =~= before.push(added));
                    }
                },
                None => {
                    proof {
                        lemma_map_of_fails(lines@, k as int + 1, lines.len() as int);
                    }
                    return None;
                },
            }
        }
        k += 1;
    }
    Some(map)
}

proof fn lemma_map_of_fails(lines: Seq<String>, k: int, n: int)
    requires
        0 <= k <= n,
        map_of(lines, k) is None,
    ensures
        map_of(lines, n) is None,
    decreases n - k,
{
    if k < n {
        lemma_map_of_fails(lines, k, n - 1);
    }
}

/// Whether `(row, col)` names a tree of the map.
pub open spec fn inside(map: Seq<Vec<i32>>, row: int, col: int) -> bool {
    0 <= row < map.len() && 0 <= col < map[row].len()
}

/// Whether every tree of the map can be counted in an `i32`.
pub open spec fn countable(map: Seq<Vec<i32>>) -> bool {
    &&& map.len() < i32::MAX
    &&& forall|i: int| 0 <= i < map.len() ==> (#[trigger] map[i]).len() < i32::MAX
}

/// One step in a direction; up is towards row zero.
pub open spec fn moved(row: int, col: int, dir: Direction) -> (int, int) {
    match dir {
        Direction::Up => (row - 1, col),
        Direction::Down => (row + 1, col),
        Direction::Left => (row, col - 1),
        Direction::Right => (row, col + 1),
    }
}

/// How many steps in a direction stay on the map, at most.
pub open spec fn room(map: Seq<Vec<i32>>, row: int, col: int, dir: Direction) -> int {
    match dir {
        Direction::Up => row,
        Direction::Down => map.len() - 1 - row,
        Direction::Left => col,
        Direction::Right => if 0 <= row < map.len() {
            map[row].len() - 1 - col
        } else {
            0
        },
    }
}

/// How many trees one sees from `(row, col)` in a direction over trees
/// lower than `height`: the view ends at the edge of the map, or with the
/// first tree that is at least as high, which is still seen.
pub open spec fn view_distance(map: Seq<Vec<i32>>, row: int, col: int, dir: Direction, height: i32) -> nat
    decreases room(map, row, col, dir),
{
    let next = moved(row, col, dir);
    if !inside(map, row, col) || !inside(map, next.0, next.1) {
        0
    } else if map[next.0][next.1] >= height {
        1
    } else {
        1 + view_distance(map, next.0, next.1, dir, height)
    }
}

/// Whether `(row, col)` names a tree of the map.
pub fn in_bounds(map: &Vec<Vec<i32>>, row: i32, col: i32) -> (r: bool)
    ensures
        r == inside(map@, row as int, col as int),
{
    if row < 0 || col < 0 {
        return false;
    }
    let row: usize = row as usize;
    let col: usize = col as usize;
    row < map.len() && col < map[row].len()
}

/// Counts the trees that one sees from the tree at `(row, col)` in a
/// direction.
pub fn count_visible_trees(map: &Vec<Vec<i32>>, row: usize, col: usize, dir: &Direction) -> (count: i32)
    requires
        countable(map@),
        inside(map@, row as int, col as int),
    ensures
        count == view_distance(map@, row as int, col as int, *dir, map[row as int][col as int]),
{
    let height = map[row][col];
    let (row_dir, col_dir): (i32, i32) = match dir {
        Direction::Up => (-1i32, 0i32),
        Direction::Down => (1, 0),
        Direction::Left => (0, -1),
        Direction::Right => (0, 1),
    };
    let mut next_row: i32 = row as i32;
    let mut next_col: i32 = col as i32;
    let mut count: i32 = 0;
    loop
        invariant_except_break
            countable(map@),
            inside(map@, next_row as int, next_col as int),
            (next_row + row_dir, next_col + col_dir) == moved(next_row as int, next_col as int, *dir),
            (row_dir as int, col_dir as int) == moved(0, 0, *dir),
            0 <= count,
            count + room(map@, next_row as int, next_col as int, *dir) < i32::MAX,
            count + view_distance(map@, next_row as int, next_col as int, *dir, height) == view_distance(
                map@,
                row as int,
                col as int,
                *dir,
                height,
            ),
        ensures
            count == view_distance(map@, row as int, col as int, *dir, height),
        decreases room(map@, next_row as int, next_col as int, *dir),
    {
        let r = next_row + row_dir;
        let c = next_col + col_dir;
        if !in_bounds(map, r, c) {
            break ;
        }
        next_row = r;
        next_col = c;
        count += 1;
        if map[next_row as usize][next_col as usize] >= height {
            break ;
        }
    }
    count
}

/// Whether a tree of the given height stands above the tallest tree in
/// one of the four directions.
pub fn is_visible(height: i32, visibility: &Directional) -> (r: bool)
    ensures
        r == (height > visibility.up || height > visibility.down || height > visibility.left || height
            > visibility.right),
{
    height > visibility.up || height > visibility.down || height > visibility.left || height > visibility.right
}


/// The larger of two heights.
pub open spec fn higher(a: int, b: int) -> int {
    if a >= b {
        a
    } else {
        b
    }
}

/// The tallest tree above `(row, col)`, or -1 if there is none.
pub open spec fn tallest_above(map: Seq<Vec<i32>>, row: int, col: int) -> int
    decreases row,
{
    if row <= 0 {
        -1
    } else {
        higher(tallest_above(map, row - 1, col), map[row - 1][col] as int)
    }
}

/// The tallest tree left of `(row, col)`, or -1 if there is none.
pub open spec fn tallest_left(map: Seq<Vec<i32>>, row: int, col: int) -> int
    decreases col,
{
    if col <= 0 {
        -1
    } else {
        higher(tallest_left(map, row, col - 1), map[row][col - 1] as int)
    }
}

/// The tallest tree below `(row, col)`, or -1 if there is none.
pub open spec fn tallest_below(map: Seq<Vec<i32>>, row: int, col: int) -> int
    decreases map.len() - row,
{
    if row < 0 || row >= map.len() - 1 {
        -1
    } else {
        higher(tallest_below(map, row + 1, col), map[row + 1][col] as int)
    }
}

/// The tallest tree right of `(row, col)` in a map whose rows hold
/// `width` trees, or -1 if there is none.
pub open spec fn tallest_right(map: Seq<Vec<i32>>, width: int, row: int, col: int) -> int
    decreases width - col,
{
    if col < 0 || col >= width - 1 {
        -1
    } else {
        higher(tallest_right(map, width, row, col + 1), map[row][col + 1] as int)
    }
}

/// For the tree at `(row, col)`, the tallest tree in each direction. A
/// tree at the edge of the map is taken to have no tree in the two
/// directions along that edge either: it is seen from outside anyway.
pub open spec fn tallest_around(map: Seq<Vec<i32>>, row: int, col: int) -> Directional {
    let m = map.len() as int;
    let n = map[0].len() as int;
    Directional {
        up: if col >= 1 {
            tallest_above(map, row, col) as i32
        } else {
            -1i32
        },
        left: if row >= 1 {
            tallest_left(map, row, col) as i32
        } else {
            -1i32
        },
        down: if col <= n - 2 {
            tallest_below(map, row, col) as i32
        } else {
            -1i32
        },
        right: if row <= m - 2 {
            tallest_right(map, n, row, col) as i32
        } else {
            -1i32
        },
    }
}

/// Whether the table of heights has the size of the map.
pub open spec fn same_size(viz: Seq<Vec<Directional>>, map: Seq<Vec<i32>>) -> bool {
    &&& viz.len() == map.len()
    &&& forall|r: int| 0 <= r < viz.len() ==> (#[trigger] viz[r]).len() == map[0].len()
}

/// Position of the step that fills `(row, col)` among the steps that run
/// down and to the right, `width` of them in each row.
spec fn turn_down_right(width: int, row: int, col: int) -> int {
    (row - 1) * width + (col - 1)
}

/// Position of the step that fills `(row, col)` among the steps that run
/// up and to the left over a table of `m` rows, `width` of them in each.
spec fn turn_up_left(m: int, width: int, row: int, col: int) -> int {
    (m - 2 - row) * width + (width - 1 - col)
}

proof fn lemma_turn(width: int, a: int, b: int, t: int)
    requires
        width > 0,
        0 <= b < width,
        0 <= a,
        a * width + b == t,
    ensures
        a == t / width,
        b == t % width,
{
    vstd::arithmetic::div_mod::lemma_fundamental_div_mod_converse(t, width, a, b);
}

proof fn lemma_turn_bound(width: int, a: int, b: int, rows: int)
    requires
        0 <= b < width,
        0 <= a < rows,
    ensures
        a * width + b < rows * width,
        0 <= a * width + b,
        (a + 1) * width == a * width + width,
{
    assert(a * width + b < rows * width) by (nonlinear_arith)
        requires
            0 <= b < width,
            0 <= a < rows,
    ;
    assert(0 <= a * width) by (nonlinear_arith)
        requires
            0 <= a,
            0 <= width,
    ;
    assert((a + 1) * width == a * width + width) by (nonlinear_arith);
}

fn max_height(a: i32, b: i32) -> (r: i32)
    ensures
        r == higher(a as int, b as int),
{
    if a >= b {
        a
    } else {
        b
    }
}

proof fn lemma_tallest_range(map: Seq<Vec<i32>>, width: int, row: int, col: int)
    ensures
        -1 <= tallest_above(map, row, col) <= i32::MAX,
        -1 <= tallest_left(map, row, col) <= i32::MAX,
        -1 <= tallest_below(map, row, col) <= i32::MAX,
        -1 <= tallest_right(map, width, row, col) <= i32::MAX,
{
    lemma_above_range(map, row, col);
    lemma_left_range(map, row, col);
    lemma_below_range(map, row, col);
    lemma_right_range(map, width, row, col);
}

proof fn lemma_above_range(map: Seq<Vec<i32>>, row: int, col: int)
    ensures
        -1 <= tallest_above(map, row, col) <= i32::MAX,
    decreases row,
{
    if row > 0 {
        lemma_above_range(map, row - 1, col);
    }
}

proof fn lemma_left_range(map: Seq<Vec<i32>>, row: int, col: int)
    ensures
        -1 <= tallest_left(map, row, col) <= i32::MAX,
    decreases col,
{
    if col > 0 {
        lemma_left_range(map, row, col - 1);
    }
}

proof fn lemma_below_range(map: Seq<Vec<i32>>, row: int, col: int)
    ensures
        -1 <= tallest_below(map, row, col) <= i32::MAX,
    decreases map.len() - row,
{
    if 0 <= row < map.len() - 1 {
        lemma_below_range(map, row + 1, col);
    }
}

proof fn lemma_right_range(map: Seq<Vec<i32>>, width: int, row: int, col: int)
    ensures
        -1 <= tallest_right(map, width, row, col) <= i32::MAX,
    decreases width - col,
{
    if 0 <= col < width - 1 {
        lemma_right_range(map, width, row, col + 1);
    }
}

/// Whether the heights have been filled in as far as the first `t` steps
/// down and to the right do it.
spec fn filled_down_right(viz: Seq<Vec<Directional>>, map: Seq<Vec<i32>>, t: int) -> bool {
    let n = map[0].len() as int;
    &&& same_size(viz, map)
    &&& forall|r: int, c: int|
        0 <= r < map.len() && 0 <= c < n ==> {
            let cell = #[trigger] viz[r][c];
            let reached = r >= 1 && c >= 1 && turn_down_right(n - 1, r, c) < t;
            &&& cell.up == if reached {
                tallest_above(map, r, c)
            } else {
                -1
            }
            &&& cell.left == if reached {
                tallest_left(map, r, c)
            } else {
                -1
            }
            &&& cell.down == -1
            &&& cell.right == -1
        }
}

/// Whether the heights above and left are all there, and those below and
/// right have been filled in as far as the first `t` steps up and to the
/// left do it.
spec fn filled_up_left(viz: Seq<Vec<Directional>>, map: Seq<Vec<i32>>, t: int) -> bool {
    let m = map.len() as int;
    let n = map[0].len() as int;
    &&& same_size(viz, map)
    &&& forall|r: int, c: int|
        0 <= r < m && 0 <= c < n ==> {
            let cell = #[trigger] viz[r][c];
            let reached = r <= m - 2 && c <= n - 2 && turn_up_left(m, n - 1, r, c) < t;
            &&& cell.up == tallest_around(map, r, c).up
            &&& cell.left == tallest_around(map, r, c).left
            &&& cell.down == if reached {
                tallest_below(map, r, c)
            } else {
                -1
            }
            &&& cell.right == if reached {
                tallest_right(map, n, r, c)
            } else {
                -1
            }
        }
}

/// For every tree, finds the tallest tree in each of the four directions,
/// in two passes over the map: one down and to the right, one back.
/// `None` if the map is no table.
pub fn visibility(map: &Vec<Vec<i32>>) -> (r: Option<Vec<Vec<Directional>>>)
    ensures
        match r {
            Some(viz) => {
                &&& is_table(map@)
                &&& same_size(viz@, map@)
                &&& forall|r: int, c: int|
                    0 <= r < map.len() && 0 <= c < map[0].len() ==> #[trigger] viz[r][c] == tallest_around(
                        map@,
                        r,
                        c,
                    )
            },
            None => !is_table(map@),
        },
{
    let forth = match foreach_dp_step(map, DpDirection::DownRight) {
        Some(steps) => steps,
        None => {
            return None;
        },
    };
    let back = match foreach_dp_step(map, DpDirection::UpLeft) {
        Some(steps) => steps,
        None => {
            return None;
        },
    };
    let m = map.len();
    let n = map[0].len();
    let mut viz_mat: Vec<Vec<Directional>> = Vec::new();
    let mut r: usize = 0;
    while r < m
        invariant
            r <= m,
            viz_mat.len() == r,
            forall|i: int| 0 <= i < r ==> (#[trigger] viz_mat[i]).len() == n,
            forall|i: int, j: int|
                0 <= i < r && 0 <= j < n ==> #[trigger] viz_mat[i][j] == (Directional {
                    up: -1i32,
                    down: -1i32,
                    left: -1i32,
                    right: -1i32,
                }),
        decreases m - r,
    {
        let mut row: Vec<Directional> = Vec::new();
        let mut c: usize = 0;
        while c < n
            invariant
                c <= n,
                row.len() == c,
                forall|j: int| 0 <= j < c ==> row[j] == (Directional { up: -1i32, down: -1i32, left: -1i32, right: -1i32 }),
            decreases n - c,
        {
            row.push(Directional { up: -1, down: -1, left: -1, right: -1 });
            c += 1;
        }
        viz_mat.push(row);
        r += 1;
    }
    let ghost width = n as int - 1;
    let mut t: usize = 0;
    assert(filled_down_right(viz_mat@, map@, 0)) by {
        assert forall|r: int, c: int| r >= 1 && c >= 1 && c < n implies !(turn_down_right(width, r, c) < 0) by {
            lemma_turn_bound(width, r - 1, c - 1, r);
        }
    }
    while t < forth.len()
        invariant
            t <= forth.len(),
            is_table(map@),
            m == map.len(),
            n == map[0].len(),
            width == n - 1,
            forth@ == dp_steps(m as int, n as int, DpDirection::DownRight),
            filled_down_right(viz_mat@, map@, t as int),
        decreases forth.len() - t,
    {
        let step = &forth[t];
        let row = step.row;
        let col = step.col;
        let prev_row = step.prev_row;
        let prev_col = step.prev_col;
        proof {
            assert(forth@[t as int] == dp_steps(m as int, n as int, DpDirection::DownRight)[t as int]);
            assert(width > 0) by {
                if width <= 0 {
                    assert(fill_order(n as int, DpDirection::DownRight).len() == 0);
                    assert(forth@.len() == 0);
                }
            }
            assert(0 <= t as int / width < m - 1) by {
                vstd::arithmetic::div_mod::lemma_fundamental_div_mod(t as int, width);
                vstd::arithmetic::div_mod::lemma_div_pos_is_pos(t as int, width);
                vstd::arithmetic::div_mod::lemma_mod_bound(t as int, width);
                assert(t as int / width < m - 1) by (nonlinear_arith)
                    requires
                        t < (m - 1) * width,
                        t as int == width * (t as int / width) + t as int % width,
                        0 <= t as int % width,
                        width > 0,
                ;
            }
            vstd::arithmetic::div_mod::lemma_mod_bound(t as int, width);
            vstd::arithmetic::div_mod::lemma_fundamental_div_mod(t as int, width);
            assert(row == 1 + t as int / width);
            assert(col == 1 + t as int % width);
            assert(turn_down_right(width, row as int, col as int) == t) by (nonlinear_arith)
                requires
                    row == 1 + t as int / width,
                    col == 1 + t as int % width,
                    t as int == width * (t as int / width) + t as int % width,
            ;
            assert(prev_row == row - 1 && prev_col == col - 1);
            lemma_tallest_range(map@, n as int, row as int, col as int);
            lemma_tallest_range(map@, n as int, row - 1, col as int);
            lemma_tallest_range(map@, n as int, row as int, col - 1);
            // the two cells that this step reads have been filled already
            if prev_row >= 1 {
                assert(turn_down_right(width, prev_row as int, col as int) == t - width) by (nonlinear_arith)
                    requires
                        turn_down_right(width, row as int, col as int) == t,
                        prev_row == row - 1,
                ;
            }
            if prev_col >= 1 {
                assert(turn_down_right(width, row as int, prev_col as int) == t - 1);
            }
            assert(viz_mat@[prev_row as int][col as int].up == tallest_above(map@, prev_row as int, col as int));
            assert(viz_mat@[row as int][prev_col as int].left == tallest_left(map@, row as int, prev_col as int));
        }
        let ghost before = viz_mat@;
        let up = max_height(viz_mat[prev_row][col].up, map[prev_row][col]);
        let left = max_height(viz_mat[row][prev_col].left, map[row][prev_col]);
        viz_mat[row][col].up = up;
        viz_mat[row][col].left = left;
        proof {
            assert forall|r: int, c: int| 0 <= r < m && 0 <= c < n implies {
                let cell = #[trigger] viz_mat@[r][c];
                let reached = r >= 1 && c >= 1 && turn_down_right(width, r, c) < t + 1;
                &&& cell.up == if reached {
                    tallest_above(map@, r, c)
                } else {
                    -1
                }
                &&& cell.left == if reached {
                    tallest_left(map@, r, c)
                } else {
                    -1
                }
                &&& cell.down == -1
                &&& cell.right == -1
            } by {
                if r == row && c == col {
                } else {
                    assert(viz_mat@[r][c] == before[r][c]);
                    if r >= 1 && c >= 1 && turn_down_right(width, r, c) == t {
                        lemma_turn(width, r - 1, c - 1, t as int);
                    }
                }
            }
        }
        t += 1;
    }
    proof {
        assert(filled_up_left(viz_mat@, map@, 0)) by {
            assert forall|r: int, c: int| 0 <= r < m && 0 <= c < n implies {
                let cell = #[trigger] viz_mat@[r][c];
                &&& cell.up == tallest_around(map@, r, c).up
                &&& cell.left == tallest_around(map@, r, c).left
                &&& cell.down == -1
                &&& cell.right == -1
            } by {
                lemma_tallest_range(map@, n as int, r, c);
                if r >= 1 && c >= 1 {
                    lemma_turn_bound(width, r - 1, c - 1, m - 1);
                }
            }
            assert forall|r: int, c: int| 0 <= r <= m - 2 && 0 <= c <= n - 2 implies !(turn_up_left(
                m as int,
                width,
                r,
                c,
            ) < 0) by {
                lemma_turn_bound(width, m - 2 - r, width - 1 - c, m - 1);
            }
        }
    }
    let mut t: usize = 0;
    while t < back.len()
        invariant
            t <= back.len(),
            is_table(map@),
            m == map.len(),
            n == map[0].len(),
            width == n - 1,
            back@ == dp_steps(m as int, n as int, DpDirection::UpLeft),
            filled_up_left(viz_mat@, map@, t as int),
        decreases back.len() - t,
    {
        let step = &back[t];
        let row = step.row;
        let col = step.col;
        let prev_row = step.prev_row;
        let prev_col = step.prev_col;
        proof {
            assert(back@[t as int] == dp_steps(m as int, n as int, DpDirection::UpLeft)[t as int]);
            assert(width > 0) by {
                if width <= 0 {
                    assert(fill_order(n as int, DpDirection::UpLeft).len() == 0);
                    assert(back@.len() == 0);
                }
            }
            vstd::arithmetic::div_mod::lemma_fundamental_div_mod(t as int, width);
            vstd::arithmetic::div_mod::lemma_div_pos_is_pos(t as int, width);
            vstd::arithmetic::div_mod::lemma_mod_bound(t as int, width);
            assert(t as int / width < m - 1) by (nonlinear_arith)
                requires
                    t < (m - 1) * width,
                    t as int == width * (t as int / width) + t as int % width,
                    0 <= t as int % width,
                    width > 0,
            ;
            assert(row == m - 2 - t as int / width);
            assert(col == n - 2 - t as int % width);
            assert(turn_up_left(m as int, width, row as int, col as int) == t) by (nonlinear_arith)
                requires
                    row == m - 2 - t as int / width,
                    col == width - 1 - t as int % width,
                    t as int == width * (t as int / width) + t as int % width,
            ;
            assert(prev_row == row + 1 && prev_col == col + 1);
            lemma_tallest_range(map@, n as int, row as int, col as int);
            lemma_tallest_range(map@, n as int, row + 1, col as int);
            lemma_tallest_range(map@, n as int, row as int, col + 1);
            if prev_row <= m - 2 {
                assert(turn_up_left(m as int, width, prev_row as int, col as int) == t - width) by (nonlinear_arith)
                    requires
                        turn_up_left(m as int, width, row as int, col as int) == t,
                        prev_row == row + 1,
                ;
            }
            if prev_col <= n - 2 {
                assert(turn_up_left(m as int, width, row as int, prev_col as int) == t - 1);
            }
            assert(viz_mat@[prev_row as int][col as int].down == tallest_below(map@, prev_row as int, col as int));
            assert(viz_mat@[row as int][prev_col as int].right == tallest_right(
                map@,
                n as int,
                row as int,
                prev_col as int,
            ));
        }
        let ghost before = viz_mat@;
        let down = max_height(viz_mat[prev_row][col].down, map[prev_row][col]);
        let right = max_height(viz_mat[row][prev_col].right, map[row][prev_col]);
        viz_mat[row][col].down = down;
        viz_mat[row][col].right = right;
        proof {
            assert forall|r: int, c: int| 0 <= r < m && 0 <= c < n implies {
                let cell = #[trigger] viz_mat@[r][c];
                let reached = r <= m - 2 && c <= n - 2 && turn_up_left(m as int, width, r, c) < t + 1;
                &&& cell.up == tallest_around(map@, r, c).up
                &&& cell.left == tallest_around(map@, r, c).left
                &&& cell.down == if reached {
                    tallest_below(map@, r, c)
                } else {
                    -1
                }
                &&& cell.right == if reached {
                    tallest_right(map@, n as int, r, c)
                } else {
                    -1
                }
            } by {
                if r == row && c == col {
                } else {
                    assert(viz_mat@[r][c] == before[r][c]);
                    if r <= m - 2 && c <= n - 2 && turn_up_left(m as int, width, r, c) == t {
                        lemma_turn(width, m - 2 - r, width - 1 - c, t as int);
                    }
                }
            }
        }
        t += 1;
    }
    proof {
        assert forall|r: int, c: int| 0 <= r < m && 0 <= c < n implies #[trigger] viz_mat@[r][c] == tallest_around(
            map@,
            r,
            c,
        ) by {
            lemma_tallest_range(map@, n as int, r, c);
            if r <= m - 2 && c <= n - 2 {
                lemma_turn_bound(width, m - 2 - r, width - 1 - c, m - 1);
            }
        }
    }
    Some(viz_mat)
}


/// Whether the tree at `(row, col)` stands above the tallest tree in one
/// of the four directions, as [`tallest_around`] gives them.
pub open spec fn visible_at(map: Seq<Vec<i32>>, row: int, col: int) -> bool {
    let height = map[row][col];
    let around = tallest_around(map, row, col);
    height > around.up || height > around.down || height > around.left || height > around.right
}

/// Whether the tree at `(row, col)` can be seen from outside the map: in
/// one of the four directions every tree is lower.
pub open spec fn seen_from_outside(map: Seq<Vec<i32>>, row: int, col: int) -> bool {
    let height = map[row][col] as int;
    ||| height > tallest_above(map, row, col)
    ||| height > tallest_below(map, row, col)
    ||| height > tallest_left(map, row, col)
    ||| height > tallest_right(map, map[0].len() as int, row, col)
}

/// On a map without negative heights, a tree is counted as visible
/// exactly if it can be seen from outside.
pub proof fn lemma_visible_is_seen(map: Seq<Vec<i32>>, row: int, col: int)
    requires
        is_table(map),
        0 <= row < map.len(),
        0 <= col < map[0].len(),
        map[row][col] >= 0,
    ensures
        visible_at(map, row, col) == seen_from_outside(map, row, col),
{
    lemma_tallest_range(map, map[0].len() as int, row, col);
}

/// Number of visible trees among the first `col` of a row.
pub open spec fn visible_in_row(map: Seq<Vec<i32>>, row: int, col: int) -> nat
    decreases col,
{
    if col <= 0 {
        0
    } else {
        visible_in_row(map, row, col - 1) + if visible_at(map, row, col - 1) {
            1nat
        } else {
            0nat
        }
    }
}

/// Number of visible trees in the first `row` rows.
pub open spec fn visible_in_rows(map: Seq<Vec<i32>>, row: int) -> nat
    decreases row,
{
    if row <= 0 {
        0
    } else {
        visible_in_rows(map, row - 1) + visible_in_row(map, row - 1, map[0].len() as int)
    }
}

proof fn lemma_visible_in_row_bound(map: Seq<Vec<i32>>, row: int, col: int)
    requires
        0 <= col,
    ensures
        visible_in_row(map, row, col) <= col,
    decreases col,
{
    if col > 0 {
        lemma_visible_in_row_bound(map, row, col - 1);
    }
}

/// Counts the trees that are visible. `None` if the map is no table or
/// the count leaves 32 bits.
pub fn count_visible(map: &Vec<Vec<i32>>) -> (r: Option<u32>)
    ensures
        match r {
            Some(count) => is_table(map@) && count == visible_in_rows(map@, map.len() as int),
            None => !is_table(map@) || visible_in_rows(map@, map.len() as int) > u32::MAX,
        },
{
    let viz_mat = match visibility(map) {
        Some(viz_mat) => viz_mat,
        None => {
            return None;
        },
    };
    let m = map.len();
    let n = map[0].len();
    let mut sum_visible_trees: u128 = 0;
    let mut row: usize = 0;
    while row < m
        invariant
            row <= m,
            is_table(map@),
            m == map.len(),
            n == map[0].len(),
            same_size(viz_mat@, map@),
            forall|r: int, c: int| 0 <= r < m && 0 <= c < n ==> #[trigger] viz_mat[r][c] == tallest_around(map@, r, c),
            sum_visible_trees == visible_in_rows(map@, row as int),
            sum_visible_trees <= row * n,
        decreases m - row,
    {
        let ghost so_far = sum_visible_trees;
        let mut col: usize = 0;
        while col < n
            invariant
                col <= n,
                row < m,
                is_table(map@),
                m == map.len(),
                n == map[0].len(),
                same_size(viz_mat@, map@),
                forall|r: int, c: int|
                    0 <= r < m && 0 <= c < n ==> #[trigger] viz_mat[r][c] == tallest_around(map@, r, c),
                sum_visible_trees == so_far + visible_in_row(map@, row as int, col as int),
                so_far <= row * n,
                visible_in_row(map@, row as int, col as int) <= col,
            decreases n - col,
        {
            assert(row * n + n <= usize::MAX * usize::MAX + usize::MAX) by (nonlinear_arith)
                requires
                    row <= usize::MAX,
                    n <= usize::MAX,
            ;
            assert(viz_mat[row as int][col as int] == tallest_around(map@, row as int, col as int));
            if is_visible(map[row][col], &viz_mat[row][col]) {
                sum_visible_trees += 1;
            }
            col += 1;
        }
        proof {
            assert((row + 1) * n == row * n + n) by (nonlinear_arith);
        }
        row += 1;
    }
    if sum_visible_trees <= 0xffff_ffff {
        Some(sum_visible_trees as u32)
    } else {
        None
    }
}

/// The scenic score of the tree at `(row, col)`: the numbers of trees seen
/// upwards, downwards, to the left and to the right, multiplied in this
/// order. `None` if a product leaves the range of an `i32`.
pub open spec fn scenic_score(map: Seq<Vec<i32>>, row: int, col: int) -> Option<i32> {
    let height = map[row][col];
    let up = view_distance(map, row, col, Direction::Up, height);
    let down = view_distance(map, row, col, Direction::Down, height);
    let left = view_distance(map, row, col, Direction::Left, height);
    let right = view_distance(map, row, col, Direction::Right, height);
    if up * down <= i32::MAX && up * down * left <= i32::MAX && up * down * left * right <= i32::MAX {
        Some((up * down * left * right) as i32)
    } else {
        None
    }
}

/// The highest scenic score among the first `col` trees of a row, or
/// `best` if that is higher. `None` if one of the scores is missing.
pub open spec fn best_in_row(map: Seq<Vec<i32>>, row: int, col: int, best: i32) -> Option<i32>
    decreases col,
{
    if col <= 0 {
        Some(best)
    } else {
        match (best_in_row(map, row, col - 1, best), scenic_score(map, row, col - 1)) {
            (Some(so_far), Some(score)) => Some(higher(so_far as int, score as int) as i32),
            _ => None,
        }
    }
}

/// The highest scenic score in the first `row` rows, or zero if there is
/// no tree. `None` if one of the scores is missing.
pub open spec fn best_in_rows(map: Seq<Vec<i32>>, row: int) -> Option<i32>
    decreases row,
{
    if row <= 0 {
        Some(0i32)
    } else {
        match best_in_rows(map, row - 1) {
            Some(so_far) => best_in_row(map, row - 1, map[0].len() as int, so_far),
            None => None,
        }
    }
}

proof fn lemma_best_in_row_fails(map: Seq<Vec<i32>>, row: int, k: int, n: int, best: i32)
    requires
        0 <= k <= n,
        best_in_row(map, row, k, best) is None,
    ensures
        best_in_row(map, row, n, best) is None,
    decreases n - k,
{
    if k < n {
        lemma_best_in_row_fails(map, row, k, n - 1, best);
    }
}

proof fn lemma_best_in_rows_fails(map: Seq<Vec<i32>>, k: int, n: int)
    requires
        0 <= k <= n,
        best_in_rows(map, k) is None,
    ensures
        best_in_rows(map, n) is None,
    decreases n - k,
{
    if k < n {
        lemma_best_in_rows_fails(map, k, n - 1);
    }
}

fn scenic_score_of(map: &Vec<Vec<i32>>, row: usize, col: usize) -> (r: Option<i32>)
    requires
        countable(map@),
        inside(map@, row as int, col as int),
    ensures
        r == scenic_score(map@, row as int, col as int),
{
    let up = count_visible_trees(map, row, col, &Direction::Up) as i128;
    let down = count_visible_trees(map, row, col, &Direction::Down) as i128;
    let left = count_visible_trees(map, row, col, &Direction::Left) as i128;
    let right = count_visible_trees(map, row, col, &Direction::Right) as i128;
    let limit: i128 = 0x7fff_ffff;
    assert(0 <= up * down <= 0x8000_0000 * 0x8000_0000) by (nonlinear_arith)
        requires
            0 <= up <= 0x8000_0000,
            0 <= down <= 0x8000_0000,
    ;
    let first = up * down;
    if first > limit {
        return None;
    }
    assert(0 <= first * left <= 0x8000_0000 * 0x8000_0000) by (nonlinear_arith)
        requires
            0 <= first <= 0x8000_0000,
            0 <= left <= 0x8000_0000,
    ;
    let second = first * left;
    if second > limit {
        return None;
    }
    assert(0 <= second * right <= 0x8000_0000 * 0x8000_0000) by (nonlinear_arith)
        requires
            0 <= second <= 0x8000_0000,
            0 <= right <= 0x8000_0000,
    ;
    let third = second * right;
    if third > limit {
        return None;
    }
    Some(third as i32)
}

fn check_countable(map: &Vec<Vec<i32>>) -> (r: bool)
    ensures
        r == countable(map@),
{
    if map.len() >= 0x7fff_ffff {
        return false;
    }
    let mut i: usize = 0;
    while i < map.len()
        invariant
            i <= map.len(),
            map.len() < i32::MAX,
            forall|j: int| 0 <= j < i ==> (#[trigger] map@[j]).len() < i32::MAX,
        decreases map.len() - i,
    {
        if map[i].len() >= 0x7fff_ffff {
            return false;
        }
        i += 1;
    }
    true
}

/// Finds the highest scenic score of the map; a map of which no tree
/// sees another scores zero. `None` if the map is no table, has more rows
/// or columns than an `i32` counts, or holds a tree whose score is missing.
pub fn highest_scenic_score(map: &Vec<Vec<i32>>) -> (r: Option<i32>)
    ensures
        match r {
            Some(score) => is_table(map@) && countable(map@) && best_in_rows(map@, map.len() as int) == Some(score),
            None => !is_table(map@) || !countable(map@) || best_in_rows(map@, map.len() as int) is None,
        },
{
    if !check_table(map) || !check_countable(map) {
        return None;
    }
    let m = map.len();
    let n = map[0].len();
    let mut max_scenic_score: i32 = 0;
    let mut row: usize = 0;
    while row < m
        invariant
            row <= m,
            is_table(map@),
            countable(map@),
            m == map.len(),
            n == map[0].len(),
            best_in_rows(map@, row as int) == Some(max_scenic_score),
        decreases m - row,
    {
        let ghost start = max_scenic_score;
        let mut col: usize = 0;
        while col < n
            invariant
                col <= n,
                row < m,
                is_table(map@),
                countable(map@),
                m == map.len(),
                n == map[0].len(),
                best_in_rows(map@, row as int) == Some(start),
                best_in_row(map@, row as int, col as int, start) == Some(max_scenic_score),
            decreases n - col,
        {
            match scenic_score_of(map, row, col) {
                Some(score) => {
                    max_scenic_score = max_height(max_scenic_score, score);
                },
                None => {
                    proof {
                        lemma_best_in_row_fails(map@, row as int, col as int + 1, n as int, start);
                        lemma_best_in_rows_fails(map@, row as int + 1, m as int);
                    }
                    return None;
                },
            }
            col += 1;
        }
        row += 1;
    }
    Some(max_scenic_score)
}

} // verus!
