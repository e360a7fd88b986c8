//! A map of heights, and the shortest way up a hill on which every step
//! climbs one unit at most.

use crate::direction::Direction;
use crate::text::chars_of;
use vstd::prelude::*;

verus! {

/// One square of the map.
#[derive(Clone, Copy, Debug, PartialEq, Eq, Structural)]
pub struct Grid {
    pub height: u8,
    pub visited: bool,
    pub distance: usize,
}

/// A position on the map, with the number of steps that lead to it.
#[derive(Clone, Copy, Debug)]
pub struct Coord {
    pub x: usize,
    pub y: usize,
    pub distance: usize,
}

pub struct HeightMap {
    pub map: Vec<Vec<Grid>>,
    pub x_end: usize,
    pub y_end: usize,
    pub my_pos: Coord,
    pub target_pos: Coord,
}

impl Grid {
    /// A square that no way has reached yet.
    pub fn new() -> (grid: Grid)
        ensures
            grid == (Grid { height: 0, visited: false, distance: usize::MAX }),
    {
        Grid { height: 0, visited: false, distance: usize::MAX }
    }
}

impl Coord {
    /// A position that no way has reached yet.
    pub fn new(x: usize, y: usize) -> (coord: Coord)
        ensures
            coord.x == x,
            coord.y == y,
            coord.distance == usize::MAX,
    {
        Coord { x, y, distance: usize::MAX }
    }

    /// Whether the two name the same square, whatever the distances.
    pub fn same_place(&self, other: &Coord) -> (r: bool)
        ensures
            r == (self.x == other.x && self.y == other.y),
    {
        self.x == other.x && self.y == other.y
    }

    /// Whether this position is taken from the queue before `other`: it
    /// has the smaller distance or, with the same distance, the larger
    /// `x` or, with the same `x` too, the larger `y`.
    pub open spec fn goes_before(self, other: Coord) -> bool {
        self.distance < other.distance || (self.distance == other.distance && (self.x > other.x || (self.x
            == other.x && self.y >= other.y)))
    }

    /// Whether this position is taken from the queue before `other`.
    pub fn is_before(&self, other: &Coord) -> (r: bool)
        ensures
            r == self.goes_before(*other),
    {
        self.distance < other.distance || (self.distance == other.distance && (self.x > other.x || (self.x
            == other.x && self.y >= other.y)))
    }
}

/// The height that a letter stands for: `a` is 10 and `z` is 35, a digit
/// stands for itself, a capital for what its small letter stands for, but
/// `S` is as high as `a` and `E` as high as `z`.
pub open spec fn height_of(c: char) -> Option<u8> {
    if c == 'S' {
        Some(10u8)
    } else if c == 'E' {
        Some(35u8)
    } else if '0' <= c <= '9' {
        Some((c as int - '0' as int) as u8)
    } else if 'a' <= c <= 'z' {
        Some((c as int - 'a' as int + 10) as u8)
    } else if 'A' <= c <= 'Z' {
        Some((c as int - 'A' as int + 10) as u8)
    } else {
        None
    }
}

/// The height that a letter stands for.
pub fn to_height(c: char) -> (r: Option<u8>)
    ensures
        r == height_of(c),
    decreases
            (if c == 'S' || c == 'E' {
                1nat
            } else {
                0nat
            }),
{
    if c == 'S' {
        to_height('a')
    } else if c == 'E' {
        to_height('z')
    } else if c >= '0' && c <= '9' {
        Some((c as u32 - '0' as u32) as u8)
    } else if c >= 'a' && c <= 'z' {
        Some((c as u32 - 'a' as u32 + 10) as u8)
    } else if c >= 'A' && c <= 'Z' {
        Some((c as u32 - 'A' as u32 + 10) as u8)
    } else {
        None
    }
}

impl HeightMap {
    /// The square at `(x, y)`.
    pub open spec fn cell(&self, x: int, y: int) -> Grid {
        self.map@[y]@[x]
    }

    /// Whether `(x, y)` is a square of the map.
    pub open spec fn inside(&self, x: int, y: int) -> bool {
        0 <= y < self.y_end && 0 <= x < self.x_end
    }

    /// Whether the map is a rectangle of `y_end` rows and `x_end` columns
    /// that holds both positions.
    pub open spec fn wf(&self) -> bool {
        &&& self.map@.len() == self.y_end
        &&& forall|y: int| 0 <= y < self.y_end ==> (#[trigger] self.map@[y]).len() == self.x_end
        &&& self.inside(self.my_pos.x as int, self.my_pos.y as int)
        &&& self.inside(self.target_pos.x as int, self.target_pos.y as int)
    }

    /// A map without squares.
    pub fn new() -> (map: HeightMap)
        ensures
            map.map@.len() == 0,
            map.x_end == 0,
            map.y_end == 0,
            map.my_pos.x == 0 && map.my_pos.y == 0 && map.my_pos.distance == 0,
            map.target_pos.x == 0 && map.target_pos.y == 0 && map.target_pos.distance == 0,
    {
        HeightMap {
            map: Vec::new(),
            x_end: 0,
            y_end: 0,
            my_pos: Coord { x: 0, y: 0, distance: 0 },
            target_pos: Coord { x: 0, y: 0, distance: 0 },
        }
    }

    /// Whether the map has no row.
    pub fn is_empty(&self) -> (r: bool)
        ensures
            r == (self.map@.len() == 0),
    {
        self.map.len() == 0
    }

    /// The square at a position.
    pub fn at(&self, coord: &Coord) -> (grid: &Grid)
        requires
            self.wf(),
            self.inside(coord.x as int, coord.y as int),
        ensures
            *grid == self.cell(coord.x as int, coord.y as int),
    {
        &self.map[coord.y][coord.x]
    }

    /// Whether `(x, y)` is a square of the map.
    pub fn is_inside(&self, x: i32, y: i32) -> (r: bool)
        ensures
            r == self.inside(x as int, y as int),
    {
        y >= 0 && x >= 0 && (y as usize) < self.y_end && (x as usize) < self.x_end
    }

    /// Where a step from `(x, y)` in a direction leads, if it stays on the
    /// map; up is towards row zero.
    pub open spec fn next_to(&self, x: int, y: int, dir: Direction) -> Option<(int, int)> {
        let to = match dir {
            Direction::Up => (x, y - 1),
            Direction::Down => (x, y + 1),
            Direction::Left => (x - 1, y),
            Direction::Right => (x + 1, y),
        };
        if self.inside(to.0, to.1) {
            Some(to)
        } else {
            None
        }
    }

    /// Get the neighbour, if any, in the desired direction
    pub fn neighbour(&self, coord: &Coord, dir: &Direction) -> (r: Option<Coord>)
        requires
            self.inside(coord.x as int, coord.y as int),
        ensures
            match r {
                Some(next) => self.next_to(coord.x as int, coord.y as int, *dir) == Some(
                    (next.x as int, next.y as int),
                ) && next.distance == usize::MAX,
                None => self.next_to(coord.x as int, coord.y as int, *dir) is None,
            },
    {
        match dir {
            Direction::Up => {
                if coord.y >= 1 {
                    Some(Coord::new(coord.x, coord.y - 1))
                } else {
                    None
                }
            },
            Direction::Down => {
                if coord.y + 1 < self.y_end {
                    Some(Coord::new(coord.x, coord.y + 1))
                } else {
                    None
                }
            },
            Direction::Left => {
                if coord.x >= 1 {
                    Some(Coord::new(coord.x - 1, coord.y))
                } else {
                    None
                }
            },
            Direction::Right => {
                if coord.x + 1 < self.x_end {
                    Some(Coord::new(coord.x + 1, coord.y))
                } else {
                    None
                }
            },
        }
    }
}


/// The heights of a hill, row by row.
pub type Hill = Seq<Seq<u8>>;

/// Whether `at` is a square of the hill; a square is named by its column
/// and its row.
pub open spec fn on_hill(hill: Hill, at: (int, int)) -> bool {
    0 <= at.1 < hill.len() && 0 <= at.0 < hill[at.1].len()
}

/// Whether one may step from `a` to `b`: the two squares lie side by side
/// and the second is at most one unit higher than the first.
pub open spec fn step_ok(hill: Hill, a: (int, int), b: (int, int)) -> bool {
    &&& on_hill(hill, a)
    &&& on_hill(hill, b)
    &&& (a.0 == b.0 && (a.1 - b.1 == 1 || b.1 - a.1 == 1)) || (a.1 == b.1 && (a.0 - b.0 == 1 || b.0 - a.0 == 1))
    &&& hill[b.1][b.0] <= hill[a.1][a.0] + 1
}

/// Whether `path` lists the squares of a way of `k` steps from `start` to
/// `at`.
pub open spec fn is_way(hill: Hill, start: (int, int), at: (int, int), k: nat, path: Seq<(int, int)>) -> bool {
    &&& path.len() == k + 1
    &&& path[0] == start
    &&& path[k as int] == at
    &&& on_hill(hill, start)
    &&& forall|i: int| 0 <= i < k ==> step_ok(hill, #[trigger] path[i], path[i + 1])
}

/// Whether `k` steps lead from `start` to `at`.
pub open spec fn way(hill: Hill, start: (int, int), at: (int, int), k: nat) -> bool {
    exists|path: Seq<(int, int)>| #[trigger] is_way(hill, start, at, k, path)
}

/// The square from which the last step of a way comes.
pub proof fn lemma_last_step(hill: Hill, start: (int, int), at: (int, int), k: nat) -> (from: (int, int))
    requires
        k > 0,
        way(hill, start, at, k),
    ensures
        way(hill, start, from, (k - 1) as nat),
        step_ok(hill, from, at),
{
    let path = choose|path: Seq<(int, int)>| #[trigger] is_way(hill, start, at, k, path);
    let shorter = path.drop_last();
    assert(is_way(hill, start, path[k - 1], (k - 1) as nat, shorter)) by {
        assert forall|i: int| 0 <= i < k - 1 implies step_ok(hill, #[trigger] shorter[i], shorter[i + 1]) by {
            assert(step_ok(hill, path[i], path[i + 1]));
        }
    }
    assert(step_ok(hill, path[k - 1], path[k - 1 + 1]));
    path[k - 1]
}

/// A way and one more step make a way.
pub proof fn lemma_one_more_step(hill: Hill, start: (int, int), from: (int, int), at: (int, int), k: nat)
    requires
        k > 0,
        way(hill, start, from, (k - 1) as nat),
        step_ok(hill, from, at),
    ensures
        way(hill, start, at, k),
{
    let path = choose|path: Seq<(int, int)>| #[trigger] is_way(hill, start, from, (k - 1) as nat, path);
    let longer = path.push(at);
    assert(is_way(hill, start, at, k, longer)) by {
        assert forall|i: int| 0 <= i < k implies step_ok(hill, #[trigger] longer[i], longer[i + 1]) by {
            if i < k - 1 {
                assert(step_ok(hill, path[i], path[i + 1]));
            }
        }
    }
}

/// No step leads from the start to the start, or to any other square.
pub proof fn lemma_no_step(hill: Hill, start: (int, int), at: (int, int))
    ensures
        way(hill, start, at, 0) <==> at == start && on_hill(hill, start),
{
    if at == start && on_hill(hill, start) {
        assert(is_way(hill, start, at, 0, seq![start]));
    }
}

/// What a search answers: the least number of steps that lead from the
/// start to the goal, or `None` if no number of steps does.
pub open spec fn is_shortest(hill: Hill, start: (int, int), goal: (int, int), answer: Option<usize>) -> bool {
    match answer {
        Some(d) => way(hill, start, goal, d as nat) && forall|k: nat| k < d ==> !way(hill, start, goal, k),
        None => forall|k: nat| !way(hill, start, goal, k),
    }
}

impl HeightMap {
    /// The heights of the map.
    pub open spec fn hill(&self) -> Hill {
        Seq::new(self.map@.len(), |y: int| Seq::new(self.map@[y]@.len(), |x: int| self.map@[y]@[x].height))
    }

    /// Where a search starts.
    pub open spec fn start(&self) -> (int, int) {
        (self.my_pos.x as int, self.my_pos.y as int)
    }

    /// Where a search is meant to arrive.
    pub open spec fn goal(&self) -> (int, int) {
        (self.target_pos.x as int, self.target_pos.y as int)
    }

    /// Whether the squares of the map can be counted in a `usize`.
    pub open spec fn countable(&self) -> bool {
        self.x_end * self.y_end < usize::MAX
    }
}

/// Number of squares among the first `k` of a row that a search has
/// visited.
spec fn seen_in_row(row: Seq<Grid>, k: int) -> nat
    decreases k,
{
    if k <= 0 {
        0
    } else {
        seen_in_row(row, k - 1) + if row[k - 1].visited {
            1nat
        } else {
            0nat
        }
    }
}

/// Number of squares in the first `r` rows that a search has visited.
spec fn seen_in_rows(map: Seq<Vec<Grid>>, r: int) -> nat
    decreases r,
{
    if r <= 0 {
        0
    } else {
        seen_in_rows(map, r - 1) + seen_in_row(map[r - 1]@, map[r - 1]@.len() as int)
    }
}

proof fn lemma_seen_in_row_bound(row: Seq<Grid>, k: int)
    requires
        0 <= k,
    ensures
        seen_in_row(row, k) <= k,
    decreases k,
{
    if k > 0 {
        lemma_seen_in_row_bound(row, k - 1);
    }
}

proof fn lemma_seen_in_rows_bound(map: Seq<Vec<Grid>>, r: int, width: int)
    requires
        0 <= r <= map.len(),
        forall|y: int| 0 <= y < map.len() ==> (#[trigger] map[y]).len() == width,
    ensures
        seen_in_rows(map, r) <= r * width,
    decreases r,
{
    if r > 0 {
        lemma_seen_in_rows_bound(map, r - 1, width);
        lemma_seen_in_row_bound(map[r - 1]@, width);
        assert(r * width == (r - 1) * width + width) by (nonlinear_arith);
    } else {
        assert(r * width == 0) by (nonlinear_arith)
            requires
                r == 0,
        ;
    }
}

proof fn lemma_seen_in_row_same(a: Seq<Grid>, b: Seq<Grid>, k: int)
    requires
        0 <= k <= a.len(),
        a.len() == b.len(),
        forall|x: int| 0 <= x < k ==> (#[trigger] a[x]).visited == b[x].visited,
    ensures
        seen_in_row(a, k) == seen_in_row(b, k),
    decreases k,
{
    if k > 0 {
        lemma_seen_in_row_same(a, b, k - 1);
        assert(a[k - 1].visited == b[k - 1].visited);
    }
}

proof fn lemma_seen_in_row_more(a: Seq<Grid>, b: Seq<Grid>, k: int, at: int)
    requires
        0 <= k <= a.len(),
        a.len() == b.len(),
        0 <= at < a.len(),
        !a[at].visited,
        b[at].visited,
        forall|x: int| 0 <= x < a.len() && x != at ==> (#[trigger] a[x]).visited == b[x].visited,
    ensures
        seen_in_row(b, k) == seen_in_row(a, k) + if at < k {
            1nat
        } else {
            0nat
        },
    decreases k,
{
    if k > 0 {
        lemma_seen_in_row_more(a, b, k - 1, at);
        if k - 1 != at {
            assert(a[k - 1].visited == b[k - 1].visited);
        }
    }
}

/// Visiting one more square raises the count by one; changing distances
/// leaves it as it is.
proof fn lemma_seen_in_rows_more(a: Seq<Vec<Grid>>, b: Seq<Vec<Grid>>, r: int, x: int, y: int)
    requires
        0 <= r <= a.len(),
        a.len() == b.len(),
        forall|i: int| 0 <= i < a.len() ==> (#[trigger] a[i]).len() == b[i].len(),
        0 <= y < a.len(),
        0 <= x < a[y].len(),
        !a[y][x].visited,
        b[y][x].visited,
        forall|i: int, j: int|
            0 <= i < a.len() && 0 <= j < a[i].len() && !(i == y && j == x) ==> (#[trigger] a[i][j]).visited
                == b[i][j].visited,
    ensures
        seen_in_rows(b, r) == seen_in_rows(a, r) + if y < r {
            1nat
        } else {
            0nat
        },
    decreases r,
{
    if r > 0 {
        lemma_seen_in_rows_more(a, b, r - 1, x, y);
        let i = r - 1;
        if i == y {
            assert forall|j: int| 0 <= j < a[i]@.len() && j != x implies (#[trigger] a[i]@[j]).visited
                == b[i]@[j].visited by {
                assert(a[i][j].visited == b[i][j].visited);
            }
            lemma_seen_in_row_more(a[i]@, b[i]@, a[i]@.len() as int, x);
        } else {
            assert forall|j: int| 0 <= j < a[i]@.len() implies (#[trigger] a[i]@[j]).visited == b[i]@[j].visited by {
                assert(a[i][j].visited == b[i][j].visited);
            }
            lemma_seen_in_row_same(a[i]@, b[i]@, a[i]@.len() as int);
        }
    }
}

proof fn lemma_seen_in_rows_same(a: Seq<Vec<Grid>>, b: Seq<Vec<Grid>>, r: int)
    requires
        0 <= r <= a.len(),
        a.len() == b.len(),
        forall|i: int| 0 <= i < a.len() ==> (#[trigger] a[i]).len() == b[i].len(),
        forall|i: int, j: int|
            0 <= i < a.len() && 0 <= j < a[i].len() ==> (#[trigger] a[i][j]).visited == b[i][j].visited,
    ensures
        seen_in_rows(b, r) == seen_in_rows(a, r),
    decreases r,
{
    if r > 0 {
        lemma_seen_in_rows_same(a, b, r - 1);
        let i = r - 1;
        assert forall|j: int| 0 <= j < a[i]@.len() implies (#[trigger] a[i]@[j]).visited == b[i]@[j].visited by {
            assert(a[i][j].visited == b[i][j].visited);
        }
        lemma_seen_in_row_same(a[i]@, b[i]@, a[i]@.len() as int);
    }
}

/// Whether an entry of the queue names the square `(x, y)`.
spec fn is_at(e: Coord, x: int, y: int) -> bool {
    e.x == x && e.y == y
}

/// What holds of a search between two rounds. `queue` holds the squares
/// that have been reached and not yet visited.
spec fn searching(hm: &HeightMap, queue: Seq<Coord>) -> bool {
    let hill = hm.hill();
    let start = hm.start();
    &&& hm.wf()
    &&& hm.countable()
    &&& hm.cell(start.0, start.1).distance == 0
    // a distance that has been set is the length of a way
    &&& forall|x: int, y: int|
        hm.inside(x, y) && (#[trigger] hm.cell(x, y)).distance < usize::MAX ==> way(
            hill,
            start,
            (x, y),
            hm.cell(x, y).distance as nat,
        )
    // the queue holds squares with their distances, none of them visited
    &&& forall|i: int|
        0 <= i < queue.len() ==> {
            let e = #[trigger] queue[i];
            &&& hm.inside(e.x as int, e.y as int)
            &&& hm.cell(e.x as int, e.y as int).distance == e.distance
            &&& e.distance < usize::MAX
            &&& !hm.cell(e.x as int, e.y as int).visited
            &&& e.distance <= seen_in_rows(hm.map@, hm.y_end as int)
        }
    &&& forall|i: int, j: int|
        0 <= i < j < queue.len() ==> !is_at(#[trigger] queue[i], (#[trigger] queue[j]).x as int, queue[j].y as int)
    // a square that has been reached is visited or waits in the queue
    &&& forall|x: int, y: int|
        hm.inside(x, y) && (#[trigger] hm.cell(x, y)).distance < usize::MAX ==> hm.cell(x, y).visited || exists|
            i: int,
        |
            0 <= i < queue.len() && is_at(#[trigger] queue[i], x, y)
    // from a visited square, every step leads to a square at most one
    // step farther
    &&& forall|x: int, y: int|
        hm.inside(x, y) && (#[trigger] hm.cell(x, y)).visited ==> hm.cell(x, y).distance < seen_in_rows(
            hm.map@,
            hm.y_end as int,
        )
    &&& forall|ax: int, ay: int, bx: int, by: int|
        hm.inside(ax, ay) && (#[trigger] hm.cell(ax, ay)).visited && step_ok(hill, (ax, ay), (bx, by)) ==> (#[trigger] hm.cell(
            bx,
            by,
        )).distance <= hm.cell(ax, ay).distance + 1
    // the queue spans two distances at most, and nothing visited is farther
    &&& forall|x: int, y: int, i: int|
        hm.inside(x, y) && (#[trigger] hm.cell(x, y)).visited && 0 <= i < queue.len() ==> hm.cell(x, y).distance <= (
        #[trigger] queue[i]).distance
    &&& forall|i: int, j: int|
        0 <= i < queue.len() && 0 <= j < queue.len() ==> (#[trigger] queue[i]).distance <= (#[trigger] queue[j]).distance
            + 1
    &&& !hm.cell(hm.target_pos.x as int, hm.target_pos.y as int).visited
}

/// Whether the entry at `at` is taken from the queue next.
spec fn is_next(queue: Seq<Coord>, at: int) -> bool {
    &&& 0 <= at < queue.len()
    &&& forall|i: int| 0 <= i < queue.len() ==> queue[at].goes_before(#[trigger] queue[i])
}

/// While the search goes on, every way that is not longer than the next
/// distance in the queue ends on a square whose distance is set, and not
/// larger than the length of the way.
proof fn lemma_ways_are_found(hm: &HeightMap, queue: Seq<Coord>, at: int, x: int, y: int, k: nat)
    requires
        searching(hm, queue),
        is_next(queue, at),
        k <= queue[at].distance,
        way(hm.hill(), hm.start(), (x, y), k),
    ensures
        hm.inside(x, y),
        hm.cell(x, y).distance <= k,
    decreases k,
{
    let hill = hm.hill();
    if k > 0 {
        let (px, py) = lemma_last_step(hill, hm.start(), (x, y), k);
        lemma_ways_are_found(hm, queue, at, px, py, (k - 1) as nat);
        assert(hm.cell(px, py).distance < queue[at].distance);
        if !hm.cell(px, py).visited {
            let i = choose|i: int| 0 <= i < queue.len() && is_at(#[trigger] queue[i], px, py);
            assert(queue[at].goes_before(queue[i]));
        }
        assert(hm.cell(x, y).distance <= hm.cell(px, py).distance + 1);
    } else {
        lemma_no_step(hill, hm.start(), (x, y));
    }
}

/// Once the queue is empty, every way ends on a visited square.
proof fn lemma_ways_were_found(hm: &HeightMap, x: int, y: int, k: nat)
    requires
        searching(hm, Seq::<Coord>::empty()),
        way(hm.hill(), hm.start(), (x, y), k),
    ensures
        hm.inside(x, y),
        hm.cell(x, y).visited,
    decreases k,
{
    let hill = hm.hill();
    if k > 0 {
        let (px, py) = lemma_last_step(hill, hm.start(), (x, y), k);
        lemma_ways_were_found(hm, px, py, (k - 1) as nat);
        assert(hm.cell(x, y).distance <= hm.cell(px, py).distance + 1);
        assert(hm.cell(x, y).distance < usize::MAX) by {
            lemma_seen_in_rows_bound(hm.map@, hm.y_end as int, hm.x_end as int);
            assert(hm.y_end * hm.x_end == hm.x_end * hm.y_end) by (nonlinear_arith);
        }
    } else {
        lemma_no_step(hill, hm.start(), (x, y));
        assert(hm.cell(x, y).distance == 0);
    }
}


/// Whether a round of the search that visits `cur` sets the distance of
/// `n`: a step leads from `cur` to `n`, no visit has been paid to `n`, and
/// the distance of `n` is more than one step larger than that of `cur`.
spec fn improves(hm: &HeightMap, cur: (int, int), n: (int, int)) -> bool {
    &&& step_ok(hm.hill(), cur, n)
    &&& hm.cell(n.0, n.1).distance > hm.cell(cur.0, cur.1).distance + 1
    &&& !hm.cell(n.0, n.1).visited
}

/// Whether `after` is what a round of the search makes of `before`: the
/// square `cur` is visited, the squares that the round improves get a
/// distance one larger than that of `cur`, and `news` lists them, each
/// once, with that distance.
spec fn round_done(before: &HeightMap, cur: (int, int), after: &HeightMap, news: Seq<Coord>) -> bool {
    let far = before.cell(cur.0, cur.1).distance + 1;
    &&& after.wf()
    &&& after.x_end == before.x_end
    &&& after.y_end == before.y_end
    &&& after.start() == before.start()
    &&& after.goal() == before.goal()
    &&& forall|x: int, y: int|
        before.inside(x, y) ==> {
            let now = #[trigger] after.cell(x, y);
            let was = before.cell(x, y);
            &&& now.height == was.height
            &&& now.visited == (was.visited || (x, y) == cur)
            &&& now.distance == if improves(before, cur, (x, y)) {
                far
            } else {
                was.distance as int
            }
        }
    &&& forall|j: int|
        0 <= j < news.len() ==> improves(before, cur, ((#[trigger] news[j]).x as int, news[j].y as int))
            && news[j].distance == far
    &&& forall|i: int, j: int|
        0 <= i < j < news.len() ==> !is_at(#[trigger] news[i], (#[trigger] news[j]).x as int, news[j].y as int)
    &&& forall|x: int, y: int|
        #![trigger before.cell(x, y)]
        improves(before, cur, (x, y)) ==> exists|j: int| 0 <= j < news.len() && is_at(#[trigger] news[j], x, y)
}

/// A round of the search keeps what holds between rounds, and visits one
/// square more.
proof fn lemma_round(before: &HeightMap, queue: Seq<Coord>, at: int, after: &HeightMap, news: Seq<Coord>)
    requires
        searching(before, queue),
        is_next(queue, at),
        !is_at(queue[at], before.goal().0, before.goal().1),
        round_done(before, (queue[at].x as int, queue[at].y as int), after, news),
    ensures
        searching(after, queue.remove(at) + news),
        seen_in_rows(after.map@, after.y_end as int) == seen_in_rows(before.map@, before.y_end as int) + 1,
{
    let e = queue[at];
    let cur = (e.x as int, e.y as int);
    let near = e.distance as int;
    let far = near + 1;
    let rest = queue.remove(at);
    let next = rest + news;
    let hill = before.hill();
    let start = before.start();
    assert(after.hill() =~= hill) by {
        assert forall|y: int| 0 <= y < hill.len() implies (#[trigger] after.hill()[y]) =~= hill[y] by {
            assert forall|x: int| 0 <= x < hill[y].len() implies after.hill()[y][x] == hill[y][x] by {
                assert(after.cell(x, y).height == before.cell(x, y).height);
            }
        }
    }
    // one square more is visited
    assert forall|i: int, j: int|
        0 <= i < before.map@.len() && 0 <= j < before.map@[i].len() && !(i == cur.1 && j == cur.0) implies (
    #[trigger] before.map@[i][j]).visited == after.map@[i][j].visited by {
        assert(after.cell(j, i).visited == (before.cell(j, i).visited || (j, i) == cur));
    }
    assert(after.cell(cur.0, cur.1).visited);
    assert forall|i: int| 0 <= i < before.map@.len() implies (#[trigger] before.map@[i]).len() == after.map@[i].len() by {}
    lemma_seen_in_rows_more(before.map@, after.map@, before.y_end as int, cur.0, cur.1);
    lemma_seen_in_rows_bound(after.map@, after.y_end as int, after.x_end as int);
    assert(after.y_end * after.x_end == after.x_end * after.y_end) by (nonlinear_arith);
    let seen = seen_in_rows(before.map@, before.y_end as int);
    assert(far <= seen + 1 < usize::MAX);
    // what the round improves had not been reached
    assert forall|x: int, y: int| improves(before, cur, (x, y)) implies (#[trigger] before.cell(x, y)).distance
        == usize::MAX by {
        if before.cell(x, y).distance < usize::MAX {
            let i = choose|i: int| 0 <= i < queue.len() && is_at(#[trigger] queue[i], x, y);
            assert(queue[i].distance <= queue[at].distance + 1);
        }
    }
    // the entries of the new queue
    assert forall|i: int| 0 <= i < next.len() implies {
        let n = #[trigger] next[i];
        &&& after.inside(n.x as int, n.y as int)
        &&& after.cell(n.x as int, n.y as int).distance == n.distance
        &&& n.distance < usize::MAX
        &&& !after.cell(n.x as int, n.y as int).visited
        &&& n.distance <= seen + 1
        &&& near <= n.distance <= far
        &&& (i < rest.len() ==> exists|k: int| 0 <= k < queue.len() && k != at && queue[k] == n)
        &&& (i >= rest.len() ==> n == news[i - rest.len()])
    } by {
        if i < rest.len() {
            let k = if i < at {
                i
            } else {
                i + 1
            };
            assert(next[i] == queue[k]);
            assert(queue[at].goes_before(queue[k]));
            assert(queue[k].distance <= queue[at].distance + 1);
            if at < k {
                assert(!is_at(queue[at], queue[k].x as int, queue[k].y as int));
            } else {
                assert(!is_at(queue[k], queue[at].x as int, queue[at].y as int));
            }
            assert(before.cell(queue[k].x as int, queue[k].y as int).distance == queue[k].distance);
        } else {
            let j = i - rest.len();
            assert(next[i] == news[j]);
            assert(improves(before, cur, (news[j].x as int, news[j].y as int)));
        }
    }
    assert forall|i: int, j: int| 0 <= i < j < next.len() implies !is_at(
        #[trigger] next[i],
        (#[trigger] next[j]).x as int,
        next[j].y as int,
    ) by {
        if j < rest.len() {
            let ki = if i < at {
                i
            } else {
                i + 1
            };
            let kj = if j < at {
                j
            } else {
                j + 1
            };
            assert(next[i] == queue[ki] && next[j] == queue[kj]);
        } else if i < rest.len() {
            let ki = if i < at {
                i
            } else {
                i + 1
            };
            assert(next[i] == queue[ki]);
            assert(next[j] == news[j - rest.len()]);
            assert(before.cell(queue[ki].x as int, queue[ki].y as int).distance == queue[ki].distance);
            assert(improves(before, cur, (news[j - rest.len()].x as int, news[j - rest.len()].y as int)));
        } else {
            assert(next[i] == news[i - rest.len()] && next[j] == news[j - rest.len()]);
        }
    }
    // distances that are set are lengths of ways
    assert forall|x: int, y: int| after.inside(x, y) && (#[trigger] after.cell(x, y)).distance < usize::MAX implies way(
        hill,
        start,
        (x, y),
        after.cell(x, y).distance as nat,
    ) by {
        if improves(before, cur, (x, y)) {
            assert(before.cell(cur.0, cur.1).distance == near);
            lemma_one_more_step(hill, start, cur, (x, y), far as nat);
        } else {
            assert(before.cell(x, y).distance == after.cell(x, y).distance);
        }
    }
    // reached squares are visited or wait in the queue
    assert forall|x: int, y: int| after.inside(x, y) && (#[trigger] after.cell(x, y)).distance < usize::MAX implies after.cell(
        x,
        y,
    ).visited || exists|i: int| 0 <= i < next.len() && is_at(#[trigger] next[i], x, y) by {
        if improves(before, cur, (x, y)) {
            let j = choose|j: int| 0 <= j < news.len() && is_at(#[trigger] news[j], x, y);
            assert(next[rest.len() + j] == news[j]);
        } else if !after.cell(x, y).visited {
            assert(before.cell(x, y).distance < usize::MAX);
            let k = choose|k: int| 0 <= k < queue.len() && is_at(#[trigger] queue[k], x, y);
            assert(k != at);
            let i = if k < at {
                k
            } else {
                k - 1
            };
            assert(next[i] == queue[k]);
        }
    }
    assert forall|x: int, y: int| after.inside(x, y) && (#[trigger] after.cell(x, y)).visited implies after.cell(
        x,
        y,
    ).distance < seen + 1 by {
        assert(!improves(before, cur, (x, y)) || (x, y) == cur);
        if (x, y) != cur {
            assert(before.cell(x, y).visited);
        }
    }
    // steps from visited squares
    assert forall|ax: int, ay: int, bx: int, by: int|
        after.inside(ax, ay) && (#[trigger] after.cell(ax, ay)).visited && step_ok(
            hill,
            (ax, ay),
            (bx, by),
        ) implies (#[trigger] after.cell(bx, by)).distance <= after.cell(ax, ay).distance + 1 by {
        assert(after.inside(bx, by));
        assert(after.cell(bx, by).distance <= before.cell(bx, by).distance);
        if (ax, ay) == cur {
            assert(after.cell(ax, ay).distance == near);
            if !improves(before, cur, (bx, by)) {
                if before.cell(bx, by).visited {
                    assert(before.cell(bx, by).distance <= queue[at].distance);
                }
            }
        } else {
            assert(before.cell(ax, ay).visited);
            assert(before.cell(bx, by).distance <= before.cell(ax, ay).distance + 1);
            assert(after.cell(ax, ay).distance == before.cell(ax, ay).distance);
        }
    }
    assert forall|x: int, y: int, i: int|
        after.inside(x, y) && (#[trigger] after.cell(x, y)).visited && 0 <= i < next.len() implies after.cell(
            x,
            y,
        ).distance <= (#[trigger] next[i]).distance by {
        if (x, y) != cur {
            assert(before.cell(x, y).visited);
            assert(before.cell(x, y).distance <= queue[at].distance);
        }
    }
    assert forall|i: int, j: int| 0 <= i < next.len() && 0 <= j < next.len() implies (#[trigger] next[i]).distance <= (
    #[trigger] next[j]).distance + 1 by {}
    assert(!after.cell(after.goal().0, after.goal().1).visited);
    assert(after.cell(start.0, start.1).distance == 0) by {
        assert(before.cell(start.0, start.1).distance == 0);
    }
}


/// Takes from the queue the entry that goes before all others.
fn pop_best(queue: &mut Vec<Coord>) -> (r: Option<Coord>)
    ensures
        match r {
            Some(e) => exists|at: int|
                #[trigger] is_next(old(queue)@, at) && old(queue)@[at] == e && final(queue)@ == old(queue)@.remove(at),
            None => old(queue)@.len() == 0 && final(queue)@ == old(queue)@,
        },
{
    if queue.len() == 0 {
        return None;
    }
    let mut best: usize = 0;
    let mut i: usize = 1;
    while i < queue.len()
        invariant
            1 <= i <= queue.len(),
            best < i,
            *queue == *old(queue),
            forall|j: int| 0 <= j < i ==> queue@[best as int].goes_before(#[trigger] queue@[j]),
        decreases queue.len() - i,
    {
        if !queue[best].is_before(&queue[i]) {
            best = i;
        }
        i += 1;
    }
    assert(is_next(queue@, best as int));
    let e = queue.remove(best);
    Some(e)
}

impl HeightMap {
    /// The neighbours of `cur` in the order up, left, down, right, with
    /// those left out for which `keep` says no; `keep` holds an answer for
    /// each of the four directions.
    pub open spec fn kept_neighbours(&self, cur: (int, int), keep: Seq<bool>, upto: int) -> Seq<(int, int)>
        decreases upto,
    {
        if upto <= 0 || upto > 4 {
            Seq::empty()
        } else {
            let before = self.kept_neighbours(cur, keep, upto - 1);
            match self.next_to(cur.0, cur.1, direction_at(upto - 1)) {
                Some(next) => if keep[upto - 1] {
                    before.push(next)
                } else {
                    before
                },
                None => before,
            }
        }
    }

    /// Get a vector of coordinates that are possible next moves in the map
    pub fn get_neighbours_if<F>(&self, cur: &Coord, mut predicate: F) -> (neighbours: Vec<Coord>) where
        F: FnMut(&Coord) -> bool,

        requires
            self.inside(cur.x as int, cur.y as int),
            forall|n: &Coord| self.inside(n.x as int, n.y as int) ==> #[trigger] call_requires(predicate, (n,)),
        ensures
            exists|keep: Seq<bool>| #[trigger]
                self.answers(cur.x as int, cur.y as int, predicate, keep) && places(neighbours@)
                    == self.kept_neighbours((cur.x as int, cur.y as int), keep, 4),
            forall|j: int| 0 <= j < neighbours.len() ==> (#[trigger] neighbours[j]).distance == usize::MAX,
    {
        let ghost asked = predicate;
        let ghost at = (cur.x as int, cur.y as int);
        let ghost mut keep: Seq<bool> = Seq::empty();
        let mut neighbours: Vec<Coord> = Vec::new();
        let directions = Direction::iter();
        let mut k: usize = 0;
        proof {
            assert(places(neighbours@) =~= self.kept_neighbours(at, keep, 0));
        }
        while k < 4
            invariant
                k <= 4,
                predicate == asked,
                at == (cur.x as int, cur.y as int),
                self.inside(cur.x as int, cur.y as int),
                forall|n: &Coord| self.inside(n.x as int, n.y as int) ==> #[trigger] call_requires(predicate, (n,)),
                directions@ == seq![Direction::Up, Direction::Left, Direction::Down, Direction::Right],
                keep.len() == k,
                forall|d: int| 0 <= d < k ==> #[trigger] self.answered(at.0, at.1, predicate, d, keep[d]),
                places(neighbours@) == self.kept_neighbours(at, keep, k as int),
                forall|j: int| 0 <= j < neighbours.len() ==> (#[trigger] neighbours[j]).distance == usize::MAX,
            decreases 4 - k,
        {
            let dir = directions[k];
            assert(dir == direction_at(k as int));
            let ghost so_far = keep;
            let ghost listed = places(neighbours@);
            match self.neighbour(cur, &dir) {
                Some(next) => {
                    let wanted = predicate(&next);
                    proof {
                        keep = keep.push(wanted);
                        assert(self.answered(at.0, at.1, predicate, k as int, wanted));
                    }
                    if wanted {
                        neighbours.push(next);
                        proof {
                            assert(places(neighbours@) =~= listed.push((next.x as int, next.y as int)));
                        }
                    }
                },
                None => {
                    proof {
                        keep = keep.push(false);
                    }
                },
            }
            proof {
                lemma_kept_same(self, at, so_far, keep, k as int);
                assert forall|d: int| 0 <= d < k + 1 implies #[trigger] self.answered(
                    at.0,
                    at.1,
                    predicate,
                    d,
                    keep[d],
                ) by {
                    if d < k {
                        assert(self.answered(at.0, at.1, predicate, d, so_far[d]));
                    }
                }
            }
            k += 1;
        }
        proof {
            assert(self.answers(cur.x as int, cur.y as int, predicate, keep));
        }
        neighbours
    }

    /// Whether `keep` is an answer that `predicate` may give for the
    /// neighbour of `(x, y)` in direction number `d`, if there is one.
    pub open spec fn answered<F: FnMut(&Coord) -> bool>(&self, x: int, y: int, predicate: F, d: int, keep: bool) -> bool {
        match self.next_to(x, y, direction_at(d)) {
            Some(next) => exists|n: &Coord|
                n.x == next.0 && n.y == next.1 && n.distance == usize::MAX && #[trigger] call_ensures(
                    predicate,
                    (n,),
                    keep,
                ),
            None => true,
        }
    }

    /// Whether `keep` holds, for each of the four directions, an answer
    /// that `predicate` may give for the neighbour of `(x, y)` there.
    pub open spec fn answers<F: FnMut(&Coord) -> bool>(&self, x: int, y: int, predicate: F, keep: Seq<bool>) -> bool {
        &&& keep.len() == 4
        &&& forall|d: int| 0 <= d < 4 ==> #[trigger] self.answered(x, y, predicate, d, keep[d])
    }
}

/// The direction that a search looks in at its turn number `d`.
pub open spec fn direction_at(d: int) -> Direction {
    if d == 0 {
        Direction::Up
    } else if d == 1 {
        Direction::Left
    } else if d == 2 {
        Direction::Down
    } else {
        Direction::Right
    }
}

/// The squares that a list of positions names.
pub open spec fn places(coords: Seq<Coord>) -> Seq<(int, int)> {
    Seq::new(coords.len(), |j: int| (coords[j].x as int, coords[j].y as int))
}

proof fn lemma_kept_same(hm: &HeightMap, cur: (int, int), a: Seq<bool>, b: Seq<bool>, upto: int)
    requires
        0 <= upto <= 4,
        upto <= a.len(),
        upto <= b.len(),
        forall|d: int| 0 <= d < upto ==> a[d] == b[d],
    ensures
        hm.kept_neighbours(cur, a, upto) == hm.kept_neighbours(cur, b, upto),
    decreases upto,
{
    if upto > 0 {
        lemma_kept_same(hm, cur, a, b, upto - 1);
    }
}


/// What the list of kept neighbours holds: the neighbour in each
/// direction for which the answer is yes, and no square twice.
proof fn lemma_kept_neighbours(hm: &HeightMap, cur: (int, int), keep: Seq<bool>)
    requires
        keep.len() == 4,
    ensures
        hm.kept_neighbours(cur, keep, 4).no_duplicates(),
        forall|j: int|
            0 <= j < hm.kept_neighbours(cur, keep, 4).len() ==> exists|d: int|
                0 <= d < 4 && keep[d] && #[trigger] hm.next_to(cur.0, cur.1, direction_at(d)) == Some(
                    #[trigger] hm.kept_neighbours(cur, keep, 4)[j],
                ),
        forall|d: int|
            0 <= d < 4 && keep[d] && (#[trigger] hm.next_to(cur.0, cur.1, direction_at(d))) is Some
                ==> hm.kept_neighbours(cur, keep, 4).contains(hm.next_to(cur.0, cur.1, direction_at(d))->0),
{
    reveal_with_fuel(HeightMap::kept_neighbours, 5);
    let list = hm.kept_neighbours(cur, keep, 4);
    let l0 = hm.kept_neighbours(cur, keep, 0);
    let l1 = hm.kept_neighbours(cur, keep, 1);
    let l2 = hm.kept_neighbours(cur, keep, 2);
    let l3 = hm.kept_neighbours(cur, keep, 3);
    let n0 = hm.next_to(cur.0, cur.1, direction_at(0));
    let n1 = hm.next_to(cur.0, cur.1, direction_at(1));
    let n2 = hm.next_to(cur.0, cur.1, direction_at(2));
    let n3 = hm.next_to(cur.0, cur.1, direction_at(3));
    assert(forall|j: int| 0 <= j < l1.len() ==> n0 == Some(#[trigger] l1[j]) && keep[0]);
    assert(forall|j: int| 0 <= j < l2.len() ==> (n0 == Some(#[trigger] l2[j]) && keep[0]) || (n1 == Some(l2[j]) && keep[1]));
    assert(forall|j: int|
        0 <= j < l3.len() ==> (n0 == Some(#[trigger] l3[j]) && keep[0]) || (n1 == Some(l3[j]) && keep[1]) || (n2
            == Some(l3[j]) && keep[2]));
    assert forall|j: int| 0 <= j < list.len() implies exists|d: int|
        0 <= d < 4 && keep[d] && #[trigger] hm.next_to(cur.0, cur.1, direction_at(d)) == Some(#[trigger] list[j]) by {
        if n0 == Some(list[j]) && keep[0] {
            assert(hm.next_to(cur.0, cur.1, direction_at(0)) == Some(list[j]));
        } else if n1 == Some(list[j]) && keep[1] {
            assert(hm.next_to(cur.0, cur.1, direction_at(1)) == Some(list[j]));
        } else if n2 == Some(list[j]) && keep[2] {
            assert(hm.next_to(cur.0, cur.1, direction_at(2)) == Some(list[j]));
        } else {
            assert(hm.next_to(cur.0, cur.1, direction_at(3)) == Some(list[j]));
        }
    }
    assert forall|d: int| 0 <= d < 4 && keep[d] && (#[trigger] hm.next_to(cur.0, cur.1, direction_at(d))) is Some implies list.contains(
        hm.next_to(cur.0, cur.1, direction_at(d))->0,
    ) by {
        let p = hm.next_to(cur.0, cur.1, direction_at(d))->0;
        if d == 0 {
            assert(l1[0] == p);
            assert(l2[0] == p && l3[0] == p && list[0] == p);
        } else if d == 1 {
            assert(l2[l1.len() as int] == p);
            assert(l3[l1.len() as int] == p && list[l1.len() as int] == p);
        } else if d == 2 {
            assert(l3[l2.len() as int] == p);
            assert(list[l2.len() as int] == p);
        } else {
            assert(list[l3.len() as int] == p);
        }
    }
    assert(list.no_duplicates()) by {
        assert(l1.no_duplicates());
        assert(l2.no_duplicates());
        assert(l3.no_duplicates());
    }
}

impl HeightMap {
    /// Whether a search can be made on the map: it is a rectangle with
    /// both positions on it, and its squares can be counted.
    pub fn is_ready(&self) -> (r: bool)
        ensures
            r == (self.wf() && self.countable()),
    {
        if self.map.len() != self.y_end {
            return false;
        }
        let mut y: usize = 0;
        while y < self.y_end
            invariant
                y <= self.y_end,
                self.map@.len() == self.y_end,
                forall|i: int| 0 <= i < y ==> (#[trigger] self.map@[i]).len() == self.x_end,
            decreases self.y_end - y,
        {
            if self.map[y].len() != self.x_end {
                return false;
            }
            y += 1;
        }
        if !(self.my_pos.x < self.x_end && self.my_pos.y < self.y_end && self.target_pos.x < self.x_end
            && self.target_pos.y < self.y_end) {
            return false;
        }
        match self.x_end.checked_mul(self.y_end) {
            Some(squares) => squares < usize::MAX,
            None => false,
        }
    }
}

/// Whether no square is visited and only the start has a distance, which
/// is zero.
spec fn forgotten(map: &HeightMap) -> bool {
    forall|x: int, y: int|
        map.inside(x, y) ==> {
            let now = #[trigger] map.cell(x, y);
            &&& !now.visited
            &&& now.distance == if (x, y) == map.start() {
                0
            } else {
                usize::MAX
            }
        }
}

/// Forgets what an earlier search has found: no square is visited, and
/// only the start has a distance, which is zero.
fn forget(map: &mut HeightMap)
    requires
        old(map).wf(),
    ensures
        final(map).wf(),
        final(map).x_end == old(map).x_end,
        final(map).y_end == old(map).y_end,
        final(map).start() == old(map).start(),
        final(map).goal() == old(map).goal(),
        final(map).hill() == old(map).hill(),
        forgotten(final(map)),
{
    let ghost hill = map.hill();
    let mut y: usize = 0;
    while y < map.y_end
        invariant
            y <= map.y_end,
            map.wf(),
            map.x_end == old(map).x_end,
            map.y_end == old(map).y_end,
            map.start() == old(map).start(),
            map.goal() == old(map).goal(),
            map.hill() == hill,
            forall|i: int, j: int|
                0 <= j < y && 0 <= i < map.x_end ==> !(#[trigger] map.cell(i, j)).visited && map.cell(i, j).distance
                    == usize::MAX,
        decreases map.y_end - y,
    {
        let mut x: usize = 0;
        while x < map.x_end
            invariant
                x <= map.x_end,
                y < map.y_end,
                map.wf(),
                map.x_end == old(map).x_end,
                map.y_end == old(map).y_end,
                map.start() == old(map).start(),
                map.goal() == old(map).goal(),
                map.hill() == hill,
                forall|i: int, j: int|
                    0 <= j < y && 0 <= i < map.x_end ==> !(#[trigger] map.cell(i, j)).visited && map.cell(
                        i,
                        j,
                    ).distance == usize::MAX,
                forall|i: int| 0 <= i < x ==> !(#[trigger] map.cell(i, y as int)).visited && map.cell(i, y as int).distance == usize::MAX,
            decreases map.x_end - x,
        {
            let ghost before = *map;
            map.map[y][x].visited = false;
            map.map[y][x].distance = usize::MAX;
            proof {
                assert forall|i: int, j: int| before.inside(i, j) && !(i == x && j == y) implies #[trigger] map.cell(i, j)
                    == before.cell(i, j) by {}
                assert(map.hill() =~= hill) by {
                    assert forall|j: int| 0 <= j < hill.len() implies (#[trigger] map.hill()[j]) =~= hill[j] by {
                        assert forall|i: int| 0 <= i < hill[j].len() implies map.hill()[j][i] == hill[j][i] by {
                            assert(before.hill()[j][i] == before.cell(i, j).height);
                        }
                    }
                }
            }
            x += 1;
        }
        y += 1;
    }
    let ghost before = *map;
    let sx = map.my_pos.x;
    let sy = map.my_pos.y;
    map.map[sy][sx].distance = 0;
    proof {
        assert forall|i: int, j: int| before.inside(i, j) && !(i == sx && j == sy) implies #[trigger] map.cell(i, j)
            == before.cell(i, j) by {}
        assert forall|i: int, j: int| map.inside(i, j) implies {
            let now = #[trigger] map.cell(i, j);
            &&& !now.visited
            &&& now.distance == if (i, j) == map.start() {
                0
            } else {
                usize::MAX
            }
        } by {
            assert(!before.cell(i, j).visited && before.cell(i, j).distance == usize::MAX);
            if !(i == sx && j == sy) {
                assert(map.cell(i, j) == before.cell(i, j));
            }
        }
        assert(map.hill() =~= hill) by {
            assert forall|j: int| 0 <= j < hill.len() implies (#[trigger] map.hill()[j]) =~= hill[j] by {
                assert forall|i: int| 0 <= i < hill[j].len() implies map.hill()[j][i] == hill[j][i] by {
                    assert(before.hill()[j][i] == before.cell(i, j).height);
                }
            }
        }
    }
}

proof fn lemma_nothing_seen(map: Seq<Vec<Grid>>, r: int)
    requires
        0 <= r <= map.len(),
        forall|i: int, j: int| 0 <= i < map.len() && 0 <= j < map[i].len() ==> !(#[trigger] map[i][j]).visited,
    ensures
        seen_in_rows(map, r) == 0,
    decreases r,
{
    if r > 0 {
        lemma_nothing_seen(map, r - 1);
        lemma_none_seen_in_row(map[r - 1]@, map[r - 1]@.len() as int);
    }
}

proof fn lemma_none_seen_in_row(row: Seq<Grid>, k: int)
    requires
        0 <= k <= row.len(),
        forall|j: int| 0 <= j < row.len() ==> !(#[trigger] row[j]).visited,
    ensures
        seen_in_row(row, k) == 0,
    decreases k,
{
    if k > 0 {
        lemma_none_seen_in_row(row, k - 1);
    }
}


/// Whether one of the first `upto` squares of the list is `at`.
spec fn listed(spots: Seq<(int, int)>, upto: int, at: (int, int)) -> bool {
    exists|i: int| 0 <= i < upto && i < spots.len() && #[trigger] spots[i] == at
}

/// Whether `spots` lists, each once, the squares that a round of the
/// search improves when it visits `cur`.
spec fn lists_improved(hm: &HeightMap, cur: (int, int), spots: Seq<(int, int)>) -> bool {
    &&& spots.no_duplicates()
    &&& forall|at: (int, int)| #[trigger] listed(spots, spots.len() as int, at) <==> improves(hm, cur, at)
}

/// Lists the neighbours of `cur` that a round of the search improves.
fn improved_neighbours(hm: &HeightMap, cur: &Coord) -> (found: Vec<Coord>)
    requires
        hm.wf(),
        hm.inside(cur.x as int, cur.y as int),
        hm.cell(cur.x as int, cur.y as int).distance < usize::MAX,
    ensures
        lists_improved(hm, (cur.x as int, cur.y as int), places(found@)),
{
    let ghost here = (cur.x as int, cur.y as int);
    let cur_distance = hm.at(cur).distance;
    let cur_height = hm.at(cur).height;
    let far = cur_distance + 1;
    // a valid neighbour is farther than one step from the current square,
    // has not been visited yet, and is no higher than one step up
    let wanted = |neighbour: &Coord| -> (keep: bool)
        requires
            hm.wf(),
            hm.inside(neighbour.x as int, neighbour.y as int),
        ensures
            keep == (hm.cell(neighbour.x as int, neighbour.y as int).distance > far && !hm.cell(
                neighbour.x as int,
                neighbour.y as int,
            ).visited && hm.cell(neighbour.x as int, neighbour.y as int).height <= cur_height + 1),
        {
            let grid = hm.at(neighbour);
            grid.distance > far && !grid.visited && (grid.height as u16) <= (cur_height as u16) + 1
        };
    let found = hm.get_neighbours_if(cur, wanted);
    proof {
        let keep = choose|keep: Seq<bool>| #[trigger]
            hm.answers(cur.x as int, cur.y as int, wanted, keep) && places(found@) == hm.kept_neighbours(here, keep, 4);
        lemma_kept_neighbours(hm, here, keep);
        let list = hm.kept_neighbours(here, keep, 4);
        assert forall|d: int| 0 <= d < 4 && (#[trigger] hm.next_to(here.0, here.1, direction_at(d))) is Some implies keep[d]
            == improves(hm, here, hm.next_to(here.0, here.1, direction_at(d))->0) by {
            assert(hm.answered(here.0, here.1, wanted, d, keep[d]));
            let p = hm.next_to(here.0, here.1, direction_at(d))->0;
            assert(hm.hill()[p.1][p.0] == hm.cell(p.0, p.1).height);
            assert(hm.hill()[here.1][here.0] == hm.cell(here.0, here.1).height);
        }
        assert forall|at: (int, int)| #[trigger] listed(list, list.len() as int, at) <==> improves(hm, here, at) by {
            if listed(list, list.len() as int, at) {
                let j = choose|j: int| 0 <= j < list.len() && #[trigger] list[j] == at;
                let d = choose|d: int|
                    0 <= d < 4 && keep[d] && #[trigger] hm.next_to(here.0, here.1, direction_at(d)) == Some(list[j]);
            }
            if improves(hm, here, at) {
                let d: int = if at.1 == here.1 - 1 {
                    0
                } else if at.0 == here.0 - 1 {
                    1
                } else if at.1 == here.1 + 1 {
                    2
                } else {
                    3
                };
                assert(hm.next_to(here.0, here.1, direction_at(d)) == Some(at));
                assert(list.contains(at));
                let j = choose|j: int| 0 <= j < list.len() && list[j] == at;
                assert(list[j] == at);
            }
        }
    }
    found
}

/// Finds the least number of steps that lead from the start of the map to
/// its goal, where a step leads to a square next to the one before and
/// climbs one unit at most. `None` says that no way leads there. What an
/// earlier search has left on the map is forgotten first.
pub fn dijkstra(map: &mut HeightMap) -> (r: Option<usize>)
    requires
        old(map).wf(),
        old(map).countable(),
    ensures
        final(map).wf(),
        final(map).hill() == old(map).hill(),
        final(map).start() == old(map).start(),
        final(map).goal() == old(map).goal(),
        is_shortest(old(map).hill(), old(map).start(), old(map).goal(), r),
{
    let ghost hill = map.hill();
    let ghost start = map.start();
    let ghost goal = map.goal();
    // make sure to reset what an earlier search has found
    forget(map);
    let target = map.target_pos;
    let mut unvisited: Vec<Coord> = Vec::new();
    unvisited.push(Coord { x: map.my_pos.x, y: map.my_pos.y, distance: 0 });
    proof {
        lemma_no_step(hill, start, start);
        assert forall|i: int, j: int| 0 <= i < map.map@.len() && 0 <= j < map.map@[i].len() implies !(
        #[trigger] map.map@[i][j]).visited by {
            assert(!map.cell(j, i).visited);
        }
        lemma_nothing_seen(map.map@, map.y_end as int);
        assert(searching(map, unvisited@)) by {
            assert forall|x: int, y: int| map.inside(x, y) && (#[trigger] map.cell(x, y)).distance
                < usize::MAX implies map.cell(x, y).visited || exists|i: int|
                0 <= i < unvisited@.len() && is_at(#[trigger] unvisited@[i], x, y) by {
                assert(is_at(unvisited@[0], x, y));
            }
        }
        lemma_seen_in_rows_bound(map.map@, map.y_end as int, map.x_end as int);
        assert(map.y_end * map.x_end == map.x_end * map.y_end) by (nonlinear_arith);
    }
    loop
        invariant
            searching(map, unvisited@),
            hill == old(map).hill(),
            start == old(map).start(),
            goal == old(map).goal(),
            map.hill() == hill,
            map.start() == start,
            map.goal() == goal,
            target.x == map.target_pos.x,
            target.y == map.target_pos.y,
            seen_in_rows(map.map@, map.y_end as int) <= map.x_end * map.y_end,
        decreases map.x_end * map.y_end - seen_in_rows(map.map@, map.y_end as int),
    {
        let ghost queue = unvisited@;
        let cur = match pop_best(&mut unvisited) {
            Some(cur) => cur,
            None => {
                proof {
                    assert(queue =~= Seq::<Coord>::empty());
                    assert forall|k: nat| !way(hill, start, goal, k) by {
                        if way(hill, start, goal, k) {
                            lemma_ways_were_found(map, goal.0, goal.1, k);
                        }
                    }
                }
                return None;
            },
        };
        let ghost at = choose|at: int| #[trigger] is_next(queue, at) && queue[at] == cur && unvisited@ == queue.remove(at);
        let ghost here = (cur.x as int, cur.y as int);
        if cur.same_place(&target) {
            proof {
                assert(map.cell(goal.0, goal.1).distance == cur.distance);
                assert forall|k: nat| k < cur.distance implies !way(hill, start, goal, k) by {
                    if way(hill, start, goal, k) {
                        lemma_ways_are_found(map, queue, at, goal.0, goal.1, k);
                    }
                }
            }
            return Some(cur.distance);
        }
        let cur_distance = map.at(&cur).distance;
        let far = cur_distance + 1;
        let ghost before = *map;
        let mut neighbours = improved_neighbours(map, &cur);
        let ghost spots = places(neighbours@);
        proof {
            assert forall|i: int| 0 <= i < spots.len() implies before.inside((#[trigger] spots[i]).0, spots[i].1) by {
                assert(listed(spots, spots.len() as int, spots[i]));
            }
        }
        // set the new, lower distances of the neighbouring squares
        let mut j: usize = 0;
        while j < neighbours.len()
            invariant
                j <= neighbours.len(),
                before.wf(),
                map.wf(),
                map.x_end == before.x_end,
                map.y_end == before.y_end,
                map.my_pos == before.my_pos,
                map.target_pos == before.target_pos,
                places(neighbours@) == spots,
                forall|i: int| 0 <= i < spots.len() ==> before.inside((#[trigger] spots[i]).0, spots[i].1),
                forall|i: int| 0 <= i < j ==> (#[trigger] neighbours[i]).distance == far,
                forall|x: int, y: int|
                    before.inside(x, y) ==> {
                        let now = #[trigger] map.cell(x, y);
                        let was = before.cell(x, y);
                        &&& now.height == was.height
                        &&& now.visited == was.visited
                        &&& now.distance == if listed(spots, j as int, (x, y)) {
                            far
                        } else {
                            was.distance
                        }
                    },
            decreases neighbours.len() - j,
        {
            let ghost so_far = *map;
            let ghost was_listed = neighbours@;
            let nx = neighbours[j].x;
            let ny = neighbours[j].y;
            assert(spots[j as int] == (nx as int, ny as int));
            neighbours[j].distance = far;
            map.map[ny][nx].distance = far;
            proof {
                assert(places(neighbours@) =~= spots) by {
                    assert forall|i: int| 0 <= i < spots.len() implies places(neighbours@)[i] == spots[i] by {
                        assert(places(was_listed)[i] == spots[i]);
                    }
                }
                assert forall|x: int, y: int| so_far.inside(x, y) && !(x == nx && y == ny) implies #[trigger] map.cell(
                    x,
                    y,
                ) == so_far.cell(x, y) by {}
                assert forall|x: int, y: int| before.inside(x, y) implies {
                    let now = #[trigger] map.cell(x, y);
                    let was = before.cell(x, y);
                    &&& now.height == was.height
                    &&& now.visited == was.visited
                    &&& now.distance == if listed(spots, j + 1, (x, y)) {
                        far
                    } else {
                        was.distance
                    }
                } by {
                    assert(so_far.cell(x, y).height == before.cell(x, y).height);
                    if x == nx && y == ny {
                        assert(spots[j as int] == (x, y));
                    } else {
                        assert(map.cell(x, y) == so_far.cell(x, y));
                        if listed(spots, j as int, (x, y)) {
                            let i = choose|i: int| 0 <= i < j && i < spots.len() && #[trigger] spots[i] == (x, y);
                            assert(spots[i] == (x, y));
                        }
                        if listed(spots, j + 1, (x, y)) {
                            let i = choose|i: int| 0 <= i < j + 1 && i < spots.len() && #[trigger] spots[i] == (x, y);
                            assert(i < j);
                            assert(spots[i] == (x, y));
                        }
                    }
                }
            }
            j += 1;
        }
        // mark current as visited
        let ghost so_far = *map;
        map.map[cur.y][cur.x].visited = true;
        proof {
            assert forall|x: int, y: int| so_far.inside(x, y) && !(x == cur.x && y == cur.y) implies #[trigger] map.cell(
                x,
                y,
            ) == so_far.cell(x, y) by {}
            assert(round_done(&before, here, map, neighbours@)) by {
                assert forall|x: int, y: int| before.inside(x, y) implies {
                    let now = #[trigger] map.cell(x, y);
                    let was = before.cell(x, y);
                    &&& now.height == was.height
                    &&& now.visited == (was.visited || (x, y) == here)
                    &&& now.distance == if improves(&before, here, (x, y)) {
                        far as int
                    } else {
                        was.distance as int
                    }
                } by {
                    assert(so_far.cell(x, y).height == before.cell(x, y).height);
                    if !(x == cur.x && y == cur.y) {
                        assert(map.cell(x, y) == so_far.cell(x, y));
                    }
                    assert(listed(spots, spots.len() as int, (x, y)) <==> improves(&before, here, (x, y)));
                }
                assert forall|i: int| 0 <= i < neighbours@.len() implies improves(
                    &before,
                    here,
                    ((#[trigger] neighbours@[i]).x as int, neighbours@[i].y as int),
                ) && neighbours@[i].distance == far by {
                    assert(spots[i] == (neighbours@[i].x as int, neighbours@[i].y as int));
                    assert(listed(spots, spots.len() as int, spots[i]));
                }
                assert forall|i: int, k: int| 0 <= i < k < neighbours@.len() implies !is_at(
                    #[trigger] neighbours@[i],
                    (#[trigger] neighbours@[k]).x as int,
                    neighbours@[k].y as int,
                ) by {
                    assert(spots[i] == (neighbours@[i].x as int, neighbours@[i].y as int));
                    assert(spots[k] == (neighbours@[k].x as int, neighbours@[k].y as int));
                }
                assert forall|x: int, y: int| #![trigger before.cell(x, y)] improves(&before, here, (x, y)) implies exists|
                    i: int,
                | 0 <= i < neighbours@.len() && is_at(#[trigger] neighbours@[i], x, y) by {
                    assert(listed(spots, spots.len() as int, (x, y)));
                    let i = choose|i: int| 0 <= i < spots.len() && #[trigger] spots[i] == (x, y);
                    assert(spots[i] == (neighbours@[i].x as int, neighbours@[i].y as int));
                    assert(is_at(neighbours@[i], x, y));
                }
            }
            lemma_round(&before, queue, at, map, neighbours@);
            assert(map.hill() =~= hill) by {
                assert forall|y: int| 0 <= y < hill.len() implies (#[trigger] map.hill()[y]) =~= hill[y] by {
                    assert forall|x: int| 0 <= x < hill[y].len() implies map.hill()[y][x] == hill[y][x] by {
                        assert(map.cell(x, y).height == before.cell(x, y).height);
                        assert(before.hill()[y][x] == before.cell(x, y).height);
                    }
                }
            }
            lemma_seen_in_rows_bound(map.map@, map.y_end as int, map.x_end as int);
            assert(map.y_end * map.x_end == map.x_end * map.y_end) by (nonlinear_arith);
        }
        // add the neighbours to the queue
        unvisited.append(&mut neighbours);
    }
}


/// The square that a letter of the map describes.
pub open spec fn square_of(c: char) -> Option<Grid> {
    match height_of(c) {
        Some(height) => Some(
            Grid {
                height,
                visited: false,
                distance: if c == 'S' {
                    0
                } else {
                    usize::MAX
                },
            },
        ),
        None => None,
    }
}

/// The first `k` lines without the empty ones.
pub open spec fn rows_of(lines: Seq<String>, k: int) -> Seq<Seq<char>>
    decreases k,
{
    if k <= 0 {
        Seq::empty()
    } else if lines[k - 1]@.len() == 0 {
        rows_of(lines, k - 1)
    } else {
        rows_of(lines, k - 1).push(lines[k - 1]@)
    }
}

/// Whether the rows form a map: there is a row, all rows are as long as
/// the first, every letter stands for a height, and the squares can be
/// counted.
pub open spec fn readable(rows: Seq<Seq<char>>) -> bool {
    &&& rows.len() >= 1
    &&& forall|y: int| 0 <= y < rows.len() ==> (#[trigger] rows[y]).len() == rows[0].len()
    &&& forall|y: int, x: int| 0 <= y < rows.len() && 0 <= x < rows[y].len() ==> height_of(#[trigger] rows[y][x]) is Some
    &&& rows[0].len() * rows.len() < usize::MAX
}

/// Whether `(x, y)` comes before `at` where a map is read row by row, or
/// is `at`.
pub open spec fn read_by(x: int, y: int, at: (int, int)) -> bool {
    y < at.1 || (y == at.1 && x <= at.0)
}

/// Whether `at` is the last square in reading order that shows `mark`, or
/// the first square of the map if no square shows it.
pub open spec fn marked(rows: Seq<Seq<char>>, mark: char, at: (int, int)) -> bool {
    if exists|x: int, y: int| 0 <= y < rows.len() && 0 <= x < rows[y].len() && #[trigger] rows[y][x] == mark {
        &&& 0 <= at.1 < rows.len()
        &&& 0 <= at.0 < rows[at.1].len()
        &&& rows[at.1][at.0] == mark
        &&& forall|x: int, y: int|
            0 <= y < rows.len() && 0 <= x < rows[y].len() && #[trigger] rows[y][x] == mark ==> read_by(x, y, at)
    } else {
        at == (0int, 0int)
    }
}

/// Whether the map shows what the rows describe.
pub open spec fn drawn(hm: &HeightMap, rows: Seq<Seq<char>>) -> bool {
    &&& hm.wf()
    &&& hm.countable()
    &&& hm.y_end == rows.len()
    &&& hm.x_end == rows[0].len()
    &&& forall|x: int, y: int| hm.inside(x, y) ==> Some(#[trigger] hm.cell(x, y)) == square_of(rows[y][x])
    &&& marked(rows, 'S', hm.start())
    &&& marked(rows, 'E', hm.goal())
}

/// Reads a map: a letter for each square, `S` for the start and `E` for
/// the goal; empty lines are passed over. `None` if the lines form no map.
pub fn parse_map(lines: &Vec<String>) -> (r: Option<HeightMap>)
    ensures
        match r {
            Some(hm) => readable(rows_of(lines@, lines.len() as int)) && drawn(&hm, rows_of(
                lines@,
                lines.len() as int,
            )),
            None => !readable(rows_of(lines@, lines.len() as int)),
        },
{
    let mut map: HeightMap = HeightMap::new();
    let mut y: usize = 0;
    let mut x_len: Option<usize> = None;
    let ghost mut found_start = false;
    let ghost mut found_goal = false;
    let mut k: usize = 0;
    while k < lines.len()
        invariant
            k <= lines.len(),
            y <= k,
            y == rows_of(lines@, k as int).len(),
            map.map@.len() == y,
            x_len is None <==> y == 0,
            x_len matches Some(width) ==> width == rows_of(lines@, k as int)[0].len() && width >= 1,
            forall|j: int|
                0 <= j < y ==> (#[trigger] rows_of(lines@, k as int)[j]).len() == x_len->0 && map.map@[j]@.len()
                    == x_len->0,
            forall|j: int, i: int|
                0 <= j < y && 0 <= i < x_len->0 ==> Some(#[trigger] map.map@[j]@[i]) == square_of(
                    rows_of(lines@, k as int)[j][i],
                ),
            found_start == (exists|i: int, j: int|
                0 <= j < y && 0 <= i < rows_of(lines@, k as int)[j].len() && #[trigger] rows_of(lines@, k as int)[j][i]
                    == 'S'),
            found_goal == (exists|i: int, j: int|
                0 <= j < y && 0 <= i < rows_of(lines@, k as int)[j].len() && #[trigger] rows_of(lines@, k as int)[j][i]
                    == 'E'),
            marked(rows_of(lines@, k as int), 'S', map.start()),
            marked(rows_of(lines@, k as int), 'E', map.goal()),
        decreases lines.len() - k,
    {
        let line = chars_of(lines[k].as_str());
        let ghost rows = rows_of(lines@, k as int);
        let ghost more = rows_of(lines@, k as int + 1);
        if line.len() > 0 {
            proof {
                assert(more == rows.push(line@));
                assert forall|j: int| 0 <= j < y implies more[j] == rows[j] by {}
            }
            match x_len {
                None => {
                    x_len = Some(line.len());
                },
                Some(l) => {
                    if l != line.len() {
                        proof {
                            lemma_rows_grow(lines@, k as int + 1, lines.len() as int);
                            let all = rows_of(lines@, lines.len() as int);
                            assert(all[y as int] == more[y as int]);
                            assert(all[0] == more[0]);
                        }
                        return None;
                    }
                },
            }
            let mut row: Vec<Grid> = Vec::new();
            let mut x: usize = 0;
            let ghost start_before = map.start();
            let ghost goal_before = map.goal();
            let ghost mut start_here = false;
            let ghost mut goal_here = false;
            let ghost squares = map.map@;
            while x < line.len()
                invariant
                    x <= line.len(),
                    row.len() == x,
                    map.map@ == squares,
                    k < lines.len(),
                    line@ == lines@[k as int]@,
                    line.len() > 0,
                    rows == rows_of(lines@, k as int),
                    more == rows.push(line@),
                    more == rows_of(lines@, k as int + 1),
                    y == rows.len(),
                    map.map@.len() == y,
                    forall|i: int| 0 <= i < x ==> Some(#[trigger] row@[i]) == square_of(line@[i]),
                    start_here == (exists|i: int| 0 <= i < x && #[trigger] line@[i] == 'S'),
                    goal_here == (exists|i: int| 0 <= i < x && #[trigger] line@[i] == 'E'),
                    !start_here ==> map.start() == start_before,
                    !goal_here ==> map.goal() == goal_before,
                    start_here ==> map.start().1 == y && 0 <= map.start().0 < x && line@[map.start().0] == 'S'
                        && forall|i: int| 0 <= i < x && #[trigger] line@[i] == 'S' ==> i <= map.start().0,
                    goal_here ==> map.goal().1 == y && 0 <= map.goal().0 < x && line@[map.goal().0] == 'E'
                        && forall|i: int| 0 <= i < x && #[trigger] line@[i] == 'E' ==> i <= map.goal().0,
                decreases line.len() - x,
            {
                let c = line[x];
                let height = match to_height(c) {
                    Some(height) => height,
                    None => {
                        proof {
                            lemma_rows_grow(lines@, k as int + 1, lines.len() as int);
                            let all = rows_of(lines@, lines.len() as int);
                            assert(all[y as int] == more[y as int]);
                            assert(height_of(all[y as int][x as int]) is None);
                        }
                        return None;
                    },
                };
                let mut grid = Grid::new();
                grid.height = height;
                if c == 'S' {
                    map.my_pos = Coord::new(x, y);
                    map.my_pos.distance = 0;
                    grid.distance = 0;
                    proof {
                        start_here = true;
                    }
                }
                if c == 'E' {
                    map.target_pos = Coord::new(x, y);
                    proof {
                        goal_here = true;
                    }
                }
                row.push(grid);
                x += 1;
            }
            map.map.push(row);
            proof {
                let width = x_len->0;
                assert forall|j: int| 0 <= j < y + 1 implies (#[trigger] more[j]).len() == width && map.map@[j]@.len()
                    == width by {
                    if j < y {
                        assert(more[j] == rows[j]);
                        assert(map.map@[j] == squares[j]);
                    }
                }
                assert forall|j: int, i: int| 0 <= j < y + 1 && 0 <= i < width implies Some(#[trigger] map.map@[j]@[i])
                    == square_of(more[j][i]) by {
                    if j < y {
                        assert(more[j] == rows[j]);
                        assert(map.map@[j] == squares[j]);
                        assert(Some(squares[j]@[i]) == square_of(rows[j][i]));
                    }
                }
                lemma_marked_more(rows, line@, 'S', start_before, start_here, map.start());
                lemma_marked_more(rows, line@, 'E', goal_before, goal_here, map.goal());
                found_start = found_start || start_here;
                found_goal = found_goal || goal_here;
                assert(found_start == (exists|i: int, j: int|
                    0 <= j < y + 1 && 0 <= i < more[j].len() && #[trigger] more[j][i] == 'S')) by {
                    lemma_shown_more(rows, line@, 'S');
                }
                assert(found_goal == (exists|i: int, j: int|
                    0 <= j < y + 1 && 0 <= i < more[j].len() && #[trigger] more[j][i] == 'E')) by {
                    lemma_shown_more(rows, line@, 'E');
                }
            }
            y += 1;
        }
        k += 1;
    }
    let width = match x_len {
        Some(width) => width,
        None => {
            return None;
        },
    };
    map.x_end = width;
    map.y_end = y;
    let ghost rows = rows_of(lines@, lines.len() as int);
    let countable = match width.checked_mul(y) {
        Some(squares) => squares < usize::MAX,
        None => false,
    };
    if !countable {
        return None;
    }
    proof {
        assert(rows.len() == y && y >= 1);
        assert(rows[0].len() == width);
        let s = map.start();
        let g = map.goal();
        assert(marked(rows, 'S', s));
        assert(marked(rows, 'E', g));
        assert(0 <= s.1 < rows.len() && 0 <= s.0 < rows[s.1].len());
        assert(0 <= g.1 < rows.len() && 0 <= g.0 < rows[g.1].len());
        assert(rows[s.1].len() == width && rows[g.1].len() == width);
        assert forall|j: int| 0 <= j < map.y_end implies (#[trigger] map.map@[j]).len() == map.x_end by {
            assert(rows[j].len() == width);
        }
        assert(map.wf());
        assert forall|y: int, x: int| 0 <= y < rows.len() && 0 <= x < rows[y].len() implies height_of(
            #[trigger] rows[y][x],
        ) is Some by {
            assert(Some(map.map@[y]@[x]) == square_of(rows[y][x]));
        }
        assert forall|x: int, y: int| map.inside(x, y) implies Some(#[trigger] map.cell(x, y)) == square_of(
            rows[y][x],
        ) by {
            assert(Some(map.map@[y]@[x]) == square_of(rows[y][x]));
        }
    }
    Some(map)
}

proof fn lemma_rows_grow(lines: Seq<String>, k: int, n: int)
    requires
        0 <= k <= n,
    ensures
        rows_of(lines, k).len() <= rows_of(lines, n).len(),
        forall|j: int| 0 <= j < rows_of(lines, k).len() ==> rows_of(lines, n)[j] == #[trigger] rows_of(lines, k)[j],
    decreases n - k,
{
    if k < n {
        lemma_rows_grow(lines, k, n - 1);
    }
}

/// Whether a square of the rows shows `mark`.
spec fn shown(rows: Seq<Seq<char>>, mark: char) -> bool {
    exists|i: int, j: int| 0 <= j < rows.len() && 0 <= i < rows[j].len() && #[trigger] rows[j][i] == mark
}

proof fn lemma_shown_more(rows: Seq<Seq<char>>, line: Seq<char>, mark: char)
    ensures
        shown(rows.push(line), mark) == (shown(rows, mark) || exists|i: int| 0 <= i < line.len() && #[trigger] line[i] == mark),
{
    let more = rows.push(line);
    if shown(rows, mark) {
        let (i, j) = choose|i: int, j: int| 0 <= j < rows.len() && 0 <= i < rows[j].len() && #[trigger] rows[j][i] == mark;
        assert(more[j][i] == mark);
    }
    if exists|i: int| 0 <= i < line.len() && #[trigger] line[i] == mark {
        let i = choose|i: int| 0 <= i < line.len() && #[trigger] line[i] == mark;
        assert(more[rows.len() as int][i] == mark);
    }
    if shown(more, mark) {
        let (i, j) = choose|i: int, j: int| 0 <= j < more.len() && 0 <= i < more[j].len() && #[trigger] more[j][i] == mark;
        if j < rows.len() {
            assert(rows[j][i] == mark);
        } else {
            assert(line[i] == mark);
        }
    }
}

proof fn lemma_marked_more(
    rows: Seq<Seq<char>>,
    line: Seq<char>,
    mark: char,
    before: (int, int),
    here: bool,
    after: (int, int),
)
    requires
        marked(rows, mark, before),
        here == (exists|i: int| 0 <= i < line.len() && #[trigger] line[i] == mark),
        !here ==> after == before,
        here ==> after.1 == rows.len() && 0 <= after.0 < line.len() && line[after.0] == mark && forall|i: int|
            0 <= i < line.len() && #[trigger] line[i] == mark ==> i <= after.0,
    ensures
        marked(rows.push(line), mark, after),
{
    let more = rows.push(line);
    lemma_shown_more(rows, line, mark);
    assert(shown(rows, mark) == (exists|x: int, y: int|
        0 <= y < rows.len() && 0 <= x < rows[y].len() && #[trigger] rows[y][x] == mark)) by {
        if shown(rows, mark) {
            let (i, j) = choose|i: int, j: int|
                0 <= j < rows.len() && 0 <= i < rows[j].len() && #[trigger] rows[j][i] == mark;
            assert(rows[j][i] == mark);
        }
        if exists|x: int, y: int| 0 <= y < rows.len() && 0 <= x < rows[y].len() && #[trigger] rows[y][x] == mark {
            let (x, y) = choose|x: int, y: int|
                0 <= y < rows.len() && 0 <= x < rows[y].len() && #[trigger] rows[y][x] == mark;
            assert(rows[y][x] == mark);
        }
    }
    assert(shown(more, mark) == (exists|x: int, y: int|
        0 <= y < more.len() && 0 <= x < more[y].len() && #[trigger] more[y][x] == mark)) by {
        if shown(more, mark) {
            let (i, j) = choose|i: int, j: int|
                0 <= j < more.len() && 0 <= i < more[j].len() && #[trigger] more[j][i] == mark;
            assert(more[j][i] == mark);
        }
        if exists|x: int, y: int| 0 <= y < more.len() && 0 <= x < more[y].len() && #[trigger] more[y][x] == mark {
            let (x, y) = choose|x: int, y: int|
                0 <= y < more.len() && 0 <= x < more[y].len() && #[trigger] more[y][x] == mark;
            assert(more[y][x] == mark);
        }
    }
    if shown(more, mark) {
        if here {
            assert(more[after.1][after.0] == mark);
            assert forall|x: int, y: int|
                0 <= y < more.len() && 0 <= x < more[y].len() && #[trigger] more[y][x] == mark implies read_by(
                x,
                y,
                after,
            ) by {
                if y == rows.len() {
                    assert(line[x] == mark);
                }
            }
        } else {
            assert(more[before.1] == rows[before.1]);
            assert forall|x: int, y: int|
                0 <= y < more.len() && 0 <= x < more[y].len() && #[trigger] more[y][x] == mark implies read_by(
                x,
                y,
                before,
            ) by {
                if y == rows.len() {
                    assert(line[x] == mark);
                } else {
                    assert(rows[y][x] == mark);
                }
            }
        }
    }
}

} // verus!
