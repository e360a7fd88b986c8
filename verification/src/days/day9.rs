//! A rope of knots: the head is pulled over a plane and every other knot
//! follows the one before it.

use crate::direction::Direction;
use crate::text::{chars_of, parse_usize, split_at_first, split_once, trim, trimmed, unsigned_literal};
use vstd::prelude::*;

verus! {

/// A point of the plane.
#[derive(Clone, Copy, Debug, PartialEq, Eq, Structural)]
pub struct Coord {
    pub x: i32,
    pub y: i32,
}

/// The step of one unit, or none, that leads from `d1` towards `d2`.
pub open spec fn toward(d1: int, d2: int) -> int {
    if d1 < d2 {
        1
    } else if d1 > d2 {
        -1
    } else {
        0
    }
}

/// The larger of the distances in `x` and in `y`.
pub open spec fn distance(a: Coord, b: Coord) -> int {
    let dx = if a.x >= b.x {
        a.x - b.x
    } else {
        b.x - a.x
    };
    let dy = if a.y >= b.y {
        a.y - b.y
    } else {
        b.y - a.y
    };
    if dx >= dy {
        dx
    } else {
        dy
    }
}

impl Coord {
    /// Whether a step in direction `d` stays within the plane that `i32`
    /// coordinates span.
    pub open spec fn can_step(self, d: Direction) -> bool {
        match d {
            Direction::Up => self.y < i32::MAX,
            Direction::Down => self.y > i32::MIN,
            Direction::Left => self.x > i32::MIN,
            Direction::Right => self.x < i32::MAX,
        }
    }

    /// The point one step away in direction `d`; up is towards larger `y`.
    pub open spec fn stepped(self, d: Direction) -> Coord {
        match d {
            Direction::Up => Coord { x: self.x, y: (self.y + 1) as i32 },
            Direction::Down => Coord { x: self.x, y: (self.y - 1) as i32 },
            Direction::Left => Coord { x: (self.x - 1) as i32, y: self.y },
            Direction::Right => Coord { x: (self.x + 1) as i32, y: self.y },
        }
    }

    /// The point one step nearer to `other`, in `x` and in `y`.
    pub open spec fn stepped_toward(self, other: Coord) -> Coord {
        Coord { x: (self.x + toward(self.x as int, other.x as int)) as i32, y: (self.y + toward(
            self.y as int,
            other.y as int,
        )) as i32 }
    }

    /// Where a knot goes when the knot before it is at `prev`: nowhere if
    /// the two touch, one step nearer otherwise.
    pub open spec fn following(self, prev: Coord) -> Coord {
        if distance(self, prev) <= 1 {
            self
        } else {
            self.stepped_toward(prev)
        }
    }

    /// Moves one step in direction `d`.
    pub fn step(&mut self, d: &Direction)
        requires
            old(self).can_step(*d),
        ensures
            *final(self) == old(self).stepped(*d),
    {
        match d {
            Direction::Up => self.y += 1,
            Direction::Down => self.y -= 1,
            Direction::Left => self.x -= 1,
            Direction::Right => self.x += 1,
        }
    }

    /// Whether the two points are neighbours: next to each other in a row,
    /// in a column or across a corner.
    pub fn is_adjacent(&self, other: &Self) -> (r: bool)
        ensures
            r == (distance(*self, *other) == 1),
    {
        let x_adjacent = self.x as i64 == other.x as i64 - 1 || self.x as i64 == other.x as i64 + 1;
        let y_adjacent = self.y as i64 == other.y as i64 - 1 || self.y as i64 == other.y as i64 + 1;
        x_adjacent && y_adjacent || x_adjacent && self.y == other.y || y_adjacent && self.x == other.x
    }

    /// Whether the two points are the same or neighbours.
    pub fn touches(&self, other: &Self) -> (r: bool)
        ensures
            r == (distance(*self, *other) <= 1),
    {
        (self.x == other.x && self.y == other.y) || self.is_adjacent(other)
    }

    /// Moves one step nearer to `other`, in `x` and in `y`.
    pub fn step_toward(&mut self, other: &Self)
        ensures
            *final(self) == old(self).stepped_toward(*other),
    {
        self.x += step(self.x, other.x);
        self.y += step(self.y, other.y);
    }
}

/// The step of one unit, or none, that leads from `d1` towards `d2`.
pub fn step(d1: i32, d2: i32) -> (r: i32)
    ensures
        r == toward(d1 as int, d2 as int),
{
    if d1 < d2 {
        1
    } else if d1 > d2 {
        -1
    } else {
        0
    }
}

/// Where knot `i` is after the head has been pulled one step in direction
/// `d` and every knot has followed the one before it.
pub open spec fn pulled_knot(rope: Seq<Coord>, d: Direction, i: int) -> Coord
    decreases i,
{
    if i <= 0 {
        rope[0].stepped(d)
    } else {
        rope[i].following(pulled_knot(rope, d, i - 1))
    }
}

/// The rope after its head has been pulled one step in direction `d`.
pub open spec fn pulled(rope: Seq<Coord>, d: Direction) -> Seq<Coord> {
    Seq::new(rope.len(), |i: int| pulled_knot(rope, d, i))
}

/// A rope, and the points at which its tail has been.
pub struct Trail {
    pub rope: Seq<Coord>,
    pub seen: Set<Coord>,
}

/// The trail after `n` steps in direction `d`; `None` if the head would
/// leave the plane.
pub open spec fn advanced(trail: Trail, d: Direction, n: nat) -> Option<Trail>
    decreases n,
{
    if n == 0 {
        Some(trail)
    } else {
        match advanced(trail, d, (n - 1) as nat) {
            Some(t) => if t.rope[0].can_step(d) {
                Some(Trail { rope: pulled(t.rope, d), seen: t.seen.insert(pulled(t.rope, d).last()) })
            } else {
                None
            },
            None => None,
        }
    }
}

/// The motion that a line describes: a letter for the direction, a blank
/// and the number of steps, with white space around them left out.
pub open spec fn motion_of(line: Seq<char>) -> Option<(Direction, usize)> {
    match split_at_first(trimmed(line), ' ') {
        Some((letter, steps)) => match (Direction::of_letter(letter), unsigned_literal(steps)) {
            (Some(d), Some(n)) => if n <= usize::MAX {
                Some((d, n as usize))
            } else {
                None
            },
            _ => None,
        },
        None => None,
    }
}

/// The trail after the first `k` lines; empty lines are passed over.
/// `None` if a line describes no motion or the head would leave the plane.
pub open spec fn trail_after(start: Trail, lines: Seq<String>, k: int) -> Option<Trail>
    decreases k,
{
    if k <= 0 {
        Some(start)
    } else {
        match trail_after(start, lines, k - 1) {
            Some(t) => if lines[k - 1]@.len() == 0 {
                Some(t)
            } else {
                match motion_of(lines[k - 1]@) {
                    Some((d, n)) => advanced(t, d, n as nat),
                    None => None,
                }
            },
            None => None,
        }
    }
}

/// A rope of `knots` knots that all lie at the origin.
pub open spec fn coiled(knots: nat) -> Trail {
    Trail { rope: Seq::new(knots, |i: int| Coord { x: 0, y: 0 }), seen: set![Coord { x: 0, y: 0 }] }
}

/// Reads the motion that a line describes.
pub fn parse_motion(line: &str) -> (r: Option<(Direction, usize)>)
    ensures
        r == motion_of(line@),
{
    let chars = chars_of(line);
    let inner = trim(&chars);
    match split_once(&inner, ' ') {
        Some((letter, steps)) => {
            let d = if letter.len() == 1 {
                proof {
                    reveal_strlit("U");
                    reveal_strlit("D");
                    reveal_strlit("L");
                    reveal_strlit("R");
                    assert(letter@ =~= seq![letter@[0]]);
                    assert("U"@ =~= seq!['U'] && "D"@ =~= seq!['D'] && "L"@ =~= seq!['L'] && "R"@ =~= seq!['R']);
                }
                if letter[0] == 'U' {
                    Some(Direction::Up)
                } else if letter[0] == 'D' {
                    Some(Direction::Down)
                } else if letter[0] == 'L' {
                    Some(Direction::Left)
                } else if letter[0] == 'R' {
                    Some(Direction::Right)
                } else {
                    None
                }
            } else {
                proof {
                    reveal_strlit("U");
                    reveal_strlit("D");
                    reveal_strlit("L");
                    reveal_strlit("R");
                }
                None
            };
            match (d, parse_usize(&steps)) {
                (Some(d), Some(n)) => Some((d, n)),
                _ => None,
            }
        },
        None => None,
    }
}

fn remember(visited: &mut Vec<Coord>, c: Coord)
    requires
        old(visited)@.no_duplicates(),
    ensures
        final(visited)@.no_duplicates(),
        final(visited)@.to_set() == old(visited)@.to_set().insert(c),
{
    let mut i: usize = 0;
    while i < visited.len()
        invariant
            i <= visited.len(),
            *visited == *old(visited),
            old(visited)@.no_duplicates(),
            forall|j: int| 0 <= j < i ==> visited@[j] != c,
        decreases visited.len() - i,
    {
        if visited[i].x == c.x && visited[i].y == c.y {
            proof {
                assert(visited@.contains(c));
                assert(visited@.to_set().insert(c) =~= visited@.to_set());
            }
            return ;
        }
        i += 1;
    }
    visited.push(c);
    proof {
        let before = old(visited)@;
        assert forall|x: Coord| visited@.to_set().contains(x) <==> before.to_set().insert(c).contains(x) by {
            if before.contains(x) {
                let j = choose|j: int| 0 <= j < before.len() && before[j] == x;
                assert(visited@[j] == x);
            }
            if x == c {
                assert(visited@[before.len() as int] == c);
            }
            if visited@.contains(x) {
                let j = choose|j: int| 0 <= j < visited@.len() && visited@[j] == x;
                if j < before.len() {
                    assert(before[j] == x);
                }
            }
        }
        assert(visited@.to_set() =~= before.to_set().insert(c));
    }
}

/// Pulls the head one step in direction `d` and lets every knot follow.
fn pull(rope: &mut Vec<Coord>, d: &Direction)
    requires
        old(rope).len() >= 1,
        old(rope)[0].can_step(*d),
    ensures
        final(rope)@ == pulled(old(rope)@, *d),
{
    let mut head = rope[0];
    head.step(d);
    rope[0] = head;
    let mut prev_knot = head;
    let mut i: usize = 1;
    while i < rope.len()
        invariant
            1 <= i <= rope.len(),
            rope.len() == old(rope).len(),
            prev_knot == pulled_knot(old(rope)@, *d, i - 1),
            forall|j: int| 0 <= j < i ==> rope@[j] == pulled_knot(old(rope)@, *d, j),
            forall|j: int| i <= j < rope.len() ==> rope@[j] == old(rope)@[j],
        decreases rope.len() - i,
    {
        let mut knot = rope[i];
        if !knot.touches(&prev_knot) {
            knot.step_toward(&prev_knot);
        }
        rope[i] = knot;
        prev_knot = knot;
        i += 1;
    }
    proof {
        assert(rope@ =~= pulled(old(rope)@, *d));
    }
}

fn can_step_now(c: &Coord, d: &Direction) -> (r: bool)
    ensures
        r == c.can_step(*d),
{
    match d {
        Direction::Up => c.y < i32::MAX,
        Direction::Down => c.y > i32::MIN,
        Direction::Left => c.x > i32::MIN,
        Direction::Right => c.x < i32::MAX,
    }
}

/// Whether `visited` lists, each once, the points of the trail after `k`
/// lines, and `rope` is the rope of that trail.
pub open spec fn on_trail(knots: nat, lines: Seq<String>, k: int, rope: Seq<Coord>, visited: Seq<Coord>) -> bool {
    &&& visited.no_duplicates()
    &&& trail_after(coiled(knots), lines, k) == Some(Trail { rope, seen: visited.to_set() })
}

/// Follows the motions, one on each line, with a rope of `knots` knots
/// that starts coiled up at the origin, and lists the points at which the
/// tail has been, each of them once. `None` if there is no knot, a line
/// that is not empty describes no motion, or the head would leave the
/// plane.
pub fn visited_coords(lines: &Vec<String>, knots: usize) -> (r: Option<Vec<Coord>>)
    ensures
        match r {
            Some(visited) => knots >= 1 && exists|rope: Seq<Coord>| #[trigger]
                on_trail(knots as nat, lines@, lines.len() as int, rope, visited@),
            None => knots == 0 || trail_after(coiled(knots as nat), lines@, lines.len() as int) is None,
        },
{
    if knots == 0 {
        return None;
    }
    let origin = Coord { x: 0, y: 0 };
    let mut rope: Vec<Coord> = Vec::new();
    let mut i: usize = 0;
    while i < knots
        invariant
            i <= knots,
            rope.len() == i,
            forall|j: int| 0 <= j < i ==> rope@[j] == origin,
        decreases knots - i,
    {
        rope.push(origin);
        i += 1;
    }
    let mut visited: Vec<Coord> = Vec::new();
    visited.push(origin);
    proof {
        assert(rope@ =~= coiled(knots as nat).rope);
        assert(visited@.to_set() =~= set![origin]) by {
            assert(visited@[0] == origin);
        }
    }
    let mut k: usize = 0;
    while k < lines.len()
        invariant
            k <= lines.len(),
            knots >= 1,
            rope.len() == knots,
            on_trail(knots as nat, lines@, k as int, rope@, visited@),
        decreases lines.len() - k,
    {
        let line = lines[k].as_str();
        let ghost before = Trail { rope: rope@, seen: visited@.to_set() };
        if chars_of(line).len() > 0 {
            let (direction, steps) = match parse_motion(line) {
                Some(motion) => motion,
                None => {
                    proof {
                        lemma_trail_fails(coiled(knots as nat), lines@, k as int + 1, lines.len() as int);
                    }
                    return None;
                },
            };
            let mut done: usize = 0;
            while done < steps
                invariant
                    done <= steps,
                    rope.len() == knots,
                    knots >= 1,
                    k < lines.len(),
                    lines@[k as int]@.len() > 0,
                    trail_after(coiled(knots as nat), lines@, k as int) == Some(before),
                    motion_of(lines@[k as int]@) == Some((direction, steps)),
                    visited@.no_duplicates(),
                    advanced(before, direction, done as nat) == Some(Trail { rope: rope@, seen: visited@.to_set() }),
                decreases steps - done,
            {
                if !can_step_now(&rope[0], &direction) {
                    proof {
                        assert(advanced(before, direction, (done + 1) as nat) is None);
                        lemma_advanced_fails(before, direction, (done + 1) as nat, steps as nat);
                        lemma_trail_fails(coiled(knots as nat), lines@, k as int + 1, lines.len() as int);
                    }
                    return None;
                }
                pull(&mut rope, &direction);
                let tail = rope[rope.len() - 1];
                remember(&mut visited, tail);
                done += 1;
            }
        }
        k += 1;
    }
    assert(on_trail(knots as nat, lines@, lines.len() as int, rope@, visited@));
    let out = Some(visited);
    assert(out matches Some(v) && on_trail(knots as nat, lines@, lines.len() as int, rope@, v@));
    out
}

proof fn lemma_advanced_fails(trail: Trail, d: Direction, k: nat, n: nat)
    requires
        k <= n,
        advanced(trail, d, k) is None,
    ensures
        advanced(trail, d, n) is None,
    decreases n - k,
{
    if k < n {
        lemma_advanced_fails(trail, d, k, (n - 1) as nat);
    }
}

proof fn lemma_trail_fails(start: Trail, lines: Seq<String>, k: int, n: int)
    requires
        0 <= k <= n,
        trail_after(start, lines, k) is None,
    ensures
        trail_after(start, lines, n) is None,
    decreases n - k,
{
    if k < n {
        lemma_trail_fails(start, lines, k, n - 1);
    }
}

} // verus!
