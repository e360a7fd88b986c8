//! The four directions on a grid.

use crate::text::same_text;
use vstd::prelude::*;

verus! {

#[derive(Clone, Copy, Debug, PartialEq, Eq, Structural)]
pub enum Direction {
    Up,
    Down,
    Left,
    Right,
}

impl Default for Direction {
    fn default() -> (d: Direction)
        ensures
            d == Direction::Down,
    {
        Direction::Down
    }
}

impl Direction {
    /// The direction that leads back.
    pub open spec fn spec_opposite(self) -> Direction {
        match self {
            Direction::Up => Direction::Down,
            Direction::Down => Direction::Up,
            Direction::Right => Direction::Left,
            Direction::Left => Direction::Right,
        }
    }

    /// The direction a letter of `U`, `D`, `L`, `R` stands for.
    pub open spec fn of_letter(s: Seq<char>) -> Option<Direction> {
        if s == "U"@ {
            Some(Direction::Up)
        } else if s == "D"@ {
            Some(Direction::Down)
        } else if s == "L"@ {
            Some(Direction::Left)
        } else if s == "R"@ {
            Some(Direction::Right)
        } else {
            None
        }
    }

    /// All four directions, in the order in which neighbours are visited.
    pub fn iter() -> (all: [Direction; 4])
        ensures
            all@ == seq![Direction::Up, Direction::Left, Direction::Down, Direction::Right],
    {
        let all = [Direction::Up, Direction::Left, Direction::Down, Direction::Right];
        assert(all@ =~= seq![Direction::Up, Direction::Left, Direction::Down, Direction::Right]);
        all
    }

    /// Returns the opposite direction
    pub fn opposite(&self) -> (r: Direction)
        ensures
            r == self.spec_opposite(),
    {
        match self {
            Direction::Up => Direction::Down,
            Direction::Down => Direction::Up,
            Direction::Right => Direction::Left,
            Direction::Left => Direction::Right,
        }
    }

    /// Reads a direction from its letter.
    pub fn from_letter(s: &str) -> (r: Option<Direction>)
        ensures
            r == Direction::of_letter(s@),
    {
        if same_text(s, "U") {
            Some(Direction::Up)
        } else if same_text(s, "D") {
            Some(Direction::Down)
        } else if same_text(s, "L") {
            Some(Direction::Left)
        } else if same_text(s, "R") {
            Some(Direction::Right)
        } else {
            None
        }
    }
}

/// Turning round twice leads back to where one looked.
pub proof fn lemma_opposite_twice(d: Direction)
    ensures
        d.spec_opposite().spec_opposite() == d,
        d.spec_opposite() != d,
{
}

} // verus!
