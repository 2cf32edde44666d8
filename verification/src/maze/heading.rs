//! The four headings of a walker and the two quarter turns.

use vstd::prelude::*;

verus! {

/// A facing direction. Rows grow to the south, columns to the east.
#[derive(Clone, Copy, Debug, PartialEq, Eq, Structural, Hash)]
pub enum Direction {
    North,
    East,
    South,
    West,
}

impl Direction {
    /// The heading after a quarter turn to the left.
    pub open spec fn left(self) -> Direction {
        match self {
            Direction::North => Direction::West,
            Direction::West => Direction::South,
            Direction::South => Direction::East,
            Direction::East => Direction::North,
        }
    }

    /// The heading after a quarter turn to the right.
    pub open spec fn right(self) -> Direction {
        match self {
            Direction::North => Direction::East,
            Direction::East => Direction::South,
            Direction::South => Direction::West,
            Direction::West => Direction::North,
        }
    }

    /// Column offset of one step forward.
    pub open spec fn dx(self) -> int {
        match self {
            Direction::East => 1,
            Direction::West => -1,
            _ => 0,
        }
    }

    /// Row offset of one step forward.
    pub open spec fn dy(self) -> int {
        match self {
            Direction::South => 1,
            Direction::North => -1,
            _ => 0,
        }
    }

    /// Quarter turn to the left.
    pub fn turn_left(self) -> (d: Direction)
        ensures
            d == self.left(),
    {
        match self {
            Direction::North => Direction::West,
            Direction::West => Direction::South,
            Direction::South => Direction::East,
            Direction::East => Direction::North,
        }
    }

    /// Quarter turn to the right.
    pub fn turn_right(self) -> (d: Direction)
        ensures
            d == self.right(),
    {
        match self {
            Direction::North => Direction::East,
            Direction::East => Direction::South,
            Direction::South => Direction::West,
            Direction::West => Direction::North,
        }
    }

    /// The four headings, clockwise from north.
    pub fn all() -> (a: [Direction; 4])
        ensures
            a@ == seq![Direction::North, Direction::East, Direction::South, Direction::West],
    {
        let a = [Direction::North, Direction::East, Direction::South, Direction::West];
        assert(a@ =~= seq![Direction::North, Direction::East, Direction::South, Direction::West]);
        a
    }
}

/// The two turns undo each other, each moves to another heading, and four
/// turns the same way come back to the first heading.
pub proof fn lemma_turns(d: Direction)
    ensures
        d.left().right() == d,
        d.right().left() == d,
        d.left() != d,
        d.right() != d,
        d.left() != d.right(),
        d.right().right().right().right() == d,
        d.left().left().left().left() == d,
        d.right().right() == d.left().left(),
{
}

} // verus!
