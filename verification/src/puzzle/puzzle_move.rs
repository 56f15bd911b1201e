//! Directions and moves of the empty space of a sliding puzzle.

use vstd::prelude::*;

verus! {

/// A direction in which a piece moves. Moving a piece up moves the empty space down.
#[derive(Clone, Copy, Debug, PartialEq, Eq, Hash, Structural)]
pub enum Direction {
    /// The piece below the gap moves up.
    Up,
    /// The piece right of the gap moves left.
    Left,
    /// The piece above the gap moves down.
    Down,
    /// The piece left of the gap moves right.
    Right,
}

impl Direction {
    /// The opposite direction.
    pub open spec fn spec_inverse(self) -> Direction {
        match self {
            Direction::Up => Direction::Down,
            Direction::Left => Direction::Right,
            Direction::Down => Direction::Up,
            Direction::Right => Direction::Left,
        }
    }

    /// Returns the opposite direction.
    pub fn inverse(&self) -> (r: Direction)
        ensures
            r == self.spec_inverse(),
    {
        match self {
            Direction::Up => Direction::Down,
            Direction::Left => Direction::Right,
            Direction::Down => Direction::Up,
            Direction::Right => Direction::Left,
        }
    }
}

/// A number of single-tile moves in the same direction.
#[derive(Clone, Copy, Debug, PartialEq, Eq, Hash, Structural)]
pub struct Move {
    /// The direction in which the pieces move.
    pub direction: Direction,
    /// The number of pieces that move.
    pub amount: u64,
}

impl Move {
    /// Creates a new [`Move`].
    pub fn new(direction: Direction, amount: u64) -> (r: Move)
        ensures
            r == (Move { direction, amount }),
    {
        Move { direction, amount }
    }
}

} // verus!
