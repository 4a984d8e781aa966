//! The four directions of a slide.

use vstd::prelude::*;

verus! {

/// The directions in which a `Piece` can slide.
#[derive(Debug, Copy, Clone, PartialEq, Eq, Structural)]
pub enum Direction {
    /// The up direction: one row less.
    Up,
    /// The right direction: one column more.
    Right,
    /// The left direction: one column less.
    Left,
    /// The down direction: one row more.
    Down,
}

/// How many directions there are.
pub const DIRECTIONS: usize = 4;

impl Direction {
    /// Change of the row index made by one step in this direction.
    pub open spec fn row_shift(self) -> int {
        match self {
            Direction::Up => -1,
            Direction::Down => 1,
            _ => 0,
        }
    }

    /// Change of the column index made by one step in this direction.
    pub open spec fn col_shift(self) -> int {
        match self {
            Direction::Left => -1,
            Direction::Right => 1,
            _ => 0,
        }
    }

    /// Place of this direction in the fixed enumeration order Up, Right, Left, Down.
    pub open spec fn rank(self) -> int {
        match self {
            Direction::Up => 0,
            Direction::Right => 1,
            Direction::Left => 2,
            Direction::Down => 3,
        }
    }

    /// The direction at place `rank` of the enumeration order; `Down` beyond it.
    pub open spec fn ranked(rank: int) -> Direction {
        if rank == 0 {
            Direction::Up
        } else if rank == 1 {
            Direction::Right
        } else if rank == 2 {
            Direction::Left
        } else {
            Direction::Down
        }
    }

    /// The direction at place `rank` of the enumeration order.
    pub fn from_rank(rank: usize) -> (direction: Direction)
        requires
            rank < DIRECTIONS,
        ensures
            direction == Direction::ranked(rank as int),
            direction.rank() == rank,
    {
        if rank == 0 {
            Direction::Up
        } else if rank == 1 {
            Direction::Right
        } else if rank == 2 {
            Direction::Left
        } else {
            Direction::Down
        }
    }
}

} // verus!
