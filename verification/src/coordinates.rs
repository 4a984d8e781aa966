//! Geometry of the fixed grid: coordinates and single steps on it.

use crate::direction::Direction;
use crate::errors::IllegalCoordinateError;
use std::ops::Add;
use vstd::prelude::*;

verus! {

/// Number of rows of the grid.
pub const ROWS: usize = 5;

/// Number of columns of the grid.
pub const COLS: usize = 4;

/// A coordinate of the form (row, col). Row 0 is the top row and column 0 the
/// leftmost column.
#[derive(Copy, Clone, Debug, PartialEq, Eq, Structural, Hash, PartialOrd, Ord)]
pub struct Coor {
    pub row: usize,
    pub col: usize,
}

impl Coor {
    /// Whether this coordinate names a cell of the grid.
    pub open spec fn on_grid(self) -> bool {
        self.row < ROWS && self.col < COLS
    }

    /// Whether the cell one step away in `direction` is a cell of the grid.
    pub open spec fn can_step(self, direction: Direction) -> bool {
        &&& 0 <= self.row + direction.row_shift() < ROWS
        &&& 0 <= self.col + direction.col_shift() < COLS
    }

    /// The coordinate one step away in `direction`. Meaningful where the step
    /// does not leave the non-negative range.
    pub open spec fn stepped(self, direction: Direction) -> Coor {
        Coor {
            row: (self.row + direction.row_shift()) as usize,
            col: (self.col + direction.col_shift()) as usize,
        }
    }

    /// Whether a rectangle of `height` rows and `width` columns whose top-left
    /// cell is this coordinate lies within the grid.
    pub open spec fn has_room(self, height: usize, width: usize) -> bool {
        self.row + height <= ROWS && self.col + width <= COLS
    }

    /// Create a new `Coor`.
    pub fn new(row: usize, col: usize) -> (coor: Coor)
        ensures
            coor == (Coor { row, col }),
    {
        Coor { row, col }
    }

    /// Apply a move of distance `1` to `self` in the given direction.
    ///
    /// Fails exactly when the cell reached is not a cell of the grid. Every
    /// decision about the grid's bounds goes through this function and
    /// [`Coor::fits`].
    pub fn apply_move(self, direction: Direction) -> (moved: Result<Coor, IllegalCoordinateError>)
        ensures
            moved is Ok <==> self.can_step(direction),
            moved matches Ok(coor) ==> coor == self.stepped(direction),
    {
        let Coor { row, col } = self;
        let reached: Option<(usize, usize)> = match direction {
            Direction::Up => if row > 0 {
                Some((row - 1, col))
            } else {
                None
            },
            Direction::Right => if col < usize::MAX {
                Some((row, col + 1))
            } else {
                None
            },
            Direction::Left => if col > 0 {
                Some((row, col - 1))
            } else {
                None
            },
            Direction::Down => if row < usize::MAX {
                Some((row + 1, col))
            } else {
                None
            },
        };
        match reached {
            Some((new_row, new_col)) => {
                if new_row < ROWS && new_col < COLS {
                    Ok(Coor::new(new_row, new_col))
                } else {
                    Err(IllegalCoordinateError)
                }
            },
            None => Err(IllegalCoordinateError),
        }
    }

    /// Whether a rectangle of `height` rows and `width` columns whose top-left
    /// cell is `self` lies within the grid.
    pub fn fits(self, height: usize, width: usize) -> (inside: bool)
        ensures
            inside == self.has_room(height, width),
    {
        self.row <= ROWS && height <= ROWS - self.row && self.col <= COLS && width <= COLS
            - self.col
    }
}

impl Add for Coor {
    type Output = Coor;

    /// Adds row to row and column to column.
    fn add(self, rhs: Self) -> (sum: Coor) {
        let Coor { row, col } = self;
        let Coor { row: other_row, col: other_col } = rhs;
        Coor { row: row + other_row, col: col + other_col }
    }
}

impl vstd::std_specs::ops::AddSpecImpl for Coor {
    open spec fn obeys_add_spec() -> bool {
        true
    }

    open spec fn add_req(self, rhs: Coor) -> bool {
        self.row + rhs.row <= usize::MAX && self.col + rhs.col <= usize::MAX
    }

    open spec fn add_spec(self, rhs: Coor) -> Coor {
        Coor { row: (self.row + rhs.row) as usize, col: (self.col + rhs.col) as usize }
    }
}

} // verus!
