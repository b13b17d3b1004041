//! A pair of co-ordinates to enable easy vector access.

use vstd::prelude::*;

use crate::direction::Direction;

verus! {

/// Denotes a row-and-column pair to access a 2-D vector.
#[derive(Copy, Clone, Debug, PartialEq, Eq, Hash, Structural)]
pub struct Pair {
    /// The row to access from.
    pub row: i32,
    /// The column to access from.
    pub col: i32,
}

impl Pair {
    /// The unit offset associated with a direction: up and down move along
    /// the row axis, left and right along the column axis.
    pub open spec fn direction_offset(direction: Direction) -> Pair {
        match direction {
            Direction::Up => (Pair { row: -1i32, col: 0i32 }),
            Direction::Right => (Pair { row: 0i32, col: 1i32 }),
            Direction::Down => (Pair { row: 1i32, col: 0i32 }),
            Direction::Left => (Pair { row: 0i32, col: -1i32 }),
        }
    }

    /// Creates a `Pair` from a row and col.
    pub fn from_row_and_col(row: i32, col: i32) -> (r: Self)
        ensures
            r == (Pair { row, col }),
    {
        Pair { row, col }
    }

    /// Adds two `Pairs` together with vector addition.
    pub fn add(self, rhs: Pair) -> (r: Pair)
        requires
            i32::MIN <= self.row + rhs.row <= i32::MAX,
            i32::MIN <= self.col + rhs.col <= i32::MAX,
        ensures
            r.row == self.row + rhs.row,
            r.col == self.col + rhs.col,
    {
        Pair { row: self.row + rhs.row, col: self.col + rhs.col }
    }

    /// Subtracts one `Pair` from another with vector subtraction.
    pub fn sub(self, rhs: Pair) -> (r: Pair)
        requires
            i32::MIN <= self.row - rhs.row <= i32::MAX,
            i32::MIN <= self.col - rhs.col <= i32::MAX,
        ensures
            r.row == self.row - rhs.row,
            r.col == self.col - rhs.col,
    {
        Pair { row: self.row - rhs.row, col: self.col - rhs.col }
    }

    /// Multiplies a `Pair` by a scalar with scalar multiplication.
    pub fn mul(self, rhs: i32) -> (r: Pair)
        requires
            i32::MIN <= self.row * rhs <= i32::MAX,
            i32::MIN <= self.col * rhs <= i32::MAX,
        ensures
            r.row == self.row * rhs,
            r.col == self.col * rhs,
    {
        Pair { row: self.row * rhs, col: self.col * rhs }
    }
}

impl From<Direction> for Pair {
    /// Converts a direction into its unit offset `Pair`.
    fn from(direction: Direction) -> (r: Self) {
        match direction {
            Direction::Down => Pair { row: 1, col: 0 },
            Direction::Left => Pair { row: 0, col: -1 },
            Direction::Up => Pair { row: -1, col: 0 },
            Direction::Right => Pair { row: 0, col: 1 },
        }
    }
}

impl vstd::std_specs::convert::FromSpecImpl<Direction> for Pair {
    open spec fn obeys_from_spec() -> bool {
        true
    }

    open spec fn from_spec(direction: Direction) -> Pair {
        Pair::direction_offset(direction)
    }
}

} // verus!
