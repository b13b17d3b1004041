//! Functionality pertaining to a cell in the maze.

use vstd::prelude::*;

verus! {

/// The passability of one maze cell.
#[derive(Clone, Copy, PartialEq, Eq, Structural, Debug)]
pub enum Cell {
    /// Impassable terrain.
    WALL,
    /// Traversable terrain.
    PATH,
}

} // verus!
