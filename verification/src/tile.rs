//! Functionality pertaining to a tile in the maze.

use vstd::prelude::*;

verus! {

/// The state of one raw grid position.
#[derive(Clone, Copy, PartialEq, Eq, Structural, Debug)]
pub enum Tile {
    /// Impassable terrain.
    Wall,
    /// Traversable terrain.
    Path,
    /// A maze entrance.
    Entry,
}

impl Default for Tile {
    fn default() -> (r: Self)
        ensures
            r == Tile::Wall,
    {
        Tile::Wall
    }
}

} // verus!
