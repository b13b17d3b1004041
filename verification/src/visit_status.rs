//! Marks whether a tile was visited or not.

use vstd::prelude::*;

verus! {

/// Denotes whether the cell has been visited or not.
#[derive(Clone, Copy, PartialEq, Eq, Structural, Debug)]
pub enum VisitStatus {
    /// The cell has not been visited yet.
    Unvisited,
    /// The cell was previously visited.
    Visited,
}

impl Default for VisitStatus {
    fn default() -> (r: Self)
        ensures
            r == VisitStatus::Unvisited,
    {
        VisitStatus::Unvisited
    }
}

} // verus!
