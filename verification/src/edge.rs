//! A module for describing connections between `Pairs`.

use vstd::prelude::*;

use crate::pair::Pair;

verus! {

/// A connection between `Pairs`.
#[derive(PartialEq, Eq, Hash)]
pub struct Edge {
    /// The `Pairs` in the `Edge`.
    pub pairs: (Pair, Pair),
}

} // verus!
