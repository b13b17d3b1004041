//! A module detailing directions.

use vstd::prelude::*;

verus! {

/// The possible directions to move in the maze.
#[derive(Clone, Copy, PartialEq, Eq, Structural, Debug)]
pub enum Direction {
    /// Going "up" (i.e. decrementing a row).
    Up,
    /// Going "right" (i.e. incrementing a column).
    Right,
    /// Going "down" (i.e. incrementing a row).
    Down,
    /// Going "left" (i.e. decrementing a column).
    Left,
}

impl Default for Direction {
    fn default() -> (r: Self)
        ensures
            r == Direction::Up,
    {
        Direction::Up
    }
}

impl Direction {
    /// The four directions in their fixed enumeration order.
    pub open spec fn all_spec() -> Seq<Direction> {
        seq![Direction::Up, Direction::Right, Direction::Down, Direction::Left]
    }

    /// Lists the four directions in their fixed enumeration order, for
    /// reproducible candidate scanning.
    pub fn all() -> (r: Vec<Direction>)
        ensures
            r@ == Direction::all_spec(),
    {
        let mut directions: Vec<Direction> = Vec::new();
        directions.push(Direction::Up);
        directions.push(Direction::Right);
        directions.push(Direction::Down);
        directions.push(Direction::Left);
        proof {
            assert(directions@ =~= Direction::all_spec());
        }
        directions
    }
}

/// The fixed enumeration lists every direction exactly once.
pub proof fn lemma_all_spec_complete()
    ensures
        Direction::all_spec().no_duplicates(),
        forall|d: Direction| #[trigger] Direction::all_spec().contains(d),
{
    assert forall|d: Direction| #[trigger] Direction::all_spec().contains(d) by {
        match d {
            Direction::Up => assert(Direction::all_spec()[0] == d),
            Direction::Right => assert(Direction::all_spec()[1] == d),
            Direction::Down => assert(Direction::all_spec()[2] == d),
            Direction::Left => assert(Direction::all_spec()[3] == d),
        }
    }
}

} // verus!
