//! Procedural generation of rectangular mazes.
//!
//! A maze is carved out of an all-wall grid by a randomized depth-first
//! backtracking walk over a doubled coordinate space: cells sit at odd raw
//! coordinates, the walls between them at the remaining positions.  A single
//! entry and a single exit are cut into the outer border.

pub mod board;
pub mod cell;
pub mod direction;
pub mod edge;
pub mod maze;
pub mod pair;
mod rng;
pub mod stack;
pub mod tile;
pub mod visit_status;
