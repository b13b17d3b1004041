//! A 2D vector meant to interface cleanly with pair access.

use vstd::prelude::*;

use crate::pair::Pair;

verus! {

/// The number of tiles to jump to get to the next cell.
pub const CELL_STEP: i32 = 2;

/// The largest cell extent whose raw indices, and the two-step probes past
/// them, still fit in an `i32` coordinate: `(i32::MAX - 2) / 2`.
pub const MAX_CELL_EXTENT: usize = 0x3FFF_FFFE;

/// A rectangular grid of values, addressed both in "cell" units (logical
/// maze cells) and in raw units (cells and the walls between them).
pub struct Board<T> {
    /// The grid of values on the board, row-major.
    pub grid: Vec<Vec<T>>,
    /// The number of "cells" (odd-indexed values) per row.
    pub cell_width: usize,
    /// The number of "cells" (odd-indexed values) per column.
    pub cell_height: usize,
}

impl<T> View for Board<T> {
    type V = Seq<Seq<T>>;

    open spec fn view(&self) -> Seq<Seq<T>> {
        Seq::new(self.grid@.len(), |i: int| self.grid@[i]@)
    }
}

/// The raw index backing a cell position: cells sit at the odd indices.
pub open spec fn spec_cell_position_to_index(position: int) -> int {
    2 * position + 1
}

impl<T> Board<T> {
    /// The board is a rectangle of `2 * cell_height + 1` rows, each
    /// `2 * cell_width + 1` raw positions wide.
    pub open spec fn well_formed(self) -> bool {
        &&& self@.len() == 2 * self.cell_height + 1
        &&& forall|i: int| 0 <= i < self@.len() ==> (#[trigger] self@[i]).len() == 2
            * self.cell_width + 1
    }

    /// Whether a pair addresses a raw position of this board.
    pub open spec fn in_bounds(self, pair: Pair) -> bool {
        &&& 0 <= pair.row < self@.len()
        &&& 0 <= pair.col < self@[pair.row as int].len()
    }

    /// The value a bounds-checked read at `pair` yields.
    pub open spec fn spec_get(self, pair: Pair) -> Option<T> {
        if self.in_bounds(pair) {
            Some(self@[pair.row as int][pair.col as int])
        } else {
            None
        }
    }
}

impl<T: Default> Board<T> {
    /// Creates a `Board` from some numbers of horizontal and vertical
    /// "cells", every raw position holding the default value.
    pub fn new(height: usize, width: usize) -> (r: Self)
        requires
            height <= (usize::MAX - 1) / 2,
            width <= (usize::MAX - 1) / 2,
        ensures
            r.well_formed(),
            r.cell_height == height,
            r.cell_width == width,
            forall|i: int, j: int|
                0 <= i < r@.len() && 0 <= j < r@[i].len() ==> call_ensures(
                    T::default,
                    (),
                    #[trigger] r@[i][j],
                ),
    {
        let raw_height = Self::cell_position_to_index(height);
        let raw_width = Self::cell_position_to_index(width);
        let mut grid: Vec<Vec<T>> = Vec::new();
        while grid.len() < raw_height
            invariant
                grid@.len() <= raw_height,
                forall|i: int| 0 <= i < grid@.len() ==> (#[trigger] grid@[i])@.len() == raw_width,
                forall|i: int, j: int|
                    0 <= i < grid@.len() && 0 <= j < grid@[i]@.len() ==> call_ensures(
                        T::default,
                        (),
                        #[trigger] grid@[i]@[j],
                    ),
            decreases raw_height - grid@.len(),
        {
            let mut row: Vec<T> = Vec::new();
            while row.len() < raw_width
                invariant
                    row@.len() <= raw_width,
                    forall|j: int|
                        0 <= j < row@.len() ==> call_ensures(T::default, (), #[trigger] row@[j]),
                decreases raw_width - row@.len(),
            {
                row.push(T::default());
            }
            grid.push(row);
        }
        Board { grid, cell_width: width, cell_height: height }
    }
}

impl<T> Board<T> {
    /// Converts the cell position to the raw index backing it.
    pub fn cell_position_to_index(position: usize) -> (r: usize)
        requires
            position <= (usize::MAX - 1) / 2,
        ensures
            r == spec_cell_position_to_index(position as int),
    {
        position * 2 + 1
    }

    /// Gets an immutable reference into the board based on some pair, or
    /// `None` when either component falls off the grid.
    pub fn get_from_pair(&self, pair: Pair) -> (r: Option<&T>)
        ensures
            self.in_bounds(pair) ==> (r matches Some(v) && *v == self@[pair.row as int][pair.col as int]),
            !self.in_bounds(pair) ==> r is None,
    {
        if pair.row < 0 {
            return None;
        }
        let row_index = pair.row as usize;
        if row_index >= self.grid.len() {
            return None;
        }
        let row = &self.grid[row_index];
        if pair.col < 0 {
            return None;
        }
        let col_index = pair.col as usize;
        if col_index >= row.len() {
            return None;
        }
        Some(&row[col_index])
    }

    /// Gets a mutable reference into the board based on some pair, or
    /// `None` when either component falls off the grid.
    pub fn get_mut_from_pair(&mut self, pair: Pair) -> (r: Option<&mut T>)
        ensures
            !old(self).in_bounds(pair) ==> r is None && *final(self) == *old(self),
            old(self).in_bounds(pair) ==> r is Some && *r.unwrap() == old(self)@[pair.row as int][pair.col as int]
                && final(self)@ == old(self)@.update(
                pair.row as int,
                old(self)@[pair.row as int].update(pair.col as int, *final(r.unwrap())),
            ) && final(self).cell_height == old(self).cell_height && final(self).cell_width == old(
                self,
            ).cell_width,
    {
        if pair.row < 0 {
            return None;
        }
        let row_index = pair.row as usize;
        if row_index >= self.grid.len() {
            return None;
        }
        if pair.col < 0 {
            return None;
        }
        let col_index = pair.col as usize;
        if col_index >= self.grid[row_index].len() {
            return None;
        }
        let cell = &mut self.grid[row_index][col_index];
        Some(cell)
    }

    /// Writes `value` at `pair`, reporting whether the pair was on the grid.
    pub fn set_from_pair(&mut self, pair: Pair, value: T) -> (r: bool)
        ensures
            r <==> old(self).in_bounds(pair),
            !old(self).in_bounds(pair) ==> *final(self) == *old(self),
            old(self).in_bounds(pair) ==> final(self)@ == old(self)@.update(
                pair.row as int,
                old(self)@[pair.row as int].update(pair.col as int, value),
            ) && final(self).cell_height == old(self).cell_height && final(self).cell_width == old(
                self,
            ).cell_width,
    {
        match self.get_mut_from_pair(pair) {
            Some(cell) => {
                *cell = value;
                true
            },
            None => false,
        }
    }
}

/// Law: bounds-checked reads are determined by the grid contents alone, so
/// `get_from_pair` and `get_mut_from_pair` on the same coordinate before and
/// after a non-mutating operation return equal values.
pub proof fn lemma_get_idempotent<T>(before: Board<T>, after: Board<T>, pair: Pair)
    requires
        before@ == after@,
    ensures
        before.spec_get(pair) == after.spec_get(pair),
        before.in_bounds(pair) == after.in_bounds(pair),
{
}

/// The cell-to-raw conversion is a bijection onto the odd raw indices:
/// cell 0 sits at raw index 1, each further cell two raw positions on,
/// distinct cells land on distinct indices, and every odd index is hit.
pub proof fn lemma_cell_position_to_index_bijection(position: int, other: int, raw: int)
    ensures
        spec_cell_position_to_index(0) == 1,
        spec_cell_position_to_index(position + 1) == spec_cell_position_to_index(position) + 2,
        spec_cell_position_to_index(position) % 2 == 1,
        spec_cell_position_to_index(position) == spec_cell_position_to_index(other) ==> position
            == other,
        raw % 2 == 1 ==> spec_cell_position_to_index((raw - 1) / 2) == raw,
{
}

} // verus!
