//! The record of one step of the search.

use vstd::prelude::*;

use crate::cell::Cell;
use crate::coord::Coord;

verus! {

/// One step of the search: a value placed in a cell, and what that changed.
#[derive(Clone, Debug)]
pub struct Decision {
    /// The cell that was given a value.
    pub cell: Coord,
    /// The cell as it was written.
    pub val: Cell,
    /// The peers of the cell whose candidates changed.
    pub candidates_changed: Vec<Coord>,
    /// The candidates of the cell before the step.
    pub prev_cell_candidates: Vec<u8>,
    /// Whether the value was the only candidate of the cell.
    pub forced: bool,
}

impl Decision {
    /// The record of a step.
    pub fn new(
        cell: Coord,
        val: Cell,
        candidates_changed: Vec<Coord>,
        prev_cell_candidates: Vec<u8>,
        forced: bool,
    ) -> (d: Decision)
        ensures
            d == (Decision { cell, val, candidates_changed, prev_cell_candidates, forced }),
    {
        Decision { cell, val, candidates_changed, prev_cell_candidates, forced }
    }

    /// The value that the step placed; 0 where the record holds an empty
    /// cell.
    pub open spec fn value(&self) -> u8 {
        match self.val {
            Cell::Clue(v) => v,
            Cell::Filled(v) => v,
            Cell::Empty => 0,
        }
    }

    /// The value that the step placed; 0 where the record holds an empty
    /// cell.
    pub fn placed(&self) -> (v: u8)
        ensures
            v == self.value(),
    {
        match self.val {
            Cell::Clue(v) => v,
            Cell::Filled(v) => v,
            Cell::Empty => 0,
        }
    }
}

/// A change of one cell, as the player makes and takes back.
#[derive(Clone, Copy, Debug)]
pub struct Move {
    pub cell: Coord,
    pub old: Cell,
    pub new: Cell,
}

impl Move {
    /// The change of the cell at `cell` from `old` to `new`.
    pub fn new(cell: Coord, old: Cell, new: Cell) -> (m: Move)
        ensures
            m == (Move { cell, old, new }),
    {
        Move { cell, old, new }
    }
}

} // verus!
