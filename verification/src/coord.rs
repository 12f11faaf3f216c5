use vstd::prelude::*;
use vstd::std_specs::convert::FromSpecImpl;

use crate::SIZE;

verus! {

/// The address of a cell: zero-based row and column.
///
/// Coordinates are ordered row first, then column.
#[derive(PartialEq, Eq, Clone, Copy, PartialOrd, Ord, Debug, Structural)]
pub struct Coord {
    pub row: usize,
    pub col: usize,
}

impl Coord {
    /// Whether the coordinate lies on the board.
    pub open spec fn in_bounds(self) -> bool {
        self.row < SIZE && self.col < SIZE
    }

    /// Position of the coordinate in row-major order.
    pub open spec fn flat(self) -> int {
        self.row * SIZE + self.col
    }

    /// Strict row-major order on coordinates.
    pub open spec fn precedes(self, other: Coord) -> bool {
        self.row < other.row || (self.row == other.row && self.col < other.col)
    }
}

/// The coordinate at position `k` of the board in row-major order.
pub open spec fn coord_at(k: int) -> Coord {
    Coord { row: (k / (SIZE as int)) as usize, col: (k % (SIZE as int)) as usize }
}

impl From<(usize, usize)> for Coord {
    fn from(pair: (usize, usize)) -> (c: Coord) {
        Coord { row: pair.0, col: pair.1 }
    }
}

impl FromSpecImpl<(usize, usize)> for Coord {
    open spec fn obeys_from_spec() -> bool {
        true
    }

    open spec fn from_spec(pair: (usize, usize)) -> Coord {
        Coord { row: pair.0, col: pair.1 }
    }
}

impl From<Coord> for (usize, usize) {
    fn from(c: Coord) -> (pair: (usize, usize)) {
        (c.row, c.col)
    }
}

impl FromSpecImpl<Coord> for (usize, usize) {
    open spec fn obeys_from_spec() -> bool {
        true
    }

    open spec fn from_spec(c: Coord) -> (usize, usize) {
        (c.row, c.col)
    }
}

} // verus!
