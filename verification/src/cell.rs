use vstd::prelude::*;

verus! {

/// The state of one cell of the board.
#[derive(Clone, Copy, Debug, Eq, Hash, PartialEq, Structural)]
pub enum Cell {
    /// A given value; it can be neither changed nor cleared.
    Clue(u8),
    /// A value placed while playing or solving.
    Filled(u8),
    /// No value.
    Empty,
}

impl Cell {
    /// The value the cell holds, if any.
    pub open spec fn value(self) -> Option<u8> {
        match self {
            Cell::Clue(v) => Some(v),
            Cell::Filled(v) => Some(v),
            Cell::Empty => None,
        }
    }

    /// The cell as a clue: a filled cell becomes a clue of the same value,
    /// any other cell stays what it is.
    pub open spec fn as_clue(self) -> Cell {
        match self {
            Cell::Filled(v) => Cell::Clue(v),
            other => other,
        }
    }

    /// Whether the cell holds `v`.
    pub open spec fn holds(self, v: u8) -> bool {
        self.value() == Some(v)
    }
}

} // verus!
