//! A board to play on, together with a board that solves it.

use vstd::prelude::*;

use crate::cell::Cell;
use crate::coord::Coord;
use crate::grid::{base_value, get_base_solution, Grid};
use crate::render::{grid_text, render};
use crate::{GridArray, SIZE};

verus! {

/// A board to play on and, where one is known, a solved board.
#[derive(Clone, Copy, Debug)]
pub struct Puzzle {
    grid: Grid,
    solution: Option<Grid>,
}

impl Puzzle {
    /// The board to play on.
    pub closed spec fn board(&self) -> Grid {
        self.grid
    }

    /// The solved board, where one is known.
    pub closed spec fn solved_board(&self) -> Option<Grid> {
        self.solution
    }

    /// What holds of every puzzle: its boards are boards.
    pub open spec fn wf(&self) -> bool {
        &&& self.board().wf()
        &&& self.solved_board() matches Some(g) ==> g.wf()
    }

    /// An empty board to play on, with the shifted board of clues as the
    /// solved board.
    pub fn new() -> (p: Puzzle)
        ensures
            p.wf(),
            forall|c: Coord| c.in_bounds() ==> (#[trigger] p.board().at(c)) is Empty,
            p.solved_board() matches Some(g) && g.solved() && forall|r: int, c: int|
                0 <= r < SIZE && 0 <= c < SIZE ==> #[trigger] g.board()[r][c] == Cell::Clue(
                    base_value(r, c) as u8,
                ),
    {
        Puzzle { grid: Grid::new(), solution: Some(Grid::from_rows(get_base_solution())) }
    }

    /// The board to play on, as text.
    pub fn grid(&self) -> (text: String)
        ensures
            text@ == grid_text(self.board().board(), SIZE as nat),
    {
        render(self.grid.rows())
    }

    /// The solved board, where one is known, as text.
    pub fn solution(&self) -> (text: Option<String>)
        ensures
            match self.solved_board() {
                Some(g) => text matches Some(t) && t@ == grid_text(g.board(), SIZE as nat),
                None => text is None,
            },
    {
        match &self.solution {
            Some(g) => Some(render(g.rows())),
            None => None,
        }
    }

    /// The rows of the board to play on.
    pub fn rows(&self) -> (rows: &GridArray)
        ensures
            *rows == self.board().board(),
    {
        self.grid.rows()
    }

    /// Row `idx` of the board to play on.
    pub fn get_row(&self, idx: usize) -> (group: &[Cell; SIZE])
        requires
            idx < SIZE,
        ensures
            *group == self.board().board()[idx as int],
    {
        self.grid.get_row(idx)
    }
}

} // verus!
