//! A board that the player types in, cell by cell.

use vstd::prelude::*;

use crate::cell::Cell;
use crate::coord::Coord;
use crate::grid::Grid;
use crate::grid_trait::{grid_from_vec, DisplayableGrid};
use crate::prompt::PromptResponse;
use crate::SIZE;

verus! {

/// The cells typed so far, in row-major order, and the cells that were taken
/// back.
#[derive(Clone, Debug)]
pub struct Entry {
    input: Vec<Cell>,
    redo_stack: Vec<Cell>,
}

/// What an answer of the player did to the board that is typed in.
#[derive(Clone, Copy, Debug, PartialEq, Eq)]
pub enum EntryReply {
    /// The cell was taken.
    Entered,
    /// The last cell was taken back.
    Undone,
    /// There is no cell to take back.
    NothingToUndo,
    /// The cell taken back last was taken again.
    Redone,
    /// There is no cell to take again.
    NothingToRedo,
    /// The player quits.
    Quit,
}

impl Entry {
    /// The cells typed so far.
    pub closed spec fn cells(&self) -> Seq<Cell> {
        self.input@
    }

    /// The cells that were taken back, the one taken back last at the end.
    pub closed spec fn redo(&self) -> Seq<Cell> {
        self.redo_stack@
    }

    /// What holds of every board that is typed in: the cells typed and the
    /// cells taken back are no more than the board has.
    pub open spec fn wf(&self) -> bool {
        self.cells().len() + self.redo().len() <= SIZE * SIZE
    }

    /// Whether every cell of the board is typed.
    pub open spec fn complete(&self) -> bool {
        self.cells().len() == SIZE * SIZE
    }

    /// The cell that is shown at row `row` and column `col`: the cell typed
    /// there, a clue with the value 0 as the mark of the cell that is asked
    /// for, and an empty cell after it.
    pub open spec fn shown_at(&self, row: int, col: int) -> Cell {
        let k = row * SIZE + col;
        if k < self.cells().len() {
            self.cells()[k]
        } else if k == self.cells().len() {
            Cell::Clue(0)
        } else {
            Cell::Empty
        }
    }

    /// A board of which no cell is typed.
    pub fn new() -> (e: Entry)
        ensures
            e.wf(),
            e.cells().len() == 0,
            e.redo().len() == 0,
    {
        Entry { input: Vec::new(), redo_stack: Vec::new() }
    }

    /// Whether every cell of the board is typed.
    pub fn is_complete(&self) -> (b: bool)
        ensures
            b == self.complete(),
    {
        self.input.len() == SIZE * SIZE
    }

    /// The cell that is asked for next.
    pub fn next_cell(&self) -> (c: Coord)
        requires
            self.wf(),
            !self.complete(),
        ensures
            c.in_bounds(),
            c.flat() == self.cells().len(),
    {
        Coord { row: self.input.len() / SIZE, col: self.input.len() % SIZE }
    }

    /// The board to show to the player.
    pub fn shown(&self) -> (grid: DisplayableGrid<Cell>)
        requires
            self.wf(),
        ensures
            forall|i: int, j: int|
                0 <= i < SIZE && 0 <= j < SIZE ==> #[trigger] grid.0[i][j] == self.shown_at(i, j),
    {
        let mut rows = [[Cell::Empty; SIZE]; SIZE];
        let mut k: usize = 0;
        while k < SIZE * SIZE
            invariant
                k <= SIZE * SIZE,
                self.wf(),
                forall|i: int, j: int|
                    0 <= i < SIZE && 0 <= j < SIZE && i * SIZE + j < k ==> #[trigger] rows[i][j]
                        == self.shown_at(i, j),
            decreases SIZE * SIZE - k,
        {
            let cell = if k < self.input.len() {
                self.input[k]
            } else if k == self.input.len() {
                Cell::Clue(0)
            } else {
                Cell::Empty
            };
            rows[k / SIZE][k % SIZE] = cell;
            k += 1;
        }
        DisplayableGrid(rows)
    }

    /// Takes the answer `response` of the player.
    ///
    /// A cell is added to the cells typed, and the cells taken back are
    /// forgotten. The wish to take a step back takes the last cell away; the
    /// wish to take it again adds the cell taken away last.
    pub fn step(&mut self, response: PromptResponse<Cell>) -> (reply: EntryReply)
        requires
            old(self).wf(),
            !old(self).complete(),
        ensures
            final(self).wf(),
            match response {
                PromptResponse::Val(cell) => {
                    &&& reply == EntryReply::Entered
                    &&& final(self).cells() == old(self).cells().push(cell)
                    &&& final(self).redo().len() == 0
                },
                PromptResponse::Undo => if old(self).cells().len() > 0 {
                    &&& reply == EntryReply::Undone
                    &&& final(self).cells() == old(self).cells().drop_last()
                    &&& final(self).redo() == old(self).redo().push(old(self).cells().last())
                } else {
                    &&& reply == EntryReply::NothingToUndo
                    &&& final(self).cells() == old(self).cells()
                    &&& final(self).redo() == old(self).redo()
                },
                PromptResponse::Redo => if old(self).redo().len() > 0 {
                    &&& reply == EntryReply::Redone
                    &&& final(self).cells() == old(self).cells().push(old(self).redo().last())
                    &&& final(self).redo() == old(self).redo().drop_last()
                } else {
                    &&& reply == EntryReply::NothingToRedo
                    &&& final(self).cells() == old(self).cells()
                    &&& final(self).redo() == old(self).redo()
                },
                PromptResponse::Quit => {
                    &&& reply == EntryReply::Quit
                    &&& final(self).cells() == old(self).cells()
                    &&& final(self).redo() == old(self).redo()
                },
            },
    {
        match response {
            PromptResponse::Val(cell) => {
                self.input.push(cell);
                self.redo_stack = Vec::new();
                EntryReply::Entered
            },
            PromptResponse::Quit => EntryReply::Quit,
            PromptResponse::Undo => match self.input.pop() {
                None => EntryReply::NothingToUndo,
                Some(last) => {
                    self.redo_stack.push(last);
                    EntryReply::Undone
                },
            },
            PromptResponse::Redo => match self.redo_stack.pop() {
                None => EntryReply::NothingToRedo,
                Some(next) => {
                    self.input.push(next);
                    EntryReply::Redone
                },
            },
        }
    }

    /// The board with the cells typed, row by row.
    pub fn finish(self) -> (g: Grid)
        requires
            self.complete(),
        ensures
            g.wf(),
            forall|i: int, j: int|
                0 <= i < SIZE && 0 <= j < SIZE ==> #[trigger] g.board()[i][j] == self.cells()[i
                    * SIZE + j],
    {
        Grid::from_rows(grid_from_vec(self.input).0)
    }
}

} // verus!
