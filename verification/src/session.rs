//! A game in progress: the board, and the boards to go back and forth to.

use vstd::prelude::*;

use crate::cell::Cell;
use crate::coord::Coord;
use crate::grid::{Grid, GridError};
use crate::prompt::PromptResponse;

verus! {

/// The board that is played on, the boards that it was before, and the
/// boards that were taken back.
#[derive(Clone, Debug)]
pub struct Session {
    grid: Grid,
    undo_history: Vec<Grid>,
    redo_history: Vec<Grid>,
}

/// What an answer of the player did to the game.
#[derive(Clone, Copy, Debug, PartialEq, Eq)]
pub enum Reply {
    /// The value was placed.
    Placed,
    /// The value was refused.
    Refused(GridError),
    /// The answer was no value to place.
    Ignored,
    /// The last step was taken back.
    Undone,
    /// There is no step to take back.
    NothingToUndo,
    /// The step taken back last was taken again.
    Redone,
    /// There is no step to take again.
    NothingToRedo,
    /// The player quits.
    Quit,
}

impl Session {
    /// The board that is played on.
    pub closed spec fn board(&self) -> Grid {
        self.grid
    }

    /// The boards before the steps taken, the oldest first.
    pub closed spec fn undo(&self) -> Seq<Grid> {
        self.undo_history@
    }

    /// The boards that were taken back, the one taken back last at the end.
    pub closed spec fn redo(&self) -> Seq<Grid> {
        self.redo_history@
    }

    /// What holds of every game: its boards are boards.
    pub open spec fn wf(&self) -> bool {
        &&& self.board().wf()
        &&& forall|i: int| 0 <= i < self.undo().len() ==> (#[trigger] self.undo()[i]).wf()
        &&& forall|i: int| 0 <= i < self.redo().len() ==> (#[trigger] self.redo()[i]).wf()
    }

    /// Whether `self` is `before` with nothing changed.
    pub open spec fn same_as(&self, before: Session) -> bool {
        self.board() == before.board() && self.undo() == before.undo() && self.redo()
            == before.redo()
    }

    /// A game that starts on the board `grid`.
    pub fn new(grid: Grid) -> (s: Session)
        requires
            grid.wf(),
        ensures
            s.wf(),
            s.board() == grid,
            s.undo().len() == 0,
            s.redo().len() == 0,
    {
        Session { grid, undo_history: Vec::new(), redo_history: Vec::new() }
    }

    /// The board that is played on.
    pub fn grid(&self) -> (grid: &Grid)
        ensures
            *grid == self.board(),
    {
        &self.grid
    }

    /// Whether the board that is played on is solved.
    pub fn is_solved(&self) -> (b: bool)
        ensures
            b == self.board().solved(),
    {
        self.grid.solved()
    }

    /// Takes the answer `response` of the player.
    ///
    /// A filled cell is placed on the board; where the board accepts it, the
    /// board as it was is kept to go back to, and the boards taken back are
    /// forgotten. The wish to take a step back puts the last board kept in
    /// place of the board; the wish to take it again puts the board taken
    /// back last in its place. Anything else leaves the game as it is.
    pub fn step(&mut self, response: PromptResponse<(Coord, Cell)>) -> (reply: Reply)
        requires
            old(self).wf(),
            response matches PromptResponse::Val((cell, _)) ==> cell.in_bounds(),
        ensures
            final(self).wf(),
            match response {
                PromptResponse::Val((cell, Cell::Filled(n))) => match old(self).board().update_refusal(
                    cell,
                    n,
                ) {
                    None => {
                        &&& reply == Reply::Placed
                        &&& final(self).board().updated_from(old(self).board(), cell, n)
                        &&& final(self).undo() == old(self).undo().push(old(self).board())
                        &&& final(self).redo().len() == 0
                    },
                    Some(kind) => {
                        &&& reply == Reply::Refused(GridError { kind, cell, val: n })
                        &&& final(self).same_as(*old(self))
                    },
                },
                PromptResponse::Val(_) => reply == Reply::Ignored && final(self).same_as(
                    *old(self),
                ),
                PromptResponse::Undo => if old(self).undo().len() > 0 {
                    &&& reply == Reply::Undone
                    &&& final(self).board() == old(self).undo().last()
                    &&& final(self).undo() == old(self).undo().drop_last()
                    &&& final(self).redo() == old(self).redo().push(old(self).board())
                } else {
                    reply == Reply::NothingToUndo && final(self).same_as(*old(self))
                },
                PromptResponse::Redo => if old(self).redo().len() > 0 {
                    &&& reply == Reply::Redone
                    &&& final(self).board() == old(self).redo().last()
                    &&& final(self).redo() == old(self).redo().drop_last()
                    &&& final(self).undo() == old(self).undo().push(old(self).board())
                } else {
                    reply == Reply::NothingToRedo && final(self).same_as(*old(self))
                },
                PromptResponse::Quit => reply == Reply::Quit && final(self).same_as(*old(self)),
            },
    {
        match response {
            PromptResponse::Val((cell, val)) => {
                if let Cell::Filled(n) = val {
                    let current = self.grid;
                    match self.grid.update(cell, n) {
                        Err(e) => Reply::Refused(e),
                        Ok(_) => {
                            self.undo_history.push(current);
                            self.redo_history = Vec::new();
                            Reply::Placed
                        },
                    }
                } else {
                    Reply::Ignored
                }
            },
            PromptResponse::Undo => match self.undo_history.pop() {
                Some(last) => {
                    self.redo_history.push(self.grid);
                    self.grid = last;
                    Reply::Undone
                },
                None => Reply::NothingToUndo,
            },
            PromptResponse::Redo => match self.redo_history.pop() {
                Some(next) => {
                    self.undo_history.push(self.grid);
                    self.grid = next;
                    Reply::Redone
                },
                None => Reply::NothingToRedo,
            },
            PromptResponse::Quit => Reply::Quit,
        }
    }
}

} // verus!
