//! What holds of the board and its candidates across operations.

use vstd::prelude::*;

use crate::board::{count_empty, is_full, lemma_count_empty_zero, lemma_peers_differ_solved, peers_differ};
use crate::candidate_matrix::{lemma_agreement_is_equality, CandidateMatrix};
use crate::cell::Cell;
use crate::coord::Coord;
use crate::geometry::{box_index, box_offset};
use crate::grid::Grid;
use crate::SIZE;

verus! {

/// A board on which no cell is empty and no two cells that share a row, a
/// column or a box hold the same value is marked as solved and counts no
/// empty cell.
pub proof fn law_full_board_is_solved(g: Grid)
    requires
        g.wf(),
        is_full(g.board()),
        peers_differ(g.board()),
    ensures
        g.solved(),
        g.empty_cell_count() == 0,
{
    g.lemma_wf();
    lemma_peers_differ_solved(g.board());
    lemma_count_empty_zero(g.board());
}

/// The three views of a board hold the same cell for every place: the view
/// by rows at row and column, the view by columns at column and row, and the
/// view by boxes at the box and the position inside it.
pub proof fn law_views_agree(g: Grid, row: int, col: int)
    requires
        g.wf(),
        0 <= row < SIZE,
        0 <= col < SIZE,
    ensures
        g.board_by_cols()[col][row] == g.board()[row][col],
        g.board_by_boxes()[box_index(row, col)][box_offset(row, col)] == g.board()[row][col],
{
    g.lemma_wf();
    assert(crate::board::col_agrees(g.board(), g.board_by_cols(), row, col));
    assert(crate::board::box_agrees(g.board(), g.board_by_boxes(), row, col));
}

/// Giving the value of a clue back to the cells that its placement changed
/// undoes the placement: the candidates are what they were before.
pub proof fn law_undo_inverts_propagation(
    before: CandidateMatrix,
    propagated: CandidateMatrix,
    restored: CandidateMatrix,
    cell: Coord,
    val: u8,
    changed: Seq<Coord>,
)
    requires
        cell.in_bounds(),
        propagated.propagated_from(before, cell, val),
        before.is_changed_list(changed, cell, val),
        restored.restored_from(propagated, Cell::Clue(val), changed),
    ensures
        restored == before,
{
    assert forall|c: Coord, w: u8| c.in_bounds() implies restored.has(c, w) == before.has(
        c,
        w,
    ) by {
        assert(propagated.has(c, w) == (before.has(c, w) && !(crate::geometry::is_peer(cell, c)
            && w == val)));
        assert(restored.has(c, w) == (propagated.has(c, w) || (Cell::Clue(val) == Cell::Clue(w)
            && changed.contains(c) && !propagated.is_fixed(c) && 1 <= w <= SIZE)));
        assert(changed.contains(c) <==> c.in_bounds() && crate::geometry::is_peer(cell, c)
            && before.has(c, val));
    }
    assert(restored.agrees_with(before));
    lemma_agreement_is_equality(restored, before);
}

} // verus!
