//! What can be said of a board given by its rows alone.

use vstd::prelude::*;

use crate::candidate_matrix::CandidateMatrix;
use crate::cell::Cell;
use crate::coord::{coord_at, Coord};
use crate::geometry::{box_index, box_offset, is_peer};
use crate::{GridArray, SIZE};

verus! {

/// The cell of `rows` at `c`.
pub open spec fn cell_of(rows: GridArray, c: Coord) -> Cell {
    rows[c.row as int][c.col as int]
}

/// The cell at position `offset` of box `index`.
pub open spec fn box_cell(rows: GridArray, index: int, offset: int) -> Cell {
    rows[box_index(index, offset)][box_offset(index, offset)]
}

/// Whether the view by columns holds the cell of row `r` at position `c`
/// where it belongs.
pub open spec fn col_agrees(rows: GridArray, cols: GridArray, r: int, c: int) -> bool {
    cols[c][r] == rows[r][c]
}

/// Whether the view by boxes holds the cell of row `r` at position `c` where
/// it belongs.
pub open spec fn box_agrees(rows: GridArray, boxes: GridArray, r: int, c: int) -> bool {
    boxes[box_index(r, c)][box_offset(r, c)] == rows[r][c]
}

/// Whether the views by columns and by boxes hold the cells of `rows`.
pub open spec fn views_synced(rows: GridArray, cols: GridArray, boxes: GridArray) -> bool {
    &&& forall|r: int, c: int|
        0 <= r < SIZE && 0 <= c < SIZE ==> #[trigger] col_agrees(rows, cols, r, c)
    &&& forall|r: int, c: int|
        0 <= r < SIZE && 0 <= c < SIZE ==> #[trigger] box_agrees(rows, boxes, r, c)
}

/// Whether every cell of `rows` that holds a clue is fixed in `matrix`.
pub open spec fn clues_fixed(rows: GridArray, matrix: CandidateMatrix) -> bool {
    forall|c: Coord| c.in_bounds() && #[trigger] cell_of(rows, c) is Clue ==> matrix.is_fixed(c)
}

/// The number of empty cells among the first `k` cells of `rows` in
/// row-major order.
pub open spec fn count_empty_upto(rows: GridArray, k: nat) -> nat
    decreases k,
{
    if k == 0 {
        0
    } else {
        count_empty_upto(rows, (k - 1) as nat) + if cell_of(rows, coord_at(k - 1)) is Empty {
            1nat
        } else {
            0nat
        }
    }
}

/// The number of empty cells of `rows`.
pub open spec fn count_empty(rows: GridArray) -> nat {
    count_empty_upto(rows, (SIZE * SIZE) as nat)
}

/// Whether no cell of `rows` is empty.
pub open spec fn is_full(rows: GridArray) -> bool {
    forall|c: Coord| c.in_bounds() ==> !(#[trigger] cell_of(rows, c) is Empty)
}

/// Whether positions `i` and `j` of row `g` hold the same.
pub open spec fn row_clash(rows: GridArray, g: int, i: int, j: int) -> bool {
    rows[g][i].value() == rows[g][j].value()
}

/// Whether positions `i` and `j` of column `g` hold the same.
pub open spec fn col_clash(rows: GridArray, g: int, i: int, j: int) -> bool {
    rows[i][g].value() == rows[j][g].value()
}

/// Whether positions `i` and `j` of box `g` hold the same.
pub open spec fn box_clash(rows: GridArray, g: int, i: int, j: int) -> bool {
    box_cell(rows, g, i).value() == box_cell(rows, g, j).value()
}

/// Whether `rows` is a solved board: no cell is empty, and no row, column
/// or box holds a value twice.
pub open spec fn is_solved(rows: GridArray) -> bool {
    &&& is_full(rows)
    &&& forall|g: int, i: int, j: int|
        0 <= g < SIZE && 0 <= i < j < SIZE ==> !#[trigger] row_clash(rows, g, i, j)
    &&& forall|g: int, i: int, j: int|
        0 <= g < SIZE && 0 <= i < j < SIZE ==> !#[trigger] col_clash(rows, g, i, j)
    &&& forall|g: int, i: int, j: int|
        0 <= g < SIZE && 0 <= i < j < SIZE ==> !#[trigger] box_clash(rows, g, i, j)
}

/// Whether the peers `a` and `b` hold the same.
pub open spec fn peer_clash(rows: GridArray, a: Coord, b: Coord) -> bool {
    cell_of(rows, a).value() == cell_of(rows, b).value()
}

/// Whether no two peers of `rows` hold the same value.
pub open spec fn peers_differ(rows: GridArray) -> bool {
    forall|a: Coord, b: Coord|
        a.in_bounds() && b.in_bounds() && is_peer(a, b) ==> !#[trigger] peer_clash(rows, a, b)
}

/// A full board on which no two peers hold the same value is solved.
pub proof fn lemma_peers_differ_solved(rows: GridArray)
    requires
        is_full(rows),
        peers_differ(rows),
    ensures
        is_solved(rows),
{
    assert forall|g: int, i: int, j: int| 0 <= g < SIZE && 0 <= i < j < SIZE implies !#[trigger] row_clash(
        rows,
        g,
        i,
        j,
    ) by {
        let a = Coord { row: g as usize, col: i as usize };
        let b = Coord { row: g as usize, col: j as usize };
        assert(is_peer(a, b));
        assert(!peer_clash(rows, a, b));
    }
    assert forall|g: int, i: int, j: int| 0 <= g < SIZE && 0 <= i < j < SIZE implies !#[trigger] col_clash(
        rows,
        g,
        i,
        j,
    ) by {
        let a = Coord { row: i as usize, col: g as usize };
        let b = Coord { row: j as usize, col: g as usize };
        assert(is_peer(a, b));
        assert(!peer_clash(rows, a, b));
    }
    assert forall|g: int, i: int, j: int| 0 <= g < SIZE && 0 <= i < j < SIZE implies !#[trigger] box_clash(
        rows,
        g,
        i,
        j,
    ) by {
        let a = Coord { row: box_index(g, i) as usize, col: box_offset(g, i) as usize };
        let b = Coord { row: box_index(g, j) as usize, col: box_offset(g, j) as usize };
        assert(a.in_bounds() && b.in_bounds());
        assert(is_peer(a, b));
        assert(!peer_clash(rows, a, b));
    }
}

/// On a solved board no two peers hold the same value.
pub proof fn lemma_solved_peers_differ(rows: GridArray)
    requires
        is_solved(rows),
    ensures
        peers_differ(rows),
{
    assert forall|a: Coord, b: Coord|
        a.in_bounds() && b.in_bounds() && is_peer(a, b) implies !#[trigger] peer_clash(
        rows,
        a,
        b,
    ) by {
        lemma_solved_peers(rows, a, b);
    }
}

/// On a solved board two peers hold different values.
pub proof fn lemma_solved_peers(rows: GridArray, a: Coord, b: Coord)
    requires
        is_solved(rows),
        a.in_bounds(),
        b.in_bounds(),
        is_peer(a, b),
    ensures
        !peer_clash(rows, a, b),
{
    if a.row == b.row {
        let g = a.row as int;
        if a.col < b.col {
            assert(!row_clash(rows, g, a.col as int, b.col as int));
        } else {
            assert(!row_clash(rows, g, b.col as int, a.col as int));
        }
    } else if a.col == b.col {
        let g = a.col as int;
        if a.row < b.row {
            assert(!col_clash(rows, g, a.row as int, b.row as int));
        } else {
            assert(!col_clash(rows, g, b.row as int, a.row as int));
        }
    } else {
        let g = box_index(a.row as int, a.col as int);
        let i = box_offset(a.row as int, a.col as int);
        let j = box_offset(b.row as int, b.col as int);
        assert(g == box_index(b.row as int, b.col as int));
        assert(box_index(g, i) == a.row && box_offset(g, i) == a.col);
        assert(box_index(g, j) == b.row && box_offset(g, j) == b.col);
        assert(i != j);
        if i < j {
            assert(!box_clash(rows, g, i, j));
        } else {
            assert(!box_clash(rows, g, j, i));
        }
    }
}

/// No more cells are empty among the first `k` than there are cells.
pub proof fn lemma_count_empty_bound(rows: GridArray, k: nat)
    ensures
        count_empty_upto(rows, k) <= k,
    decreases k,
{
    if k > 0 {
        lemma_count_empty_bound(rows, (k - 1) as nat);
    }
}

/// How the number of empty cells changes when one cell is written.
pub proof fn lemma_count_empty_write(before: GridArray, after: GridArray, at: Coord, k: nat)
    requires
        at.in_bounds(),
        k <= SIZE * SIZE,
        forall|c: Coord| c.in_bounds() && c != at ==> cell_of(after, c) == cell_of(before, c),
    ensures
        count_empty_upto(after, k) + (if at.flat() < k && cell_of(before, at) is Empty {
            1nat
        } else {
            0nat
        }) == count_empty_upto(before, k) + (if at.flat() < k && cell_of(after, at) is Empty {
            1nat
        } else {
            0nat
        }),
    decreases k,
{
    if k > 0 {
        lemma_count_empty_write(before, after, at, (k - 1) as nat);
        let c = coord_at(k - 1);
        assert(c.in_bounds() && c.flat() == k - 1);
        if c != at {
            assert(cell_of(after, c) == cell_of(before, c));
        }
    }
}

/// A board counts no empty cell exactly when it is full.
pub proof fn lemma_count_empty_zero(rows: GridArray)
    ensures
        count_empty(rows) == 0 <==> is_full(rows),
{
    if is_full(rows) {
        lemma_count_full_upto(rows, (SIZE * SIZE) as nat);
    } else {
        let c = choose|c: Coord| c.in_bounds() && cell_of(rows, c) is Empty;
        lemma_count_empty_positive(rows, c, (SIZE * SIZE) as nat);
    }
}

proof fn lemma_count_full_upto(rows: GridArray, k: nat)
    requires
        is_full(rows),
        k <= SIZE * SIZE,
    ensures
        count_empty_upto(rows, k) == 0,
    decreases k,
{
    if k > 0 {
        lemma_count_full_upto(rows, (k - 1) as nat);
        let c = coord_at(k - 1);
        assert(c.in_bounds());
        assert(!(cell_of(rows, c) is Empty));
    }
}

/// A board with an empty cell among the first `k` counts at least one there.
pub proof fn lemma_count_empty_positive(rows: GridArray, at: Coord, k: nat)
    requires
        at.in_bounds(),
        cell_of(rows, at) is Empty,
        at.flat() < k <= SIZE * SIZE,
    ensures
        count_empty_upto(rows, k) >= 1,
    decreases k,
{
    if at.flat() < k - 1 {
        lemma_count_empty_positive(rows, at, (k - 1) as nat);
    } else {
        assert(coord_at(k - 1) == at);
    }
}

/// A board on which every cell is empty counts all of them.
pub proof fn lemma_count_all_empty(rows: GridArray, k: nat)
    requires
        forall|c: Coord| c.in_bounds() ==> cell_of(rows, c) is Empty,
        k <= SIZE * SIZE,
    ensures
        count_empty_upto(rows, k) == k,
    decreases k,
{
    if k > 0 {
        lemma_count_all_empty(rows, (k - 1) as nat);
        let c = coord_at(k - 1);
        assert(c.in_bounds());
        assert(cell_of(rows, c) is Empty);
    }
}

/// Two boards that are empty in the same places count the same.
pub proof fn lemma_count_empty_same_places(a: GridArray, b: GridArray, k: nat)
    requires
        forall|c: Coord| c.in_bounds() ==> (cell_of(a, c) is Empty) == (cell_of(b, c) is Empty),
        k <= SIZE * SIZE,
    ensures
        count_empty_upto(a, k) == count_empty_upto(b, k),
    decreases k,
{
    if k > 0 {
        lemma_count_empty_same_places(a, b, (k - 1) as nat);
        let c = coord_at(k - 1);
        assert(c.in_bounds());
        assert((cell_of(a, c) is Empty) == (cell_of(b, c) is Empty));
    }
}

} // verus!
