//! Where a cell sits: its box, its position inside the box, and its peers.

use vstd::prelude::*;

use crate::coord::Coord;
use crate::{ORDER, SIZE};

verus! {

/// Index of the box that holds the cell at (`row`, `col`).
pub open spec fn box_index(row: int, col: int) -> int {
    (row / (ORDER as int)) * (ORDER as int) + col / (ORDER as int)
}

/// Position of the cell at (`row`, `col`) inside its box.
pub open spec fn box_offset(row: int, col: int) -> int {
    (row % (ORDER as int)) * (ORDER as int) + col % (ORDER as int)
}

/// Whether two cells lie in the same box.
pub open spec fn same_box(a: Coord, b: Coord) -> bool {
    a.row / ORDER == b.row / ORDER && a.col / ORDER == b.col / ORDER
}

/// Whether `a` and `b` are different cells that share a row, a column or a box.
pub open spec fn is_peer(a: Coord, b: Coord) -> bool {
    a != b && (a.row == b.row || a.col == b.col || same_box(a, b))
}

/// The box index and the offset inside the box, as a coordinate into the
/// board seen as an array of boxes.
pub fn row_coords_to_box_coords(cell: Coord) -> (b: Coord)
    requires
        cell.in_bounds(),
    ensures
        b.row == box_index(cell.row as int, cell.col as int),
        b.col == box_offset(cell.row as int, cell.col as int),
        b.in_bounds(),
{
    Coord {
        row: (cell.row / ORDER) * ORDER + cell.col / ORDER,
        col: (cell.row % ORDER) * ORDER + cell.col % ORDER,
    }
}

/// The coordinates of all cells of the box that holds `cell`, row by row.
pub fn get_box_coords_containing(cell: Coord) -> (coords: [Coord; SIZE])
    requires
        cell.in_bounds(),
    ensures
        forall|i: int|
            0 <= i < SIZE ==> #[trigger] coords[i] == (Coord {
                row: ((cell.row / ORDER) * ORDER + i / (ORDER as int)) as usize,
                col: ((cell.col / ORDER) * ORDER + i % (ORDER as int)) as usize,
            }),
        forall|i: int|
            0 <= i < SIZE ==> (#[trigger] coords[i]).in_bounds() && (coords[i] == cell
                || is_peer(cell, coords[i])),
{
    let row_offset: usize = (cell.row / ORDER) * ORDER;
    let col_offset: usize = (cell.col / ORDER) * ORDER;
    let mut coords: [Coord; SIZE] = [cell; SIZE];
    let mut i: usize = 0;
    while i < SIZE
        invariant
            i <= SIZE,
            cell.in_bounds(),
            row_offset == (cell.row / ORDER) * ORDER,
            col_offset == (cell.col / ORDER) * ORDER,
            forall|k: int|
                0 <= k < i ==> #[trigger] coords[k] == (Coord {
                    row: (row_offset + k / (ORDER as int)) as usize,
                    col: (col_offset + k % (ORDER as int)) as usize,
                }),
        decreases SIZE - i,
    {
        coords[i] = Coord { row: row_offset + i / ORDER, col: col_offset + i % ORDER };
        i += 1;
    }
    coords
}

/// Taking box coordinates twice gives the cell back: the board seen by boxes
/// is laid out like the board seen by rows.
pub proof fn lemma_box_coords_involutive(row: int, col: int)
    requires
        0 <= row < SIZE,
        0 <= col < SIZE,
    ensures
        0 <= box_index(row, col) < SIZE,
        0 <= box_offset(row, col) < SIZE,
        box_index(box_index(row, col), box_offset(row, col)) == row,
        box_offset(box_index(row, col), box_offset(row, col)) == col,
{
}

} // verus!
