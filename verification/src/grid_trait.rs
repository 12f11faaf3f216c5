//! A board seen by columns and by boxes.

use vstd::prelude::*;

use crate::cell::Cell;
use crate::geometry::{box_index, box_offset};
use crate::{ORDER, SIZE};

verus! {

/// Turns a board given by its rows into the same board given by its columns
/// or by its boxes.
pub trait GridTrait<T> {
    /// The board by columns: entry `j` of column `i` is entry `i` of row `j`.
    fn cols(&self) -> [[T; SIZE]; SIZE];

    /// The board by boxes: entry `j` of box `i` is the cell of row
    /// `box_index(i, j)` at position `box_offset(i, j)`.
    fn boxes(&self) -> [[T; SIZE]; SIZE];
}

impl<T: Copy> GridTrait<T> for [[T; SIZE]; SIZE] {
    fn cols(&self) -> (by_cols: [[T; SIZE]; SIZE])
        ensures
            forall|i: int, j: int|
                0 <= i < SIZE && 0 <= j < SIZE ==> #[trigger] by_cols[i][j] == self[j][i],
    {
        let mut by_cols = *self;
        let mut k: usize = 0;
        while k < SIZE * SIZE
            invariant
                k <= SIZE * SIZE,
                forall|i: int, j: int|
                    0 <= i < SIZE && 0 <= j < SIZE && i * SIZE + j < k ==> #[trigger] by_cols[i][j]
                        == self[j][i],
            decreases SIZE * SIZE - k,
        {
            let i = k / SIZE;
            let j = k % SIZE;
            by_cols[i][j] = self[j][i];
            k += 1;
        }
        by_cols
    }

    fn boxes(&self) -> (by_boxes: [[T; SIZE]; SIZE])
        ensures
            forall|i: int, j: int|
                0 <= i < SIZE && 0 <= j < SIZE ==> #[trigger] by_boxes[i][j] == self[box_index(
                    i,
                    j,
                )][box_offset(i, j)],
    {
        let mut by_boxes = *self;
        let mut k: usize = 0;
        while k < SIZE * SIZE
            invariant
                k <= SIZE * SIZE,
                forall|i: int, j: int|
                    0 <= i < SIZE && 0 <= j < SIZE && i * SIZE + j < k ==> #[trigger] by_boxes[i][j]
                        == self[box_index(i, j)][box_offset(i, j)],
            decreases SIZE * SIZE - k,
        {
            let i = k / SIZE;
            let j = k % SIZE;
            by_boxes[i][j] = self[(i / ORDER) * ORDER + j / ORDER][(i % ORDER) * ORDER + j % ORDER];
            k += 1;
        }
        by_boxes
    }
}

/// A board that the surrounding program shows to the player.
#[derive(Debug, Clone, Copy, PartialEq, Eq)]
pub struct DisplayableGrid<T>(pub [[T; SIZE]; SIZE]);

/// The board `list` read row by row.
pub fn grid_from_vec(list: Vec<Cell>) -> (grid: DisplayableGrid<Cell>)
    requires
        list.len() >= SIZE * SIZE,
    ensures
        forall|i: int, j: int|
            0 <= i < SIZE && 0 <= j < SIZE ==> #[trigger] grid.0[i][j] == list[i * SIZE + j],
{
    let mut rows = [[Cell::Empty; SIZE]; SIZE];
    let mut k: usize = 0;
    while k < SIZE * SIZE
        invariant
            k <= SIZE * SIZE,
            list.len() >= SIZE * SIZE,
            forall|i: int, j: int|
                0 <= i < SIZE && 0 <= j < SIZE && i * SIZE + j < k ==> #[trigger] rows[i][j]
                    == list[i * SIZE + j],
        decreases SIZE * SIZE - k,
    {
        rows[k / SIZE][k % SIZE] = list[k];
        k += 1;
    }
    DisplayableGrid(rows)
}

} // verus!
