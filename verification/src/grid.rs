//! The board: three synchronised views of the same cells, the candidates of
//! every cell, and what is tracked of both.

use vstd::prelude::*;
use vstd::std_specs::convert::FromSpecImpl;

use crate::board::{
    box_agrees, box_clash, cell_of, clues_fixed, col_agrees, col_clash, count_empty,
    count_empty_upto, is_full, is_solved, lemma_count_all_empty, lemma_count_empty_bound,
    lemma_count_empty_write, lemma_count_empty_zero, lemma_peers_differ_solved, peer_clash,
    row_clash, views_synced,
};
use crate::candidate_matrix::{lemma_agreement_is_equality, CandidateMatrix};
use crate::cell::Cell;
use crate::coord::Coord;
use crate::geometry::{
    box_index, box_offset, is_peer, lemma_box_coords_involutive, row_coords_to_box_coords,
};
use crate::grid_trait::{DisplayableGrid, GridTrait};
use crate::{GridArray, ORDER, SIZE};

verus! {

/// Why an operation on the board was refused.
#[derive(Clone, Copy, Debug, PartialEq, Eq, Structural)]
pub enum ErrorKind {
    /// The cell to clear holds a clue.
    ClearedClue,
    /// The value is not among the candidates of the cell.
    NotInCandidates,
    /// The cell to update holds a clue.
    UpdatedClue,
    /// The value would leave another cell without a candidate.
    ZeroCandidates,
}

/// A refused operation: why it was refused, on which cell, and with which
/// value (0 where the operation takes none).
#[derive(Clone, Copy, Debug, PartialEq, Eq, Structural)]
pub struct GridError {
    pub kind: ErrorKind,
    pub cell: Coord,
    pub val: u8,
}

impl GridError {
    /// The error of kind `kind` for the cell at `cell` and the value `val`.
    pub fn new(kind: ErrorKind, cell: Coord, val: u8) -> (e: GridError)
        ensures
            e == (GridError { kind, cell, val }),
    {
        GridError { kind, cell, val }
    }
}

/// A Sudoku board.
#[derive(Clone, Copy, Debug)]
pub struct Grid {
    rows: GridArray,
    cols: GridArray,
    boxes: GridArray,
    candidate_matrix: CandidateMatrix,
    empty_cell_count: usize,
    solved: bool,
}

/// Whether positions `i` and `j` of `group` hold the same.
pub open spec fn group_clash(group: [Cell; SIZE], i: int, j: int) -> bool {
    group[i].value() == group[j].value()
}

/// Whether no two cells of `group` hold the same.
fn group_distinct(group: &[Cell; SIZE]) -> (r: bool)
    ensures
        r <==> forall|i: int, j: int| 0 <= i < j < SIZE ==> !#[trigger] group_clash(*group, i, j),
{
    let mut j: usize = 1;
    while j < SIZE
        invariant
            1 <= j <= SIZE,
            forall|a: int, b: int| 0 <= a < b < j ==> !#[trigger] group_clash(*group, a, b),
        decreases SIZE - j,
    {
        let mut i: usize = 0;
        while i < j
            invariant
                i <= j < SIZE,
                forall|a: int, b: int| 0 <= a < b < j ==> !#[trigger] group_clash(*group, a, b),
                forall|a: int| 0 <= a < i ==> !#[trigger] group_clash(*group, a, j as int),
            decreases j - i,
        {
            if same_value(group[i], group[j]) {
                assert(group_clash(*group, i as int, j as int));
                return false;
            }
            i += 1;
        }
        j += 1;
    }
    true
}

/// Whether `a` and `b` hold the same value, or are both empty.
fn same_value(a: Cell, b: Cell) -> (r: bool)
    ensures
        r == (a.value() == b.value()),
{
    match (a, b) {
        (Cell::Empty, Cell::Empty) => true,
        (Cell::Empty, _) => false,
        (_, Cell::Empty) => false,
        (Cell::Clue(x), Cell::Clue(y)) => x == y,
        (Cell::Clue(x), Cell::Filled(y)) => x == y,
        (Cell::Filled(x), Cell::Clue(y)) => x == y,
        (Cell::Filled(x), Cell::Filled(y)) => x == y,
    }
}

impl Grid {
    /// The board by rows.
    pub closed spec fn board(&self) -> GridArray {
        self.rows
    }

    /// The board by columns.
    pub closed spec fn board_by_cols(&self) -> GridArray {
        self.cols
    }

    /// The board by boxes.
    pub closed spec fn board_by_boxes(&self) -> GridArray {
        self.boxes
    }

    /// The candidates of the cells.
    pub closed spec fn matrix(&self) -> CandidateMatrix {
        self.candidate_matrix
    }

    /// The cell at `c`.
    #[verifier::inline]
    pub open spec fn at(&self, c: Coord) -> Cell {
        cell_of(self.board(), c)
    }

    /// Whether the three views hold the same cells.
    pub open spec fn synced(&self) -> bool {
        views_synced(self.board(), self.board_by_cols(), self.board_by_boxes())
    }

    /// Whether every cell that holds a clue is fixed.
    pub open spec fn clues_fixed(&self) -> bool {
        clues_fixed(self.board(), self.matrix())
    }

    /// Whether the cell at `c` lacks the value that its peer at `p` holds.
    pub open spec fn keeps_apart(&self, c: Coord, p: Coord) -> bool {
        match self.at(p) {
            Cell::Clue(v) => !self.matrix().has(c, v),
            Cell::Filled(v) => !self.matrix().has(c, v),
            Cell::Empty => true,
        }
    }

    /// Whether no cell has a candidate that one of its peers holds. This
    /// holds of the boards that are made from an empty board, or from clues,
    /// by placing values.
    pub open spec fn candidates_respect_peers(&self) -> bool {
        forall|c: Coord, p: Coord|
            c.in_bounds() && p.in_bounds() && is_peer(c, p) ==> #[trigger] self.keeps_apart(c, p)
    }

    /// Whether no cell of the board is filled: every cell is empty or holds
    /// a clue.
    pub open spec fn only_clues(&self) -> bool {
        forall|c: Coord| c.in_bounds() ==> !(#[trigger] self.at(c) is Filled)
    }

    /// What holds of every board: the three views hold the same cells, the
    /// clues are fixed, and the count of empty cells and the mark of a solved
    /// board say what the cells say.
    pub closed spec fn wf(&self) -> bool {
        &&& self.synced()
        &&& self.clues_fixed()
        &&& self.empty_cell_count == count_empty(self.board())
        &&& self.solved == is_solved(self.board())
    }

    /// On every board the three views hold the same cells, the clues are
    /// fixed, the board is marked as solved exactly when it is, and the
    /// number of empty cells is the one that is kept.
    pub proof fn lemma_wf(&self)
        requires
            self.wf(),
        ensures
            self.synced(),
            self.clues_fixed(),
            self.solved() == is_solved(self.board()),
            self.empty_cell_count() == count_empty(self.board()),
            self.empty_cell_count() <= SIZE * SIZE,
    {
        lemma_count_empty_bound(self.board(), (SIZE * SIZE) as nat);
    }

    /// Whether the board is marked as solved.
    pub closed spec fn spec_solved(&self) -> bool {
        self.solved
    }

    /// The number of empty cells that is kept with the board.
    pub closed spec fn spec_empty_cell_count(&self) -> usize {
        self.empty_cell_count
    }

    /// Whether the board is solved.
    #[verifier::when_used_as_spec(spec_solved)]
    pub fn solved(&self) -> (b: bool)
        ensures
            b == self.solved(),
    {
        self.solved
    }

    /// The number of empty cells.
    #[verifier::when_used_as_spec(spec_empty_cell_count)]
    pub fn empty_cell_count(&self) -> (n: usize)
        ensures
            n == self.empty_cell_count(),
    {
        self.empty_cell_count
    }

    /// Whether the cells, as the three views hold them, are a solved board.
    fn check_solved(&self) -> (r: bool)
        requires
            self.synced(),
            self.empty_cell_count == count_empty(self.board()),
        ensures
            r == is_solved(self.board()),
    {
        proof {
            lemma_count_empty_zero(self.board());
        }
        if self.empty_cell_count != 0 {
            return false;
        }
        let mut g: usize = 0;
        while g < SIZE
            invariant
                g <= SIZE,
                self.synced(),
                is_full(self.board()),
                forall|h: int, i: int, j: int|
                    0 <= h < g && 0 <= i < j < SIZE ==> !#[trigger] row_clash(self.board(), h, i, j),
                forall|h: int, i: int, j: int|
                    0 <= h < g && 0 <= i < j < SIZE ==> !#[trigger] col_clash(self.board(), h, i, j),
                forall|h: int, i: int, j: int|
                    0 <= h < g && 0 <= i < j < SIZE ==> !#[trigger] box_clash(self.board(), h, i, j),
            decreases SIZE - g,
        {
            let rows_ok = group_distinct(&self.rows[g]);
            let cols_ok = group_distinct(&self.cols[g]);
            let boxes_ok = group_distinct(&self.boxes[g]);
            proof {
                let rows = self.board();
                assert forall|i: int, j: int| 0 <= i < j < SIZE implies #[trigger] row_clash(
                    rows,
                    g as int,
                    i,
                    j,
                ) == group_clash(self.rows[g as int], i, j) by {}
                assert forall|i: int, j: int| 0 <= i < j < SIZE implies #[trigger] col_clash(
                    rows,
                    g as int,
                    i,
                    j,
                ) == group_clash(self.cols[g as int], i, j) by {
                    assert(col_agrees(rows, self.cols, i, g as int));
                    assert(col_agrees(rows, self.cols, j, g as int));
                }
                assert forall|i: int, j: int| 0 <= i < j < SIZE implies #[trigger] box_clash(
                    rows,
                    g as int,
                    i,
                    j,
                ) == group_clash(self.boxes[g as int], i, j) by {
                    self.lemma_box_view(g as int, i);
                    self.lemma_box_view(g as int, j);
                }
            }
            if !(rows_ok && cols_ok && boxes_ok) {
                proof {
                    let rows = self.board();
                    if !rows_ok {
                        let (i, j) = choose|i: int, j: int|
                            0 <= i < j < SIZE && #[trigger] group_clash(self.rows[g as int], i, j);
                        assert(row_clash(rows, g as int, i, j));
                    } else if !cols_ok {
                        let (i, j) = choose|i: int, j: int|
                            0 <= i < j < SIZE && #[trigger] group_clash(self.cols[g as int], i, j);
                        assert(col_clash(rows, g as int, i, j));
                    } else {
                        let (i, j) = choose|i: int, j: int|
                            0 <= i < j < SIZE && #[trigger] group_clash(self.boxes[g as int], i, j);
                        assert(box_clash(rows, g as int, i, j));
                    }
                }
                return false;
            }
            g += 1;
        }
        true
    }

    /// Entry `offset` of box `index` in the view by boxes is the cell that
    /// the view by rows holds there.
    proof fn lemma_box_view(&self, index: int, offset: int)
        requires
            self.synced(),
            0 <= index < SIZE,
            0 <= offset < SIZE,
        ensures
            self.board_by_boxes()[index][offset] == crate::board::box_cell(
                self.board(),
                index,
                offset,
            ),
    {
        let r = box_index(index, offset);
        let c = box_offset(index, offset);
        lemma_box_coords_involutive(index, offset);
        assert(box_agrees(self.board(), self.board_by_boxes(), r, c));
    }

    /// An empty board on which every cell has every candidate.
    pub fn new() -> (g: Grid)
        ensures
            g.wf(),
            forall|c: Coord| c.in_bounds() ==> (#[trigger] g.at(c)) is Empty,
            forall|c: Coord| c.in_bounds() ==> !#[trigger] g.matrix().is_fixed(c),
            forall|c: Coord, v: u8| c.in_bounds() ==> #[trigger] g.matrix().has(c, v) == (1 <= v <= SIZE),
            g.empty_cell_count() == SIZE * SIZE,
            !g.solved(),
            g.candidates_respect_peers(),
    {
        let row = [Cell::Empty; SIZE];
        let rows = [row; SIZE];
        let g = Grid {
            rows,
            cols: rows,
            boxes: rows,
            candidate_matrix: CandidateMatrix::new(),
            empty_cell_count: SIZE * SIZE,
            solved: false,
        };
        proof {
            assert forall|r: int, c: int| 0 <= r < SIZE && 0 <= c < SIZE implies #[trigger] rows[r][c]
                == Cell::Empty by {
                assert(rows@[r] == row);
                assert(row@[c] == Cell::Empty);
            }
            lemma_box_bounds();
            assert forall|r: int, c: int| 0 <= r < SIZE && 0 <= c < SIZE implies #[trigger] box_agrees(
                rows,
                rows,
                r,
                c,
            ) by {}
            lemma_count_all_empty(rows, (SIZE * SIZE) as nat);
            let first = Coord { row: 0, col: 0 };
            assert(first.in_bounds() && cell_of(rows, first) is Empty);
        }
        g
    }

    /// The board with the rows `rows`. The cells that hold a clue are fixed
    /// and their values taken away from the candidates of their peers; every
    /// other cell is open.
    pub fn from_rows(rows: GridArray) -> (g: Grid)
        ensures
            g.wf(),
            g.board() == rows,
            g.matrix().seeded_from(rows),
            g.empty_cell_count() == count_empty(rows),
            g.solved() == is_solved(rows),
            g.only_clues() ==> g.candidates_respect_peers(),
    {
        let cols = rows.cols();
        let boxes = rows.boxes();
        let mut empty_cell_count: usize = 0;
        let mut k: usize = 0;
        while k < SIZE * SIZE
            invariant
                k <= SIZE * SIZE,
                empty_cell_count == count_empty_upto(rows, k as nat),
                empty_cell_count <= k,
            decreases SIZE * SIZE - k,
        {
            if let Cell::Empty = rows[k / SIZE][k % SIZE] {
                empty_cell_count += 1;
            }
            k += 1;
        }
        let candidate_matrix = CandidateMatrix::from_cells(&rows);
        let mut g = Grid { rows, cols, boxes, candidate_matrix, empty_cell_count, solved: false };
        proof {
            lemma_box_bounds();
            assert forall|r: int, c: int| 0 <= r < SIZE && 0 <= c < SIZE implies #[trigger] box_agrees(
                rows,
                boxes,
                r,
                c,
            ) by {
                lemma_box_coords_involutive(r, c);
            }
            assert forall|r: int, c: int| 0 <= r < SIZE && 0 <= c < SIZE implies #[trigger] col_agrees(
                rows,
                cols,
                r,
                c,
            ) by {}
        }
        g.solved = g.check_solved();
        proof {
            g.lemma_seeded_respects_peers();
        }
        g
    }

    /// On a board without filled cells whose candidates are those that the
    /// clues leave, no cell has a candidate that one of its peers holds.
    pub proof fn lemma_seeded_respects_peers(&self)
        requires
            self.matrix().seeded_from(self.board()),
        ensures
            self.only_clues() ==> self.candidates_respect_peers(),
    {
        if self.only_clues() {
            assert forall|c: Coord, p: Coord|
                c.in_bounds() && p.in_bounds() && is_peer(c, p) implies #[trigger] self.keeps_apart(
                c,
                p,
            ) by {
                assert(!(self.at(p) is Filled));
                if let Cell::Clue(v) = self.at(p) {
                    assert(crate::candidate_matrix::clue_among_peers(self.board(), c, v));
                }
            }
        }
    }

    /// The board by rows.
    pub fn rows(&self) -> (rows: &GridArray)
        ensures
            *rows == self.board(),
    {
        &self.rows
    }

    /// The board by columns.
    pub fn cols(&self) -> (cols: &GridArray)
        ensures
            *cols == self.board_by_cols(),
    {
        &self.cols
    }

    /// The board by boxes.
    pub fn boxes(&self) -> (boxes: &GridArray)
        ensures
            *boxes == self.board_by_boxes(),
    {
        &self.boxes
    }

    /// Row `idx` of the board.
    pub fn get_row(&self, idx: usize) -> (group: &[Cell; SIZE])
        requires
            idx < SIZE,
        ensures
            *group == self.board()[idx as int],
    {
        &self.rows[idx]
    }

    /// Column `idx` of the board.
    pub fn get_col(&self, idx: usize) -> (group: &[Cell; SIZE])
        requires
            idx < SIZE,
        ensures
            *group == self.board_by_cols()[idx as int],
    {
        &self.cols[idx]
    }

    /// Box `idx` of the board.
    pub fn get_box(&self, idx: usize) -> (group: &[Cell; SIZE])
        requires
            idx < SIZE,
        ensures
            *group == self.board_by_boxes()[idx as int],
    {
        &self.boxes[idx]
    }

    /// The candidates of the cells.
    pub fn candidate_matrix(&self) -> (cm: &CandidateMatrix)
        ensures
            *cm == self.matrix(),
    {
        &self.candidate_matrix
    }

    /// The cell at `cell`.
    pub fn get_cell(&self, cell: Coord) -> (c: &Cell)
        requires
            cell.in_bounds(),
        ensures
            *c == self.at(cell),
    {
        &self.rows[cell.row][cell.col]
    }

    /// The candidates of the cell at `cell`, in ascending order.
    pub fn candidates_at(&self, cell: Coord) -> (list: Vec<u8>)
        requires
            cell.in_bounds(),
        ensures
            self.matrix().is_candidate_list(list@, cell),
            list.len() == self.matrix().count(cell),
    {
        self.candidate_matrix.get_candidates(cell)
    }

    /// Writes `value` into the three views at the place of the cell at
    /// `cell`.
    fn write_cell(&mut self, cell: Coord, value: Cell)
        requires
            cell.in_bounds(),
            old(self).synced(),
        ensures
            final(self).synced(),
            forall|c: Coord|
                c.in_bounds() ==> #[trigger] final(self).at(c) == (if c == cell {
                    value
                } else {
                    old(self).at(c)
                }),
            final(self).candidate_matrix == old(self).candidate_matrix,
            final(self).empty_cell_count == old(self).empty_cell_count,
            final(self).solved == old(self).solved,
    {
        let b = row_coords_to_box_coords(cell);
        self.rows[cell.row][cell.col] = value;
        self.cols[cell.col][cell.row] = value;
        self.boxes[b.row][b.col] = value;
        proof {
            assert forall|r: int, c: int| 0 <= r < SIZE && 0 <= c < SIZE implies #[trigger] col_agrees(
                self.rows,
                self.cols,
                r,
                c,
            ) by {
                assert(col_agrees(old(self).rows, old(self).cols, r, c));
            }
            assert forall|r: int, c: int| 0 <= r < SIZE && 0 <= c < SIZE implies #[trigger] box_agrees(
                self.rows,
                self.boxes,
                r,
                c,
            ) by {
                assert(box_agrees(old(self).rows, old(self).boxes, r, c));
                lemma_box_coords_involutive(r, c);
                lemma_box_coords_involutive(cell.row as int, cell.col as int);
            }
        }
    }

    /// Why placing `val` at `cell` is refused, where it is.
    pub open spec fn update_refusal(&self, cell: Coord, val: u8) -> Option<ErrorKind> {
        if self.at(cell) is Clue {
            Some(ErrorKind::UpdatedClue)
        } else if !self.matrix().has(cell, val) {
            Some(ErrorKind::NotInCandidates)
        } else if self.matrix().strands(cell, val) {
            Some(ErrorKind::ZeroCandidates)
        } else {
            None
        }
    }

    /// Whether `self` is `before` with `val` placed at `cell`: the cell holds
    /// `val` and is fixed, `val` is no candidate of its peers any more, and
    /// nothing else changed.
    pub open spec fn updated_from(&self, before: Grid, cell: Coord, val: u8) -> bool {
        &&& forall|c: Coord|
            c.in_bounds() ==> #[trigger] self.at(c) == (if c == cell {
                Cell::Filled(val)
            } else {
                before.at(c)
            })
        &&& forall|c: Coord|
            c.in_bounds() ==> #[trigger] self.matrix().is_fixed(c) == (c == cell
                || before.matrix().is_fixed(c))
        &&& forall|c: Coord, w: u8|
            c.in_bounds() ==> #[trigger] self.matrix().has(c, w) == (before.matrix().has(c, w) && c
                != cell && !(is_peer(cell, c) && w == val))
    }

    /// Places `val` at `cell`.
    ///
    /// The value is refused, and the board left as it was, where the cell
    /// holds a clue, where `val` is not among its candidates, and where an
    /// open peer would be left without a candidate. Otherwise the cell holds
    /// `val` and is fixed, `val` is taken away from its peers, and the peers
    /// whose candidates changed are returned in row-major order.
    pub fn update(&mut self, cell: Coord, val: u8) -> (r: Result<Vec<Coord>, GridError>)
        requires
            old(self).wf(),
            cell.in_bounds(),
        ensures
            final(self).wf(),
            old(self).at(cell) is Clue ==> r is Err && *final(self) == *old(self),
            old(self).candidates_respect_peers() ==> final(self).candidates_respect_peers(),
            match r {
                Ok(changed) => {
                    &&& old(self).update_refusal(cell, val) is None
                    &&& final(self).updated_from(*old(self), cell, val)
                    &&& old(self).matrix().is_changed_list(changed@, cell, val)
                    &&& final(self).empty_cell_count() == old(self).empty_cell_count() - (if old(
                        self,
                    ).at(cell) is Empty {
                        1int
                    } else {
                        0int
                    })
                    &&& final(self).solved() == is_solved(final(self).board())
                },
                Err(e) => {
                    &&& old(self).update_refusal(cell, val) == Some(e.kind)
                    &&& e.cell == cell
                    &&& e.val == val
                    &&& *final(self) == *old(self)
                },
            },
    {
        if let Cell::Clue(_) = self.rows[cell.row][cell.col] {
            return Err(GridError::new(ErrorKind::UpdatedClue, cell, val));
        }
        if !self.candidate_matrix.has_candidate(cell, val) {
            return Err(GridError::new(ErrorKind::NotInCandidates, cell, val));
        }
        let mut matrix = self.candidate_matrix;
        matrix.set_fixed(cell);
        proof {
            assert forall|p: Coord|
                matrix.stranded_at(cell, val, p) == self.matrix().stranded_at(cell, val, p) by {
                if p.in_bounds() && is_peer(cell, p) {
                    assert(matrix.is_fixed(p) == self.matrix().is_fixed(p));
                    if matrix.dom(p).at_most(val) {
                        assert forall|w: u8| self.matrix().has(p, w) implies w == val by {
                            assert(matrix.has(p, w));
                        }
                    }
                    if self.matrix().dom(p).at_most(val) {
                        assert forall|w: u8| matrix.has(p, w) implies w == val by {
                            assert(self.matrix().has(p, w));
                        }
                    }
                }
            }
            assert(matrix.strands(cell, val) == self.matrix().strands(cell, val)) by {
                if matrix.strands(cell, val) {
                    let p = choose|p: Coord| matrix.stranded_at(cell, val, p);
                    assert(self.matrix().stranded_at(cell, val, p));
                }
                if self.matrix().strands(cell, val) {
                    let p = choose|p: Coord| self.matrix().stranded_at(cell, val, p);
                    assert(matrix.stranded_at(cell, val, p));
                }
            }
        }
        match matrix.update_around(cell, val) {
            Err(_) => Err(GridError::new(ErrorKind::ZeroCandidates, cell, val)),
            Ok(changed) => {
                let ghost before = *self;
                let was_empty = match self.rows[cell.row][cell.col] {
                    Cell::Empty => true,
                    _ => false,
                };
                proof {
                    if was_empty {
                        crate::board::lemma_count_empty_positive(
                            self.board(),
                            cell,
                            (SIZE * SIZE) as nat,
                        );
                    }
                }
                self.write_cell(cell, Cell::Filled(val));
                if was_empty {
                    self.empty_cell_count -= 1;
                }
                self.candidate_matrix = matrix;
                proof {
                    lemma_count_empty_write(
                        before.board(),
                        self.board(),
                        cell,
                        (SIZE * SIZE) as nat,
                    );
                    assert forall|c: Coord| c.in_bounds() && #[trigger] cell_of(
                        self.board(),
                        c,
                    ) is Clue implies self.matrix().is_fixed(c) by {
                        assert(cell_of(before.board(), c) is Clue);
                    }
                    assert forall|c: Coord| #[trigger]
                        changed@.contains(c) <==> c.in_bounds() && is_peer(cell, c)
                            && before.matrix().has(c, val) by {}
                }
                self.solved = self.check_solved();
                proof {
                    lemma_update_respects_peers(before, *self, cell, val);
                }
                Ok(changed)
            },
        }
    }

    /// Empties the cell at `cell`.
    ///
    /// A clue is not cleared: the board is left as it was. The candidates of
    /// the cell and of its peers are left as they are.
    pub fn clear(&mut self, cell: Coord) -> (r: Result<(), GridError>)
        requires
            old(self).wf(),
            cell.in_bounds(),
        ensures
            final(self).wf(),
            r is Err <==> old(self).at(cell) is Clue,
            r matches Err(e) ==> e == (GridError { kind: ErrorKind::ClearedClue, cell, val: 0 })
                && *final(self) == *old(self),
            r is Ok ==> final(self).matrix() == old(self).matrix() && forall|c: Coord|
                c.in_bounds() ==> #[trigger] final(self).at(c) == (if c == cell {
                    Cell::Empty
                } else {
                    old(self).at(c)
                }),
            old(self).at(cell) is Empty ==> *final(self) == *old(self),
            old(self).at(cell) is Filled ==> final(self).empty_cell_count() == old(
                self,
            ).empty_cell_count() + 1 && !final(self).solved(),
            old(self).candidates_respect_peers() ==> final(self).candidates_respect_peers(),
    {
        match self.rows[cell.row][cell.col] {
            Cell::Empty => Ok(()),
            Cell::Clue(_) => Err(GridError::new(ErrorKind::ClearedClue, cell, 0)),
            Cell::Filled(_) => {
                let ghost before = *self;
                self.write_cell(cell, Cell::Empty);
                proof {
                    lemma_count_empty_write(
                        before.board(),
                        self.board(),
                        cell,
                        (SIZE * SIZE) as nat,
                    );
                    lemma_count_empty_bound(self.board(), (SIZE * SIZE) as nat);
                    assert forall|c: Coord| c.in_bounds() && #[trigger] cell_of(
                        self.board(),
                        c,
                    ) is Clue implies self.matrix().is_fixed(c) by {
                        assert(cell_of(before.board(), c) is Clue);
                    }
                }
                self.empty_cell_count += 1;
                self.solved = self.check_solved();
                proof {
                    if before.candidates_respect_peers() {
                        assert forall|c: Coord, p: Coord|
                            c.in_bounds() && p.in_bounds() && is_peer(c, p) implies #[trigger] self.keeps_apart(
                            c,
                            p,
                        ) by {
                            assert(before.keeps_apart(c, p));
                        }
                    }
                }
                Ok(())
            },
        }
    }

    /// Takes `val` away from the candidates of the cell at `cell`. Returns
    /// whether it was one.
    pub fn remove_candidate(&mut self, cell: Coord, val: u8) -> (removed: bool)
        requires
            old(self).wf(),
            cell.in_bounds(),
        ensures
            final(self).wf(),
            final(self).board() == old(self).board(),
            removed == old(self).matrix().has(cell, val),
            forall|c: Coord|
                c.in_bounds() ==> #[trigger] final(self).matrix().is_fixed(c) == old(self).matrix().is_fixed(
                    c,
                ),
            forall|c: Coord, w: u8|
                c.in_bounds() ==> #[trigger] final(self).matrix().has(c, w) == (old(
                    self,
                ).matrix().has(c, w) && !(c == cell && w == val)),
            old(self).candidates_respect_peers() ==> final(self).candidates_respect_peers(),
    {
        let removed = self.candidate_matrix.remove_candidate(cell, val);
        proof {
            if old(self).candidates_respect_peers() {
                assert forall|c: Coord, p: Coord|
                    c.in_bounds() && p.in_bounds() && is_peer(c, p) implies #[trigger] self.keeps_apart(
                    c,
                    p,
                ) by {
                    assert(old(self).keeps_apart(c, p));
                }
            }
        }
        removed
    }

    /// The cell that the draw `draw` picks among the open cells with the
    /// fewest candidates, taken in row-major order: the one at the position
    /// of the draw, counted round. The same board and the same draw give the
    /// same cell; `None` where no cell is open. The cell never holds a clue.
    pub fn pick_min_candidates_cell(&self, draw: usize) -> (r: Option<Coord>)
        requires
            self.wf(),
        ensures
            r == self.matrix().picked(draw),
            r is None <==> !self.matrix().has_open(),
            r matches Some(c) ==> self.matrix().is_min_open(c) && !(self.at(c) is Clue),
    {
        self.candidate_matrix.pick_min_candidates_cell(draw)
    }

    /// One of the open cells with the fewest candidates: a position among
    /// them is drawn at random, and the cell that the draw picks is
    /// returned. `None` where no cell is open. The cell never holds a clue.
    pub fn get_min_candidates_cell(&self) -> (r: Option<Coord>)
        requires
            self.wf(),
        ensures
            exists|draw: usize| r == self.matrix().picked(draw),
            r is None <==> !self.matrix().has_open(),
            r matches Some(c) ==> self.matrix().is_min_open(c) && !(self.at(c) is Clue),
    {
        self.candidate_matrix.get_min_candidates_cell()
    }

    /// The first open cell, in row-major order, among those with the fewest
    /// candidates: the cell that the draw 0 picks. `None` where no cell is
    /// open. The cell never holds a clue.
    pub fn first_min_candidates_cell(&self) -> (r: Option<Coord>)
        requires
            self.wf(),
        ensures
            r == self.matrix().picked(0),
            r is None <==> !self.matrix().has_open(),
            r matches Some(c) ==> self.matrix().is_min_open(c) && !(self.at(c) is Clue)
                && forall|p: Coord| self.matrix().is_min_open(p) && p != c ==> c.precedes(p),
    {
        self.candidate_matrix.first_min_candidates_cell()
    }

    /// Turns every filled cell into a clue of the same value, and fixes it.
    pub fn set_clues(&mut self)
        requires
            old(self).wf(),
        ensures
            final(self).wf(),
            forall|c: Coord|
                c.in_bounds() ==> #[trigger] final(self).at(c) == old(self).at(c).as_clue(),
            forall|c: Coord|
                c.in_bounds() ==> #[trigger] final(self).matrix().is_fixed(c) == (old(
                    self,
                ).matrix().is_fixed(c) || old(self).at(c) is Filled),
            forall|c: Coord, w: u8|
                c.in_bounds() ==> #[trigger] final(self).matrix().has(c, w) == (old(
                    self,
                ).matrix().has(c, w) && !(old(self).at(c) is Filled)),
            old(self).candidates_respect_peers() ==> final(self).candidates_respect_peers(),
    {
        let mut k: usize = 0;
        while k < SIZE * SIZE
            invariant
                k <= SIZE * SIZE,
                self.synced(),
                self.empty_cell_count == count_empty(self.board()),
                forall|c: Coord|
                    c.in_bounds() ==> #[trigger] self.at(c) == (if c.flat() < k {
                        old(self).at(c).as_clue()
                    } else {
                        old(self).at(c)
                    }),
                forall|c: Coord|
                    c.in_bounds() ==> #[trigger] self.matrix().is_fixed(c) == (old(
                        self,
                    ).matrix().is_fixed(c) || (c.flat() < k && old(self).at(c) is Filled)),
                forall|c: Coord, w: u8|
                    c.in_bounds() ==> #[trigger] self.matrix().has(c, w) == (old(
                        self,
                    ).matrix().has(c, w) && !(c.flat() < k && old(self).at(c) is Filled)),
            decreases SIZE * SIZE - k,
        {
            let p = Coord { row: k / SIZE, col: k % SIZE };
            let ghost mid = *self;
            assert(p.in_bounds() && p.flat() == k);
            assert forall|q: Coord| q.in_bounds() && q.flat() == k implies q == p by {}
            if let Cell::Filled(val) = self.rows[p.row][p.col] {
                self.write_cell(p, Cell::Clue(val));
                self.candidate_matrix.set_fixed(p);
                proof {
                    lemma_count_empty_write(mid.board(), self.board(), p, (SIZE * SIZE) as nat);
                }
            }
            proof {
                assert forall|c: Coord| c.in_bounds() implies #[trigger] self.at(c) == (if c.flat()
                    < k + 1 {
                    old(self).at(c).as_clue()
                } else {
                    old(self).at(c)
                }) by {
                    assert(mid.at(c) == (if c.flat() < k {
                        old(self).at(c).as_clue()
                    } else {
                        old(self).at(c)
                    }));
                }
                assert forall|c: Coord| c.in_bounds() implies #[trigger] self.matrix().is_fixed(c)
                    == (old(self).matrix().is_fixed(c) || (c.flat() < k + 1 && old(self).at(
                    c,
                ) is Filled)) by {
                    assert(mid.matrix().is_fixed(c) == (old(self).matrix().is_fixed(c) || (c.flat()
                        < k && old(self).at(c) is Filled)));
                    assert(mid.at(c) == (if c.flat() < k {
                        old(self).at(c).as_clue()
                    } else {
                        old(self).at(c)
                    }));
                }
                assert forall|c: Coord, w: u8| c.in_bounds() implies #[trigger] self.matrix().has(
                    c,
                    w,
                ) == (old(self).matrix().has(c, w) && !(c.flat() < k + 1 && old(self).at(
                    c,
                ) is Filled)) by {
                    assert(mid.matrix().has(c, w) == (old(self).matrix().has(c, w) && !(c.flat() < k
                        && old(self).at(c) is Filled)));
                    assert(mid.at(c) == (if c.flat() < k {
                        old(self).at(c).as_clue()
                    } else {
                        old(self).at(c)
                    }));
                }
            }
            k += 1;
        }
        proof {
            assert forall|c: Coord| c.in_bounds() implies #[trigger] self.at(c) == old(self).at(
                c,
            ).as_clue() by {
                assert(c.flat() < k);
            }
            assert forall|c: Coord| c.in_bounds() implies #[trigger] self.matrix().is_fixed(c) == (
            old(self).matrix().is_fixed(c) || old(self).at(c) is Filled) by {
                assert(c.flat() < k);
            }
            assert forall|c: Coord, w: u8| c.in_bounds() implies #[trigger] self.matrix().has(c, w)
                == (old(self).matrix().has(c, w) && !(old(self).at(c) is Filled)) by {
                assert(c.flat() < k);
            }
            assert forall|c: Coord| c.in_bounds() && #[trigger] cell_of(
                self.board(),
                c,
            ) is Clue implies self.matrix().is_fixed(c) by {
                if cell_of(old(self).board(), c) is Clue {
                    assert(old(self).matrix().is_fixed(c));
                }
            }
        }
        self.solved = self.check_solved();
        proof {
            if old(self).candidates_respect_peers() {
                assert forall|c: Coord, p: Coord|
                    c.in_bounds() && p.in_bounds() && is_peer(c, p) implies #[trigger] self.keeps_apart(
                    c,
                    p,
                ) by {
                    assert(old(self).keeps_apart(c, p));
                    assert(self.at(p) == old(self).at(p).as_clue());
                }
            }
        }
    }

    /// Builds the candidates anew from the cells: the cells that hold a clue
    /// are fixed and their values taken away from their peers; every other
    /// cell is open.
    pub fn reset_candidate_matrix(&mut self)
        requires
            old(self).wf(),
        ensures
            final(self).wf(),
            final(self).board() == old(self).board(),
            final(self).matrix().seeded_from(old(self).board()),
            final(self).only_clues() ==> final(self).candidates_respect_peers(),
    {
        self.candidate_matrix = CandidateMatrix::from_cells(&self.rows);
        proof {
            self.lemma_seeded_respects_peers();
        }
    }
}

/// Placing a value keeps the candidates apart from what the peers hold: the
/// value is taken away from the peers of the cell, and no cell gains a
/// candidate.
pub proof fn lemma_update_respects_peers(before: Grid, after: Grid, cell: Coord, val: u8)
    requires
        cell.in_bounds(),
        after.updated_from(before, cell, val),
    ensures
        before.candidates_respect_peers() ==> after.candidates_respect_peers(),
{
    if before.candidates_respect_peers() {
        assert forall|c: Coord, p: Coord|
            c.in_bounds() && p.in_bounds() && is_peer(c, p) implies #[trigger] after.keeps_apart(
            c,
            p,
        ) by {
            assert(before.keeps_apart(c, p));
            assert(after.at(p) == (if p == cell {
                Cell::Filled(val)
            } else {
                before.at(p)
            }));
        }
    }
}

/// Box coordinates of cells of the board are coordinates of the board.
pub proof fn lemma_box_bounds()
    ensures
        forall|r: int, c: int|
            0 <= r < SIZE && 0 <= c < SIZE ==> 0 <= #[trigger] box_index(r, c) < SIZE,
        forall|r: int, c: int|
            0 <= r < SIZE && 0 <= c < SIZE ==> 0 <= #[trigger] box_offset(r, c) < SIZE,
{
}

/// How far row `row` of the shifted board is shifted: by the number of its
/// band, and by three for every row above it in the band.
pub open spec fn base_shift(row: int) -> int {
    row / (ORDER as int) + (row % (ORDER as int)) * ORDER
}

/// The value at row `row` and column `col` of the board that is made by
/// shifting the values `1..=9` from row to row.
pub open spec fn base_value(row: int, col: int) -> int {
    1 + (col + base_shift(row)) % (SIZE as int)
}

/// A solved board of clues: the values `1..=9` shifted from row to row.
pub fn get_base_solution() -> (rows: GridArray)
    ensures
        forall|r: int, c: int|
            0 <= r < SIZE && 0 <= c < SIZE ==> #[trigger] rows[r][c] == Cell::Clue(
                base_value(r, c) as u8,
            ),
        is_solved(rows),
{
    let mut rows = [[Cell::Empty; SIZE]; SIZE];
    let mut k: usize = 0;
    while k < SIZE * SIZE
        invariant
            k <= SIZE * SIZE,
            forall|r: int, c: int|
                0 <= r < SIZE && 0 <= c < SIZE && r * SIZE + c < k ==> #[trigger] rows[r][c]
                    == Cell::Clue(base_value(r, c) as u8),
        decreases SIZE * SIZE - k,
    {
        let i = k / SIZE;
        let j = k % SIZE;
        let value: usize = 1 + (j + i / ORDER + (i % ORDER) * ORDER) % SIZE;
        rows[i][j] = Cell::Clue(value as u8);
        k += 1;
    }
    proof {
        assert forall|c: Coord| c.in_bounds() implies !(#[trigger] cell_of(rows, c) is Empty) by {
            assert(rows[c.row as int][c.col as int] == Cell::Clue(
                base_value(c.row as int, c.col as int) as u8,
            ));
        }
        assert forall|a: Coord, b: Coord|
            a.in_bounds() && b.in_bounds() && is_peer(a, b) implies !#[trigger] peer_clash(
            rows,
            a,
            b,
        ) by {
            lemma_base_value(a, b);
            lemma_base_value(b, a);
            assert(rows[a.row as int][a.col as int] == Cell::Clue(
                base_value(a.row as int, a.col as int) as u8,
            ));
            assert(rows[b.row as int][b.col as int] == Cell::Clue(
                base_value(b.row as int, b.col as int) as u8,
            ));
        }
        lemma_peers_differ_solved(rows);
    }
    rows
}

/// The shifts of the nine rows are the nine numbers below nine, each once.
proof fn lemma_base_shift(row: int)
    requires
        0 <= row < SIZE,
    ensures
        0 <= base_shift(row) < SIZE,
        base_shift(row) == (if row == 0 {
            0int
        } else if row == 1 {
            3
        } else if row == 2 {
            6
        } else if row == 3 {
            1
        } else if row == 4 {
            4
        } else if row == 5 {
            7
        } else if row == 6 {
            2
        } else if row == 7 {
            5
        } else {
            8
        }),
{
    if row < 3 {
        assert(row / 3 == 0 && row % 3 == row);
    } else if row < 6 {
        assert(row / 3 == 1 && row % 3 == row - 3);
    } else {
        assert(row / 3 == 2 && row % 3 == row - 6);
    }
}

/// The remainder of a number below eighteen when divided by nine.
proof fn lemma_below_eighteen(x: int)
    requires
        0 <= x < 2 * SIZE,
    ensures
        x % (SIZE as int) == (if x < SIZE {
            x
        } else {
            x - SIZE
        }),
{
}

/// In the shifted board two peers never hold the same value, and every
/// value is one of `1..=9`.
pub proof fn lemma_base_value(a: Coord, b: Coord)
    requires
        a.in_bounds(),
        b.in_bounds(),
    ensures
        1 <= base_value(a.row as int, a.col as int) <= SIZE,
        is_peer(a, b) ==> base_value(a.row as int, a.col as int) != base_value(
            b.row as int,
            b.col as int,
        ),
{
    let sa = base_shift(a.row as int);
    let sb = base_shift(b.row as int);
    let xa = a.col + sa;
    let xb = b.col + sb;
    lemma_base_shift(a.row as int);
    lemma_base_shift(b.row as int);
    lemma_below_eighteen(xa);
    lemma_below_eighteen(xb);
    if is_peer(a, b) {
        // Two sums that differ by less than nine, and are not equal, have
        // different remainders.
        assert(xa != xb && -(SIZE as int) < xa - xb < SIZE) by {
            if a.row == b.row {
                assert(sa == sb);
            } else if a.col == b.col {
                assert(sa != sb);
            } else {
                assert(a.row / 3 == b.row / 3 && a.col / 3 == b.col / 3);
                assert(sa - sb == 3 * ((a.row % 3) - (b.row % 3)));
                assert(-3 < a.col - b.col < 3);
            }
        }
    }
}

/// The board with the rows `rows`, as [`Grid::from_rows`] makes it.
pub open spec fn grid_of(rows: GridArray) -> Grid {
    choose|g: Grid| g.wf() && g.board() == rows && g.matrix().seeded_from(rows)
}

/// Two boards with the same rows and the same candidates are equal.
pub proof fn lemma_grid_unique(a: Grid, b: Grid)
    requires
        a.wf(),
        b.wf(),
        a.board() == b.board(),
        a.matrix().agrees_with(b.matrix()),
    ensures
        a == b,
{
    lemma_agreement_is_equality(a.matrix(), b.matrix());
    assert forall|i: int| 0 <= i < SIZE implies a.cols[i] == b.cols[i] by {
        assert forall|j: int| 0 <= j < SIZE implies a.cols[i][j] == b.cols[i][j] by {
            assert(col_agrees(a.rows, a.cols, j, i));
            assert(col_agrees(b.rows, b.cols, j, i));
        }
        assert(a.cols[i] =~= b.cols[i]);
    }
    assert(a.cols =~= b.cols);
    assert forall|i: int| 0 <= i < SIZE implies a.boxes[i] == b.boxes[i] by {
        assert forall|j: int| 0 <= j < SIZE implies a.boxes[i][j] == b.boxes[i][j] by {
            a.lemma_box_view(i, j);
            b.lemma_box_view(i, j);
        }
        assert(a.boxes[i] =~= b.boxes[i]);
    }
    assert(a.boxes =~= b.boxes);
}

impl From<GridArray> for Grid {
    /// The board with the rows `rows`, as [`Grid::from_rows`] makes it.
    fn from(rows: GridArray) -> (g: Grid)
        ensures
            g.wf(),
            g.board() == rows,
            g.matrix().seeded_from(rows),
    {
        let g = Grid::from_rows(rows);
        proof {
            lemma_grid_unique(g, grid_of(rows));
        }
        g
    }
}

impl FromSpecImpl<GridArray> for Grid {
    open spec fn obeys_from_spec() -> bool {
        true
    }

    open spec fn from_spec(rows: GridArray) -> Grid {
        grid_of(rows)
    }
}

impl From<DisplayableGrid<Cell>> for Grid {
    /// The board with the rows that `shown` holds.
    fn from(shown: DisplayableGrid<Cell>) -> (g: Grid)
        ensures
            g.wf(),
            g.board() == shown.0,
            g.matrix().seeded_from(shown.0),
    {
        let g = Grid::from_rows(shown.0);
        proof {
            lemma_grid_unique(g, grid_of(shown.0));
        }
        g
    }
}

impl FromSpecImpl<DisplayableGrid<Cell>> for Grid {
    open spec fn obeys_from_spec() -> bool {
        true
    }

    open spec fn from_spec(shown: DisplayableGrid<Cell>) -> Grid {
        grid_of(shown.0)
    }
}

impl Default for Grid {
    /// The empty board, as [`Grid::new`] makes it.
    fn default() -> (g: Grid)
        ensures
            g.wf(),
            forall|c: Coord| c.in_bounds() ==> (#[trigger] g.at(c)) is Empty,
            forall|c: Coord| c.in_bounds() ==> !#[trigger] g.matrix().is_fixed(c),
            forall|c: Coord, v: u8| c.in_bounds() ==> #[trigger] g.matrix().has(c, v) == (1 <= v <= SIZE),
    {
        Grid::new()
    }
}

} // verus!
