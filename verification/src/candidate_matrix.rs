//! The legal values of every cell, kept up to date as values are placed.

use vstd::prelude::*;
use vstd::std_specs::convert::FromSpecImpl;

use crate::cell::Cell;
use crate::coord::{coord_at, Coord};
use crate::domain::{lemma_count_bound, lemma_count_monotone, Domain};
use crate::geometry::is_peer;
use crate::random::choose_in_range;
use crate::{GridArray, ORDER, SIZE};

verus! {

/// For every cell of the board, either the mark that the cell is fixed or the
/// set of values that may still be placed there.
#[derive(Clone, Copy, Debug)]
pub struct CandidateMatrix {
    cells: [[Domain; SIZE]; SIZE],
}

/// Whether the coordinates of `list` come in strictly ascending row-major
/// order.
pub open spec fn ascending(list: Seq<Coord>) -> bool {
    forall|i: int, j: int| 0 <= i < j < list.len() ==> list[i].precedes(list[j])
}

/// Whether the values of `list` come in strictly ascending order.
pub open spec fn ascending_values(list: Seq<u8>) -> bool {
    forall|i: int, j: int| 0 <= i < j < list.len() ==> list[i] < list[j]
}

/// Whether `a` and `b` are peers.
pub fn peers(a: Coord, b: Coord) -> (r: bool)
    ensures
        r == is_peer(a, b),
{
    !(a.row == b.row && a.col == b.col) && (a.row == b.row || a.col == b.col || (a.row / ORDER
        == b.row / ORDER && a.col / ORDER == b.col / ORDER))
}

impl CandidateMatrix {
    /// The domain of the cell at `c`.
    pub closed spec fn dom(&self, c: Coord) -> Domain {
        self.cells[c.row as int][c.col as int]
    }

    /// Whether the cell at `c` is fixed.
    #[verifier::inline]
    pub open spec fn is_fixed(&self, c: Coord) -> bool {
        self.dom(c) is Fixed
    }

    /// Whether `v` is a candidate of the cell at `c`.
    #[verifier::inline]
    pub open spec fn has(&self, c: Coord, v: u8) -> bool {
        self.dom(c).has(v)
    }

    /// The number of candidates of the cell at `c`.
    #[verifier::inline]
    pub open spec fn count(&self, c: Coord) -> nat {
        self.dom(c).count()
    }

    /// Whether `list` holds the candidates of the cell at `c`, each once and
    /// in ascending order.
    pub open spec fn is_candidate_list(&self, list: Seq<u8>, c: Coord) -> bool {
        &&& ascending_values(list)
        &&& forall|v: u8|
            #![trigger list.contains(v)]
            #![trigger self.has(c, v)]
            list.contains(v) <==> self.has(c, v)
    }

    /// Whether `p` is an open peer of `cell` that would be left without a
    /// candidate if `val` were taken away from it.
    pub open spec fn stranded_at(&self, cell: Coord, val: u8, p: Coord) -> bool {
        p.in_bounds() && is_peer(cell, p) && !self.is_fixed(p) && self.dom(p).at_most(val)
    }

    /// Whether placing `val` at `cell` would leave some open peer without a
    /// candidate.
    pub open spec fn strands(&self, cell: Coord, val: u8) -> bool {
        exists|p: Coord| self.stranded_at(cell, val, p)
    }

    /// Whether `self` is `before` with `val` taken away from every peer of
    /// `cell`, and nothing else changed.
    pub open spec fn propagated_from(&self, before: CandidateMatrix, cell: Coord, val: u8) -> bool {
        &&& forall|c: Coord| c.in_bounds() ==> #[trigger] self.is_fixed(c) == before.is_fixed(c)
        &&& forall|c: Coord, w: u8|
            c.in_bounds() ==> #[trigger] self.has(c, w) == (before.has(c, w) && !(is_peer(cell, c)
                && w == val))
    }

    /// Whether `list` holds the peers of `cell` that have `val` as a
    /// candidate, each once and in row-major order.
    pub open spec fn is_changed_list(&self, list: Seq<Coord>, cell: Coord, val: u8) -> bool {
        &&& ascending(list)
        &&& forall|c: Coord|
            #[trigger] list.contains(c) <==> c.in_bounds() && is_peer(cell, c) && self.has(c, val)
    }

    /// Whether `self` is `before` with the value of `previous` given back to
    /// the open cells of `changed`, where `previous` is a clue; `before`
    /// otherwise.
    pub open spec fn restored_from(
        &self,
        before: CandidateMatrix,
        previous: Cell,
        changed: Seq<Coord>,
    ) -> bool {
        &&& forall|c: Coord| c.in_bounds() ==> #[trigger] self.is_fixed(c) == before.is_fixed(c)
        &&& forall|c: Coord, w: u8|
            c.in_bounds() ==> #[trigger] self.has(c, w) == (before.has(c, w) || (previous
                == Cell::Clue(w) && changed.contains(c) && !before.is_fixed(c) && 1 <= w <= SIZE))
    }

    /// Whether `self` and `other` agree on every cell of the board.
    pub open spec fn agrees_with(&self, other: CandidateMatrix) -> bool {
        &&& forall|c: Coord| c.in_bounds() ==> #[trigger] self.is_fixed(c) == other.is_fixed(c)
        &&& forall|c: Coord, w: u8| c.in_bounds() ==> #[trigger] self.has(c, w) == other.has(c, w)
    }

    /// Whether `self` is the matrix of a board: the cells that hold a clue
    /// are fixed, and every other cell has the values that no clue among its
    /// peers holds.
    pub open spec fn seeded_from(&self, rows: GridArray) -> bool {
        &&& forall|c: Coord|
            c.in_bounds() ==> #[trigger] self.is_fixed(c) == (rows[c.row as int][c.col as int] is Clue)
        &&& forall|c: Coord, w: u8|
            c.in_bounds() ==> #[trigger] self.has(c, w) == (1 <= w <= SIZE && !(rows[c.row as int][c.col as int] is Clue)
                && !clue_among_peers(rows, c, w))
    }

    /// The number of candidates of the first `k` cells in row-major order,
    /// taken together.
    pub open spec fn mass_upto(&self, k: nat) -> nat
        decreases k,
    {
        if k == 0 {
            0
        } else {
            self.mass_upto((k - 1) as nat) + self.count(coord_at(k - 1))
        }
    }

    /// The number of candidates of all cells taken together.
    pub open spec fn mass(&self) -> nat {
        self.mass_upto((SIZE * SIZE) as nat)
    }

    /// Whether every candidate in `self` is a candidate in `other`.
    pub open spec fn within(&self, other: CandidateMatrix) -> bool {
        forall|c: Coord, w: u8| c.in_bounds() && #[trigger] self.has(c, w) ==> other.has(c, w)
    }

    /// Whether `c` is an open cell with no more candidates than any other
    /// open cell.
    pub open spec fn is_min_open(&self, c: Coord) -> bool {
        &&& c.in_bounds()
        &&& !self.is_fixed(c)
        &&& forall|p: Coord| p.in_bounds() && !self.is_fixed(p) ==> self.count(c) <= self.count(p)
    }

    /// The open cells with the fewest candidates among the first `k` cells
    /// of the board, in row-major order.
    pub open spec fn min_cells_upto(&self, k: nat) -> Seq<Coord>
        decreases k,
    {
        if k == 0 {
            Seq::empty()
        } else if self.is_min_open(coord_at(k - 1)) {
            self.min_cells_upto((k - 1) as nat).push(coord_at(k - 1))
        } else {
            self.min_cells_upto((k - 1) as nat)
        }
    }

    /// The open cells with the fewest candidates, in row-major order.
    pub open spec fn min_cells(&self) -> Seq<Coord> {
        self.min_cells_upto((SIZE * SIZE) as nat)
    }

    /// The cell that the draw `draw` picks: the one at the position of the
    /// draw, counted round, among the open cells with the fewest
    /// candidates; `None` where no cell is open.
    pub open spec fn picked(&self, draw: usize) -> Option<Coord> {
        let list = self.min_cells();
        if list.len() == 0 {
            None
        } else {
            Some(list[draw as int % list.len() as int])
        }
    }

    /// Whether some cell is open.
    pub open spec fn has_open(&self) -> bool {
        exists|c: Coord| c.in_bounds() && !self.is_fixed(c)
    }

    /// A matrix in which every cell is open and has every value.
    pub fn new() -> (cm: CandidateMatrix)
        ensures
            forall|c: Coord| c.in_bounds() ==> !#[trigger] cm.is_fixed(c),
            forall|c: Coord, v: u8| c.in_bounds() ==> #[trigger] cm.has(c, v) == (1 <= v <= SIZE),
    {
        let full = Domain::full();
        let row = [full; SIZE];
        let made = CandidateMatrix { cells: [row; SIZE] };
        assert forall|c: Coord| c.in_bounds() implies made.dom(c) == full by {
            assert(row@[c.col as int] == full);
            assert(made.cells@[c.row as int] == row);
        }
        made
    }

    /// The candidates of the cell at `cell`, in ascending order. A fixed
    /// cell has none.
    pub fn get_candidates(&self, cell: Coord) -> (list: Vec<u8>)
        requires
            cell.in_bounds(),
        ensures
            self.is_candidate_list(list@, cell),
            list.len() == self.count(cell),
    {
        let d = self.cells[cell.row][cell.col];
        let mut list: Vec<u8> = Vec::new();
        let mut v: u8 = 1;
        while v as usize <= SIZE
            invariant
                1 <= v <= SIZE + 1,
                d == self.dom(cell),
                list.len() == d.count_upto((v - 1) as nat),
                ascending_values(list@),
                forall|i: int| 0 <= i < list.len() ==> list[i] < v && d.has(#[trigger] list[i]),
                forall|w: u8| 1 <= w < v && d.has(w) ==> list@.contains(w),
            decreases SIZE + 1 - v,
        {
            if d.contains(v) {
                let ghost before = list@;
                list.push(v);
                assert(list@[before.len() as int] == v);
                assert forall|w: u8| 1 <= w <= v && d.has(w) implies list@.contains(w) by {
                    if w < v {
                        let i = choose|i: int| 0 <= i < before.len() && before[i] == w;
                        assert(list@[i] == w);
                    }
                }
            }
            v += 1;
        }
        list
    }

    /// Whether `val` is a candidate of the cell at `cell`.
    pub fn has_candidate(&self, cell: Coord, val: u8) -> (b: bool)
        requires
            cell.in_bounds(),
        ensures
            b == self.has(cell, val),
    {
        self.cells[cell.row][cell.col].contains(val)
    }

    /// Whether the cell at `cell` is open.
    pub fn is_open(&self, cell: Coord) -> (b: bool)
        requires
            cell.in_bounds(),
        ensures
            b == !self.is_fixed(cell),
    {
        match self.cells[cell.row][cell.col] {
            Domain::Fixed => false,
            Domain::Open(_) => true,
        }
    }

    /// Takes `val` away from every peer of `cell`, unless that would leave
    /// an open peer without a candidate: then nothing is changed.
    ///
    /// On success, returns the peers whose candidates changed, in row-major
    /// order.
    pub fn update_around(&mut self, cell: Coord, val: u8) -> (r: Result<Vec<Coord>, ()>)
        requires
            cell.in_bounds(),
        ensures
            r is Err <==> old(self).strands(cell, val),
            r is Err ==> *final(self) == *old(self),
            r matches Ok(changed) ==> final(self).propagated_from(*old(self), cell, val) && old(
                self,
            ).is_changed_list(changed@, cell, val),
    {
        let mut k: usize = 0;
        while k < SIZE * SIZE
            invariant
                k <= SIZE * SIZE,
                cell.in_bounds(),
                forall|p: Coord|
                    p.in_bounds() && p.flat() < k ==> !#[trigger] self.stranded_at(cell, val, p),
            decreases SIZE * SIZE - k,
        {
            let p = Coord { row: k / SIZE, col: k % SIZE };
            assert(p.in_bounds() && p.flat() == k);
            if peers(cell, p) && self.cells[p.row][p.col].emptied_by(val) {
                assert(self.stranded_at(cell, val, p));
                return Err(());
            }
            assert forall|q: Coord| q.in_bounds() && q.flat() < k + 1 implies !#[trigger] self.stranded_at(
                cell,
                val,
                q,
            ) by {
                if q != p {
                    assert(q.flat() < k);
                }
            }
            k += 1;
        }
        assert(!self.strands(cell, val)) by {
            assert forall|p: Coord| !self.stranded_at(cell, val, p) by {
                if p.in_bounds() {
                    assert(p.flat() < SIZE * SIZE);
                }
            }
        }
        let mut changed: Vec<Coord> = Vec::new();
        let mut k: usize = 0;
        while k < SIZE * SIZE
            invariant
                k <= SIZE * SIZE,
                cell.in_bounds(),
                forall|c: Coord| c.in_bounds() ==> #[trigger] self.is_fixed(c) == old(self).is_fixed(c),
                forall|c: Coord, w: u8|
                    c.in_bounds() ==> #[trigger] self.has(c, w) == (old(self).has(c, w) && !(c.flat()
                        < k && is_peer(cell, c) && w == val)),
                ascending(changed@),
                forall|i: int| 0 <= i < changed.len() ==> (#[trigger] changed[i]).flat() < k,
                forall|c: Coord|
                    #[trigger] changed@.contains(c) <==> c.in_bounds() && c.flat() < k && is_peer(
                        cell,
                        c,
                    ) && old(self).has(c, val),
            decreases SIZE * SIZE - k,
        {
            let p = Coord { row: k / SIZE, col: k % SIZE };
            let ghost mid = *self;
            let ghost before = changed@;
            assert(p.in_bounds() && p.flat() == k);
            assert forall|c: Coord| c.in_bounds() && c.flat() == k implies c == p by {}
            if peers(cell, p) && self.cells[p.row][p.col].contains(val) {
                self.cells[p.row][p.col] = self.cells[p.row][p.col].without(val);
                changed.push(p);
                assert(changed@[before.len() as int] == p);
                assert forall|c: Coord| c.in_bounds() && c != p implies self.dom(c) == mid.dom(
                    c,
                ) by {}
            }
            assert forall|c: Coord, w: u8| c.in_bounds() implies #[trigger] self.has(c, w) == (old(
                self,
            ).has(c, w) && !(c.flat() < k + 1 && is_peer(cell, c) && w == val)) by {
                assert(mid.has(c, w) == (old(self).has(c, w) && !(c.flat() < k && is_peer(cell, c)
                    && w == val)));
            }
            assert(mid.has(p, val) == old(self).has(p, val));
            let ghost pushed = is_peer(cell, p) && mid.has(p, val);
            assert forall|c: Coord|
                #[trigger] changed@.contains(c) <==> c.in_bounds() && c.flat() < k + 1 && is_peer(
                    cell,
                    c,
                ) && old(self).has(c, val) by {
                if changed@.contains(c) {
                    let i = choose|i: int| 0 <= i < changed@.len() && changed@[i] == c;
                    if i < before.len() {
                        assert(before[i] == c);
                        assert(before.contains(c));
                    } else {
                        assert(pushed && c == p);
                    }
                }
                if c.in_bounds() && c.flat() < k + 1 && is_peer(cell, c) && old(self).has(c, val) {
                    if c == p {
                        assert(pushed);
                        assert(changed@[before.len() as int] == c);
                    } else {
                        assert(before.contains(c));
                        let i = choose|i: int| 0 <= i < before.len() && before[i] == c;
                        assert(changed@[i] == c);
                    }
                }
            }
            k += 1;
        }
        assert forall|c: Coord, w: u8| c.in_bounds() implies #[trigger] self.has(c, w) == (old(
            self,
        ).has(c, w) && !(is_peer(cell, c) && w == val)) by {
            assert(c.flat() < k);
        }
        assert forall|c: Coord| #[trigger]
            changed@.contains(c) <==> c.in_bounds() && is_peer(cell, c) && old(self).has(
                c,
                val,
            ) by {
            if c.in_bounds() {
                assert(c.flat() < k);
            }
        }
        Ok(changed)
    }

    /// Takes `val` away from the cell at `cell`. Returns whether it was a
    /// candidate.
    pub fn remove_candidate(&mut self, cell: Coord, val: u8) -> (removed: bool)
        requires
            cell.in_bounds(),
        ensures
            removed == old(self).has(cell, val),
            forall|c: Coord| c.in_bounds() ==> #[trigger] final(self).is_fixed(c) == old(self).is_fixed(c),
            forall|c: Coord, w: u8|
                c.in_bounds() ==> #[trigger] final(self).has(c, w) == (old(self).has(c, w) && !(c
                    == cell && w == val)),
    {
        let d = self.cells[cell.row][cell.col];
        let removed = d.contains(val);
        self.cells[cell.row][cell.col] = d.without(val);
        removed
    }

    /// Gives `val` back to the cell at `cell`, where the cell is open and
    /// `val` is a value of the board. Returns whether the candidates changed.
    pub fn add_candidate(&mut self, cell: Coord, val: u8) -> (added: bool)
        requires
            cell.in_bounds(),
        ensures
            added == (!old(self).is_fixed(cell) && 1 <= val <= SIZE && !old(self).has(cell, val)),
            forall|c: Coord| c.in_bounds() ==> #[trigger] final(self).is_fixed(c) == old(self).is_fixed(c),
            forall|c: Coord, w: u8|
                c.in_bounds() ==> #[trigger] final(self).has(c, w) == (old(self).has(c, w) || (c
                    == cell && w == val && !old(self).is_fixed(cell) && 1 <= val <= SIZE)),
    {
        let d = self.cells[cell.row][cell.col];
        let had = d.contains(val);
        let e = d.with(val);
        self.cells[cell.row][cell.col] = e;
        !had && e.contains(val)
    }

    /// Marks the cell at `cell` as fixed: it has no candidates any more and
    /// is never selected.
    pub fn set_fixed(&mut self, cell: Coord)
        requires
            cell.in_bounds(),
        ensures
            forall|c: Coord|
                c.in_bounds() ==> #[trigger] final(self).is_fixed(c) == (c == cell || old(self).is_fixed(c)),
            forall|c: Coord, w: u8|
                c.in_bounds() ==> #[trigger] final(self).has(c, w) == (old(self).has(c, w) && c
                    != cell),
    {
        self.cells[cell.row][cell.col] = Domain::Fixed;
    }

    /// The only candidate of the cell at `cell`.
    pub fn collapse(&self, cell: Coord) -> (val: u8)
        requires
            cell.in_bounds(),
            self.count(cell) == 1,
        ensures
            self.has(cell, val),
            forall|w: u8| self.has(cell, w) ==> w == val,
    {
        let list = self.get_candidates(cell);
        let val = list[0];
        proof {
            assert(list@.contains(val));
            assert forall|w: u8| self.has(cell, w) implies w == val by {
                assert(list@.contains(w));
            }
        }
        val
    }

    /// Undoes what placing a clue did to the candidates of other cells: where
    /// `previous` is a clue, its value is given back to every cell of
    /// `changed`; otherwise nothing is changed.
    pub fn undo_changed(&mut self, previous: Cell, changed: &Vec<Coord>)
        requires
            forall|i: int| 0 <= i < changed.len() ==> (#[trigger] changed[i]).in_bounds(),
        ensures
            final(self).restored_from(*old(self), previous, changed@),
    {
        if let Cell::Clue(val) = previous {
            let mut i: usize = 0;
            while i < changed.len()
                invariant
                    i <= changed.len(),
                    forall|j: int| 0 <= j < changed.len() ==> (#[trigger] changed[j]).in_bounds(),
                    forall|c: Coord| c.in_bounds() ==> #[trigger] self.is_fixed(c) == old(self).is_fixed(c),
                    forall|c: Coord, w: u8|
                        c.in_bounds() ==> #[trigger] self.has(c, w) == (old(self).has(c, w) || (w
                            == val && changed@.take(i as int).contains(c) && !old(self).is_fixed(c)
                            && 1 <= w <= SIZE)),
                decreases changed.len() - i,
            {
                let ghost mid = *self;
                let p = changed[i];
                self.add_candidate(p, val);
                proof {
                    let shorter = changed@.take(i as int);
                    let longer = changed@.take(i + 1);
                    assert(longer[i as int] == p);
                    assert forall|c: Coord| longer.contains(c) <==> shorter.contains(c) || c
                        == p by {
                        if shorter.contains(c) {
                            let j = choose|j: int| 0 <= j < shorter.len() && shorter[j] == c;
                            assert(longer[j] == c);
                        }
                        if longer.contains(c) {
                            let j = choose|j: int| 0 <= j < longer.len() && longer[j] == c;
                            if j < i {
                                assert(shorter[j] == c);
                            }
                        }
                    }
                    assert forall|c: Coord, w: u8| c.in_bounds() implies #[trigger] self.has(c, w)
                        == (old(self).has(c, w) || (w == val && longer.contains(c) && !old(
                        self,
                    ).is_fixed(c) && 1 <= w <= SIZE)) by {
                        assert(mid.has(c, w) == (old(self).has(c, w) || (w == val
                            && shorter.contains(c) && !old(self).is_fixed(c) && 1 <= w <= SIZE)));
                    }
                }
                i += 1;
            }
            assert(changed@.take(changed.len() as int) =~= changed@);
        }
    }

    /// The open cells that have the fewest candidates, in row-major order.
    pub fn min_candidates_cells(&self) -> (list: Vec<Coord>)
        ensures
            list@ == self.min_cells(),
            ascending(list@),
            forall|c: Coord| #[trigger] list@.contains(c) <==> self.is_min_open(c),
    {
        let mut best: usize = SIZE + 1;
        let mut k: usize = 0;
        while k < SIZE * SIZE
            invariant
                k <= SIZE * SIZE,
                best <= SIZE + 1,
                forall|p: Coord|
                    p.in_bounds() && p.flat() < k && !self.is_fixed(p) ==> best <= self.count(p),
                best <= SIZE ==> exists|p: Coord|
                    p.in_bounds() && !self.is_fixed(p) && self.count(p) == best,
            decreases SIZE * SIZE - k,
        {
            let p = Coord { row: k / SIZE, col: k % SIZE };
            assert(p.in_bounds() && p.flat() == k);
            assert forall|c: Coord| c.in_bounds() && c.flat() == k implies c == p by {}
            if let Domain::Open(_) = self.cells[p.row][p.col] {
                let n = self.cells[p.row][p.col].len();
                if n < best {
                    best = n;
                }
            }
            k += 1;
        }
        assert forall|p: Coord| p.in_bounds() && !self.is_fixed(p) implies best <= self.count(
            p,
        ) by {
            assert(p.flat() < k);
        }
        let mut list: Vec<Coord> = Vec::new();
        let mut k: usize = 0;
        while k < SIZE * SIZE
            invariant
                k <= SIZE * SIZE,
                best <= SIZE + 1,
                forall|p: Coord| p.in_bounds() && !self.is_fixed(p) ==> best <= self.count(p),
                best <= SIZE ==> exists|p: Coord|
                    p.in_bounds() && !self.is_fixed(p) && self.count(p) == best,
                ascending(list@),
                list@ == self.min_cells_upto(k as nat),
                forall|i: int| 0 <= i < list.len() ==> (#[trigger] list[i]).flat() < k,
                forall|c: Coord|
                    #[trigger] list@.contains(c) <==> c.in_bounds() && c.flat() < k
                        && !self.is_fixed(c) && self.count(c) == best,
            decreases SIZE * SIZE - k,
        {
            let p = Coord { row: k / SIZE, col: k % SIZE };
            let ghost before = list@;
            assert(p.in_bounds() && p.flat() == k && p == coord_at(k as int));
            assert forall|c: Coord| c.in_bounds() && c.flat() == k implies c == p by {}
            assert(self.is_min_open(p) == (!self.is_fixed(p) && self.count(p) == best)) by {
                if !self.is_fixed(p) {
                    lemma_count_bound(self.dom(p), SIZE as nat);
                    let least = choose|q: Coord|
                        q.in_bounds() && !self.is_fixed(q) && self.count(q) == best;
                    if self.is_min_open(p) {
                        assert(self.count(p) <= self.count(least));
                    }
                }
            }
            let mut pushed = false;
            if let Domain::Open(_) = self.cells[p.row][p.col] {
                if self.cells[p.row][p.col].len() == best {
                    list.push(p);
                    pushed = true;
                    assert(list@[before.len() as int] == p);
                }
            }
            assert forall|c: Coord| #[trigger]
                list@.contains(c) <==> c.in_bounds() && c.flat() < k + 1 && !self.is_fixed(c)
                    && self.count(c) == best by {
                if list@.contains(c) {
                    let i = choose|i: int| 0 <= i < list@.len() && list@[i] == c;
                    if i < before.len() {
                        assert(before[i] == c);
                        assert(before.contains(c));
                    } else {
                        assert(pushed && c == p);
                    }
                }
                if c.in_bounds() && c.flat() < k + 1 && !self.is_fixed(c) && self.count(c)
                    == best {
                    if c == p {
                        assert(pushed);
                        assert(list@[before.len() as int] == c);
                    } else {
                        assert(before.contains(c));
                        let i = choose|i: int| 0 <= i < before.len() && before[i] == c;
                        assert(list@[i] == c);
                    }
                }
            }
            k += 1;
        }
        assert forall|c: Coord| #[trigger] list@.contains(c) <==> self.is_min_open(c) by {
            if c.in_bounds() && !self.is_fixed(c) {
                assert(c.flat() < k);
                assert(best <= self.count(c));
                lemma_count_bound(self.dom(c), SIZE as nat);
                let p = choose|p: Coord|
                    p.in_bounds() && !self.is_fixed(p) && self.count(p) == best;
                if self.is_min_open(c) {
                    assert(self.count(c) <= self.count(p));
                }
                if self.count(c) == best {
                    assert forall|q: Coord| q.in_bounds() && !self.is_fixed(q) implies self.count(
                        c,
                    ) <= self.count(q) by {}
                }
            }
        }
        list
    }

    /// The cell that the draw `draw` picks among the open cells with the
    /// fewest candidates, taken in row-major order: the one at the position
    /// of the draw, counted round. The same candidates and the same draw
    /// give the same cell; `None` where no cell is open.
    pub fn pick_min_candidates_cell(&self, draw: usize) -> (r: Option<Coord>)
        ensures
            r == self.picked(draw),
            r is None <==> !self.has_open(),
            r matches Some(c) ==> self.is_min_open(c),
    {
        let list = self.min_candidates_cells();
        proof {
            self.lemma_min_open_exists();
        }
        if list.len() == 0 {
            assert forall|c: Coord| !self.is_min_open(c) by {
                if self.is_min_open(c) {
                    assert(list@.contains(c));
                }
            }
            None
        } else {
            let c = list[draw % list.len()];
            assert(list@.contains(c));
            Some(c)
        }
    }

    /// The first open cell, in row-major order, among those with the fewest
    /// candidates: the cell that the draw 0 picks. `None` where no cell is
    /// open.
    pub fn first_min_candidates_cell(&self) -> (r: Option<Coord>)
        ensures
            r == self.picked(0),
            r is None <==> !self.has_open(),
            r matches Some(c) ==> self.is_min_open(c) && forall|p: Coord|
                self.is_min_open(p) && p != c ==> c.precedes(p),
    {
        let r = self.pick_min_candidates_cell(0);
        proof {
            let list = self.min_cells();
            self.lemma_min_cells();
            if let Some(c) = r {
                assert forall|p: Coord| self.is_min_open(p) && p != c implies c.precedes(p) by {
                    assert(list.contains(p));
                    let i = choose|i: int| 0 <= i < list.len() && list[i] == p;
                    assert(list[0].precedes(list[i]));
                }
            }
        }
        r
    }

    /// One of the open cells with the fewest candidates: a position among
    /// them is drawn at random, and the cell that the draw picks is
    /// returned. `None` where no cell is open.
    pub fn get_min_candidates_cell(&self) -> (r: Option<Coord>)
        ensures
            exists|draw: usize| r == self.picked(draw),
            r is None <==> !self.has_open(),
            r matches Some(c) ==> self.is_min_open(c),
    {
        let count = self.min_candidates_cells().len();
        let draw = match choose_in_range(0, count) {
            Some(position) => position,
            None => 0,
        };
        self.pick_min_candidates_cell(draw)
    }

    /// The open cells with the fewest candidates come in ascending order,
    /// and they are all of them.
    pub proof fn lemma_min_cells(&self)
        ensures
            ascending(self.min_cells()),
            forall|c: Coord| #[trigger] self.min_cells().contains(c) <==> self.is_min_open(c),
    {
        self.lemma_min_cells_upto((SIZE * SIZE) as nat);
        assert forall|c: Coord| #[trigger]
            self.min_cells().contains(c) <==> self.is_min_open(c) by {
            if self.is_min_open(c) {
                assert(c.flat() < SIZE * SIZE);
            }
        }
    }

    proof fn lemma_min_cells_upto(&self, k: nat)
        requires
            k <= SIZE * SIZE,
        ensures
            ascending(self.min_cells_upto(k)),
            forall|i: int|
                0 <= i < self.min_cells_upto(k).len() ==> (#[trigger] self.min_cells_upto(
                    k,
                )[i]).flat() < k,
            forall|c: Coord|
                #[trigger] self.min_cells_upto(k).contains(c) <==> self.is_min_open(c) && c.flat()
                    < k,
        decreases k,
    {
        if k > 0 {
            self.lemma_min_cells_upto((k - 1) as nat);
            let before = self.min_cells_upto((k - 1) as nat);
            let list = self.min_cells_upto(k);
            let p = coord_at(k - 1);
            assert(p.in_bounds() && p.flat() == k - 1);
            assert forall|c: Coord| c.in_bounds() && c.flat() == k - 1 implies c == p by {}
            assert forall|c: Coord| #[trigger]
                list.contains(c) <==> self.is_min_open(c) && c.flat() < k by {
                if list.contains(c) {
                    let i = choose|i: int| 0 <= i < list.len() && list[i] == c;
                    if i < before.len() {
                        assert(before[i] == c);
                        assert(before.contains(c));
                    }
                }
                if self.is_min_open(c) && c.flat() < k {
                    if c == p {
                        assert(list[before.len() as int] == c);
                    } else {
                        assert(before.contains(c));
                        let i = choose|i: int| 0 <= i < before.len() && before[i] == c;
                        assert(list[i] == c);
                    }
                }
            }
        }
    }

    /// Where some cell is open, some open cell has the fewest candidates.
    pub proof fn lemma_min_open_exists(&self)
        ensures
            self.has_open() <==> exists|c: Coord| self.is_min_open(c),
    {
        if self.has_open() {
            let c0 = choose|c: Coord| c.in_bounds() && !self.is_fixed(c);
            self.lemma_min_open_below(c0, self.count(c0));
        }
    }

    proof fn lemma_min_open_below(&self, c: Coord, n: nat)
        requires
            c.in_bounds(),
            !self.is_fixed(c),
            self.count(c) == n,
        ensures
            exists|m: Coord| self.is_min_open(m),
        decreases n,
    {
        if !self.is_min_open(c) {
            let p = choose|p: Coord|
                p.in_bounds() && !self.is_fixed(p) && self.count(p) < self.count(c);
            self.lemma_min_open_below(p, self.count(p));
        }
    }
}

/// Whether some peer of `c` holds the clue `v` on the board `rows`.
pub open spec fn clue_among_peers(rows: GridArray, c: Coord, v: u8) -> bool {
    exists|p: Coord|
        p.in_bounds() && is_peer(c, p) && rows[p.row as int][p.col as int] == Cell::Clue(v)
}

/// Whether some peer of `c` that comes before position `k` of the board holds
/// the clue `v`.
pub open spec fn clue_among_peers_before(rows: GridArray, c: Coord, v: u8, k: int) -> bool {
    exists|p: Coord|
        p.in_bounds() && p.flat() < k && is_peer(c, p) && rows[p.row as int][p.col as int]
            == Cell::Clue(v)
}

/// The domain that the cell at `c` starts with on the board `rows`.
fn seeded_domain(rows: &GridArray, c: Coord) -> (d: Domain)
    requires
        c.in_bounds(),
    ensures
        d is Fixed == (rows[c.row as int][c.col as int] is Clue),
        forall|w: u8|
            d.has(w) == (1 <= w <= SIZE && !(rows[c.row as int][c.col as int] is Clue)
                && !clue_among_peers(*rows, c, w)),
{
    if let Cell::Clue(_) = rows[c.row][c.col] {
        return Domain::Fixed;
    }
    let mut d = Domain::full();
    let mut k: usize = 0;
    while k < SIZE * SIZE
        invariant
            k <= SIZE * SIZE,
            c.in_bounds(),
            d is Open,
            forall|w: u8|
                d.has(w) == (1 <= w <= SIZE && !clue_among_peers_before(*rows, c, w, k as int)),
        decreases SIZE * SIZE - k,
    {
        let p = Coord { row: k / SIZE, col: k % SIZE };
        let ghost mid = d;
        assert(p.in_bounds() && p.flat() == k);
        assert forall|q: Coord| q.in_bounds() && q.flat() == k implies q == p by {}
        if peers(c, p) {
            if let Cell::Clue(v) = rows[p.row][p.col] {
                d = d.without(v);
            }
        }
        assert forall|w: u8|
            d.has(w) == (1 <= w <= SIZE && !clue_among_peers_before(
                *rows,
                c,
                w,
                k + 1,
            )) by {
            assert(mid.has(w) == (1 <= w <= SIZE && !clue_among_peers_before(
                *rows,
                c,
                w,
                k as int,
            )));
            if clue_among_peers_before(*rows, c, w, k + 1) {
                let q = choose|q: Coord|
                    q.in_bounds() && q.flat() < k + 1 && is_peer(c, q) && rows[q.row as int][q.col as int]
                        == Cell::Clue(w);
                if q != p {
                    assert(q.flat() < k);
                }
            }
            if is_peer(c, p) && rows[p.row as int][p.col as int] == Cell::Clue(w) {
                assert(clue_among_peers_before(*rows, c, w, k + 1));
            }
            if clue_among_peers_before(*rows, c, w, k as int) {
                let q = choose|q: Coord|
                    q.in_bounds() && q.flat() < k && is_peer(c, q) && rows[q.row as int][q.col as int]
                        == Cell::Clue(w);
                assert(q.flat() < k + 1);
            }
        }
        k += 1;
    }
    assert forall|w: u8|
        clue_among_peers(*rows, c, w) == clue_among_peers_before(*rows, c, w, k as int) by {
        if clue_among_peers(*rows, c, w) {
            let q = choose|q: Coord|
                q.in_bounds() && is_peer(c, q) && rows[q.row as int][q.col as int] == Cell::Clue(
                    w,
                );
            assert(q.flat() < k);
        }
    }
    d
}

/// Two matrices that agree on every cell of the board are equal.
pub proof fn lemma_agreement_is_equality(a: CandidateMatrix, b: CandidateMatrix)
    requires
        a.agrees_with(b),
    ensures
        a == b,
{
    assert forall|r: int| 0 <= r < SIZE implies a.cells[r] == b.cells[r] by {
        assert forall|c: int| 0 <= c < SIZE implies a.cells[r][c] == b.cells[r][c] by {
            let at = Coord { row: r as usize, col: c as usize };
            assert(at.in_bounds());
            assert(a.is_fixed(at) == b.is_fixed(at));
            match (a.dom(at), b.dom(at)) {
                (Domain::Open(x), Domain::Open(y)) => {
                    assert forall|i: int| 0 <= i < SIZE implies x[i] == y[i] by {
                        assert(a.has(at, (i + 1) as u8) == b.has(at, (i + 1) as u8));
                    }
                    assert(x =~= y);
                },
                _ => {},
            }
        }
        assert(a.cells[r] =~= b.cells[r]);
    }
    assert(a.cells =~= b.cells);
}

impl CandidateMatrix {
    /// The matrix of the board `rows`: the cells that hold a clue are fixed,
    /// and the value of every clue is taken away from its peers.
    pub fn from_cells(rows: &GridArray) -> (cm: CandidateMatrix)
        ensures
            cm.seeded_from(*rows),
            cm == seeded(*rows),
    {
        let mut cm = CandidateMatrix { cells: [[Domain::Fixed; SIZE]; SIZE] };
        let mut k: usize = 0;
        while k < SIZE * SIZE
            invariant
                k <= SIZE * SIZE,
                forall|c: Coord|
                    c.in_bounds() && c.flat() < k ==> cm.is_fixed(c) == (rows[c.row as int][c.col as int] is Clue),
                forall|c: Coord, w: u8|
                    c.in_bounds() && c.flat() < k ==> #[trigger] cm.has(c, w) == (1 <= w <= SIZE
                        && !(rows[c.row as int][c.col as int] is Clue) && !clue_among_peers(
                        *rows,
                        c,
                        w,
                    )),
            decreases SIZE * SIZE - k,
        {
            let p = Coord { row: k / SIZE, col: k % SIZE };
            let ghost mid = cm;
            assert(p.in_bounds() && p.flat() == k);
            assert forall|q: Coord| q.in_bounds() && q.flat() == k implies q == p by {}
            cm.cells[p.row][p.col] = seeded_domain(rows, p);
            assert forall|c: Coord| c.in_bounds() && c != p implies cm.dom(c) == mid.dom(c) by {}
            assert forall|c: Coord, w: u8| c.in_bounds() && c.flat() < k + 1 implies #[trigger] cm.has(
                c,
                w,
            ) == (1 <= w <= SIZE && !(rows[c.row as int][c.col as int] is Clue)
                && !clue_among_peers(*rows, c, w)) by {
                if c != p {
                    assert(c.flat() < k);
                    assert(mid.has(c, w) == cm.has(c, w));
                }
            }
            k += 1;
        }
        proof {
            assert forall|c: Coord| c.in_bounds() implies c.flat() < k by {}
            assert(cm.seeded_from(*rows));
            let chosen = seeded(*rows);
            assert(chosen.seeded_from(*rows));
            lemma_agreement_is_equality(cm, chosen);
        }
        cm
    }
}

impl From<GridArray> for CandidateMatrix {
    fn from(rows: GridArray) -> (cm: CandidateMatrix) {
        CandidateMatrix::from_cells(&rows)
    }
}

impl FromSpecImpl<GridArray> for CandidateMatrix {
    open spec fn obeys_from_spec() -> bool {
        true
    }

    open spec fn from_spec(rows: GridArray) -> CandidateMatrix {
        seeded(rows)
    }
}

/// The one matrix that is seeded from `rows`.
pub open spec fn seeded(rows: GridArray) -> CandidateMatrix {
    choose|cm: CandidateMatrix| cm.seeded_from(rows)
}

/// A matrix whose candidates are all candidates of another, and which lacks
/// one of them, has a smaller mass.
pub proof fn lemma_mass_drops(a: CandidateMatrix, b: CandidateMatrix, at: Coord, v: u8, k: nat)
    requires
        a.within(b),
        at.in_bounds(),
        b.has(at, v),
        !a.has(at, v),
        k <= SIZE * SIZE,
    ensures
        a.mass_upto(k) + (if at.flat() < k {
            1nat
        } else {
            0nat
        }) <= b.mass_upto(k),
    decreases k,
{
    if k > 0 {
        lemma_mass_drops(a, b, at, v, (k - 1) as nat);
        let c = coord_at(k - 1);
        assert(c.in_bounds() && c.flat() == k - 1);
        assert forall|w: u8| a.dom(c).has(w) implies b.dom(c).has(w) by {
            assert(a.has(c, w));
        }
        if c == at {
            lemma_count_strict(a.dom(c), b.dom(c), v, SIZE as nat);
        } else {
            lemma_count_monotone(a.dom(c), b.dom(c), SIZE as nat);
        }
    }
}

/// A smaller domain that lacks a candidate of the larger counts less.
pub proof fn lemma_count_strict(a: Domain, b: Domain, v: u8, n: nat)
    requires
        forall|w: u8| a.has(w) ==> b.has(w),
        b.has(v),
        !a.has(v),
        n <= SIZE,
    ensures
        a.count_upto(n) + (if v <= n {
            1nat
        } else {
            0nat
        }) <= b.count_upto(n),
    decreases n,
{
    if n > 0 {
        lemma_count_strict(a, b, v, (n - 1) as nat);
    }
}

} // verus!
