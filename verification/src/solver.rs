//! Backtracking search that always branches on an open cell with the fewest
//! candidates, and checks after every placement that no cell is left without
//! one.

use vstd::prelude::*;

use crate::board::{
    cell_of, is_full, is_solved, lemma_peers_differ_solved, peer_clash, peers_differ,
};
use crate::candidate_matrix::{lemma_mass_drops, CandidateMatrix};
use crate::cell::Cell;
use crate::coord::Coord;
use crate::decision::Decision;
use crate::geometry::is_peer;
use crate::grid::Grid;
use crate::{GridArray, SIZE};

verus! {

/// A value for every cell of the board.
pub type Assignment = spec_fn(Coord) -> u8;

/// The value that `s` gives to the cell at `c`.
pub open spec fn assigned(s: Assignment, c: Coord) -> u8 {
    s(c)
}

/// Whether `s` gives different values to any two peers.
pub open spec fn valid(s: Assignment) -> bool {
    forall|a: Coord, b: Coord|
        a.in_bounds() && b.in_bounds() && is_peer(a, b) ==> #[trigger] assigned(s, a)
            != #[trigger] assigned(s, b)
}

/// Whether the value that `s` gives to the cell at `c` fits the board: a
/// fixed cell holds it, an open cell has it as a candidate.
pub open spec fn fits(s: Assignment, rows: GridArray, matrix: CandidateMatrix, c: Coord) -> bool {
    if matrix.is_fixed(c) {
        cell_of(rows, c).value() == Some(assigned(s, c))
    } else {
        matrix.has(c, assigned(s, c))
    }
}

/// Whether `s` completes the board `g`: it gives different values to any two
/// peers, and the value of every cell fits.
pub open spec fn completes(s: Assignment, g: Grid) -> bool {
    &&& valid(s)
    &&& forall|c: Coord| c.in_bounds() ==> #[trigger] fits(s, g.board(), g.matrix(), c)
}

/// Whether the search can lead from `g` to a solved board: some assignment
/// completes `g`.
pub open spec fn solvable(g: Grid) -> bool {
    exists|s: Assignment| completes(s, g)
}

/// Whether the board `h` continues the board `g`: what was fixed stays as it
/// was, no cell has a candidate that it did not have, and a cell that changed
/// was open and holds one of its candidates.
pub open spec fn extends(h: Grid, g: Grid) -> bool {
    &&& forall|c: Coord|
        c.in_bounds() && g.matrix().is_fixed(c) ==> #[trigger] h.matrix().is_fixed(c)
    &&& h.matrix().within(g.matrix())
    &&& forall|c: Coord|
        c.in_bounds() ==> #[trigger] h.at(c) == g.at(c) || (!g.matrix().is_fixed(c) && (exists|
            v: u8,
        |
            h.at(c) == Cell::Filled(v) && g.matrix().has(c, v)))
}

/// A point to which the search can return: the board before a value was
/// placed, and the record of the placement.
pub struct Frame {
    pub before: Grid,
    pub decision: Decision,
}

impl Frame {
    /// What holds of every point of return: the value was a candidate of the
    /// cell.
    pub open spec fn wf(&self) -> bool {
        &&& self.before.wf()
        &&& self.decision.cell.in_bounds()
        &&& self.before.matrix().has(self.decision.cell, self.decision.value())
    }

    /// Whether `s` completes the board before the placement and gives the
    /// cell another value than the one placed.
    pub open spec fn alternative(&self, s: Assignment) -> bool {
        completes(s, self.before) && assigned(s, self.decision.cell) != self.decision.value()
    }
}

/// Whether `s` can still be reached by going back to one of `frames`.
pub open spec fn pending(frames: Seq<Frame>, s: Assignment) -> bool {
    exists|i: int| 0 <= i < frames.len() && #[trigger] frames[i].alternative(s)
}

/// Whether the search from `g` with the points of return `frames` can still
/// reach `s`.
pub open spec fn covered(s: Assignment, g: Grid, frames: Seq<Frame>) -> bool {
    completes(s, g) || pending(frames, s)
}

/// A bound on the steps of a search from a board of mass `m`.
pub open spec fn budget(m: int) -> nat
    decreases m,
{
    if m <= 0 {
        1
    } else {
        2 * budget(m - 1) + 1
    }
}

/// A bound on the steps that the points of return `frames` can still cause.
pub open spec fn stack_budget(frames: Seq<Frame>) -> nat
    decreases frames.len(),
{
    if frames.len() == 0 {
        0
    } else {
        stack_budget(frames.drop_last()) + budget(frames.last().before.matrix().mass() - 1)
    }
}

/// The bound grows with the mass.
pub proof fn lemma_budget_monotone(m: int, n: int)
    requires
        m <= n,
    ensures
        budget(m) <= budget(n),
    decreases n,
{
    if m < n && n > 0 {
        lemma_budget_monotone(m, n - 1);
    }
}

/// Tries the values of `candidates` at `target`, in their order, until one is
/// accepted. Returns the record of the placement, or `None`, with the board
/// as it was, where every value is refused.
pub fn try_candidates(g: &mut Grid, target: Coord, candidates: &Vec<u8>) -> (r: Option<Decision>)
    requires
        old(g).wf(),
        target.in_bounds(),
    ensures
        final(g).wf(),
        old(g).candidates_respect_peers() ==> final(g).candidates_respect_peers(),
        match r {
            Some(d) => {
                &&& d.cell == target
                &&& d.val == Cell::Filled(d.value())
                &&& exists|i: int|
                    0 <= i < candidates.len() && #[trigger] candidates[i] == d.value() && forall|
                        j: int,
                    |
                        0 <= j < i ==> old(g).update_refusal(target, #[trigger] candidates[j])
                            is Some
                &&& old(g).update_refusal(target, d.value()) is None
                &&& final(g).updated_from(*old(g), target, d.value())
                &&& old(g).matrix().is_changed_list(d.candidates_changed@, target, d.value())
                &&& d.prev_cell_candidates@ == candidates@
                &&& d.forced == (candidates.len() == 1)
            },
            None => {
                &&& *final(g) == *old(g)
                &&& forall|i: int|
                    0 <= i < candidates.len() ==> old(g).update_refusal(
                        target,
                        #[trigger] candidates[i],
                    ) is Some
            },
        },
{
    let mut i: usize = 0;
    while i < candidates.len()
        invariant
            i <= candidates.len(),
            *g == *old(g),
            g.wf(),
            target.in_bounds(),
            forall|j: int|
                0 <= j < i ==> g.update_refusal(target, #[trigger] candidates[j]) is Some,
        decreases candidates.len() - i,
    {
        let val = candidates[i];
        match g.update(target, val) {
            Ok(changed) => {
                assert(candidates[i as int] == val);
                return Some(
                    Decision::new(
                        target,
                        Cell::Filled(val),
                        changed,
                        candidates.clone(),
                        candidates.len() == 1,
                    ),
                );
            },
            Err(_) => {},
        }
        i += 1;
    }
    None
}

/// Every board continues itself.
pub proof fn lemma_extends_itself(g: Grid)
    ensures
        extends(g, g),
{
}

/// A board with a value placed continues what the board before continued.
pub proof fn lemma_extends_update(h: Grid, g: Grid, start: Grid, cell: Coord, val: u8)
    requires
        extends(g, start),
        cell.in_bounds(),
        g.update_refusal(cell, val) is None,
        h.updated_from(g, cell, val),
    ensures
        extends(h, start),
{
    assert forall|c: Coord| c.in_bounds() && start.matrix().is_fixed(c) implies #[trigger] h.matrix().is_fixed(
        c,
    ) by {
        assert(g.matrix().is_fixed(c));
    }
    assert forall|c: Coord, w: u8| c.in_bounds() && #[trigger] h.matrix().has(
        c,
        w,
    ) implies start.matrix().has(c, w) by {
        assert(g.matrix().has(c, w));
    }
    assert forall|c: Coord| c.in_bounds() implies #[trigger] h.at(c) == start.at(c) || (
    !start.matrix().is_fixed(c) && (exists|v: u8|
        h.at(c) == Cell::Filled(v) && start.matrix().has(c, v))) by {
        if c == cell {
            assert(g.matrix().has(cell, val));
            assert(start.matrix().has(cell, val));
            assert(h.at(c) == Cell::Filled(val));
        } else {
            assert(h.at(c) == g.at(c));
            assert(g.at(c) == start.at(c) || (!start.matrix().is_fixed(c) && (exists|v: u8|
                g.at(c) == Cell::Filled(v) && start.matrix().has(c, v))));
        }
    }
}

/// A board with a candidate taken away continues what the board before
/// continued.
pub proof fn lemma_extends_remove(h: Grid, g: Grid, start: Grid)
    requires
        extends(g, start),
        h.board() == g.board(),
        forall|c: Coord| c.in_bounds() ==> #[trigger] h.matrix().is_fixed(c) == g.matrix().is_fixed(c),
        h.matrix().within(g.matrix()),
    ensures
        extends(h, start),
{
    assert forall|c: Coord| c.in_bounds() && start.matrix().is_fixed(c) implies #[trigger] h.matrix().is_fixed(
        c,
    ) by {
        assert(g.matrix().is_fixed(c));
    }
    assert forall|c: Coord, w: u8| c.in_bounds() && #[trigger] h.matrix().has(
        c,
        w,
    ) implies start.matrix().has(c, w) by {
        assert(g.matrix().has(c, w));
    }
    assert forall|c: Coord| c.in_bounds() implies #[trigger] h.at(c) == start.at(c) || (
    !start.matrix().is_fixed(c) && (exists|v: u8|
        h.at(c) == Cell::Filled(v) && start.matrix().has(c, v))) by {
        assert(h.at(c) == g.at(c));
        assert(g.at(c) == start.at(c) || (!start.matrix().is_fixed(c) && (exists|v: u8|
            g.at(c) == Cell::Filled(v) && start.matrix().has(c, v))));
    }
}

/// After a value is placed and a point of return is kept, the search can
/// reach what it could reach before.
pub proof fn lemma_push_covers(g: Grid, h: Grid, frames: Seq<Frame>, f: Frame, s: Assignment)
    requires
        f.before == g,
        f.decision.cell.in_bounds(),
        h.updated_from(g, f.decision.cell, f.decision.value()),
        covered(s, g, frames),
    ensures
        covered(s, h, frames.push(f)),
{
    let t = f.decision.cell;
    let v = f.decision.value();
    let next = frames.push(f);
    if pending(frames, s) {
        let i = choose|i: int| 0 <= i < frames.len() && #[trigger] frames[i].alternative(s);
        assert(next[i] == frames[i]);
        assert(next[i].alternative(s));
    } else if assigned(s, t) == v {
        assert forall|c: Coord| c.in_bounds() implies #[trigger] fits(
            s,
            h.board(),
            h.matrix(),
            c,
        ) by {
            assert(fits(s, g.board(), g.matrix(), c));
            assert(h.at(c) == (if c == t {
                Cell::Filled(v)
            } else {
                g.at(c)
            }));
            assert(h.matrix().is_fixed(c) == (c == t || g.matrix().is_fixed(c)));
            if c != t && is_peer(t, c) {
                assert(assigned(s, t) != assigned(s, c));
            }
        }
    } else {
        assert(next[frames.len() as int] == f);
        assert(next[frames.len() as int].alternative(s));
    }
}

/// No assignment completes a board on which every candidate of an open cell
/// is refused.
pub proof fn lemma_refused_everywhere(g: Grid, target: Coord, s: Assignment)
    requires
        g.wf(),
        target.in_bounds(),
        !g.matrix().is_fixed(target),
        forall|v: u8| g.matrix().has(target, v) ==> g.update_refusal(target, v) is Some,
    ensures
        !completes(s, g),
{
    if completes(s, g) {
        let v = assigned(s, target);
        assert(fits(s, g.board(), g.matrix(), target));
        g.lemma_wf();
        assert(!(cell_of(g.board(), target) is Clue));
        assert(g.matrix().strands(target, v));
        let p = choose|p: Coord| g.matrix().stranded_at(target, v, p);
        assert(fits(s, g.board(), g.matrix(), p));
        assert(assigned(s, p) == v);
        assert(assigned(s, target) != assigned(s, p));
    }
}

/// No assignment completes a board that is not solved and has no open cell.
pub proof fn lemma_nothing_open(g: Grid, s: Assignment)
    requires
        !g.matrix().has_open(),
        !is_solved(g.board()),
    ensures
        !completes(s, g),
{
    if completes(s, g) {
        let rows = g.board();
        assert forall|c: Coord| c.in_bounds() implies cell_of(rows, c).value() == Some(
            assigned(s, c),
        ) by {
            assert(fits(s, rows, g.matrix(), c));
        }
        assert forall|c: Coord| c.in_bounds() implies !(#[trigger] cell_of(rows, c) is Empty) by {
            assert(cell_of(rows, c).value() == Some(assigned(s, c)));
        }
        assert forall|a: Coord, b: Coord|
            a.in_bounds() && b.in_bounds() && is_peer(a, b) implies !#[trigger] peer_clash(
            rows,
            a,
            b,
        ) by {
            assert(cell_of(rows, a).value() == Some(assigned(s, a)));
            assert(cell_of(rows, b).value() == Some(assigned(s, b)));
            assert(assigned(s, a) != assigned(s, b));
        }
        lemma_peers_differ_solved(rows);
    }
}

/// After the search has gone back to the last point of return and taken the
/// value placed there away, it can reach what it could reach before, where
/// the board it left could not be completed.
pub proof fn lemma_pop_covers(g: Grid, h: Grid, frames: Seq<Frame>, s: Assignment)
    requires
        frames.len() > 0,
        frames.last().wf(),
        h.board() == frames.last().before.board(),
        forall|c: Coord|
            c.in_bounds() ==> #[trigger] h.matrix().is_fixed(c) == frames.last().before.matrix().is_fixed(c),
        forall|c: Coord, w: u8|
            c.in_bounds() ==> #[trigger] h.matrix().has(c, w) == (
            frames.last().before.matrix().has(c, w) && !(c == frames.last().decision.cell && w
                == frames.last().decision.value())),
        !completes(s, g),
        covered(s, g, frames),
    ensures
        covered(s, h, frames.drop_last()),
{
    let f = frames.last();
    let rest = frames.drop_last();
    let i = choose|i: int| 0 <= i < frames.len() && #[trigger] frames[i].alternative(s);
    if i < rest.len() {
        assert(rest[i] == frames[i]);
        assert(rest[i].alternative(s));
    } else {
        assert(f.alternative(s));
        assert forall|c: Coord| c.in_bounds() implies #[trigger] fits(
            s,
            h.board(),
            h.matrix(),
            c,
        ) by {
            assert(fits(s, f.before.board(), f.before.matrix(), c));
        }
    }
}

/// A solved board that continues `g` shows that `g` can be completed, where
/// every open cell of `g` is empty: on such a board the search succeeds
/// exactly when a solved board continues it.
pub proof fn lemma_extension_completes(h: Grid, g: Grid)
    requires
        is_solved(h.board()),
        extends(h, g),
        forall|c: Coord| c.in_bounds() && !g.matrix().is_fixed(c) ==> (#[trigger] g.at(c)) is Empty,
    ensures
        solvable(g),
{
    let rows = h.board();
    let s: Assignment = |c: Coord|
        match cell_of(rows, c) {
            Cell::Clue(v) => v,
            Cell::Filled(v) => v,
            Cell::Empty => 0,
        };
    crate::board::lemma_solved_peers_differ(rows);
    assert forall|a: Coord, b: Coord| a.in_bounds() && b.in_bounds() && is_peer(a, b) implies #[trigger] assigned(
        s,
        a,
    ) != #[trigger] assigned(s, b) by {
        assert(!peer_clash(rows, a, b));
        assert(!(cell_of(rows, a) is Empty));
        assert(!(cell_of(rows, b) is Empty));
    }
    assert forall|c: Coord| c.in_bounds() implies #[trigger] fits(s, g.board(), g.matrix(), c) by {
        assert(!(cell_of(rows, c) is Empty));
        assert(h.at(c) == g.at(c) || (!g.matrix().is_fixed(c) && (exists|v: u8|
            h.at(c) == Cell::Filled(v) && g.matrix().has(c, v))));
    }
    assert(completes(s, g));
}

/// Searches for a solved board that continues `g`, branching on an open cell
/// with the fewest candidates: the first such cell where `random` is false,
/// one picked at random otherwise.
fn search(g: Grid, random: bool) -> (r: Option<Grid>)
    requires
        g.wf(),
    ensures
        r matches Some(h) ==> h.wf() && h.solved() && is_solved(h.board()) && extends(h, g) && (
        g.candidates_respect_peers() ==> h.candidates_respect_peers()),
        solvable(g) ==> r is Some,
{
    let mut cur = g;
    let mut frames: Vec<Frame> = Vec::new();
    proof {
        lemma_extends_itself(g);
    }
    loop
        invariant
            g.wf(),
            cur.wf(),
            extends(cur, g),
            forall|i: int|
                0 <= i < frames.len() ==> (#[trigger] frames[i]).wf() && extends(
                    frames[i].before,
                    g,
                ) && (g.candidates_respect_peers() ==> frames[i].before.candidates_respect_peers()),
            g.candidates_respect_peers() ==> cur.candidates_respect_peers(),
            forall|s: Assignment| #[trigger] completes(s, g) ==> covered(s, cur, frames@),
        decreases budget(cur.matrix().mass() as int) + stack_budget(frames@),
    {
        proof {
            cur.lemma_wf();
        }
        if cur.solved() {
            return Some(cur);
        }
        let target = if random {
            cur.get_min_candidates_cell()
        } else {
            cur.first_min_candidates_cell()
        };
        let ghost before = cur;
        let ghost frames_before = frames@;
        let mut placed = false;
        if let Some(t) = target {
            let candidates = cur.candidates_at(t);
            let snapshot = cur;
            if let Some(decision) = try_candidates(&mut cur, t, &candidates) {
                let frame = Frame { before: snapshot, decision };
                proof {
                    let v = frame.decision.value();
                    lemma_extends_update(cur, before, g, t, v);
                    assert forall|s: Assignment| #[trigger] completes(s, g) implies covered(
                        s,
                        cur,
                        frames@.push(frame),
                    ) by {
                        lemma_push_covers(before, cur, frames@, frame, s);
                    }
                    assert(frames@.push(frame).drop_last() =~= frames@);
                    assert(cur.matrix().within(before.matrix()));
                    lemma_mass_drops(cur.matrix(), before.matrix(), t, v, (SIZE * SIZE) as nat);
                    lemma_budget_monotone(
                        cur.matrix().mass() as int,
                        before.matrix().mass() - 1,
                    );
                }
                frames.push(frame);
                placed = true;
            } else {
                proof {
                    assert forall|v: u8| cur.matrix().has(t, v) implies cur.update_refusal(
                        t,
                        v,
                    ) is Some by {
                        assert(candidates@.contains(v));
                        let i = choose|i: int| 0 <= i < candidates@.len() && candidates@[i] == v;
                        assert(cur.update_refusal(t, candidates[i]) is Some);
                    }
                    assert forall|s: Assignment| !completes(s, cur) by {
                        lemma_refused_everywhere(cur, t, s);
                    }
                }
            }
        } else {
            proof {
                assert forall|s: Assignment| !completes(s, cur) by {
                    lemma_nothing_open(cur, s);
                }
            }
        }
        if !placed {
            match frames.pop() {
                None => {
                    proof {
                        if solvable(g) {
                            let s = choose|s: Assignment| completes(s, g);
                            assert(covered(s, cur, frames@));
                        }
                    }
                    return None;
                },
                Some(frame) => {
                    assert(frame == frames_before[frames_before.len() - 1]);
                    assert(frames@ =~= frames_before.drop_last());
                    cur = frame.before;
                    cur.remove_candidate(frame.decision.cell, frame.decision.placed());
                    proof {
                        assert(frame.wf());
                        lemma_extends_remove(cur, frame.before, g);
                        assert forall|s: Assignment| #[trigger] completes(s, g) implies covered(
                            s,
                            cur,
                            frames@,
                        ) by {
                            lemma_pop_covers(before, cur, frames_before, s);
                        }
                        lemma_mass_drops(
                            cur.matrix(),
                            frame.before.matrix(),
                            frame.decision.cell,
                            frame.decision.value(),
                            (SIZE * SIZE) as nat,
                        );
                        lemma_budget_monotone(
                            cur.matrix().mass() as int,
                            frame.before.matrix().mass() - 1,
                        );
                    }
                },
            }
        }
    }
}

/// Solves the board `g`, picking at random among the open cells with the
/// fewest candidates.
///
/// Returns a solved board that continues `g`, or `None` where the search
/// finds none. It finds one whenever some assignment completes `g`.
pub fn solve_backtracking_heuristics(g: Grid) -> (r: Option<Grid>)
    requires
        g.wf(),
    ensures
        r matches Some(h) ==> h.wf() && h.solved() && is_solved(h.board()) && extends(h, g) && (
        g.candidates_respect_peers() ==> h.candidates_respect_peers()),
        solvable(g) ==> r is Some,
{
    search(g, true)
}

/// Solves the board `g`, always taking the first open cell, in row-major
/// order, among those with the fewest candidates, and its candidates in
/// ascending order: the same board gives the same result.
///
/// Returns a solved board that continues `g`, or `None` where the search
/// finds none. It finds one whenever some assignment completes `g`.
pub fn solve_first_found(g: Grid) -> (r: Option<Grid>)
    requires
        g.wf(),
    ensures
        r matches Some(h) ==> h.wf() && h.solved() && is_solved(h.board()) && extends(h, g) && (
        g.candidates_respect_peers() ==> h.candidates_respect_peers()),
        solvable(g) ==> r is Some,
{
    search(g, false)
}

} // verus!
