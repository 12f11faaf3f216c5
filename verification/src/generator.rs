//! Puzzles made by solving an empty board and taking cells away.

use std::time::{Duration, Instant};
use vstd::pervasive::unreached;
use vstd::prelude::*;

use crate::board::{
    cell_of, count_empty, is_solved, lemma_count_empty_same_places, lemma_count_empty_write,
    lemma_solved_peers_differ, peer_clash,
};
use crate::candidate_matrix::clue_among_peers;
use crate::cell::Cell;
use crate::coord::{coord_at, Coord};
use crate::geometry::is_peer;
use crate::grid::{base_value, lemma_base_value, Grid};
use crate::random::{choose_coords, choose_in_range};
use crate::solver::{
    assigned, completes, extends, fits, solvable, solve_backtracking_heuristics, valid,
    Assignment,
};
use crate::SIZE;

verus! {

/// [`Instant`], a reading of the clock: nothing is known of what it holds.
#[verifier::external_type_specification]
#[verifier::external_body]
pub struct ExInstant(Instant);

/// [`Instant::now`] reads the clock: nothing is known of what it returns.
pub assume_specification[ Instant::now ]() -> (now: Instant);

/// [`Instant::elapsed`] reads the clock: nothing is known of what it returns.
pub assume_specification[ Instant::elapsed ](start: &Instant) -> (elapsed: Duration);

/// How many cells a puzzle lacks.
#[derive(Debug, Copy, Clone, PartialEq, Eq, Structural)]
pub enum Difficulty {
    Easy,
    Medium,
    Hard,
}

impl Difficulty {
    /// The smallest number of cells that are taken away.
    pub open spec fn spec_lowest(self) -> usize {
        match self {
            Difficulty::Easy => 40,
            Difficulty::Medium => 46,
            Difficulty::Hard => 51,
        }
    }

    /// The number of cells that is no longer taken away.
    pub open spec fn spec_limit(self) -> usize {
        match self {
            Difficulty::Easy => 45,
            Difficulty::Medium => 50,
            Difficulty::Hard => 56,
        }
    }

    /// The number of cells that are taken away where none can be drawn.
    pub open spec fn spec_fallback(self) -> usize {
        match self {
            Difficulty::Easy => 43,
            Difficulty::Medium => 47,
            Difficulty::Hard => 53,
        }
    }

    /// The smallest number of cells that are taken away.
    #[verifier::when_used_as_spec(spec_lowest)]
    pub fn lowest(self) -> (n: usize)
        ensures
            n == self.spec_lowest(),
    {
        match self {
            Difficulty::Easy => 40,
            Difficulty::Medium => 46,
            Difficulty::Hard => 51,
        }
    }

    /// The number of cells that is no longer taken away.
    #[verifier::when_used_as_spec(spec_limit)]
    pub fn limit(self) -> (n: usize)
        ensures
            n == self.spec_limit(),
    {
        match self {
            Difficulty::Easy => 45,
            Difficulty::Medium => 50,
            Difficulty::Hard => 56,
        }
    }

    /// The number of cells that are taken away where none can be drawn.
    #[verifier::when_used_as_spec(spec_fallback)]
    pub fn fallback(self) -> (n: usize)
        ensures
            n == self.spec_fallback(),
    {
        match self {
            Difficulty::Easy => 43,
            Difficulty::Medium => 47,
            Difficulty::Hard => 53,
        }
    }
}

/// The number of cells to take away for the difficulty `d`: the number
/// drawn, or the fallback of `d` where none was drawn.
pub fn removal_count(d: Difficulty, draw: Option<usize>) -> (n: usize)
    ensures
        n == match draw {
            Some(k) => k,
            None => d.fallback(),
        },
{
    match draw {
        Some(k) => k,
        None => d.fallback(),
    }
}

/// The coordinates of all cells of the board in row-major order.
pub fn all_coords() -> (list: Vec<Coord>)
    ensures
        list.len() == SIZE * SIZE,
        forall|k: int| 0 <= k < SIZE * SIZE ==> #[trigger] list[k] == coord_at(k),
{
    let mut list: Vec<Coord> = Vec::new();
    let mut k: usize = 0;
    while k < SIZE * SIZE
        invariant
            k <= SIZE * SIZE,
            list.len() == k,
            forall|j: int| 0 <= j < k ==> #[trigger] list[j] == coord_at(j),
        decreases SIZE * SIZE - k,
    {
        list.push(Coord { row: k / SIZE, col: k % SIZE });
        k += 1;
    }
    list
}

/// Whether `p` is `g` with the filled cells at `removed` emptied and every
/// other filled cell turned into a clue.
pub open spec fn carved_from(p: Grid, g: Grid, removed: Seq<Coord>) -> bool {
    forall|c: Coord|
        c.in_bounds() ==> #[trigger] p.at(c) == (if removed.contains(c) && g.at(c) is Filled {
            Cell::Empty
        } else {
            g.at(c).as_clue()
        })
}

/// Turns the board `g` into a puzzle: the cells at `removed` are cleared,
/// the filled cells that are left become clues, and the candidates are built
/// anew from the clues.
pub fn carve(g: Grid, removed: &Vec<Coord>) -> (p: Grid)
    requires
        g.wf(),
        forall|i: int| 0 <= i < removed.len() ==> (#[trigger] removed[i]).in_bounds(),
    ensures
        p.wf(),
        carved_from(p, g, removed@),
        p.matrix().seeded_from(p.board()),
        removed@.no_duplicates() && (forall|i: int|
            0 <= i < removed.len() ==> g.at(#[trigger] removed[i]) is Filled) ==> count_empty(
            p.board(),
        ) == count_empty(g.board()) + removed.len(),
{
    let ghost all_filled = removed@.no_duplicates() && (forall|i: int|
        0 <= i < removed.len() ==> g.at(#[trigger] removed[i]) is Filled);
    let mut p = g;
    let mut i: usize = 0;
    while i < removed.len()
        invariant
            i <= removed.len(),
            p.wf(),
            forall|j: int| 0 <= j < removed.len() ==> (#[trigger] removed[j]).in_bounds(),
            all_filled == (removed@.no_duplicates() && (forall|j: int|
                0 <= j < removed.len() ==> g.at(#[trigger] removed[j]) is Filled)),
            forall|c: Coord|
                c.in_bounds() ==> #[trigger] p.at(c) == (if removed@.take(i as int).contains(c)
                    && g.at(c) is Filled {
                    Cell::Empty
                } else {
                    g.at(c)
                }),
            all_filled ==> count_empty(p.board()) == count_empty(g.board()) + i,
        decreases removed.len() - i,
    {
        let ghost mid = p;
        let at = removed[i];
        let _ = p.clear(at);
        proof {
            let shorter = removed@.take(i as int);
            let longer = removed@.take(i + 1);
            assert(longer[i as int] == at);
            assert forall|c: Coord| longer.contains(c) <==> shorter.contains(c) || c == at by {
                if shorter.contains(c) {
                    let j = choose|j: int| 0 <= j < shorter.len() && shorter[j] == c;
                    assert(longer[j] == c);
                }
                if longer.contains(c) {
                    let j = choose|j: int| 0 <= j < longer.len() && longer[j] == c;
                    if j < i {
                        assert(shorter[j] == c);
                    }
                }
            }
            assert forall|c: Coord| c.in_bounds() implies #[trigger] p.at(c) == (if longer.contains(
                c,
            ) && g.at(c) is Filled {
                Cell::Empty
            } else {
                g.at(c)
            }) by {
                assert(mid.at(c) == (if shorter.contains(c) && g.at(c) is Filled {
                    Cell::Empty
                } else {
                    g.at(c)
                }));
            }
            if all_filled {
                if shorter.contains(at) {
                    let j = choose|j: int| 0 <= j < shorter.len() && shorter[j] == at;
                    assert(removed@[j] == removed@[i as int]);
                }
                assert(g.at(removed[i as int]) is Filled);
                assert(mid.at(at) is Filled);
                lemma_count_empty_write(mid.board(), p.board(), at, (SIZE * SIZE) as nat);
            }
        }
        i += 1;
    }
    assert(removed@.take(removed.len() as int) =~= removed@);
    let ghost cleared = p;
    p.set_clues();
    p.reset_candidate_matrix();
    proof {
        assert forall|c: Coord| c.in_bounds() implies #[trigger] p.at(c) == (if removed@.contains(c)
            && g.at(c) is Filled {
            Cell::Empty
        } else {
            g.at(c).as_clue()
        }) by {
            assert(cleared.at(c) == (if removed@.contains(c) && g.at(c) is Filled {
                Cell::Empty
            } else {
                g.at(c)
            }));
        }
        assert forall|c: Coord| c.in_bounds() implies (cell_of(p.board(), c) is Empty) == (cell_of(
            cleared.board(),
            c,
        ) is Empty) by {
            assert(p.at(c) == cleared.at(c).as_clue());
        }
        lemma_count_empty_same_places(p.board(), cleared.board(), (SIZE * SIZE) as nat);
    }
    p
}

/// The value that the cell of `g` at `c` holds; 0 where it is empty.
pub open spec fn value_at(g: Grid, c: Coord) -> u8 {
    match g.at(c) {
        Cell::Clue(v) => v,
        Cell::Filled(v) => v,
        Cell::Empty => 0,
    }
}

/// The empty board can be completed: the shifted board does it.
pub proof fn lemma_empty_board_solvable(g: Grid)
    requires
        forall|c: Coord| c.in_bounds() ==> !#[trigger] g.matrix().is_fixed(c),
        forall|c: Coord, v: u8| c.in_bounds() ==> #[trigger] g.matrix().has(c, v) == (1 <= v <= SIZE),
    ensures
        solvable(g),
{
    let s: Assignment = |c: Coord| base_value(c.row as int, c.col as int) as u8;
    assert forall|a: Coord, b: Coord| a.in_bounds() && b.in_bounds() && is_peer(a, b) implies #[trigger] assigned(
        s,
        a,
    ) != #[trigger] assigned(s, b) by {
        lemma_base_value(a, b);
        lemma_base_value(b, a);
    }
    assert forall|c: Coord| c.in_bounds() implies #[trigger] fits(s, g.board(), g.matrix(), c) by {
        lemma_base_value(c, c);
    }
    assert(completes(s, g));
}

/// A puzzle carved from a solved board can be completed: the solved board
/// does it.
pub proof fn lemma_carved_solvable(p: Grid, g: Grid, removed: Seq<Coord>)
    requires
        is_solved(g.board()),
        forall|c: Coord| c.in_bounds() ==> (#[trigger] g.at(c)) is Filled && 1 <= value_at(g, c) <= SIZE,
        carved_from(p, g, removed),
        p.matrix().seeded_from(p.board()),
    ensures
        solvable(p),
{
    let s: Assignment = |c: Coord| value_at(g, c);
    lemma_solved_peers_differ(g.board());
    assert forall|a: Coord, b: Coord| a.in_bounds() && b.in_bounds() && is_peer(a, b) implies #[trigger] assigned(
        s,
        a,
    ) != #[trigger] assigned(s, b) by {
        assert(!peer_clash(g.board(), a, b));
        assert(g.at(a) is Filled && g.at(b) is Filled);
    }
    assert forall|c: Coord| c.in_bounds() implies #[trigger] fits(s, p.board(), p.matrix(), c) by {
        assert(g.at(c) is Filled && 1 <= value_at(g, c) <= SIZE);
        assert(p.at(c) == (if removed.contains(c) && g.at(c) is Filled {
            Cell::Empty
        } else {
            g.at(c).as_clue()
        }));
        if !(p.at(c) is Clue) {
            if clue_among_peers(p.board(), c, assigned(s, c)) {
                let q = choose|q: Coord|
                    q.in_bounds() && is_peer(c, q) && p.board()[q.row as int][q.col as int]
                        == Cell::Clue(assigned(s, c));
                assert(p.at(q) == (if removed.contains(q) && g.at(q) is Filled {
                    Cell::Empty
                } else {
                    g.at(q).as_clue()
                }));
                assert(g.at(q) is Filled);
                assert(assigned(s, q) == assigned(s, c));
            }
        }
    }
    assert(completes(s, p));
}

/// Whether `p` is a puzzle of difficulty `d`: every cell is empty or holds
/// a clue with a value of the board, the candidates are those that the
/// clues leave, the number of empty cells is in the range of `d`, and the
/// puzzle can be completed.
pub open spec fn is_puzzle(p: Grid, d: Difficulty) -> bool {
    &&& p.wf()
    &&& forall|c: Coord| c.in_bounds() ==> !(#[trigger] p.at(c) is Filled)
    &&& forall|c: Coord|
        c.in_bounds() ==> (#[trigger] p.at(c) matches Cell::Clue(v) ==> 1 <= v <= SIZE)
    &&& p.matrix().seeded_from(p.board())
    &&& d.lowest() <= count_empty(p.board()) < d.limit()
    &&& solvable(p)
}

/// A puzzle of difficulty `d`, and the time it took to make.
///
/// An empty board is solved with random choices; then a number of cells in
/// the range of `d` is drawn, that many different cells are picked at random
/// and cleared, and the cells that are left become the clues. The puzzle has
/// a solution; it may have more than one.
pub fn generate(d: Difficulty) -> (r: (Grid, Duration))
    ensures
        is_puzzle(r.0, d),
{
    let now = Instant::now();
    let empty = Grid::new();
    proof {
        lemma_empty_board_solvable(empty);
    }
    let solution = match solve_backtracking_heuristics(empty) {
        Some(g) => g,
        None => unreached(),
    };
    let coords = all_coords();
    let to_delete = removal_count(d, choose_in_range(d.lowest(), d.limit()));
    let removed = choose_coords(&coords, to_delete);
    proof {
        crate::board::lemma_count_empty_zero(solution.board());
        assert forall|c: Coord| c.in_bounds() implies solution.at(c) is Filled && 1 <= value_at(
            solution,
            c,
        ) <= SIZE by {
            assert(!(cell_of(solution.board(), c) is Empty));
            assert(solution.at(c) == empty.at(c) || (!empty.matrix().is_fixed(c) && (exists|v: u8|
                solution.at(c) == Cell::Filled(v) && empty.matrix().has(c, v))));
        }
        let positions = choose|positions: Seq<int>|
            positions.len() == removed.len() && positions.no_duplicates() && forall|i: int|
                0 <= i < removed.len() ==> 0 <= #[trigger] positions[i] < coords.len() && removed[i]
                    == coords[positions[i]];
        assert forall|i: int| 0 <= i < removed.len() implies (#[trigger] removed[i]).in_bounds() by {
            assert(removed[i] == coords[positions[i]]);
        }
        assert forall|i: int, j: int|
            0 <= i < removed.len() && 0 <= j < removed.len() && i != j implies removed[i]
            != removed[j] by {
            assert(removed[i] == coords[positions[i]]);
            assert(removed[j] == coords[positions[j]]);
            assert(positions[i] != positions[j]);
        }
    }
    let mut puzzle = carve(solution, &removed);
    proof {
        lemma_carved_solvable(puzzle, solution, removed@);
        assert forall|c: Coord| c.in_bounds() implies !(#[trigger] puzzle.at(c) is Filled) && (
        puzzle.at(c) matches Cell::Clue(v) ==> 1 <= v <= SIZE) by {
            assert(puzzle.at(c) == (if removed@.contains(c) && solution.at(c) is Filled {
                Cell::Empty
            } else {
                solution.at(c).as_clue()
            }));
            assert(solution.at(c) is Filled && 1 <= value_at(solution, c) <= SIZE);
        }
    }
    (puzzle, now.elapsed())
}

/// Every assignment that completes a puzzle gives every cell a value of the
/// board, and different values to any two cells that share a row, a column
/// or a box: its rows, columns and boxes hold each of the values once.
pub proof fn lemma_completion_in_range(p: Grid, d: Difficulty, s: Assignment)
    requires
        is_puzzle(p, d),
        completes(s, p),
    ensures
        valid(s),
        forall|c: Coord| c.in_bounds() ==> 1 <= #[trigger] assigned(s, c) <= SIZE,
        forall|c: Coord|
            c.in_bounds() ==> (#[trigger] p.at(c) matches Cell::Clue(v) ==> assigned(s, c) == v),
{
    p.lemma_wf();
    assert forall|c: Coord| c.in_bounds() implies 1 <= #[trigger] assigned(s, c) <= SIZE && (p.at(
        c,
    ) matches Cell::Clue(v) ==> assigned(s, c) == v) by {
        assert(fits(s, p.board(), p.matrix(), c));
        assert(!(p.at(c) is Filled));
        assert(p.at(c) matches Cell::Clue(v) ==> 1 <= v <= SIZE);
        assert(p.matrix().is_fixed(c) == (p.at(c) is Clue));
    }
}

/// A puzzle of the easy kind lacks fewer cells than one of the medium kind,
/// and that one fewer than one of the hard kind.
pub proof fn lemma_harder_lacks_more(easy: Grid, medium: Grid, hard: Grid)
    requires
        is_puzzle(easy, Difficulty::Easy),
        is_puzzle(medium, Difficulty::Medium),
        is_puzzle(hard, Difficulty::Hard),
    ensures
        count_empty(easy.board()) < count_empty(medium.board()) < count_empty(hard.board()),
{
}

} // verus!
