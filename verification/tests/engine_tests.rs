use sudoku::candidate_matrix::CandidateMatrix;
use sudoku::generator::{all_coords, carve, removal_count};
use sudoku::render::render;
use sudoku::{
    generate, get_base_solution, row_coords_to_box_coords, solve_backtracking_heuristics,
    solve_first_found, Cell, Coord, Difficulty, ErrorKind, Grid, GridTrait, SIZE,
};

fn at(row: usize, col: usize) -> Coord {
    Coord { row, col }
}

fn is_peer(a: Coord, b: Coord) -> bool {
    a != b && (a.row == b.row || a.col == b.col || (a.row / 3 == b.row / 3 && a.col / 3 == b.col / 3))
}

fn base_as_filled() -> [[Cell; SIZE]; SIZE] {
    get_base_solution().map(|row| {
        row.map(|cell| match cell {
            Cell::Clue(v) => Cell::Filled(v),
            other => other,
        })
    })
}

/// A puzzle with 26 clues and its solution, row by row; 0 stands for an
/// empty cell.
const PUZZLE: [[u8; 9]; 9] = [
    [5, 3, 0, 0, 7, 0, 0, 0, 0],
    [6, 0, 0, 1, 9, 5, 0, 0, 0],
    [0, 9, 8, 0, 0, 0, 0, 6, 0],
    [8, 0, 0, 0, 6, 0, 0, 0, 3],
    [4, 0, 0, 8, 0, 3, 0, 0, 1],
    [7, 0, 0, 0, 2, 0, 0, 0, 6],
    [0, 6, 0, 0, 0, 0, 2, 8, 0],
    [0, 0, 0, 4, 1, 9, 0, 0, 5],
    [0, 0, 0, 0, 8, 0, 0, 7, 9],
];

const SOLVED: [[u8; 9]; 9] = [
    [5, 3, 4, 6, 7, 8, 9, 1, 2],
    [6, 7, 2, 1, 9, 5, 3, 4, 8],
    [1, 9, 8, 3, 4, 2, 5, 6, 7],
    [8, 5, 9, 7, 6, 1, 4, 2, 3],
    [4, 2, 6, 8, 5, 3, 7, 9, 1],
    [7, 1, 3, 9, 2, 4, 8, 5, 6],
    [9, 6, 1, 5, 3, 7, 2, 8, 4],
    [2, 8, 7, 4, 1, 9, 6, 3, 5],
    [3, 4, 5, 2, 8, 6, 1, 7, 9],
];

fn clues(values: [[u8; 9]; 9]) -> [[Cell; SIZE]; SIZE] {
    values.map(|row| row.map(|v| if v == 0 { Cell::Empty } else { Cell::Clue(v) }))
}

fn values_of(g: &Grid) -> [[u8; 9]; 9] {
    g.rows().map(|row| {
        row.map(|cell| match cell {
            Cell::Clue(v) => v,
            Cell::Filled(v) => v,
            Cell::Empty => 0,
        })
    })
}

fn assert_valid_solution(g: &Grid) {
    for group in g.rows().iter().chain(g.cols().iter()).chain(g.boxes().iter()) {
        let mut values: Vec<u8> = group
            .iter()
            .map(|cell| match cell {
                Cell::Clue(v) => *v,
                Cell::Filled(v) => *v,
                Cell::Empty => 0,
            })
            .collect();
        values.sort();
        assert_eq!(values, vec![1, 2, 3, 4, 5, 6, 7, 8, 9]);
    }
}

#[test]
fn full_board_without_duplicates_is_solved() {
    let g = Grid::from_rows(get_base_solution());
    assert!(g.solved());
    assert_eq!(g.empty_cell_count(), 0);

    let filled = Grid::from_rows(base_as_filled());
    assert!(filled.solved());
    assert_eq!(filled.empty_cell_count(), 0);
}

#[test]
fn full_board_with_a_duplicate_is_not_solved() {
    let mut rows = get_base_solution();
    rows[0][0] = Cell::Clue(2);
    let g = Grid::from_rows(rows);

    assert!(!g.solved());
    assert_eq!(g.empty_cell_count(), 0);
}

#[test]
fn clue_and_filled_of_the_same_value_are_a_duplicate() {
    let mut rows = get_base_solution();
    rows[0][0] = Cell::Filled(2);
    let g = Grid::from_rows(rows);

    assert!(!g.solved());
}

#[test]
fn new_board_is_empty_and_unsolved() {
    let g = Grid::new();

    assert_eq!(g.rows(), &[[Cell::Empty; SIZE]; SIZE]);
    assert_eq!(g.empty_cell_count(), 81);
    assert!(!g.solved());
    assert_eq!(g.candidates_at(at(8, 8)), vec![1, 2, 3, 4, 5, 6, 7, 8, 9]);
    let by_default = Grid::default();
    assert_eq!(by_default.rows(), g.rows());
    assert_eq!(by_default.empty_cell_count(), 81);
}

#[test]
fn update_on_a_clue_is_refused_and_changes_nothing() {
    let mut rows = [[Cell::Empty; SIZE]; SIZE];
    rows[3][4] = Cell::Clue(7);
    let mut g = Grid::from_rows(rows);
    let before = g;

    for val in 0..=10u8 {
        let e = g.update(at(3, 4), val).unwrap_err();
        assert_eq!(e.kind, ErrorKind::UpdatedClue);
        assert_eq!(e.cell, at(3, 4));
        assert_eq!(e.val, val);
    }

    assert_eq!(g.rows(), before.rows());
    assert_eq!(g.cols(), before.cols());
    assert_eq!(g.boxes(), before.boxes());
    assert_eq!(g.empty_cell_count(), before.empty_cell_count());
    assert_eq!(g.solved(), before.solved());
    for c in all_coords() {
        assert_eq!(g.candidates_at(c), before.candidates_at(c));
    }
}

#[test]
fn views_agree_after_updates() {
    let mut g = Grid::new();
    let placed = [(0, 0, 5), (4, 4, 1), (8, 8, 9), (2, 6, 3), (7, 1, 5), (5, 5, 4)];
    for (row, col, val) in placed {
        g.update(at(row, col), val).unwrap();
    }

    for row in 0..SIZE {
        for col in 0..SIZE {
            let b = row_coords_to_box_coords(at(row, col));
            assert_eq!(g.rows()[row][col], g.cols()[col][row]);
            assert_eq!(g.rows()[row][col], g.boxes()[b.row][b.col]);
        }
    }
    for (row, col, val) in placed {
        assert_eq!(*g.get_cell(at(row, col)), Cell::Filled(val));
    }
    assert_eq!(g.empty_cell_count(), 81 - placed.len());
}

#[test]
fn min_candidates_cell_is_never_fixed() {
    let mut g = Grid::from_rows(clues(PUZZLE));
    for _ in 0..50 {
        let c = g.get_min_candidates_cell().unwrap();
        assert!(!matches!(g.get_cell(c), Cell::Clue(_)));
        assert!(g.candidate_matrix().is_open(c));
        let fewest = all_coords()
            .into_iter()
            .filter(|p| g.candidate_matrix().is_open(*p))
            .map(|p| g.candidates_at(p).len())
            .min()
            .unwrap();
        assert_eq!(g.candidates_at(c).len(), fewest);
    }
    assert_eq!(g.first_min_candidates_cell(), Some(at(4, 4)));
    g.update(at(4, 4), 5).unwrap();
    assert_ne!(g.first_min_candidates_cell(), Some(at(4, 4)));
}

#[test]
fn min_candidates_cell_of_a_board_without_open_cells_is_none() {
    let g = Grid::from_rows(get_base_solution());

    assert_eq!(g.get_min_candidates_cell(), None);
    assert_eq!(g.first_min_candidates_cell(), None);
    assert!(g.candidate_matrix().min_candidates_cells().is_empty());
}

#[test]
fn random_choice_is_among_the_cells_with_fewest_candidates() {
    let mut g = Grid::new();
    g.update(at(0, 0), 1).unwrap();
    let cells = g.candidate_matrix().min_candidates_cells();
    assert_eq!(cells.len(), 20);
    assert!(cells.iter().all(|c| is_peer(at(0, 0), *c)));
    let mut seen = std::collections::BTreeSet::new();
    for _ in 0..400 {
        let c = g.get_min_candidates_cell().unwrap();
        assert!(cells.contains(&c));
        seen.insert(c);
    }
    assert!(seen.len() > 1);
}

#[test]
fn solve_finds_the_solution_of_a_puzzle() {
    let solved = solve_backtracking_heuristics(Grid::from_rows(clues(PUZZLE))).unwrap();
    assert!(solved.solved());
    assert_eq!(solved.empty_cell_count(), 0);
    assert_eq!(values_of(&solved), SOLVED);

    let again = solve_first_found(Grid::from_rows(clues(PUZZLE))).unwrap();
    assert!(again.solved());
    assert_eq!(values_of(&again), SOLVED);
    for row in 0..SIZE {
        for col in 0..SIZE {
            let expected = if PUZZLE[row][col] == 0 {
                Cell::Filled(SOLVED[row][col])
            } else {
                Cell::Clue(SOLVED[row][col])
            };
            assert_eq!(again.rows()[row][col], expected);
        }
    }
}

#[test]
fn solve_of_a_solved_board_is_the_board() {
    let g = Grid::from_rows(get_base_solution());
    let solved = solve_backtracking_heuristics(g).unwrap();

    assert_eq!(solved.rows(), g.rows());
}

#[test]
fn solve_of_a_board_that_cannot_be_completed_is_none() {
    // The first row lacks 9 only, and 9 stands in the column of its gap.
    let mut rows = [[Cell::Empty; SIZE]; SIZE];
    for col in 0..8 {
        rows[0][col] = Cell::Clue(col as u8 + 1);
    }
    rows[5][8] = Cell::Clue(9);
    assert!(solve_backtracking_heuristics(Grid::from_rows(rows)).is_none());
    assert!(solve_first_found(Grid::from_rows(rows)).is_none());

    // A full board of clues that is not solved.
    assert!(solve_backtracking_heuristics(Grid::from_rows([[Cell::Clue(1); SIZE]; SIZE])).is_none());
}

#[test]
fn solve_needs_to_go_back() {
    // Row 0 holds 1 to 6; 7, 8 and 9 stand in the columns of two of its
    // gaps, so that the first values tried there fail later.
    let mut rows = [[Cell::Empty; SIZE]; SIZE];
    for col in 0..6 {
        rows[0][col] = Cell::Clue(col as u8 + 1);
    }
    rows[4][6] = Cell::Clue(7);
    rows[5][6] = Cell::Clue(8);
    rows[4][7] = Cell::Clue(9);
    let solved = solve_first_found(Grid::from_rows(rows)).unwrap();

    assert!(solved.solved());
    assert_valid_solution(&solved);
    assert_eq!(solved.rows()[0][6], Cell::Filled(9));
    for row in 0..SIZE {
        for col in 0..SIZE {
            if let Cell::Clue(_) = rows[row][col] {
                assert_eq!(solved.rows()[row][col], rows[row][col]);
            }
        }
    }
}

#[test]
fn solve_empty_board_first_found_is_reproducible() {
    let expected: [[u8; 9]; 9] = [
        [1, 2, 3, 4, 5, 6, 7, 8, 9],
        [4, 5, 6, 7, 8, 9, 1, 2, 3],
        [7, 8, 9, 1, 2, 3, 4, 5, 6],
        [2, 3, 1, 6, 7, 4, 8, 9, 5],
        [8, 7, 5, 9, 1, 2, 3, 6, 4],
        [6, 9, 4, 5, 3, 8, 2, 1, 7],
        [3, 1, 7, 2, 6, 5, 9, 4, 8],
        [5, 4, 2, 8, 9, 7, 6, 3, 1],
        [9, 6, 8, 3, 4, 1, 5, 7, 2],
    ];
    let solved = solve_first_found(Grid::new()).unwrap();

    assert!(solved.solved());
    assert_valid_solution(&solved);
    assert_eq!(values_of(&solved), expected);
    // The first three rows are those of the shifted board.
    for row in 0..3 {
        for col in 0..SIZE {
            let value = 1 + ((col + row / 3 + (row % 3) * 3) % 9);
            assert_eq!(solved.rows()[row][col], Cell::Filled(value as u8));
        }
    }
    let again = solve_first_found(Grid::new()).unwrap();
    assert_eq!(again.rows(), solved.rows());
}

#[test]
fn solve_empty_board_at_random_gives_a_solved_board() {
    for _ in 0..5 {
        let solved = solve_backtracking_heuristics(Grid::new()).unwrap();
        assert!(solved.solved());
        assert_eq!(solved.empty_cell_count(), 0);
        assert_valid_solution(&solved);
    }
}

#[test]
fn single_clue_takes_its_value_from_its_peers() {
    let mut rows = [[Cell::Empty; SIZE]; SIZE];
    rows[0][0] = Cell::Clue(5);
    let g = Grid::from_rows(rows);

    assert!(!g.candidates_at(at(0, 1)).contains(&5));
    assert!(!g.candidates_at(at(1, 1)).contains(&5));
    assert!(!g.candidates_at(at(4, 0)).contains(&5));
    assert!(g.candidates_at(at(4, 4)).contains(&5));
    assert_eq!(g.candidates_at(at(0, 1)), vec![1, 2, 3, 4, 6, 7, 8, 9]);
    assert_eq!(g.candidates_at(at(4, 4)), vec![1, 2, 3, 4, 5, 6, 7, 8, 9]);
    assert_eq!(g.candidates_at(at(0, 0)), Vec::<u8>::new());
    assert_eq!(g.empty_cell_count(), 80);
}

#[test]
fn filled_cells_of_the_rows_are_open_and_not_propagated() {
    let mut rows = [[Cell::Empty; SIZE]; SIZE];
    rows[0][0] = Cell::Filled(5);
    let g = Grid::from_rows(rows);

    assert_eq!(g.candidates_at(at(0, 0)), vec![1, 2, 3, 4, 5, 6, 7, 8, 9]);
    assert_eq!(g.candidates_at(at(0, 1)), vec![1, 2, 3, 4, 5, 6, 7, 8, 9]);
    assert_eq!(g.empty_cell_count(), 80);
}

#[test]
fn update_returns_the_peers_that_changed() {
    let mut g = Grid::new();
    let changed = g.update(at(4, 4), 7).unwrap();
    let expected: Vec<Coord> = all_coords().into_iter().filter(|c| is_peer(at(4, 4), *c)).collect();
    assert_eq!(changed.len(), 20);
    assert_eq!(changed, expected);
    assert_eq!(g.candidates_at(at(4, 4)), Vec::<u8>::new());

    // The peers of (4, 5) that still had 3: those of (4, 4) lost 7 only.
    let changed = g.update(at(4, 5), 3).unwrap();
    let expected: Vec<Coord> = all_coords()
        .into_iter()
        .filter(|c| is_peer(at(4, 5), *c) && *c != at(4, 4))
        .collect();
    assert_eq!(changed, expected);
    assert_eq!(changed.len(), 19);

    // A second 3 in a row of its own changes the peers that still have it.
    let changed = g.update(at(0, 0), 3).unwrap();
    assert!(!changed.contains(&at(0, 5)));
    assert!(changed.contains(&at(0, 1)));
}

#[test]
fn update_refuses_a_value_that_is_no_candidate() {
    let mut g = Grid::new();
    g.update(at(0, 0), 4).unwrap();
    let before = g;

    for (cell, val) in [(at(0, 8), 4), (at(8, 0), 4), (at(2, 2), 4), (at(0, 0), 4), (at(0, 0), 5), (at(5, 5), 0), (at(5, 5), 10)] {
        let e = g.update(cell, val).unwrap_err();
        assert_eq!(e.kind, ErrorKind::NotInCandidates);
        assert_eq!((e.cell, e.val), (cell, val));
    }
    assert_eq!(g.rows(), before.rows());
    assert_eq!(g.empty_cell_count(), 80);
}

#[test]
fn update_that_strands_a_peer_is_refused_and_rolled_back() {
    // (0, 8) has 9 only; 9 at (0, 7) would leave it without a candidate.
    let mut rows = [[Cell::Empty; SIZE]; SIZE];
    for col in 0..7 {
        rows[0][col] = Cell::Clue(col as u8 + 1);
    }
    rows[5][8] = Cell::Clue(8);
    let mut g = Grid::from_rows(rows);
    assert_eq!(g.candidates_at(at(0, 8)), vec![9]);
    assert_eq!(g.candidates_at(at(0, 7)), vec![8, 9]);
    let before = g;

    let e = g.update(at(0, 7), 9).unwrap_err();

    assert_eq!(e.kind, ErrorKind::ZeroCandidates);
    assert_eq!((e.cell, e.val), (at(0, 7), 9));
    assert_eq!(g.rows(), before.rows());
    assert_eq!(g.cols(), before.cols());
    assert_eq!(g.boxes(), before.boxes());
    assert_eq!(g.empty_cell_count(), before.empty_cell_count());
    for c in all_coords() {
        assert_eq!(g.candidates_at(c), before.candidates_at(c));
        assert_eq!(g.candidate_matrix().is_open(c), before.candidate_matrix().is_open(c));
    }
    assert!(g.update(at(0, 7), 8).is_ok());
    assert_eq!(g.candidate_matrix().collapse(at(0, 8)), 9);
}

#[test]
fn update_of_the_last_cell_solves_the_board() {
    let mut rows = get_base_solution();
    rows[8][8] = Cell::Empty;
    let mut g = Grid::from_rows(rows);
    assert!(!g.solved());
    assert_eq!(g.candidates_at(at(8, 8)), vec![8]);

    assert_eq!(g.update(at(8, 8), 8).unwrap(), Vec::<Coord>::new());

    assert!(g.solved());
    assert_eq!(g.empty_cell_count(), 0);
}

#[test]
fn clear_empties_filled_cells_only() {
    let mut rows = [[Cell::Empty; SIZE]; SIZE];
    rows[0][0] = Cell::Clue(5);
    let mut g = Grid::from_rows(rows);
    g.update(at(1, 1), 3).unwrap();
    assert_eq!(g.empty_cell_count(), 79);

    let e = g.clear(at(0, 0)).unwrap_err();
    assert_eq!(e.kind, ErrorKind::ClearedClue);
    assert_eq!((e.cell, e.val), (at(0, 0), 0));
    assert_eq!(*g.get_cell(at(0, 0)), Cell::Clue(5));
    assert_eq!(g.empty_cell_count(), 79);

    assert_eq!(g.clear(at(7, 7)), Ok(()));
    assert_eq!(g.empty_cell_count(), 79);

    assert_eq!(g.clear(at(1, 1)), Ok(()));
    assert_eq!(*g.get_cell(at(1, 1)), Cell::Empty);
    assert_eq!(g.cols()[1][1], Cell::Empty);
    assert_eq!(g.boxes()[0][4], Cell::Empty);
    assert_eq!(g.empty_cell_count(), 80);
    // The candidates are left as the update made them.
    assert!(!g.candidates_at(at(1, 2)).contains(&3));
    assert!(!g.candidate_matrix().is_open(at(1, 1)));

    g.reset_candidate_matrix();
    assert!(g.candidates_at(at(1, 2)).contains(&3));
    assert!(g.candidate_matrix().is_open(at(1, 1)));
    assert_eq!(g.candidates_at(at(1, 1)), vec![1, 2, 3, 4, 6, 7, 8, 9]);
}

#[test]
fn clear_of_a_solved_board_unsolves_it() {
    let mut g = Grid::from_rows(base_as_filled());
    assert!(g.solved());

    g.clear(at(2, 2)).unwrap();

    assert!(!g.solved());
    assert_eq!(g.empty_cell_count(), 1);
}

#[test]
fn set_clues_turns_filled_cells_into_clues() {
    let mut g = Grid::new();
    g.update(at(2, 3), 4).unwrap();
    g.update(at(6, 6), 1).unwrap();

    g.set_clues();

    assert_eq!(*g.get_cell(at(2, 3)), Cell::Clue(4));
    assert_eq!(g.cols()[3][2], Cell::Clue(4));
    assert_eq!(g.boxes()[1][6], Cell::Clue(4));
    assert_eq!(*g.get_cell(at(6, 6)), Cell::Clue(1));
    assert_eq!(*g.get_cell(at(0, 0)), Cell::Empty);
    assert_eq!(g.empty_cell_count(), 79);
    assert_eq!(g.update(at(2, 3), 5).unwrap_err().kind, ErrorKind::UpdatedClue);
    assert_eq!(g.clear(at(6, 6)).unwrap_err().kind, ErrorKind::ClearedClue);

    let mut open_filled = Grid::from_rows({
        let mut rows = [[Cell::Empty; SIZE]; SIZE];
        rows[0][0] = Cell::Filled(2);
        rows
    });
    assert!(open_filled.candidate_matrix().is_open(at(0, 0)));
    open_filled.set_clues();
    assert_eq!(*open_filled.get_cell(at(0, 0)), Cell::Clue(2));
    assert!(!open_filled.candidate_matrix().is_open(at(0, 0)));
    assert_ne!(open_filled.get_min_candidates_cell(), Some(at(0, 0)));
}

#[test]
fn remove_candidate_takes_one_value_from_one_cell() {
    let mut g = Grid::new();

    assert!(g.remove_candidate(at(3, 3), 6));
    assert!(!g.remove_candidate(at(3, 3), 6));
    assert!(!g.remove_candidate(at(3, 3), 0));

    assert_eq!(g.candidates_at(at(3, 3)), vec![1, 2, 3, 4, 5, 7, 8, 9]);
    assert_eq!(g.candidates_at(at(3, 4)), vec![1, 2, 3, 4, 5, 6, 7, 8, 9]);
    assert_eq!(g.first_min_candidates_cell(), Some(at(3, 3)));
    assert_eq!(g.rows(), &[[Cell::Empty; SIZE]; SIZE]);
}

#[test]
fn candidate_matrix_edits() {
    let mut cm = CandidateMatrix::new();
    assert_eq!(cm.get_candidates(at(0, 0)).len(), 9);
    assert!(cm.has_candidate(at(0, 0), 9));
    assert!(!cm.has_candidate(at(0, 0), 10));

    assert!(!cm.add_candidate(at(0, 0), 3));
    assert!(cm.remove_candidate(at(0, 0), 3));
    assert!(cm.add_candidate(at(0, 0), 3));
    assert!(!cm.add_candidate(at(0, 0), 0));
    assert!(!cm.add_candidate(at(0, 0), 10));
    assert_eq!(cm.get_candidates(at(0, 0)), vec![1, 2, 3, 4, 5, 6, 7, 8, 9]);

    cm.set_fixed(at(0, 0));
    assert!(!cm.is_open(at(0, 0)));
    assert!(!cm.add_candidate(at(0, 0), 3));
    assert_eq!(cm.get_candidates(at(0, 0)), Vec::<u8>::new());
    assert_eq!(cm.first_min_candidates_cell(), Some(at(0, 1)));

    for v in 1..=8 {
        cm.remove_candidate(at(5, 5), v);
    }
    assert_eq!(cm.collapse(at(5, 5)), 9);
    assert_eq!(cm.min_candidates_cells(), vec![at(5, 5)]);
}

#[test]
fn update_around_and_its_undo() {
    let mut cm = CandidateMatrix::new();
    cm.remove_candidate(at(0, 1), 2);
    let before: Vec<Vec<u8>> = all_coords().into_iter().map(|c| cm.get_candidates(c)).collect();

    let changed = cm.update_around(at(0, 0), 2).unwrap();
    assert_eq!(changed.len(), 19);
    assert!(!changed.contains(&at(0, 1)));
    assert!(!changed.contains(&at(0, 0)));
    assert!(changed.windows(2).all(|w| w[0] < w[1]));
    assert!(cm.has_candidate(at(0, 0), 2));
    assert!(!cm.has_candidate(at(8, 0), 2));
    assert!(cm.has_candidate(at(8, 8), 2));

    // Only a clue is given back.
    cm.undo_changed(Cell::Filled(2), &changed);
    assert!(!cm.has_candidate(at(8, 0), 2));
    cm.undo_changed(Cell::Empty, &changed);
    assert!(!cm.has_candidate(at(8, 0), 2));
    cm.undo_changed(Cell::Clue(2), &changed);
    let after: Vec<Vec<u8>> = all_coords().into_iter().map(|c| cm.get_candidates(c)).collect();
    assert_eq!(after, before);
}

#[test]
fn update_around_fails_without_changes_where_a_peer_is_stranded() {
    let mut cm = CandidateMatrix::new();
    for v in 1..=8 {
        cm.remove_candidate(at(8, 8), v);
    }
    let before: Vec<Vec<u8>> = all_coords().into_iter().map(|c| cm.get_candidates(c)).collect();

    assert_eq!(cm.update_around(at(0, 8), 9), Err(()));

    let after: Vec<Vec<u8>> = all_coords().into_iter().map(|c| cm.get_candidates(c)).collect();
    assert_eq!(after, before);
    // The cell itself is no peer of its own, and a fixed peer is never
    // stranded.
    assert!(cm.update_around(at(8, 8), 9).is_ok());
    cm.set_fixed(at(8, 8));
    assert!(cm.update_around(at(0, 8), 9).is_ok());
    // A peer without candidates stays stranded whatever is taken away.
    let mut cm = CandidateMatrix::new();
    for v in 1..=9 {
        cm.remove_candidate(at(4, 4), v);
    }
    assert_eq!(cm.update_around(at(4, 0), 1), Err(()));
    assert_eq!(cm.first_min_candidates_cell(), Some(at(4, 4)));
}

#[test]
fn candidate_matrix_from_rows() {
    let cm = CandidateMatrix::from(clues(PUZZLE));
    let other = CandidateMatrix::from_cells(&clues(PUZZLE));

    assert!(!cm.is_open(at(0, 0)));
    assert_eq!(cm.get_candidates(at(0, 2)), vec![1, 2, 4]);
    assert_eq!(cm.get_candidates(at(4, 4)), vec![5]);
    for c in all_coords() {
        assert_eq!(cm.get_candidates(c), other.get_candidates(c));
        assert_eq!(cm.is_open(c), PUZZLE[c.row][c.col] == 0);
    }
}

#[test]
fn box_coordinates() {
    assert_eq!(row_coords_to_box_coords(at(0, 0)), at(0, 0));
    assert_eq!(row_coords_to_box_coords(at(1, 1)), at(0, 4));
    assert_eq!(row_coords_to_box_coords(at(2, 3)), at(1, 6));
    assert_eq!(row_coords_to_box_coords(at(4, 5)), at(4, 5));
    assert_eq!(row_coords_to_box_coords(at(8, 8)), at(8, 8));
    assert_eq!(row_coords_to_box_coords(at(7, 2)), at(6, 5));
    for c in all_coords() {
        assert_eq!(row_coords_to_box_coords(row_coords_to_box_coords(c)), c);
    }
    let coords = sudoku::get_box_coords_containing(at(4, 7));
    assert_eq!(coords[0], at(3, 6));
    assert_eq!(coords[5], at(4, 8));
    assert_eq!(coords[8], at(5, 8));
}

#[test]
fn columns_and_boxes_of_rows() {
    let rows = get_base_solution();
    let cols = rows.cols();
    let boxes = rows.boxes();
    for i in 0..SIZE {
        for j in 0..SIZE {
            assert_eq!(cols[i][j], rows[j][i]);
            assert_eq!(boxes[i][j], rows[(i / 3) * 3 + j / 3][(i % 3) * 3 + j % 3]);
        }
    }
    let numbers: [[usize; SIZE]; SIZE] = core::array::from_fn(|i| core::array::from_fn(|j| i * 9 + j));
    assert_eq!(numbers.cols()[2][7], 65);
    assert_eq!(numbers.boxes()[4], [30, 31, 32, 39, 40, 41, 48, 49, 50]);
}

#[test]
fn base_solution_values() {
    let rows = get_base_solution();
    assert_eq!(rows[0][0], Cell::Clue(1));
    assert_eq!(rows[1][0], Cell::Clue(4));
    assert_eq!(rows[3][0], Cell::Clue(2));
    assert_eq!(rows[8][8], Cell::Clue(8));
    assert_eq!(rows[4][7], Cell::Clue(3));
}

#[test]
fn coordinates_convert_and_order() {
    let c: Coord = (3, 7).into();
    assert_eq!(c, at(3, 7));
    let pair: (usize, usize) = c.into();
    assert_eq!(pair, (3, 7));
    assert!(at(0, 8) < at(1, 0));
    assert!(at(1, 0) < at(1, 1));
    let all = all_coords();
    assert_eq!(all.len(), 81);
    assert_eq!(all[0], at(0, 0));
    assert_eq!(all[10], at(1, 1));
    assert_eq!(all[80], at(8, 8));
    assert!(all.windows(2).all(|w| w[0] < w[1]));
}

#[test]
fn removal_counts() {
    assert_eq!(removal_count(Difficulty::Easy, None), 43);
    assert_eq!(removal_count(Difficulty::Medium, None), 47);
    assert_eq!(removal_count(Difficulty::Hard, None), 53);
    assert_eq!(removal_count(Difficulty::Easy, Some(40)), 40);
    assert_eq!(removal_count(Difficulty::Hard, Some(55)), 55);
    assert_eq!((Difficulty::Easy.lowest(), Difficulty::Easy.limit()), (40, 45));
    assert_eq!((Difficulty::Medium.lowest(), Difficulty::Medium.limit()), (46, 50));
    assert_eq!((Difficulty::Hard.lowest(), Difficulty::Hard.limit()), (51, 56));
}

#[test]
fn carve_clears_and_turns_the_rest_into_clues() {
    let solution = Grid::from_rows(base_as_filled());
    let removed = vec![at(0, 0), at(4, 4), at(8, 8), at(4, 4)];

    let p = carve(solution, &removed);

    assert_eq!(p.empty_cell_count(), 3);
    for c in all_coords() {
        let expected = if removed.contains(&c) {
            Cell::Empty
        } else {
            get_base_solution()[c.row][c.col]
        };
        assert_eq!(*p.get_cell(c), expected);
    }
    assert_eq!(p.candidates_at(at(0, 0)), vec![1]);
    assert_eq!(p.candidates_at(at(4, 4)), vec![9]);
    assert!(!p.candidate_matrix().is_open(at(0, 1)));
    assert!(!p.solved());
}

#[test]
fn generated_puzzles_lack_cells_as_their_difficulty_says() {
    let mut easy_total = 0;
    let mut hard_total = 0;
    for _ in 0..4 {
        for (d, low, high) in [
            (Difficulty::Easy, 40, 45),
            (Difficulty::Medium, 46, 50),
            (Difficulty::Hard, 51, 56),
        ] {
            let (p, _elapsed) = generate(d);
            let empty = p.empty_cell_count();
            assert!(low <= empty && empty < high);
            let counted = all_coords().into_iter().filter(|c| *p.get_cell(*c) == Cell::Empty).count();
            assert_eq!(counted, empty);
            assert!(all_coords().into_iter().all(|c| !matches!(p.get_cell(c), Cell::Filled(_))));
            assert!(!p.solved());
            for c in all_coords() {
                assert_eq!(p.candidate_matrix().is_open(c), *p.get_cell(c) == Cell::Empty);
            }
            let solved = solve_backtracking_heuristics(p).unwrap();
            assert_valid_solution(&solved);
            match d {
                Difficulty::Easy => easy_total += empty,
                Difficulty::Hard => hard_total += empty,
                Difficulty::Medium => {}
            }
        }
    }
    assert!(easy_total < hard_total);
}

#[test]
fn generated_puzzles_differ() {
    let boards: Vec<[[Cell; SIZE]; SIZE]> = (0..6).map(|_| *generate(Difficulty::Medium).0.rows()).collect();

    assert!(boards.iter().any(|b| *b != boards[0]));
}

#[test]
fn render_values_of_one_and_more_digits() {
    let mut rows = [[Cell::Empty; SIZE]; SIZE];
    rows[0][0] = Cell::Clue(7);
    rows[0][1] = Cell::Filled(12);
    rows[0][2] = Cell::Filled(255);
    rows[0][3] = Cell::Clue(0);
    let text = render(&rows);

    assert_eq!(text.lines().next().unwrap(), " 712255 | 0     |      ");
    assert_eq!(text.lines().count(), 11);
}

#[test]
fn the_same_draw_picks_the_same_cell() {
    let mut g = Grid::new();
    g.update(at(0, 0), 1).unwrap();
    let cells = g.candidate_matrix().min_candidates_cells();
    assert_eq!(cells.len(), 20);

    for draw in 0..45 {
        let picked = g.pick_min_candidates_cell(draw);
        assert_eq!(picked, Some(cells[draw % 20]));
        assert_eq!(g.pick_min_candidates_cell(draw), picked);
        assert_eq!(g.candidate_matrix().pick_min_candidates_cell(draw), picked);
    }
    assert_eq!(g.pick_min_candidates_cell(0), g.first_min_candidates_cell());
    assert_eq!(g.pick_min_candidates_cell(0), Some(at(0, 1)));
    assert_eq!(g.pick_min_candidates_cell(19), Some(at(8, 0)));
    assert_eq!(g.pick_min_candidates_cell(usize::MAX), Some(cells[usize::MAX % 20]));
    assert_eq!(Grid::from_rows(get_base_solution()).pick_min_candidates_cell(7), None);
}

#[test]
fn candidates_never_hold_what_a_peer_holds() {
    let mut g = Grid::from_rows(clues(PUZZLE));
    let placed = [(0, 2, 4), (4, 4, 5), (8, 0, 3), (2, 0, 1)];
    for (row, col, val) in placed {
        g.update(at(row, col), val).unwrap();
        for c in all_coords() {
            for p in all_coords() {
                if is_peer(c, p) {
                    let held = match g.get_cell(p) {
                        Cell::Clue(v) => Some(*v),
                        Cell::Filled(v) => Some(*v),
                        Cell::Empty => None,
                    };
                    if let Some(v) = held {
                        assert!(!g.candidates_at(c).contains(&v));
                    }
                }
            }
        }
    }
}

#[test]
fn generated_puzzles_hold_values_of_the_board() {
    let (p, _elapsed) = generate(Difficulty::Medium);

    for c in all_coords() {
        match p.get_cell(c) {
            Cell::Clue(v) => assert!(1 <= *v && *v <= 9),
            Cell::Empty => {}
            Cell::Filled(_) => panic!("a filled cell at {:?}", c),
        }
    }
    for c in all_coords() {
        if *p.get_cell(c) == Cell::Empty {
            let mut expected = vec![1u8, 2, 3, 4, 5, 6, 7, 8, 9];
            for q in all_coords() {
                if is_peer(c, q) {
                    if let Cell::Clue(v) = p.get_cell(q) {
                        expected.retain(|w| w != v);
                    }
                }
            }
            assert_eq!(p.candidates_at(c), expected);
        }
    }
}
