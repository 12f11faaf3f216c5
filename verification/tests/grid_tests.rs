use sudoku::{get_base_solution, get_box_coords_containing, Cell, Coord, ErrorKind, Grid, SIZE};

#[test]
fn get_box_containing_returns_correct_coords() {
    let c: Coord = (0, 0).into();
    let expected: [Coord; SIZE] = [
        (0, 0).into(),
        (0, 1).into(),
        (0, 2).into(),
        (1, 0).into(),
        (1, 1).into(),
        (1, 2).into(),
        (2, 0).into(),
        (2, 1).into(),
        (2, 2).into(),
    ];

    assert_eq!(get_box_coords_containing(c), expected);
}

#[test]
fn update_cell() {
    let mut expected = [[Cell::Empty; SIZE]; SIZE];
    expected[4][4] = Cell::Filled(1);
    let mut g = Grid::new();

    g.update(Coord { row: 4, col: 4 }, 1).unwrap();
    // A second 1 in the same row is not among the candidates any more: it
    // is refused and the board stays as it was.
    let refused = g.update(Coord { row: 4, col: 5 }, 1).unwrap_err();

    assert_eq!(refused.kind, ErrorKind::NotInCandidates);
    assert_eq!(g.rows(), &expected);
}

#[test]
fn update_keeps_all_groups_synced() {
    let mut g = Grid::new();
    g.update(Coord { row: 1, col: 1 }, 1).unwrap();
    g.update(Coord { row: 2, col: 3 }, 9).unwrap();

    assert_eq!(g.rows()[1][1], g.cols()[1][1]);
    assert_eq!(g.cols()[1][1], g.boxes()[0][4]);
    assert_eq!(g.rows()[2][3], g.cols()[3][2]);
    assert_eq!(g.cols()[3][2], g.boxes()[1][6]);
}

#[test]
fn candidate_matrix_correct_for_from() {
    // Every cell of the base solution holds a clue, so every cell is fixed
    // and has no candidates.
    let expected = get_base_solution().map(|row| {
        row.map(|cell| match cell {
            Cell::Clue(_) => Vec::<u8>::new(),
            _ => Vec::with_capacity(SIZE),
        })
    });
    let g = Grid::from(get_base_solution());
    let actual: [[Vec<u8>; SIZE]; SIZE] =
        core::array::from_fn(|r| core::array::from_fn(|c| g.candidates_at((r, c).into())));

    assert_eq!(expected, actual);
}

#[test]
fn update_gives_correct_candidate_matrix() {
    let mut g = Grid::new();
    g.update(Coord { row: 4, col: 5 }, 9).unwrap();

    assert!((0..SIZE).all(|col| !g.candidates_at((4, col).into()).contains(&9)));
    assert!((0..SIZE).all(|row| !g.candidates_at((row, 5).into()).contains(&9)));
    assert!(get_box_coords_containing((4, 5).into())
        .iter()
        .all(|coord| !g.candidates_at(*coord).contains(&9)))
}

#[test]
fn empty_cell_count_correct_after_from() {
    let mut rows = get_base_solution();
    for cell in rows.iter_mut().flatten().take(5) {
        *cell = Cell::Empty;
    }
    let g = Grid::from(rows);

    assert_eq!(g.empty_cell_count(), 5);
}

#[test]
fn empty_cell_count_correct_after_update() {
    let mut g = Grid::new();
    g.update((0, 0).into(), 9).unwrap();

    assert_eq!(g.empty_cell_count(), 80);
}

#[test]
fn from_returns_correct_vals() {
    let expected_rows = [
        [
            Cell::Clue(1),
            Cell::Clue(2),
            Cell::Clue(3),
            Cell::Clue(4),
            Cell::Clue(5),
            Cell::Clue(6),
            Cell::Clue(7),
            Cell::Clue(8),
            Cell::Clue(9),
        ],
        [
            Cell::Clue(4),
            Cell::Empty,
            Cell::Clue(6),
            Cell::Clue(7),
            Cell::Clue(8),
            Cell::Clue(9),
            Cell::Clue(1),
            Cell::Clue(2),
            Cell::Clue(3),
        ],
        [
            Cell::Clue(7),
            Cell::Clue(8),
            Cell::Clue(9),
            Cell::Clue(1),
            Cell::Clue(2),
            Cell::Clue(3),
            Cell::Clue(4),
            Cell::Clue(5),
            Cell::Clue(6),
        ],
        [
            Cell::Clue(2),
            Cell::Clue(3),
            Cell::Clue(4),
            Cell::Clue(5),
            Cell::Clue(6),
            Cell::Clue(7),
            Cell::Clue(8),
            Cell::Clue(9),
            Cell::Clue(1),
        ],
        [
            Cell::Clue(5),
            Cell::Clue(6),
            Cell::Clue(7),
            Cell::Clue(8),
            Cell::Clue(9),
            Cell::Clue(1),
            Cell::Clue(2),
            Cell::Clue(3),
            Cell::Clue(4),
        ],
        [
            Cell::Clue(8),
            Cell::Clue(9),
            Cell::Clue(1),
            Cell::Clue(2),
            Cell::Clue(3),
            Cell::Clue(4),
            Cell::Clue(5),
            Cell::Clue(6),
            Cell::Clue(7),
        ],
        [
            Cell::Clue(3),
            Cell::Clue(4),
            Cell::Clue(5),
            Cell::Clue(6),
            Cell::Clue(7),
            Cell::Clue(8),
            Cell::Clue(9),
            Cell::Clue(1),
            Cell::Clue(2),
        ],
        [
            Cell::Clue(6),
            Cell::Clue(7),
            Cell::Clue(8),
            Cell::Clue(9),
            Cell::Clue(1),
            Cell::Clue(2),
            Cell::Clue(3),
            Cell::Clue(4),
            Cell::Clue(5),
        ],
        [
            Cell::Clue(9),
            Cell::Clue(1),
            Cell::Clue(2),
            Cell::Clue(3),
            Cell::Clue(4),
            Cell::Clue(5),
            Cell::Clue(6),
            Cell::Clue(7),
            Cell::Clue(8),
        ],
    ];
    let expected_cols = [
        [
            Cell::Clue(1),
            Cell::Clue(4),
            Cell::Clue(7),
            Cell::Clue(2),
            Cell::Clue(5),
            Cell::Clue(8),
            Cell::Clue(3),
            Cell::Clue(6),
            Cell::Clue(9),
        ],
        [
            Cell::Clue(2),
            Cell::Empty,
            Cell::Clue(8),
            Cell::Clue(3),
            Cell::Clue(6),
            Cell::Clue(9),
            Cell::Clue(4),
            Cell::Clue(7),
            Cell::Clue(1),
        ],
        [
            Cell::Clue(3),
            Cell::Clue(6),
            Cell::Clue(9),
            Cell::Clue(4),
            Cell::Clue(7),
            Cell::Clue(1),
            Cell::Clue(5),
            Cell::Clue(8),
            Cell::Clue(2),
        ],
        [
            Cell::Clue(4),
            Cell::Clue(7),
            Cell::Clue(1),
            Cell::Clue(5),
            Cell::Clue(8),
            Cell::Clue(2),
            Cell::Clue(6),
            Cell::Clue(9),
            Cell::Clue(3),
        ],
        [
            Cell::Clue(5),
            Cell::Clue(8),
            Cell::Clue(2),
            Cell::Clue(6),
            Cell::Clue(9),
            Cell::Clue(3),
            Cell::Clue(7),
            Cell::Clue(1),
            Cell::Clue(4),
        ],
        [
            Cell::Clue(6),
            Cell::Clue(9),
            Cell::Clue(3),
            Cell::Clue(7),
            Cell::Clue(1),
            Cell::Clue(4),
            Cell::Clue(8),
            Cell::Clue(2),
            Cell::Clue(5),
        ],
        [
            Cell::Clue(7),
            Cell::Clue(1),
            Cell::Clue(4),
            Cell::Clue(8),
            Cell::Clue(2),
            Cell::Clue(5),
            Cell::Clue(9),
            Cell::Clue(3),
            Cell::Clue(6),
        ],
        [
            Cell::Clue(8),
            Cell::Clue(2),
            Cell::Clue(5),
            Cell::Clue(9),
            Cell::Clue(3),
            Cell::Clue(6),
            Cell::Clue(1),
            Cell::Clue(4),
            Cell::Clue(7),
        ],
        [
            Cell::Clue(9),
            Cell::Clue(3),
            Cell::Clue(6),
            Cell::Clue(1),
            Cell::Clue(4),
            Cell::Clue(7),
            Cell::Clue(2),
            Cell::Clue(5),
            Cell::Clue(8),
        ],
    ];
    let mut expected_boxes = expected_rows.to_owned();
    expected_boxes[0][4] = Cell::Empty;
    expected_boxes[1][1] = Cell::Clue(5);
    let mut rows = get_base_solution();
    rows[1][1] = Cell::Empty;
    let g = Grid::from(rows);

    assert_eq!(g.rows(), &expected_rows);
    assert_eq!(g.cols(), &expected_cols);
    assert_eq!(g.boxes(), &expected_boxes);
}

#[test]
fn get_row() {
    let expected: [Cell; SIZE] = core::array::from_fn(|i| Cell::Clue((i + 1).try_into().unwrap()));
    let g = Grid::from(get_base_solution());

    assert_eq!(g.get_row(0), &expected);
}

#[test]
fn get_col() {
    let expected = [1u8, 4, 7, 2, 5, 8, 3, 6, 9];
    let g = Grid::from(get_base_solution());
    let col = g.get_col(0);

    assert!(expected.iter().enumerate().all(|(i, val)| {
        if let Cell::Clue(n) = col[i] {
            &n == val
        } else {
            false
        }
    }))
}
