use sudoku::{Cell, Puzzle, SIZE};

const SOLUTION_TEXT: &str = " 1 2 3 | 4 5 6 | 7 8 9
 4 5 6 | 7 8 9 | 1 2 3
 7 8 9 | 1 2 3 | 4 5 6
-------+-------+-------
 2 3 4 | 5 6 7 | 8 9 1
 5 6 7 | 8 9 1 | 2 3 4
 8 9 1 | 2 3 4 | 5 6 7
-------+-------+-------
 3 4 5 | 6 7 8 | 9 1 2
 6 7 8 | 9 1 2 | 3 4 5
 9 1 2 | 3 4 5 | 6 7 8
";

#[test]
fn logic_create_empty_puzzle() {
    let p = Puzzle::new();
    let expected_grid = [[Cell::Empty; SIZE]; SIZE];

    assert_eq!(p.rows(), &expected_grid);
}

#[test]
fn logic_get_grid_as_string() {
    let expected = String::from(SOLUTION_TEXT);
    let p = Puzzle::new();

    assert_eq!(p.solution().unwrap(), expected);
}

#[test]
fn puzzle_create_empty_puzzle() {
    let p = Puzzle::new();
    let expected_grid = [[Cell::Empty; SIZE]; SIZE];

    assert_eq!(p.rows(), &expected_grid);
}

#[test]
fn puzzle_get_grid_as_string() {
    let expected = String::from(SOLUTION_TEXT);
    let p = Puzzle::new();

    assert_eq!(p.solution(), Some(expected));
}

#[test]
fn empty_puzzle_as_text() {
    let p = Puzzle::new();
    let blank = "       |       |      \n";
    let dashes = "-------+-------+-------\n";
    let expected = [blank, blank, blank, dashes, blank, blank, blank, dashes, blank, blank, blank]
        .concat();

    assert_eq!(p.grid(), expected);
}

#[test]
fn puzzle_row_is_row_of_the_board() {
    let p = Puzzle::new();

    assert_eq!(p.get_row(3), &[Cell::Empty; SIZE]);
}
