use sudoku::entry::{Entry, EntryReply};
use sudoku::grid_trait::grid_from_vec;
use sudoku::menu::{find_option, format_chars, menu_choice};
use sudoku::prompt::{
    board_coord, coord_from_numbers, coord_pattern, minutes_as_seconds, read_char, read_coord,
    read_minutes, read_value, value_from_number, yes_or_no, CoordAnswer,
};
use sudoku::session::{Reply, Session};
use sudoku::{format_time, Cell, Coord, ErrorKind, Grid, Move, PromptResponse, SIZE};

fn at(row: usize, col: usize) -> Coord {
    Coord { row, col }
}

#[test]
fn format_time_tells_seconds_minutes_and_hours() {
    assert_eq!(format_time(0), "0 seconds");
    assert_eq!(format_time(1), "1 second");
    assert_eq!(format_time(59), "59 seconds");
    assert_eq!(format_time(60), "1 minute, 0 seconds");
    assert_eq!(format_time(61), "1 minute, 1 second");
    assert_eq!(format_time(1501), "25 minutes, 1 second");
    assert_eq!(format_time(3599), "59 minutes, 59 seconds");
    assert_eq!(format_time(3600), "1 hour, 0 minutes, 0 seconds");
    assert_eq!(format_time(3661), "1 hour, 1 minute, 1 second");
    assert_eq!(format_time(7384), "2 hours, 3 minutes, 4 seconds");
    assert_eq!(
        format_time(u64::MAX),
        "5124095576030431 hours, 0 minutes, 15 seconds"
    );
}

#[test]
fn read_value_understands_values_and_wishes() {
    assert_eq!(read_value("", true), Some(PromptResponse::Val(Cell::Empty)));
    assert_eq!(read_value("", false), Some(PromptResponse::Val(Cell::Empty)));
    assert_eq!(read_value("u", true), Some(PromptResponse::Undo));
    assert_eq!(read_value("r", false), Some(PromptResponse::Redo));
    assert_eq!(read_value("q", true), Some(PromptResponse::Quit));
    assert_eq!(read_value("1", true), Some(PromptResponse::Val(Cell::Clue(1))));
    assert_eq!(read_value("9", true), Some(PromptResponse::Val(Cell::Clue(9))));
    assert_eq!(read_value("5", false), Some(PromptResponse::Val(Cell::Filled(5))));
    assert_eq!(read_value("+7", false), Some(PromptResponse::Val(Cell::Filled(7))));
    assert_eq!(read_value("007", false), Some(PromptResponse::Val(Cell::Filled(7))));
    assert_eq!(read_value("0", true), None);
    assert_eq!(read_value("10", true), None);
    assert_eq!(read_value("256", false), None);
    assert_eq!(read_value("-1", false), None);
    assert_eq!(read_value("uu", false), None);
    assert_eq!(read_value("x", false), None);
    assert_eq!(read_value(" 5", false), None);
}

#[test]
fn value_from_number_keeps_values_of_the_board() {
    assert_eq!(value_from_number(None, true), None);
    assert_eq!(value_from_number(Some(0), true), None);
    assert_eq!(value_from_number(Some(1), true), Some(Cell::Clue(1)));
    assert_eq!(value_from_number(Some(9), false), Some(Cell::Filled(9)));
    assert_eq!(value_from_number(Some(10), false), None);
    assert_eq!(value_from_number(Some(255), true), None);
}

#[test]
fn read_coord_understands_addresses_and_wishes() {
    let val = |row, col| CoordAnswer::Response(PromptResponse::Val(at(row, col)));
    assert_eq!(read_coord("u"), CoordAnswer::Response(PromptResponse::Undo));
    assert_eq!(read_coord("r"), CoordAnswer::Response(PromptResponse::Redo));
    assert_eq!(read_coord("q"), CoordAnswer::Response(PromptResponse::Quit));
    assert_eq!(read_coord("8 3"), val(8, 3));
    assert_eq!(read_coord("83"), val(8, 3));
    assert_eq!(read_coord("(1, 9)"), val(1, 9));
    assert_eq!(read_coord("row 5, col 2!"), val(5, 2));
    assert_eq!(read_coord("0 0"), val(0, 0));
    assert_eq!(read_coord(""), CoordAnswer::NoMatch);
    assert_eq!(read_coord("5"), CoordAnswer::NoMatch);
    assert_eq!(read_coord("1 2 3"), CoordAnswer::NoMatch);
    assert_eq!(read_coord("123"), CoordAnswer::NoMatch);
    assert_eq!(read_coord("x"), CoordAnswer::NoMatch);
    // A digit of another script has the form of a digit, but is no number.
    assert_eq!(read_coord("\u{0663} 4"), CoordAnswer::NoNumber);
    assert_eq!(coord_pattern(), r"^\D*(?P<row>\d)\D*(?P<col>\d)\D*$");
}

#[test]
fn coord_from_numbers_needs_both() {
    assert_eq!(
        coord_from_numbers(Some(4), Some(200)),
        CoordAnswer::Response(PromptResponse::Val(at(4, 200)))
    );
    assert_eq!(coord_from_numbers(None, Some(2)), CoordAnswer::NoNumber);
    assert_eq!(coord_from_numbers(Some(2), None), CoordAnswer::NoNumber);
    assert_eq!(coord_from_numbers(None, None), CoordAnswer::NoNumber);
}

#[test]
fn board_coord_counts_from_one() {
    assert_eq!(board_coord(at(1, 1)), Some(at(0, 0)));
    assert_eq!(board_coord(at(9, 9)), Some(at(8, 8)));
    assert_eq!(board_coord(at(5, 2)), Some(at(4, 1)));
    assert_eq!(board_coord(at(0, 5)), None);
    assert_eq!(board_coord(at(5, 0)), None);
    assert_eq!(board_coord(at(10, 1)), None);
    assert_eq!(board_coord(at(1, 10)), None);
}

#[test]
fn session_places_takes_back_and_takes_again() {
    let mut s = Session::new(Grid::new());
    assert!(!s.is_solved());

    assert_eq!(s.step(PromptResponse::Undo), Reply::NothingToUndo);
    assert_eq!(s.step(PromptResponse::Redo), Reply::NothingToRedo);
    assert_eq!(s.step(PromptResponse::Val((at(0, 0), Cell::Empty))), Reply::Ignored);
    assert_eq!(s.step(PromptResponse::Val((at(0, 0), Cell::Clue(3)))), Reply::Ignored);
    assert_eq!(s.grid().empty_cell_count(), 81);

    assert_eq!(s.step(PromptResponse::Val((at(0, 0), Cell::Filled(3)))), Reply::Placed);
    assert_eq!(s.step(PromptResponse::Val((at(1, 1), Cell::Filled(4)))), Reply::Placed);
    assert_eq!(*s.grid().get_cell(at(0, 0)), Cell::Filled(3));
    assert_eq!(*s.grid().get_cell(at(1, 1)), Cell::Filled(4));

    match s.step(PromptResponse::Val((at(0, 5), Cell::Filled(3)))) {
        Reply::Refused(e) => {
            assert_eq!(e.kind, ErrorKind::NotInCandidates);
            assert_eq!((e.cell, e.val), (at(0, 5), 3));
        }
        other => panic!("{:?}", other),
    }
    assert_eq!(s.grid().empty_cell_count(), 79);

    assert_eq!(s.step(PromptResponse::Undo), Reply::Undone);
    assert_eq!(*s.grid().get_cell(at(1, 1)), Cell::Empty);
    assert_eq!(*s.grid().get_cell(at(0, 0)), Cell::Filled(3));
    assert!(s.grid().candidates_at(at(1, 2)).contains(&4));
    assert_eq!(s.step(PromptResponse::Undo), Reply::Undone);
    assert_eq!(s.grid().empty_cell_count(), 81);
    assert_eq!(s.step(PromptResponse::Undo), Reply::NothingToUndo);

    assert_eq!(s.step(PromptResponse::Redo), Reply::Redone);
    assert_eq!(*s.grid().get_cell(at(0, 0)), Cell::Filled(3));
    assert_eq!(*s.grid().get_cell(at(1, 1)), Cell::Empty);
    assert_eq!(s.step(PromptResponse::Redo), Reply::Redone);
    assert_eq!(*s.grid().get_cell(at(1, 1)), Cell::Filled(4));
    assert_eq!(s.step(PromptResponse::Redo), Reply::NothingToRedo);

    // A new value forgets what was taken back.
    assert_eq!(s.step(PromptResponse::Undo), Reply::Undone);
    assert_eq!(s.step(PromptResponse::Val((at(8, 8), Cell::Filled(1)))), Reply::Placed);
    assert_eq!(s.step(PromptResponse::Redo), Reply::NothingToRedo);
    assert_eq!(*s.grid().get_cell(at(1, 1)), Cell::Empty);

    assert_eq!(s.step(PromptResponse::Quit), Reply::Quit);
    assert_eq!(s.grid().empty_cell_count(), 79);
}

#[test]
fn session_ends_on_a_solved_board() {
    let mut rows = sudoku::get_base_solution();
    rows[0][0] = Cell::Empty;
    let mut s = Session::new(Grid::from_rows(rows));
    assert!(!s.is_solved());

    assert_eq!(s.step(PromptResponse::Val((at(0, 0), Cell::Filled(1)))), Reply::Placed);

    assert!(s.is_solved());
}

#[test]
fn entry_takes_cells_in_row_major_order() {
    let mut e = Entry::new();
    assert!(!e.is_complete());
    assert_eq!(e.next_cell(), at(0, 0));
    assert_eq!(e.shown().0[0][0], Cell::Clue(0));
    assert_eq!(e.shown().0[0][1], Cell::Empty);

    assert_eq!(e.step(PromptResponse::Undo), EntryReply::NothingToUndo);
    assert_eq!(e.step(PromptResponse::Redo), EntryReply::NothingToRedo);
    assert_eq!(e.step(PromptResponse::Val(Cell::Clue(5))), EntryReply::Entered);
    assert_eq!(e.step(PromptResponse::Val(Cell::Empty)), EntryReply::Entered);
    assert_eq!(e.next_cell(), at(0, 2));
    let shown = e.shown();
    assert_eq!(shown.0[0][0], Cell::Clue(5));
    assert_eq!(shown.0[0][1], Cell::Empty);
    assert_eq!(shown.0[0][2], Cell::Clue(0));
    assert_eq!(shown.0[0][3], Cell::Empty);

    assert_eq!(e.step(PromptResponse::Undo), EntryReply::Undone);
    assert_eq!(e.step(PromptResponse::Undo), EntryReply::Undone);
    assert_eq!(e.next_cell(), at(0, 0));
    assert_eq!(e.shown().0[0][0], Cell::Clue(0));
    assert_eq!(e.step(PromptResponse::Redo), EntryReply::Redone);
    assert_eq!(e.shown().0[0][0], Cell::Clue(5));
    assert_eq!(e.step(PromptResponse::Val(Cell::Clue(7))), EntryReply::Entered);
    assert_eq!(e.step(PromptResponse::Redo), EntryReply::NothingToRedo);
    assert_eq!(e.step(PromptResponse::Quit), EntryReply::Quit);
    assert_eq!(e.next_cell(), at(0, 2));

    for k in 2..81 {
        assert!(!e.is_complete());
        assert_eq!(e.next_cell(), at(k / 9, k % 9));
        e.step(PromptResponse::Val(if k == 80 { Cell::Clue(9) } else { Cell::Empty }));
    }
    assert!(e.is_complete());
    let g = e.finish();
    assert_eq!(g.rows()[0][0], Cell::Clue(5));
    assert_eq!(g.rows()[0][1], Cell::Clue(7));
    assert_eq!(g.rows()[8][8], Cell::Clue(9));
    assert_eq!(g.empty_cell_count(), 78);
    assert!(!g.candidates_at(at(0, 8)).contains(&5));
}

#[test]
fn grid_from_vec_reads_row_by_row() {
    let list: Vec<Cell> = (0..81u8).map(Cell::Filled).collect();
    let grid = grid_from_vec(list);

    for i in 0..SIZE {
        for j in 0..SIZE {
            assert_eq!(grid.0[i][j], Cell::Filled((i * 9 + j) as u8));
        }
    }
    let g: Grid = grid.into();
    assert_eq!(g.rows()[2][3], Cell::Filled(21));
}

#[test]
fn records_keep_what_they_are_given() {
    let m = Move::new(at(1, 2), Cell::Empty, Cell::Filled(3));
    assert_eq!((m.cell, m.old, m.new), (at(1, 2), Cell::Empty, Cell::Filled(3)));

    let d = sudoku::Decision::new(at(4, 4), Cell::Filled(6), vec![at(4, 5)], vec![6, 7], false);
    assert_eq!(d.cell, at(4, 4));
    assert_eq!(d.val, Cell::Filled(6));
    assert_eq!(d.candidates_changed, vec![at(4, 5)]);
    assert_eq!(d.prev_cell_candidates, vec![6, 7]);
    assert!(!d.forced);
    assert_eq!(d.placed(), 6);
}

#[test]
fn try_candidates_places_the_first_value_that_is_accepted() {
    // (0, 8) has 9 only, so 9 at (0, 7) is refused and 8 is not.
    let mut rows = [[Cell::Empty; SIZE]; SIZE];
    for col in 0..7 {
        rows[0][col] = Cell::Clue(col as u8 + 1);
    }
    rows[5][8] = Cell::Clue(8);
    let mut g = Grid::from_rows(rows);

    assert!(sudoku::solver::try_candidates(&mut g, at(0, 7), &vec![9]).is_none());
    assert_eq!(*g.get_cell(at(0, 7)), Cell::Empty);
    let d = sudoku::solver::try_candidates(&mut g, at(0, 7), &vec![9, 8]).unwrap();
    assert_eq!(d.cell, at(0, 7));
    assert_eq!(d.val, Cell::Filled(8));
    assert_eq!(d.prev_cell_candidates, vec![9, 8]);
    assert!(!d.forced);
    assert_eq!(*g.get_cell(at(0, 7)), Cell::Filled(8));
    assert!(d.candidates_changed.iter().all(|c| c.row == 0 || c.col == 7 || (c.row < 3 && c.col >= 6)));
    let d = sudoku::solver::try_candidates(&mut g, at(0, 8), &vec![9]).unwrap();
    assert!(d.forced);
}

#[test]
fn menu_choice_takes_the_key_or_the_default() {
    let options = vec![('e', 1), ('h', 3), ('m', 2), ('q', 0)];

    assert_eq!(menu_choice(&options, 'e', Some('m')), Some(1));
    assert_eq!(menu_choice(&options, 'q', Some('m')), Some(0));
    assert_eq!(menu_choice(&options, ' ', Some('m')), Some(2));
    assert_eq!(menu_choice(&options, ' ', None), None);
    assert_eq!(menu_choice(&options, 'x', Some('m')), None);
    assert_eq!(menu_choice(&options, ' ', Some('x')), None);
    assert_eq!(find_option(&options, 'h'), Some(3));
    assert_eq!(find_option(&options, ' '), None);
    assert_eq!(find_option(&vec![('a', 1), ('a', 2)], 'a'), Some(1));
    assert_eq!(menu_choice(&vec![(' ', 7), ('a', 1)], ' ', Some('a')), Some(7));
}

#[test]
fn format_chars_lists_the_keys() {
    assert_eq!(format_chars(&vec![('e', 1), ('h', 3), ('m', 2), ('q', 0)]), "[e, h, m, q]");
    assert_eq!(format_chars(&vec![('p', ())]), "[p]");
    assert_eq!(format_chars(&Vec::<(char, u8)>::new()), "[");
}

#[test]
fn read_value_reads_decimal_numbers_only() {
    assert_eq!(read_value("+", false), None);
    assert_eq!(read_value("++5", false), None);
    assert_eq!(read_value("5+", false), None);
    assert_eq!(read_value("5 ", false), None);
    assert_eq!(read_value("0x5", false), None);
    assert_eq!(read_value("\u{0665}", false), None);
    assert_eq!(read_value("0000000000000000000005", false), Some(PromptResponse::Val(Cell::Filled(5))));
    assert_eq!(read_value("+009", true), Some(PromptResponse::Val(Cell::Clue(9))));
}

#[test]
fn read_char_takes_lines_of_one_byte() {
    assert_eq!(read_char(""), Some(' '));
    assert_eq!(read_char("y"), Some('y'));
    assert_eq!(read_char(" "), Some(' '));
    assert_eq!(read_char("no"), None);
    assert_eq!(read_char("\u{e9}"), None);
}

#[test]
fn yes_or_no_knows_y_and_n() {
    assert_eq!(yes_or_no('y'), Some(true));
    assert_eq!(yes_or_no('n'), Some(false));
    assert_eq!(yes_or_no(' '), None);
    assert_eq!(yes_or_no('Y'), None);
}

#[test]
fn minutes_become_seconds() {
    assert_eq!(minutes_as_seconds(0), Some(0));
    assert_eq!(minutes_as_seconds(25), Some(1500));
    assert_eq!(minutes_as_seconds(u64::MAX / 60), Some(u64::MAX / 60 * 60));
    assert_eq!(minutes_as_seconds(u64::MAX / 60 + 1), None);
    assert_eq!(read_minutes("25"), Some(1500));
    assert_eq!(read_minutes("+3"), Some(180));
    assert_eq!(read_minutes("18446744073709551615"), None);
    assert_eq!(read_minutes("18446744073709551616"), None);
    assert_eq!(read_minutes("307445734561825860"), Some(18446744073709551600));
    assert_eq!(read_minutes(""), None);
    assert_eq!(read_minutes("-1"), None);
    assert_eq!(read_minutes("1.5"), None);
}
