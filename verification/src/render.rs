//! The board as text: two characters for every cell, a bar between the
//! boxes of a row, and a line of dashes between the rows of boxes.

use vstd::prelude::*;
use vstd::string::StringExecFns;

use crate::cell::Cell;
use crate::{GridArray, ORDER, SIZE};

verus! {

/// The text of the digit `d`.
pub open spec fn digit_text(d: int) -> Seq<char> {
    if d == 0 {
        "0"@
    } else if d == 1 {
        "1"@
    } else if d == 2 {
        "2"@
    } else if d == 3 {
        "3"@
    } else if d == 4 {
        "4"@
    } else if d == 5 {
        "5"@
    } else if d == 6 {
        "6"@
    } else if d == 7 {
        "7"@
    } else if d == 8 {
        "8"@
    } else {
        "9"@
    }
}

/// The decimal text of `n`.
pub open spec fn number_text(n: int) -> Seq<char>
    decreases n,
{
    if n < 10 {
        digit_text(n)
    } else {
        number_text(n / 10) + digit_text(n % 10)
    }
}

/// The text of a cell: its value, with a blank before it where it has one
/// digit only; two blanks for an empty cell.
pub open spec fn cell_text(cell: Cell) -> Seq<char> {
    match cell {
        Cell::Empty => "  "@,
        Cell::Clue(n) => if n < 10 {
            " "@ + number_text(n as int)
        } else {
            number_text(n as int)
        },
        Cell::Filled(n) => if n < 10 {
            " "@ + number_text(n as int)
        } else {
            number_text(n as int)
        },
    }
}

/// Whether a separator follows position `i` of a row or of the board: the
/// position ends a box and is not the last.
pub open spec fn ends_box(i: int) -> bool {
    i != SIZE - 1 && i % (ORDER as int) == ORDER - 1
}

/// The text of the first `j` cells of `row`, with a bar after every box but
/// the last.
pub open spec fn row_text(row: [Cell; SIZE], j: nat) -> Seq<char>
    decreases j,
{
    if j == 0 {
        Seq::empty()
    } else {
        row_text(row, (j - 1) as nat) + cell_text(row[j - 1]) + if ends_box(j - 1) {
            " |"@
        } else {
            Seq::empty()
        }
    }
}

/// The text of the first `i` rows of `rows`, one line each, with a line of
/// dashes after every row of boxes but the last.
pub open spec fn grid_text(rows: GridArray, i: nat) -> Seq<char>
    decreases i,
{
    if i == 0 {
        Seq::empty()
    } else {
        grid_text(rows, (i - 1) as nat) + row_text(rows[i - 1], SIZE as nat) + "\n"@
            + if ends_box(i - 1) {
            "-------+-------+-------\n"@
        } else {
            Seq::empty()
        }
    }
}

/// The text of the digit `d`.
fn digit(d: u8) -> (text: &'static str)
    requires
        d < 10,
    ensures
        text@ == digit_text(d as int),
{
    match d {
        0 => "0",
        1 => "1",
        2 => "2",
        3 => "3",
        4 => "4",
        5 => "5",
        6 => "6",
        7 => "7",
        8 => "8",
        _ => "9",
    }
}

/// Appends the decimal text of `n` to `out`.
pub fn push_number(out: &mut String, n: u64)
    ensures
        final(out)@ == old(out)@ + number_text(n as int),
    decreases n,
{
    if n >= 10 {
        push_number(out, n / 10);
    }
    out.append(digit((n % 10) as u8));
    proof {
        if n >= 10 {
            assert(old(out)@ + number_text(n as int / 10) + digit_text(n as int % 10) =~= old(
                out,
            )@ + (number_text(n as int / 10) + digit_text(n as int % 10)));
        }
    }
}

/// Appends the text of `cell` to `out`.
fn push_cell(out: &mut String, cell: Cell)
    ensures
        final(out)@ == old(out)@ + cell_text(cell),
{
    match cell {
        Cell::Empty => {
            out.append("  ");
        },
        Cell::Clue(n) => {
            if n < 10 {
                out.append(" ");
            }
            push_number(out, n as u64);
            assert(old(out)@ + " "@ + number_text(n as int) =~= old(out)@ + (" "@ + number_text(
                n as int,
            )));
        },
        Cell::Filled(n) => {
            if n < 10 {
                out.append(" ");
            }
            push_number(out, n as u64);
            assert(old(out)@ + " "@ + number_text(n as int) =~= old(out)@ + (" "@ + number_text(
                n as int,
            )));
        },
    }
}

/// The board `rows` as text.
pub fn render(rows: &GridArray) -> (text: String)
    ensures
        text@ == grid_text(*rows, SIZE as nat),
{
    let mut text = String::new();
    let mut i: usize = 0;
    while i < SIZE
        invariant
            i <= SIZE,
            text@ == grid_text(*rows, i as nat),
        decreases SIZE - i,
    {
        let ghost start = text@;
        let mut j: usize = 0;
        while j < SIZE
            invariant
                i < SIZE,
                j <= SIZE,
                text@ == start + row_text(rows[i as int], j as nat),
            decreases SIZE - j,
        {
            let ghost before = row_text(rows[i as int], j as nat);
            push_cell(&mut text, rows[i][j]);
            if j != SIZE - 1 && j % ORDER == ORDER - 1 {
                text.append(" |");
                assert(start + before + cell_text(rows[i as int][j as int]) + " |"@ =~= start + (
                before + cell_text(rows[i as int][j as int]) + " |"@));
            } else {
                assert(start + before + cell_text(rows[i as int][j as int]) =~= start + (before
                    + cell_text(rows[i as int][j as int]) + Seq::<char>::empty()));
            }
            j += 1;
        }
        text.append("\n");
        let ghost line = row_text(rows[i as int], SIZE as nat);
        if i != SIZE - 1 && i % ORDER == ORDER - 1 {
            text.append("-------+-------+-------\n");
            assert(start + line + "\n"@ + "-------+-------+-------\n"@ =~= start + line + "\n"@
                + "-------+-------+-------\n"@);
        } else {
            assert(start + line + "\n"@ =~= start + line + "\n"@ + Seq::<char>::empty());
        }
        i += 1;
    }
    text
}

} // verus!
