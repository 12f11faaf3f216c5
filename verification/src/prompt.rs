//! What the lines that a player types mean.

use regex::Regex;
use vstd::prelude::*;
use vstd::string::{StrSliceExecFns, StringSliceAdditionalSpecFns};
use vstd::utf8::encode_utf8;

use crate::cell::Cell;
use crate::coord::Coord;
use crate::SIZE;

verus! {

/// An answer of the player: a value, or the wish to quit, to take a step
/// back, or to take it again.
#[derive(Debug, Clone, Copy, PartialEq, Eq)]
pub enum PromptResponse<T> {
    Quit,
    Undo,
    Redo,
    Val(T),
}

/// What a line typed for a cell address means.
#[derive(Debug, Clone, Copy, PartialEq, Eq)]
pub enum CoordAnswer {
    /// An answer: the address as typed, counted from 1, or a wish.
    Response(PromptResponse<Coord>),
    /// The line does not have the form of an address.
    NoMatch,
    /// The line has the form of an address, but a part of it is no number.
    NoNumber,
}

/// Whether `c` is one of the digits `0` to `9`.
pub open spec fn is_digit(c: char) -> bool {
    48 <= c as u32 <= 57
}

/// The number that the digits `digits` stand for in decimal.
pub open spec fn decimal_value(digits: Seq<char>) -> int
    decreases digits.len(),
{
    if digits.len() == 0 {
        0
    } else {
        decimal_value(digits.drop_last()) * 10 + (digits.last() as u32 - 48)
    }
}

/// The number that `text` stands for as a `u8`: `text` is a `+` or nothing,
/// then one digit or more and nothing else, and the number is none above
/// 255. `None` for every other text.
pub open spec fn parsed_u8(text: Seq<char>) -> Option<u8> {
    let digits = if text.len() > 0 && text[0] == '+' {
        text.skip(1)
    } else {
        text
    };
    if digits.len() > 0 && (forall|i: int| 0 <= i < digits.len() ==> is_digit(#[trigger] digits[i]))
        && decimal_value(digits) <= u8::MAX {
        Some(decimal_value(digits) as u8)
    } else {
        None
    }
}

/// The number that `text` stands for as a `u64`: `text` is a `+` or
/// nothing, then one digit or more and nothing else, and the number is none
/// above the largest `u64`. `None` for every other text.
pub open spec fn parsed_u64(text: Seq<char>) -> Option<u64> {
    let digits = if text.len() > 0 && text[0] == '+' {
        text.skip(1)
    } else {
        text
    };
    if digits.len() > 0 && (forall|i: int| 0 <= i < digits.len() ==> is_digit(#[trigger] digits[i]))
        && decimal_value(digits) <= u64::MAX {
        Some(decimal_value(digits) as u64)
    } else {
        None
    }
}

/// [`str::parse`] for `u64`, which reads an optional `+` followed by decimal
/// digits only, and fails on an empty text, on any other character and on a
/// number above the largest `u64`.
#[verifier::external_body]
fn parse_u64(text: &str) -> (r: Option<u64>)
    ensures
        r == parsed_u64(text@),
{
    text.parse::<u64>().ok()
}

/// [`str::parse`] for `u8`, which reads an optional `+` followed by decimal
/// digits only, and fails on an empty text, on any other character and on a
/// number above 255.
#[verifier::external_body]
fn parse_u8(text: &str) -> (r: Option<u8>)
    ensures
        r == parsed_u8(text@),
{
    text.parse::<u8>().ok()
}

/// The groups that the regular expression `pattern` captures in `text`,
/// the whole match first; `None` where `pattern` is no regular expression
/// or does not match. A group that took no part in the match is `None`.
pub uninterp spec fn regex_captures(pattern: Seq<char>, text: Seq<char>) -> Option<
    Seq<Option<Seq<char>>>,
>;

/// [`Regex::new`] on `pattern`, then [`Regex::captures`] on `text`: the text
/// of every group of the first match, in the order of the groups and with
/// the whole match first.
#[verifier::external_body]
fn captures(pattern: &str, text: &str) -> (r: Option<Vec<Option<String>>>)
    ensures
        r is None <==> regex_captures(pattern@, text@) is None,
        r matches Some(groups) ==> {
            let named = regex_captures(pattern@, text@)->0;
            &&& named.len() == groups.len()
            &&& forall|i: int|
                0 <= i < groups.len() ==> match #[trigger] groups[i] {
                    Some(group) => named[i] == Some(group@),
                    None => named[i] is None,
                }
        },
{
    let compiled = Regex::new(pattern).ok()?;
    let found = compiled.captures(text)?;
    Some(found.iter().map(|group| group.map(|m| m.as_str().to_string())).collect())
}

/// Whether `text` is the one letter `letter`.
pub open spec fn is_letter(text: Seq<char>, letter: char) -> bool {
    text.len() == 1 && text[0] == letter
}

/// Whether `text` is the one letter `letter`.
fn is_single(text: &str, letter: char) -> (b: bool)
    ensures
        b == is_letter(text@, letter),
{
    text.unicode_len() == 1 && text.get_char(0) == letter
}

/// The wish that `text` stands for: "u" to take a step back, "r" to take it
/// again, "q" to quit.
pub open spec fn wish<T>(text: Seq<char>) -> Option<PromptResponse<T>> {
    if is_letter(text, 'u') {
        Some(PromptResponse::Undo)
    } else if is_letter(text, 'r') {
        Some(PromptResponse::Redo)
    } else if is_letter(text, 'q') {
        Some(PromptResponse::Quit)
    } else {
        None
    }
}

/// What a number read from a line means as a cell: a value of the board
/// becomes a clue or a filled cell, anything else is no answer.
pub open spec fn cell_of_number(number: Option<u8>, is_clue: bool) -> Option<Cell> {
    match number {
        Some(n) => if 1 <= n <= SIZE {
            Some(
                if is_clue {
                    Cell::Clue(n)
                } else {
                    Cell::Filled(n)
                },
            )
        } else {
            None
        },
        None => None,
    }
}

/// What a number read from a line means as a cell: a value of the board
/// becomes a clue or a filled cell, anything else is no answer.
pub fn value_from_number(number: Option<u8>, is_clue: bool) -> (r: Option<Cell>)
    ensures
        r == cell_of_number(number, is_clue),
{
    match number {
        Some(n) => if 1 <= n && n as usize <= SIZE {
            Some(
                if is_clue {
                    Cell::Clue(n)
                } else {
                    Cell::Filled(n)
                },
            )
        } else {
            None
        },
        None => None,
    }
}

/// What the line `text`, typed for a value, means: an empty line is an
/// empty cell, a wish is a wish, and a value of the board is a cell.
pub open spec fn value_answer(text: Seq<char>, is_clue: bool) -> Option<PromptResponse<Cell>> {
    if text.len() == 0 {
        Some(PromptResponse::Val(Cell::Empty))
    } else if wish::<Cell>(text) is Some {
        wish::<Cell>(text)
    } else {
        match cell_of_number(parsed_u8(text), is_clue) {
            Some(cell) => Some(PromptResponse::Val(cell)),
            None => None,
        }
    }
}

/// What the line `text`, typed for a value, means; `None` where it means
/// nothing and the player is asked again.
pub fn read_value(text: &str, is_clue: bool) -> (r: Option<PromptResponse<Cell>>)
    ensures
        r == value_answer(text@, is_clue),
{
    if text.unicode_len() == 0 {
        Some(PromptResponse::Val(Cell::Empty))
    } else if is_single(text, 'u') {
        Some(PromptResponse::Undo)
    } else if is_single(text, 'r') {
        Some(PromptResponse::Redo)
    } else if is_single(text, 'q') {
        Some(PromptResponse::Quit)
    } else {
        match value_from_number(parse_u8(text), is_clue) {
            Some(cell) => Some(PromptResponse::Val(cell)),
            None => None,
        }
    }
}

/// The form of a cell address: two digits, each a group of its own, with
/// anything but digits before, between and after them.
pub fn coord_pattern() -> (pattern: &'static str)
    ensures
        pattern@ == r"^\D*(?P<row>\d)\D*(?P<col>\d)\D*$"@,
{
    r"^\D*(?P<row>\d)\D*(?P<col>\d)\D*$"
}

/// What the groups captured from a line mean as an address: with the whole
/// match and the two groups there, the numbers that the groups stand for.
pub open spec fn coord_of_groups(groups: Option<Seq<Option<Seq<char>>>>) -> CoordAnswer {
    match groups {
        None => CoordAnswer::NoMatch,
        Some(found) => if found.len() == 3 && found[1] is Some && found[2] is Some {
            match (parsed_u8(found[1]->0), parsed_u8(found[2]->0)) {
                (Some(row), Some(col)) => CoordAnswer::Response(
                    PromptResponse::Val(Coord { row: row as usize, col: col as usize }),
                ),
                _ => CoordAnswer::NoNumber,
            }
        } else {
            CoordAnswer::NoMatch
        },
    }
}

/// What the numbers read from the two groups of an address mean.
pub fn coord_from_numbers(row: Option<u8>, col: Option<u8>) -> (r: CoordAnswer)
    ensures
        r == match (row, col) {
            (Some(row), Some(col)) => CoordAnswer::Response(
                PromptResponse::Val(Coord { row: row as usize, col: col as usize }),
            ),
            _ => CoordAnswer::NoNumber,
        },
{
    match (row, col) {
        (Some(row), Some(col)) => CoordAnswer::Response(
            PromptResponse::Val(Coord { row: row as usize, col: col as usize }),
        ),
        _ => CoordAnswer::NoNumber,
    }
}

/// What the line `text`, typed for a cell address, means: a wish is a wish,
/// and a line of the form of an address is the address.
pub open spec fn coord_answer(text: Seq<char>) -> CoordAnswer {
    if wish::<Coord>(text) is Some {
        CoordAnswer::Response(wish::<Coord>(text)->0)
    } else {
        coord_of_groups(regex_captures(r"^\D*(?P<row>\d)\D*(?P<col>\d)\D*$"@, text))
    }
}

/// What the line `text`, typed for a cell address, means.
pub fn read_coord(text: &str) -> (r: CoordAnswer)
    ensures
        r == coord_answer(text@),
{
    if is_single(text, 'u') {
        CoordAnswer::Response(PromptResponse::Undo)
    } else if is_single(text, 'r') {
        CoordAnswer::Response(PromptResponse::Redo)
    } else if is_single(text, 'q') {
        CoordAnswer::Response(PromptResponse::Quit)
    } else {
        match captures(coord_pattern(), text) {
            None => CoordAnswer::NoMatch,
            Some(groups) => {
                if groups.len() != 3 {
                    return CoordAnswer::NoMatch;
                }
                match (&groups[1], &groups[2]) {
                    (Some(row), Some(col)) => coord_from_numbers(
                        parse_u8(row.as_str()),
                        parse_u8(col.as_str()),
                    ),
                    _ => CoordAnswer::NoMatch,
                }
            },
        }
    }
}

/// The cell of the board that the player means by `user`, an address
/// counted from 1; `None` where there is no such cell.
pub fn board_coord(user: Coord) -> (r: Option<Coord>)
    ensures
        r == if 1 <= user.row <= SIZE && 1 <= user.col <= SIZE {
            Some(Coord { row: (user.row - 1) as usize, col: (user.col - 1) as usize })
        } else {
            None
        },
        r matches Some(c) ==> c.in_bounds(),
{
    if 1 <= user.row && user.row <= SIZE && 1 <= user.col && user.col <= SIZE {
        Some(Coord { row: user.row - 1, col: user.col - 1 })
    } else {
        None
    }
}

/// What the line `text` means as one character: an empty line is a blank,
/// a line of one byte is its character, and a longer line is no answer.
pub open spec fn char_answer(text: Seq<char>) -> Option<char> {
    if encode_utf8(text).len() > 1 {
        None
    } else if text.len() == 0 {
        Some(' ')
    } else {
        Some(text[0])
    }
}

/// What the line `text` means as one character; `None` where the line is
/// too long and the player is asked again.
pub fn read_char(text: &str) -> (r: Option<char>)
    ensures
        r == char_answer(text@),
{
    if text.as_bytes().len() > 1 {
        None
    } else if text.unicode_len() == 0 {
        Some(' ')
    } else {
        Some(text.get_char(0))
    }
}

/// What the character `answer` means as a yes or a no: `y` is a yes, `n` a
/// no, anything else no answer.
pub fn yes_or_no(answer: char) -> (r: Option<bool>)
    ensures
        r == if answer == 'y' {
            Some(true)
        } else if answer == 'n' {
            Some(false)
        } else {
            None
        },
{
    if answer == 'y' {
        Some(true)
    } else if answer == 'n' {
        Some(false)
    } else {
        None
    }
}

/// The seconds of `minutes` minutes; `None` where they are more than a
/// `u64` holds.
pub fn minutes_as_seconds(minutes: u64) -> (r: Option<u64>)
    ensures
        r == if minutes * 60 <= u64::MAX {
            Some((minutes * 60) as u64)
        } else {
            None
        },
{
    if minutes <= u64::MAX / 60 {
        Some(minutes * 60)
    } else {
        None
    }
}

/// The seconds that the line `text`, typed as a number of minutes, stands
/// for; `None` where the line is no number or the seconds are more than a
/// `u64` holds.
pub fn read_minutes(text: &str) -> (r: Option<u64>)
    ensures
        r == match parsed_u64(text@) {
            Some(minutes) => if minutes * 60 <= u64::MAX {
                Some((minutes * 60) as u64)
            } else {
                None
            },
            None => None,
        },
{
    match parse_u64(text) {
        Some(minutes) => minutes_as_seconds(minutes),
        None => None,
    }
}

} // verus!
