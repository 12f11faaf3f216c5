//! A constraint-propagation and backtracking engine for Sudoku puzzles.
//!
//! The board is kept as three synchronised views (rows, columns, boxes)
//! together with a table of per-cell candidate domains. A backtracking
//! solver that always branches on the most constrained open cell is built on
//! top, and a generator on top of the solver.

use vstd::prelude::*;

pub mod board;
pub mod candidate_matrix;
pub mod cell;
pub mod coord;
pub mod decision;
pub mod domain;
pub mod entry;
pub mod generator;
pub mod geometry;
pub mod grid;
pub mod grid_trait;
pub mod laws;
pub mod menu;
pub mod prompt;
pub mod puzzle;
mod random;
pub mod render;
pub mod session;
pub mod solver;
pub mod time_text;

pub use candidate_matrix::CandidateMatrix;
pub use cell::Cell;
pub use coord::Coord;
pub use decision::{Decision, Move};
pub use domain::Domain;
pub use generator::{generate, Difficulty};
pub use geometry::{get_box_coords_containing, row_coords_to_box_coords};
pub use grid::{get_base_solution, ErrorKind, Grid, GridError};
pub use prompt::PromptResponse;
pub use puzzle::Puzzle;
pub use grid_trait::{DisplayableGrid, GridTrait};
pub use solver::{solve_backtracking_heuristics, solve_first_found};
pub use time_text::format_time;

verus! {

/// Side length of a box.
pub const ORDER: usize = 3;

/// Side length of the board; also the largest value a cell can hold.
pub const SIZE: usize = 9;

/// The number of characters of the largest value.
pub const NUM_WIDTH: u32 = 1;

/// The number of characters that a cell takes when the board is shown.
pub const CELL_WIDTH: u32 = 2;

/// A board as an array of rows (or of columns, or of boxes).
pub type GridArray = [[Cell; SIZE]; SIZE];

} // verus!
