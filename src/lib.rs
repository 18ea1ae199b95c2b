//! Sudoku solving and generation with candidate tracking, human-style
//! deduction strategies, backtracking search and uniqueness-checked puzzle
//! generation.

pub mod bits;
pub mod board;
pub mod error;
pub mod grid;
pub mod highscores;
pub mod maze;
pub mod puzzle;
pub mod random;
pub mod reductions;
pub mod session;
pub mod solver;
pub mod stepwise;
pub mod text;
pub mod strategies;
pub mod units;

pub use grid::{Grid, Pos};
pub use solver::{Algorithm, SolveMode, Solver};
