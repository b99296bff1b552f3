//! A Sudoku engine: a backtracking solver, the validity rule shared by
//! generation and play, difficulty-driven blanking, and a puzzle type whose
//! starting cells are protected from edits.
pub mod board;
pub mod cli;
pub mod grid;
pub mod puzzle;
pub mod removal;
pub mod render;
pub mod solver;

pub use board::{BoardSize, Difficulty, Error};
pub use cli::{CliBoardSize, CliDifficulty};
pub use grid::{is_valid, verify};
pub use puzzle::{StartingCells, Sudoku};
pub use removal::{apply_difficulty, removal_order};
pub use render::{draw, sudoku_as_string, Style};
pub use solver::{empty_grid, generate, solve_sudoku};
