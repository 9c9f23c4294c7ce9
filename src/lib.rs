//! Solving 9×9 Sudoku grids by depth-first search with backtracking.
//!
//! `rules` states when a digit may stand in a cell, `solver` fills a grid,
//! `laws` proves what every filled grid satisfies, and `text` turns rows of
//! fields into a grid and a grid into text.

pub mod laws;
pub mod rules;
pub mod solver;
pub mod text;

pub use rules::is_valid;
pub use solver::solve;
pub use text::{board_from_fields, render_board};
