//! A Sudoku solver: constraint propagation over per-cell candidate sets,
//! with depth-first backtracking where propagation alone is not enough.
use vstd::prelude::*;

pub mod geometry;
pub mod possible;
pub mod sudoku;
pub mod values;

pub use possible::Possible;
pub use sudoku::Sudoku;
pub use values::Values;
