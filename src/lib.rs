//! A 9x9 sudoku solver: a constraint-propagating depth-first search over
//! row, column and block occupancy bitmasks, proved sound and complete.

pub mod bits;
pub mod rules;
pub mod status;
pub mod solver;

pub use solver::{solve_line, ParseError, Sudoku};
pub use status::{count_solved, Status};
