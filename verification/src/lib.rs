//! A verified 9x9 sudoku solver.
//!
//! A grid is a row-major vector of 81 small integers, 0 standing for a blank
//! cell and 1 through 9 for a placed digit. The solver fills the blank cells
//! by exhaustive backtracking search; its contract states that a returned
//! grid is a complete, conflict-free extension of the input, and that when
//! the search gives up no such extension exists at all.

pub mod grid;
pub mod step;
pub mod solve;
pub mod text;
pub mod batch;
