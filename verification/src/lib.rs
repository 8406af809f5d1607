//! A line-logic solver for nonogram puzzles.
//!
//! Every row and column of the grid carries a run-length constraint. The
//! solver enumerates, for each line, every fill pattern that satisfies its
//! constraint, and then narrows the rows and the columns against each other
//! until the grid is determined or no further cell can be deduced.

pub mod bounds;
pub mod cell;
pub mod grid;
pub mod line;
pub mod nonogram;
pub mod outcome;
pub mod parallel;
pub mod possibles;
pub mod propagation;
pub mod render;
pub mod runs;
pub mod search;
pub mod single;

pub use cell::{Cell, CellLine};
pub use line::{consistent, BoolLine};
pub use outcome::{Phase, SolveError, Status};
pub use nonogram::{solve_nonogram, Nonogram};
pub use possibles::Possibles;
pub use single::solve_a_line;
