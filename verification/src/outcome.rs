//! How a solving run ends.

use vstd::prelude::*;

verus! {

/// The terminal state of a propagation that did not fail.
#[derive(Debug, Copy, Clone, PartialEq, Eq, Structural)]
pub enum Status {
    /// Every column holds as many filled cells as its runs ask for.
    Finished,
    /// Line logic can deduce nothing more, and the grid is not finished.
    Stalled,
}

/// Why a puzzle cannot be solved.
#[derive(Debug, Copy, Clone, PartialEq, Eq, Structural)]
pub enum SolveError {
    /// The runs of some line need more room than the line has.
    InvalidConstraint,
    /// No pattern of some line agrees with the cells deduced so far.
    Unsatisfiable,
}

/// Where a board stands in its life.
#[derive(Debug, Copy, Clone, PartialEq, Eq, Structural)]
pub enum Phase {
    /// Built from its constraints; no possibility set exists yet.
    Initialized,
    /// The possibility sets exist, and propagation may deduce more.
    Propagating,
    /// Terminal: the grid is finished.
    Finished,
    /// Terminal: nothing more can be deduced.
    Stalled,
    /// Terminal: the puzzle cannot be solved.
    Failed(SolveError),
}

} // verus!
