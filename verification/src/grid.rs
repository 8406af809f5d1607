//! The board as a mathematical value, and one iteration of propagation as a
//! function on it.

use vstd::prelude::*;
use crate::cell::{count_of, deduced, Cell};
use crate::line::consistent;
use crate::outcome::{Phase, SolveError};
use crate::possibles::{dead, enumerates, filtered};
use crate::runs::{min_length, run_total, satisfies};

verus! {

/// The state of a board: its constraints, the cells of its rows and of its
/// columns, the possibility sets of both, and its phase.
pub struct Board {
    /// The run-length constraint of each row.
    pub row_limits: Seq<Seq<u32>>,
    /// The run-length constraint of each column.
    pub col_limits: Seq<Seq<u32>>,
    /// The cells, row by row.
    pub rows: Seq<Seq<Cell>>,
    /// The cells, column by column.
    pub columns: Seq<Seq<Cell>>,
    /// The possibility set of each row.
    pub row_sets: Seq<Seq<Seq<bool>>>,
    /// The possibility set of each column.
    pub col_sets: Seq<Seq<Seq<bool>>>,
    /// Where the board stands.
    pub phase: Phase,
}

/// The lines that cross `lines`: line `j` of the result holds position `j`
/// of each of `lines`, in their order.
pub open spec fn mirror(lines: Seq<Seq<Cell>>, across: nat) -> Seq<Seq<Cell>> {
    Seq::new(across, |j: int| Seq::new(lines.len(), |i: int| lines[i][j]))
}

/// Each line after a deduction from its own set.
pub open spec fn deduce_each(sets: Seq<Seq<Seq<bool>>>, lines: Seq<Seq<Cell>>) -> Seq<Seq<Cell>> {
    Seq::new(lines.len(), |i: int| deduced(sets[i], lines[i]))
}

/// Each set after filtering against its own line.
pub open spec fn filter_each(sets: Seq<Seq<Seq<bool>>>, lines: Seq<Seq<Cell>>) -> Seq<
    Seq<Seq<bool>>,
> {
    Seq::new(sets.len(), |i: int| filtered(sets[i], lines[i]))
}

/// Some set has no pattern that agrees with its line.
pub open spec fn any_dead(sets: Seq<Seq<Seq<bool>>>, lines: Seq<Seq<Cell>>) -> bool {
    exists|i: int| 0 <= i < sets.len() && dead(#[trigger] sets[i], lines[i])
}

/// The finished condition: every column holds as many `Full` cells as its
/// runs are long in sum.
pub open spec fn complete(columns: Seq<Seq<Cell>>, col_limits: Seq<Seq<u32>>) -> bool {
    forall|c: int|
        0 <= c < columns.len() ==> count_of(#[trigger] columns[c], Cell::Full) == run_total(
            col_limits[c],
        )
}

/// Each set of `a` has as many patterns as the set of `b` at its index.
pub open spec fn same_sizes(a: Seq<Seq<Seq<bool>>>, b: Seq<Seq<Seq<bool>>>) -> bool {
    forall|i: int| 0 <= i < a.len() ==> (#[trigger] a[i]).len() == b[i].len()
}

/// One iteration of propagation on a board that is propagating:
/// deduce the rows and mirror them into the columns; stop if finished;
/// filter the column sets, deduce the columns and mirror them into the rows;
/// stop if finished; filter the row sets. A set left without a pattern that
/// agrees with its line fails the board, and an iteration that changed no
/// cell and shrank no set stalls it.
pub open spec fn advance(b: Board) -> Board {
    let rows1 = deduce_each(b.row_sets, b.rows);
    let cols1 = mirror(rows1, b.col_limits.len());
    let col_sets2 = filter_each(b.col_sets, cols1);
    let cols3 = deduce_each(col_sets2, cols1);
    let rows3 = mirror(cols3, b.row_limits.len());
    let row_sets4 = filter_each(b.row_sets, rows3);
    if complete(cols1, b.col_limits) {
        Board { rows: rows1, columns: cols1, phase: Phase::Finished, ..b }
    } else if any_dead(col_sets2, cols1) {
        Board {
            rows: rows1,
            columns: cols1,
            col_sets: col_sets2,
            phase: Phase::Failed(SolveError::Unsatisfiable),
            ..b
        }
    } else if complete(cols3, b.col_limits) {
        Board { rows: rows3, columns: cols3, col_sets: col_sets2, phase: Phase::Finished, ..b }
    } else if any_dead(row_sets4, rows3) {
        Board {
            rows: rows3,
            columns: cols3,
            row_sets: row_sets4,
            col_sets: col_sets2,
            phase: Phase::Failed(SolveError::Unsatisfiable),
            ..b
        }
    } else {
        let moved = rows3 != b.rows || !same_sizes(row_sets4, b.row_sets) || !same_sizes(
            col_sets2,
            b.col_sets,
        );
        Board {
            rows: rows3,
            columns: cols3,
            row_sets: row_sets4,
            col_sets: col_sets2,
            phase: if moved {
                Phase::Propagating
            } else {
                Phase::Stalled
            },
            ..b
        }
    }
}

/// The board after at most `n` iterations: propagation stops at the first
/// board that is not propagating.
pub open spec fn run(b: Board, n: nat) -> Board
    decreases n,
{
    if n == 0 || b.phase != Phase::Propagating {
        b
    } else {
        run(advance(b), (n - 1) as nat)
    }
}

/// Some line of the board is too short for its runs.
pub open spec fn cramped(b: Board) -> bool {
    ||| exists|r: int|
        0 <= r < b.row_limits.len() && min_length(#[trigger] b.row_limits[r]) > b.col_limits.len()
    ||| exists|c: int|
        0 <= c < b.col_limits.len() && min_length(#[trigger] b.col_limits[c]) > b.row_limits.len()
}

/// `sets` holds, for each constraint of `limits`, the patterns of `len`
/// positions that satisfy it.
pub open spec fn enumerates_each(
    sets: Seq<Seq<Seq<bool>>>,
    len: nat,
    limits: Seq<Seq<u32>>,
) -> bool {
    &&& sets.len() == limits.len()
    &&& forall|i: int| 0 <= i < limits.len() ==> enumerates(#[trigger] sets[i], len, limits[i])
}

/// `next` is what preparing the initialized board `b` gives: a failed board
/// where a line is too short for its runs, and otherwise a propagating one
/// with the possibility set of every line, in no stated order. No cell
/// changes, and nothing is tested for being finished: the first iteration
/// deduces the rows before it tests that.
pub open spec fn prepared(b: Board, next: Board) -> bool {
    &&& next.row_limits == b.row_limits
    &&& next.col_limits == b.col_limits
    &&& next.rows == b.rows
    &&& next.columns == b.columns
    &&& if cramped(b) {
        next.phase == Phase::Failed(SolveError::InvalidConstraint) && next.row_sets == b.row_sets
            && next.col_sets == b.col_sets
    } else {
        &&& next.phase == Phase::Propagating
        &&& enumerates_each(next.row_sets, b.col_limits.len(), b.row_limits)
        &&& enumerates_each(next.col_sets, b.row_limits.len(), b.col_limits)
    }
}

/// `start` is the board from which propagation on `b` runs: `b` prepared,
/// where it is initialized, and `b` itself otherwise.
pub open spec fn begins(b: Board, start: Board) -> bool {
    if b.phase == Phase::Initialized {
        prepared(b, start)
    } else {
        start == b
    }
}

/// The board that is built from its constraints: every cell unknown, no
/// possibility set yet.
pub open spec fn fresh(row_limits: Seq<Seq<u32>>, col_limits: Seq<Seq<u32>>) -> Board {
    Board {
        row_limits,
        col_limits,
        rows: Seq::new(
            row_limits.len(),
            |r: int| Seq::new(col_limits.len(), |c: int| Cell::Unknown),
        ),
        columns: Seq::new(
            col_limits.len(),
            |c: int| Seq::new(row_limits.len(), |r: int| Cell::Unknown),
        ),
        row_sets: Seq::empty(),
        col_sets: Seq::empty(),
        phase: Phase::Initialized,
    }
}

/// Row `r` at position `c` equals column `c` at position `r`, everywhere.
pub open spec fn mirrored(b: Board) -> bool {
    forall|r: int, c: int|
        0 <= r < b.rows.len() && 0 <= c < b.columns.len() ==> (#[trigger] b.rows[r])[c] == (
        #[trigger] b.columns[c])[r]
}

/// `lines` holds `count` lines of `len` cells each.
pub open spec fn rectangular(lines: Seq<Seq<Cell>>, count: nat, len: nat) -> bool {
    &&& lines.len() == count
    &&& forall|i: int| 0 <= i < count ==> (#[trigger] lines[i]).len() == len
}

/// `sets` holds `count` sets of patterns of `len` positions each.
pub open spec fn sized(sets: Seq<Seq<Seq<bool>>>, count: nat, len: nat) -> bool {
    &&& sets.len() == count
    &&& forall|i: int, j: int|
        0 <= i < count && 0 <= j < sets[i].len() ==> (#[trigger] sets[i][j]).len() == len
}

/// `set` has a pattern, and each of its patterns agrees with `line`.
pub open spec fn fits(set: Seq<Seq<bool>>, line: Seq<Cell>) -> bool {
    &&& set.len() > 0
    &&& forall|j: int| 0 <= j < set.len() ==> consistent(#[trigger] set[j], line)
}

/// Every pattern of every set satisfies the constraint at the index of its
/// set.
pub open spec fn genuine(sets: Seq<Seq<Seq<bool>>>, limits: Seq<Seq<u32>>) -> bool {
    forall|i: int, j: int|
        0 <= i < sets.len() && 0 <= j < sets[i].len()
            ==> satisfies(#[trigger] sets[i][j], limits[i])
}

/// Every set fits its line.
pub open spec fn fit_each(sets: Seq<Seq<Seq<bool>>>, lines: Seq<Seq<Cell>>) -> bool {
    forall|i: int| 0 <= i < sets.len() ==> fits(#[trigger] sets[i], lines[i])
}

/// Every cell is `Unknown`.
pub open spec fn untouched(lines: Seq<Seq<Cell>>) -> bool {
    forall|i: int, j: int|
        0 <= i < lines.len() && 0 <= j < lines[i].len() ==> (#[trigger] lines[i][j])
            == Cell::Unknown
}

/// A line that holds as many `Full` cells as its runs are long in sum has no
/// `Unknown` cell left.
pub open spec fn closed(line: Seq<Cell>, runs: Seq<u32>) -> bool {
    count_of(line, Cell::Full) == run_total(runs) ==> forall|i: int|
        0 <= i < line.len() ==> #[trigger] line[i] != Cell::Unknown
}

/// Every line is closed for the constraint at its index.
pub open spec fn closed_each(lines: Seq<Seq<Cell>>, limits: Seq<Seq<u32>>) -> bool {
    forall|i: int| 0 <= i < lines.len() ==> closed(#[trigger] lines[i], limits[i])
}

/// The board `b` with its phase set back to propagating.
pub open spec fn resumed(b: Board) -> Board {
    Board { phase: Phase::Propagating, ..b }
}

/// One more iteration would change nothing on the board `b`.
pub open spec fn idle(b: Board) -> bool {
    advance(resumed(b)) == b
}

/// What holds of every board that the solver builds or reaches: rows and
/// columns have the sizes that the constraints give and mirror each other;
/// an initialized board knows no cell; while propagating, and once stalled,
/// every possibility set holds patterns of its line's constraint only and
/// fits its line; a finished board meets the finished condition, and each of
/// its rows that holds all the `Full` cells of its runs is fully known; and
/// on a stalled board one more iteration changes nothing.
pub open spec fn valid(b: Board) -> bool {
    &&& rectangular(b.rows, b.row_limits.len(), b.col_limits.len())
    &&& rectangular(b.columns, b.col_limits.len(), b.row_limits.len())
    &&& mirrored(b)
    &&& b.phase == Phase::Initialized ==> untouched(b.rows)
    &&& b.phase == Phase::Propagating || b.phase == Phase::Stalled ==> {
        &&& sized(b.row_sets, b.row_limits.len(), b.col_limits.len())
        &&& sized(b.col_sets, b.col_limits.len(), b.row_limits.len())
        &&& genuine(b.row_sets, b.row_limits)
        &&& genuine(b.col_sets, b.col_limits)
        &&& fit_each(b.row_sets, b.rows)
        &&& fit_each(b.col_sets, b.columns)
    }
    &&& b.phase == Phase::Finished ==> complete(b.columns, b.col_limits) && closed_each(
        b.rows,
        b.row_limits,
    )
    &&& b.phase == Phase::Stalled ==> idle(b)
}

/// The sum of a sequence of numbers.
pub open spec fn sum(numbers: Seq<nat>) -> nat
    decreases numbers.len(),
{
    if numbers.len() == 0 {
        0
    } else {
        sum(numbers.drop_last()) + numbers.last()
    }
}

/// The number of patterns in each set.
pub open spec fn sizes(sets: Seq<Seq<Seq<bool>>>) -> Seq<nat> {
    Seq::new(sets.len(), |i: int| sets[i].len())
}

/// The number of `Unknown` cells in each line.
pub open spec fn unknowns(lines: Seq<Seq<Cell>>) -> Seq<nat> {
    Seq::new(lines.len(), |i: int| count_of(lines[i], Cell::Unknown))
}

/// What propagation uses up: the patterns still possible and the cells
/// still unknown.
pub open spec fn measure(b: Board) -> nat {
    sum(sizes(b.row_sets)) + sum(sizes(b.col_sets)) + sum(unknowns(b.rows))
}

} // verus!
