//! The board: rows and columns of cells, their constraints and their
//! possibility sets, and the propagation loop that narrows them.

use vstd::prelude::*;
use crate::bounds::lemma_sizes_fit;
use crate::cell::{count_of, Cell, CellLine};
use crate::grid::{advance, any_dead, begins, complete, cramped, deduce_each, enumerates_each,
    filter_each, fits, fresh, idle, measure, mirror, mirrored, prepared, rectangular, run, sized,
    sizes, sum, unknowns, untouched, valid, Board};
use crate::line::consistent;
use crate::outcome::{Phase, SolveError, Status};
use crate::parallel::{enumerate_lines, enumeration_of, gather};
use crate::possibles::{dead, enumerates, Possibles};
use crate::propagation::{respects, shows, solves, lemma_advance_respects, lemma_advance_valid,
    lemma_deduce_each, lemma_filter_each, lemma_finished_is_the_solution, lemma_mirror,
    lemma_prepared_respects, lemma_run_step};
use crate::runs::{min_length, run_total};
use crate::search::lemma_pattern_count_positive;

verus! {

/// The cells that a sequence of lines holds.
pub open spec fn cells_of(lines: Seq<CellLine>) -> Seq<Seq<Cell>> {
    Seq::new(lines.len(), |i: int| lines[i]@)
}

/// The patterns that a sequence of possibility sets holds.
pub open spec fn sets_of(sets: Seq<Possibles>) -> Seq<Seq<Seq<bool>>> {
    Seq::new(sets.len(), |i: int| sets[i]@)
}

/// The constraints that a sequence of run-length vectors holds.
pub open spec fn runs_of(limits: Seq<Vec<u32>>) -> Seq<Seq<u32>> {
    Seq::new(limits.len(), |i: int| limits[i]@)
}

/// `count` lines of `len` cells each, all `Unknown`.
fn blank_lines(count: usize, len: usize) -> (lines: Vec<CellLine>)
    ensures
        rectangular(cells_of(lines@), count as nat, len as nat),
        untouched(cells_of(lines@)),
{
    let mut lines: Vec<CellLine> = Vec::new();
    let mut i: usize = 0;
    while i < count
        invariant
            i <= count,
            lines@.len() == i,
            forall|k: int|
                0 <= k < i
                    ==> (#[trigger] lines@[k])@ == Seq::new(len as nat, |j: int| Cell::Unknown),
        decreases count - i,
    {
        lines.push(CellLine::new(len));
        i += 1;
    }
    lines
}

/// The sum of the run lengths of `limit`.
fn total_of(limit: &Vec<u32>) -> (total: u128)
    ensures
        total == run_total(limit@),
{
    let mut total: u128 = 0;
    let mut i: usize = 0;
    while i < limit.len()
        invariant
            i <= limit@.len(),
            total == run_total(limit@.take(i as int)),
            total <= i * u32::MAX,
        decreases limit@.len() - i,
    {
        assert(limit@.take(i + 1).drop_last() =~= limit@.take(i as int));
        assert(i * u32::MAX <= usize::MAX * u32::MAX) by (nonlinear_arith)
            requires
                i <= usize::MAX,
        ;
        total = total + limit[i] as u128;
        i += 1;
    }
    assert(limit@.take(i as int) =~= limit@);
    total
}

/// Tests the finished condition on `columns`.
fn columns_complete(columns: &Vec<CellLine>, col_limits: &Vec<Vec<u32>>) -> (done: bool)
    requires
        columns@.len() == col_limits@.len(),
    ensures
        done == complete(cells_of(columns@), runs_of(col_limits@)),
{
    let mut c: usize = 0;
    while c < columns.len()
        invariant
            c <= columns@.len(),
            columns@.len() == col_limits@.len(),
            forall|k: int|
                0 <= k < c ==> count_of(#[trigger] cells_of(columns@)[k], Cell::Full) == run_total(
                    runs_of(col_limits@)[k],
                ),
        decreases columns@.len() - c,
    {
        let full = columns[c].count(Cell::Full);
        let wanted = total_of(&col_limits[c]);
        if full as u128 != wanted {
            assert(count_of(cells_of(columns@)[c as int], Cell::Full) != run_total(
                runs_of(col_limits@)[c as int],
            ));
            return false;
        }
        c += 1;
    }
    true
}

/// The number of patterns that `sets` hold in all.
fn count_patterns(sets: &Vec<Possibles>) -> (total: u128)
    ensures
        total == sum(sizes(sets_of(sets@))),
{
    let ghost all = sizes(sets_of(sets@));
    let mut total: u128 = 0;
    let mut i: usize = 0;
    while i < sets.len()
        invariant
            i <= sets@.len(),
            all == sizes(sets_of(sets@)),
            total == sum(all.take(i as int)),
            total <= i * usize::MAX,
        decreases sets@.len() - i,
    {
        proof {
            assert(all.take(i + 1).drop_last() =~= all.take(i as int));
            lemma_sizes_fit(i as int, usize::MAX as int);
        }
        total = total + sets[i].len() as u128;
        i += 1;
    }
    assert(all.take(i as int) =~= all);
    total
}

/// The number of `Unknown` cells that `lines` hold in all.
fn count_unknown(lines: &Vec<CellLine>) -> (total: u128)
    ensures
        total == sum(unknowns(cells_of(lines@))),
{
    let ghost all = unknowns(cells_of(lines@));
    let mut total: u128 = 0;
    let mut i: usize = 0;
    while i < lines.len()
        invariant
            i <= lines@.len(),
            all == unknowns(cells_of(lines@)),
            total == sum(all.take(i as int)),
            total <= i * usize::MAX,
        decreases lines@.len() - i,
    {
        proof {
            assert(all.take(i + 1).drop_last() =~= all.take(i as int));
            lemma_sizes_fit(i as int, usize::MAX as int);
        }
        let unknown = lines[i].count(Cell::Unknown);
        total = total + unknown as u128;
        i += 1;
    }
    assert(all.take(i as int) =~= all);
    total
}

/// Deduces each line from the set at its index.
fn deduce_lines(lines: &mut Vec<CellLine>, sets: &Vec<Possibles>, Ghost(len): Ghost<nat>)
    requires
        rectangular(cells_of(old(lines)@), sets@.len() as nat, len),
        sized(sets_of(sets@), sets@.len() as nat, len),
    ensures
        cells_of(final(lines)@) == deduce_each(sets_of(sets@), cells_of(old(lines)@)),
{
    let ghost before = lines@;
    let ghost goal = deduce_each(sets_of(sets@), cells_of(before));
    let mut i: usize = 0;
    while i < lines.len()
        invariant
            i <= lines@.len(),
            lines@.len() == before.len(),
            goal == deduce_each(sets_of(sets@), cells_of(before)),
            rectangular(cells_of(before), sets@.len() as nat, len),
            sized(sets_of(sets@), sets@.len() as nat, len),
            forall|k: int| 0 <= k < i ==> (#[trigger] lines@[k])@ == goal[k],
            forall|k: int| i <= k < lines@.len() ==> lines@[k] == before[k],
        decreases lines@.len() - i,
    {
        assert(cells_of(before)[i as int].len() == len);
        assert forall|j: int| 0 <= j < sets@[i as int]@.len() implies (#[trigger] sets@[i
            as int]@[j]).len() == len by {
            assert(sets_of(sets@)[i as int][j].len() == len);
        }
        lines[i].update(&sets[i]);
        i += 1;
    }
    assert(cells_of(lines@) =~= goal);
}

/// Copies the cells of `from` into the lines that cross them.
fn reflect(from: &Vec<CellLine>, into: &mut Vec<CellLine>)
    requires
        rectangular(cells_of(from@), from@.len(), old(into)@.len()),
        rectangular(cells_of(old(into)@), old(into)@.len(), from@.len()),
    ensures
        cells_of(final(into)@) == mirror(cells_of(from@), old(into)@.len()),
        final(into)@.len() == old(into)@.len(),
{
    let count: usize = from.len();
    let across: usize = into.len();
    let ghost goal = mirror(cells_of(from@), across as nat);
    let mut j: usize = 0;
    while j < across
        invariant
            j <= across,
            count == from@.len(),
            across == into@.len(),
            goal == mirror(cells_of(from@), across as nat),
            rectangular(cells_of(from@), count as nat, across as nat),
            rectangular(cells_of(into@), across as nat, count as nat),
            forall|k: int| 0 <= k < j ==> (#[trigger] into@[k])@ == goal[k],
        decreases across - j,
    {
        let mut i: usize = 0;
        while i < count
            invariant
                i <= count,
                j < across,
                count == from@.len(),
                across == into@.len(),
                goal == mirror(cells_of(from@), across as nat),
                rectangular(cells_of(from@), count as nat, across as nat),
                rectangular(cells_of(into@), across as nat, count as nat),
                forall|k: int| 0 <= k < j ==> (#[trigger] into@[k])@ == goal[k],
                forall|k: int| 0 <= k < i ==> into@[j as int]@[k] == goal[j as int][k],
            decreases count - i,
        {
            let ghost held = into@;
            assert(cells_of(from@)[i as int].len() == across);
            assert(cells_of(into@)[j as int].len() == count);
            let cell = from[i].get(j);
            into[j].set(i, cell);
            assert forall|k: int| 0 <= k < across implies (#[trigger] cells_of(into@)[k]).len()
                == count by {
                assert(cells_of(held)[k].len() == count);
            }
            i += 1;
        }
        assert(cells_of(into@)[j as int].len() == count);
        j += 1;
    }
}

/// Filters each set against the line at its index, and tells whether every
/// set still has a pattern that agrees with its line.
fn narrow_sets(sets: &mut Vec<Possibles>, lines: &Vec<CellLine>, Ghost(len): Ghost<nat>) -> (alive:
    bool)
    requires
        sized(sets_of(old(sets)@), lines@.len() as nat, len),
        rectangular(cells_of(lines@), lines@.len() as nat, len),
    ensures
        sets_of(final(sets)@) == filter_each(sets_of(old(sets)@), cells_of(lines@)),
        alive == !any_dead(sets_of(final(sets)@), cells_of(lines@)),
{
    let ghost before = sets@;
    let ghost goal = filter_each(sets_of(before), cells_of(lines@));
    let mut alive = true;
    let mut i: usize = 0;
    while i < sets.len()
        invariant
            i <= sets@.len(),
            sets@.len() == before.len(),
            goal == filter_each(sets_of(before), cells_of(lines@)),
            sized(sets_of(before), lines@.len() as nat, len),
            rectangular(cells_of(lines@), lines@.len() as nat, len),
            forall|k: int| 0 <= k < i ==> (#[trigger] sets@[k])@ == goal[k],
            forall|k: int| i <= k < sets@.len() ==> sets@[k] == before[k],
            alive == forall|k: int| 0 <= k < i ==> !dead(#[trigger] goal[k], cells_of(lines@)[k]),
        decreases sets@.len() - i,
    {
        assert(cells_of(lines@)[i as int].len() == len);
        assert forall|j: int| 0 <= j < sets@[i as int]@.len() implies (#[trigger] sets@[i
            as int]@[j]).len() == len by {
            assert(sets_of(before)[i as int][j].len() == len);
        }
        let kept = sets[i].narrow(&lines[i]);
        assert(sets@[i as int]@ == goal[i as int]);
        if !kept {
            alive = false;
        }
        i += 1;
    }
    assert(sets_of(sets@) =~= goal);
    alive
}

/// A nonogram board.
///
/// A board is built from its constraints with every cell unknown. Each call
/// of [`Nonogram::step`] then takes it one step on: the first prepares the
/// possibility sets, each later one runs one iteration of propagation, until
/// the board is finished, stalled or failed.
pub struct Nonogram<'a> {
    rows: Vec<CellLine>,
    columns: Vec<CellLine>,
    row_limits: &'a Vec<Vec<u32>>,
    col_limits: &'a Vec<Vec<u32>>,
    row_sets: Vec<Possibles>,
    col_sets: Vec<Possibles>,
    phase: Phase,
}

impl<'a> View for Nonogram<'a> {
    type V = Board;

    closed spec fn view(&self) -> Board {
        Board {
            row_limits: runs_of(self.row_limits@),
            col_limits: runs_of(self.col_limits@),
            rows: cells_of(self.rows@),
            columns: cells_of(self.columns@),
            row_sets: sets_of(self.row_sets@),
            col_sets: sets_of(self.col_sets@),
            phase: self.phase,
        }
    }
}

impl<'a> Nonogram<'a> {
    /// The board is in a state that the solver builds or reaches.
    pub open spec fn wf(&self) -> bool {
        valid(self@)
    }

    /// A board for the given constraints, one per row and one per column,
    /// with every cell `Unknown`.
    pub fn new(row_limits: &'a Vec<Vec<u32>>, col_limits: &'a Vec<Vec<u32>>) -> (board: Self)
        ensures
            board.wf(),
            board@ == fresh(runs_of(row_limits@), runs_of(col_limits@)),
    {
        let height: usize = row_limits.len();
        let width: usize = col_limits.len();
        let board = Nonogram {
            rows: blank_lines(height, width),
            columns: blank_lines(width, height),
            row_limits,
            col_limits,
            row_sets: Vec::new(),
            col_sets: Vec::new(),
            phase: Phase::Initialized,
        };
        proof {
            let goal = fresh(runs_of(row_limits@), runs_of(col_limits@));
            assert forall|r: int|
                0 <= r < height implies #[trigger] board@.rows[r] =~= goal.rows[r] by {}
            assert forall|c: int|
                0 <= c < width implies #[trigger] board@.columns[c] =~= goal.columns[c] by {}
            assert(board@.rows =~= goal.rows);
            assert(board@.columns =~= goal.columns);
            assert(board@.row_sets =~= goal.row_sets);
        }
        board
    }

    /// The number of rows.
    pub fn height(&self) -> (n: usize)
        ensures
            n == self@.row_limits.len(),
    {
        self.row_limits.len()
    }

    /// The number of columns.
    pub fn width(&self) -> (n: usize)
        ensures
            n == self@.col_limits.len(),
    {
        self.col_limits.len()
    }

    /// Where the board stands.
    pub fn phase(&self) -> (phase: Phase)
        ensures
            phase == self@.phase,
    {
        self.phase
    }

    /// Row `r`.
    pub fn row(&self, r: usize) -> (line: &CellLine)
        requires
            self.wf(),
            r < self@.row_limits.len(),
        ensures
            line@ == self@.rows[r as int],
    {
        &self.rows[r]
    }

    /// Column `c`.
    pub fn column(&self, c: usize) -> (line: &CellLine)
        requires
            self.wf(),
            c < self@.col_limits.len(),
        ensures
            line@ == self@.columns[c as int],
    {
        &self.columns[c]
    }

    /// The cell of row `r` at position `c`, read from the rows.
    pub fn cell(&self, r: usize, c: usize) -> (cell: Cell)
        requires
            self.wf(),
            r < self@.row_limits.len(),
            c < self@.col_limits.len(),
        ensures
            cell == self@.rows[r as int][c as int],
    {
        self.rows[r].get(c)
    }

    /// The cell of column `c` at position `r`, read from the columns.
    pub fn column_cell(&self, c: usize, r: usize) -> (cell: Cell)
        requires
            self.wf(),
            r < self@.row_limits.len(),
            c < self@.col_limits.len(),
        ensures
            cell == self@.columns[c as int][r as int],
            cell == self@.rows[r as int][c as int],
    {
        self.columns[c].get(r)
    }

    /// Tests the finished condition on the cells as they stand: every column
    /// holds as many `Full` cells as its runs are long in sum. Propagation
    /// asks this only of cells that it has deduced.
    pub fn finished(&self) -> (done: bool)
        requires
            self.wf(),
        ensures
            done == complete(self@.columns, self@.col_limits),
    {
        columns_complete(&self.columns, self.col_limits)
    }

    /// Enumerates the possibility set of every row and of every column.
    ///
    /// Fails where some line is too short for its runs.
    pub fn generate_possibles(&self) -> (res: Result<(Vec<Possibles>, Vec<Possibles>), SolveError>)
        requires
            self.wf(),
        ensures
            res is Err <==> cramped(self@),
            res matches Err(e) ==> e == SolveError::InvalidConstraint,
            res matches Ok(sets) ==> {
                &&& enumerates_each(sets_of(sets.0@), self@.col_limits.len(), self@.row_limits)
                &&& enumerates_each(sets_of(sets.1@), self@.row_limits.len(), self@.col_limits)
            },
    {
        let height: usize = self.rows.len();
        let width: usize = self.columns.len();
        let found_rows = enumerate_lines(width, self.row_limits);
        let found_cols = enumerate_lines(height, self.col_limits);
        let ghost across = found_rows@;
        let ghost down = found_cols@;
        match (gather(found_rows), gather(found_cols)) {
            (Ok(row_sets), Ok(col_sets)) => {
                proof {
                    assert forall|r: int| 0 <= r < self@.row_limits.len() implies min_length(
                        #[trigger] self@.row_limits[r],
                    ) <= self@.col_limits.len() && enumerates(
                        sets_of(row_sets@)[r],
                        self@.col_limits.len(),
                        self@.row_limits[r],
                    ) by {
                        assert(enumeration_of(width, self.row_limits@[r]@, across[r]));
                    }
                    assert forall|c: int| 0 <= c < self@.col_limits.len() implies min_length(
                        #[trigger] self@.col_limits[c],
                    ) <= self@.row_limits.len() && enumerates(
                        sets_of(col_sets@)[c],
                        self@.row_limits.len(),
                        self@.col_limits[c],
                    ) by {
                        assert(enumeration_of(height, self.col_limits@[c]@, down[c]));
                    }
                }
                Ok((row_sets, col_sets))
            },
            (Err(e), _) => {
                proof {
                    let r = choose|r: int| 0 <= r < across.len() && #[trigger] across[r] is Err;
                    assert(min_length(self@.row_limits[r]) > self@.col_limits.len());
                }
                Err(SolveError::InvalidConstraint)
            },
            (_, Err(e)) => {
                proof {
                    let c = choose|c: int| 0 <= c < down.len() && #[trigger] down[c] is Err;
                    assert(min_length(self@.col_limits[c]) > self@.row_limits.len());
                }
                Err(SolveError::InvalidConstraint)
            },
        }
    }

    /// Takes an initialized board to its next phase: failed where a line is
    /// too short for its runs, and otherwise propagating, with its
    /// possibility sets.
    fn prepare(&mut self)
        requires
            old(self).wf(),
            old(self)@.phase == Phase::Initialized,
        ensures
            final(self).wf(),
            prepared(old(self)@, final(self)@),
    {
        match self.generate_possibles() {
            Ok(sets) => {
                self.row_sets = sets.0;
                self.col_sets = sets.1;
                self.phase = Phase::Propagating;
                proof {
                    let b = self@;
                    let high = b.row_limits.len();
                    let wide = b.col_limits.len();
                    assert forall|r: int|
                        0 <= r < high implies fits(#[trigger] b.row_sets[r], b.rows[r]) by {
                        lemma_enumerated_fits(b.row_sets[r], wide, b.row_limits[r], b.rows[r]);
                    }
                    assert forall|c: int| 0 <= c < wide implies fits(
                        #[trigger] b.col_sets[c],
                        b.columns[c],
                    ) by {
                        assert forall|r: int| 0 <= r < high implies b.columns[c][r]
                            == Cell::Unknown by {
                            assert(b.rows[r][c] == b.columns[c][r]);
                        }
                        lemma_enumerated_fits(b.col_sets[c], high, b.col_limits[c], b.columns[c]);
                    }
                }
            },
            Err(_) => {
                self.phase = Phase::Failed(SolveError::InvalidConstraint);
            },
        }
    }

    /// Runs one iteration of propagation.
    fn propagate(&mut self)
        requires
            old(self).wf(),
            old(self)@.phase == Phase::Propagating,
        ensures
            final(self).wf(),
            final(self)@ == advance(old(self)@),
            final(self)@.phase == Phase::Propagating
                ==> measure(final(self)@) < measure(old(self)@),
    {
        let ghost b = self@;
        let ghost high = b.row_limits.len();
        let ghost wide = b.col_limits.len();
        let ghost rows1 = deduce_each(b.row_sets, b.rows);
        let ghost cols1 = mirror(rows1, wide);
        let ghost col_sets2 = filter_each(b.col_sets, cols1);
        let ghost cols3 = deduce_each(col_sets2, cols1);
        let ghost rows3 = mirror(cols3, high);
        proof {
            lemma_advance_valid(b);
            lemma_deduce_each(b.row_sets, b.rows, high, wide);
            lemma_mirror(rows1, high, wide);
            lemma_filter_each(b.col_sets, cols1, wide, high);
        }
        let cells_before = count_unknown(&self.rows);
        let rows_before = count_patterns(&self.row_sets);
        let cols_before = count_patterns(&self.col_sets);

        deduce_lines(&mut self.rows, &self.row_sets, Ghost(wide));
        reflect(&self.rows, &mut self.columns);
        if columns_complete(&self.columns, self.col_limits) {
            self.phase = Phase::Finished;
            return;
        }
        let alive = narrow_sets(&mut self.col_sets, &self.columns, Ghost(high));
        if !alive {
            self.phase = Phase::Failed(SolveError::Unsatisfiable);
            return;
        }
        proof {
            lemma_deduce_each(col_sets2, cols1, wide, high);
            lemma_mirror(cols3, wide, high);
            lemma_filter_each(b.row_sets, rows3, high, wide);
        }
        deduce_lines(&mut self.columns, &self.col_sets, Ghost(high));
        reflect(&self.columns, &mut self.rows);
        if columns_complete(&self.columns, self.col_limits) {
            self.phase = Phase::Finished;
            return;
        }
        let alive = narrow_sets(&mut self.row_sets, &self.rows, Ghost(wide));
        if !alive {
            self.phase = Phase::Failed(SolveError::Unsatisfiable);
            return;
        }
        let cells_after = count_unknown(&self.rows);
        let rows_after = count_patterns(&self.row_sets);
        let cols_after = count_patterns(&self.col_sets);
        let moved = cells_after != cells_before || rows_after != rows_before || cols_after
            != cols_before;
        self.phase = if moved {
            Phase::Propagating
        } else {
            Phase::Stalled
        };
    }

    /// Takes the board one step on, and returns the phase it is in then.
    ///
    /// On an initialized board the step prepares the possibility sets, or
    /// fails the board where a line is too short for its runs. On a
    /// propagating board it runs one iteration of propagation. On a board in
    /// a terminal phase it does nothing.
    pub fn step(&mut self) -> (phase: Phase)
        requires
            old(self).wf(),
        ensures
            final(self).wf(),
            mirrored(final(self)@),
            phase == final(self)@.phase,
            phase != Phase::Initialized,
            final(self)@.row_limits == old(self)@.row_limits,
            final(self)@.col_limits == old(self)@.col_limits,
            match old(self)@.phase {
                Phase::Initialized => prepared(old(self)@, final(self)@),
                Phase::Propagating => final(self)@ == advance(old(self)@) && (phase
                    == Phase::Propagating ==> measure(final(self)@) < measure(old(self)@)),
                _ => final(self)@ == old(self)@,
            },
    {
        match self.phase {
            Phase::Initialized => {
                self.prepare();
            },
            Phase::Propagating => {
                self.propagate();
            },
            _ => {},
        }
        self.phase
    }

    /// Runs the board to a terminal phase: prepares it where it is
    /// initialized, and iterates propagation until the board is finished,
    /// stalled or failed.
    ///
    /// Where the puzzle has a solution that the board had not ruled out, the
    /// run does not fail and rules out nothing of it; and where it ends
    /// finished, the board has no unknown cell and is that solution.
    pub fn solve(&mut self) -> (res: Result<Status, SolveError>)
        requires
            old(self).wf(),
        ensures
            final(self).wf(),
            final(self)@.row_limits == old(self)@.row_limits,
            final(self)@.col_limits == old(self)@.col_limits,
            mirrored(final(self)@),
            exists|start: Board, n: nat| begins(old(self)@, start) && final(self)@ == run(start, n),
            match res {
                Ok(Status::Finished) => final(self)@.phase == Phase::Finished && complete(
                    final(self)@.columns,
                    final(self)@.col_limits,
                ),
                Ok(Status::Stalled) => final(self)@.phase == Phase::Stalled && idle(final(self)@),
                Err(e) => final(self)@.phase == Phase::Failed(e),
            },
            forall|grid: Seq<Seq<bool>>|
                solves(grid, old(self)@.row_limits, old(self)@.col_limits) && respects(
                    old(self)@,
                    grid,
                ) ==> res is Ok && respects(final(self)@, grid),
            forall|grid: Seq<Seq<bool>>|
                solves(grid, old(self)@.row_limits, old(self)@.col_limits) && respects(
                    old(self)@,
                    grid,
                ) && res == Ok::<Status, SolveError>(Status::Finished) ==> shows(
                    final(self)@.rows,
                    grid,
                ),
    {
        let ghost first = self@;
        let ghost mut start = self@;
        let ghost mut n: nat = 0;
        loop
            invariant
                self.wf(),
                self@.row_limits == first.row_limits,
                self@.col_limits == first.col_limits,
                self@.phase == Phase::Initialized ==> self@ == first,
                self@.phase != Phase::Initialized
                    ==> begins(first, start) && self@ == run(start, n),
                first == old(self)@,
                forall|grid: Seq<Seq<bool>>|
                    solves(grid, first.row_limits, first.col_limits) && respects(first, grid)
                        ==> respects(self@, grid),
            decreases
                    if self@.phase == Phase::Initialized {
                        1int
                    } else {
                        0int
                    },
                    measure(self@),
        {
            let ghost prev = self@;
            let phase = self.step();
            proof {
                if prev.phase == Phase::Initialized {
                    start = self@;
                    n = 0;
                    assert forall|grid: Seq<Seq<bool>>|
                        solves(grid, first.row_limits, first.col_limits) && respects(
                            first,
                            grid,
                        ) implies respects(self@, grid) by {
                        lemma_prepared_respects(prev, self@, grid);
                    }
                } else if prev.phase == Phase::Propagating {
                    lemma_run_step(start, n);
                    n = n + 1;
                    assert forall|grid: Seq<Seq<bool>>|
                        solves(grid, first.row_limits, first.col_limits) && respects(
                            first,
                            grid,
                        ) implies respects(self@, grid) by {
                        lemma_advance_respects(prev, grid);
                    }
                }
            }
            match phase {
                Phase::Finished => {
                    proof {
                        assert forall|grid: Seq<Seq<bool>>|
                            solves(grid, first.row_limits, first.col_limits) && respects(
                                first,
                                grid,
                            ) implies shows(self@.rows, grid) by {
                            lemma_finished_is_the_solution(self@, grid);
                        }
                    }
                    return Ok(Status::Finished);
                },
                Phase::Stalled => {
                    return Ok(Status::Stalled);
                },
                Phase::Failed(e) => {
                    return Err(e);
                },
                _ => {},
            }
        }
    }
}

/// A freshly enumerated set fits a line of which nothing is known.
proof fn lemma_enumerated_fits(set: Seq<Seq<bool>>, len: nat, runs: Seq<u32>, line: Seq<Cell>)
    requires
        enumerates(set, len, runs),
        min_length(runs) <= len,
        forall|i: int| 0 <= i < line.len() ==> line[i] == Cell::Unknown,
    ensures
        fits(set, line),
{
    lemma_pattern_count_positive(len as int, runs);
}

/// Solves the puzzle with the given constraints, one per row and one per
/// column, as far as line logic goes, and returns the board with the way
/// the run ended.
pub fn solve_nonogram<'a>(
    row_limits: &'a Vec<Vec<u32>>,
    col_limits: &'a Vec<Vec<u32>>,
) -> (solved: (Nonogram<'a>, Result<Status, SolveError>))
    ensures
        solved.0.wf(),
        solved.0@.row_limits == runs_of(row_limits@),
        solved.0@.col_limits == runs_of(col_limits@),
        exists|start: Board, n: nat|
            prepared(fresh(runs_of(row_limits@), runs_of(col_limits@)), start) && solved.0@ == run(
                start,
                n,
            ),
        mirrored(solved.0@),
        match solved.1 {
            Ok(Status::Finished) => solved.0@.phase == Phase::Finished && complete(
                solved.0@.columns,
                solved.0@.col_limits,
            ),
            Ok(Status::Stalled) => solved.0@.phase == Phase::Stalled && idle(solved.0@),
            Err(e) => solved.0@.phase == Phase::Failed(e),
        },
        forall|grid: Seq<Seq<bool>>|
            solves(grid, runs_of(row_limits@), runs_of(col_limits@)) ==> solved.1 is Ok && respects(
                solved.0@,
                grid,
            ),
        forall|grid: Seq<Seq<bool>>|
            solves(grid, runs_of(row_limits@), runs_of(col_limits@)) && solved.1 == Ok::<
                Status,
                SolveError,
            >(Status::Finished) ==> shows(solved.0@.rows, grid),
{
    let mut board = Nonogram::new(row_limits, col_limits);
    let ghost first = board@;
    let res = board.solve();
    proof {
        assert forall|grid: Seq<Seq<bool>>|
            solves(grid, runs_of(row_limits@), runs_of(col_limits@)) implies respects(
            first,
            grid,
        ) by {
            assert forall|r: int| 0 <= r < first.rows.len() implies consistent(
                grid[r],
                #[trigger] first.rows[r],
            ) by {}
        }
        assert forall|grid: Seq<Seq<bool>>|
            solves(grid, runs_of(row_limits@), runs_of(col_limits@)) && res == Ok::<
                Status,
                SolveError,
            >(Status::Finished) implies shows(board@.rows, grid) by {
            assert(respects(first, grid));
        }
    }
    (board, res)
}

} // verus!
