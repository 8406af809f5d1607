//! What one iteration of propagation keeps and what it uses up.

use vstd::prelude::*;
use crate::cell::{count_of, deduced, Cell};
use crate::grid::{advance, any_dead, closed, closed_each, complete, deduce_each, filter_each,
    fit_each, fits, genuine, measure, mirror, prepared, rectangular, run, same_sizes, sized, sizes,
    sum, unknowns, valid, Board};
use crate::line::consistent;
use crate::outcome::Phase;
use crate::possibles::{dead, lemma_filter_agree, lemma_filter_shrinks};
use crate::runs::{count_filled, min_length, run_total, satisfies, lemma_pattern_weight,
    lemma_satisfies_needs_room};

verus! {

/// Every known cell of `before` has its value in `after`.
pub open spec fn refines(before: Seq<Cell>, after: Seq<Cell>) -> bool {
    &&& after.len() == before.len()
    &&& forall|i: int|
        0 <= i < before.len() && #[trigger] before[i] != Cell::Unknown ==> after[i] == before[i]
}

/// Every line of `after` refines the line of `before` at its index.
pub open spec fn refines_each(before: Seq<Seq<Cell>>, after: Seq<Seq<Cell>>) -> bool {
    &&& after.len() == before.len()
    &&& forall|i: int| 0 <= i < before.len() ==> refines(#[trigger] before[i], after[i])
}

/// A line that refines another has no more unknown cells, and as many only
/// where it is the same line.
pub proof fn lemma_refined_counts(before: Seq<Cell>, after: Seq<Cell>)
    requires
        refines(before, after),
    ensures
        count_of(after, Cell::Unknown) <= count_of(before, Cell::Unknown),
        count_of(after, Cell::Unknown) == count_of(before, Cell::Unknown) ==> after == before,
    decreases before.len(),
{
    if before.len() > 0 {
        let b = before.drop_last();
        let a = after.drop_last();
        lemma_refined_counts(b, a);
        let last = before.len() - 1;
        if count_of(after, Cell::Unknown) == count_of(before, Cell::Unknown) {
            assert(after =~= a.push(after[last]));
        }
    }
}

/// Numbers that are each no greater than their counterpart have no greater
/// sum, and an equal sum only where they are the same numbers.
pub proof fn lemma_sum_pointwise(small: Seq<nat>, large: Seq<nat>)
    requires
        small.len() == large.len(),
        forall|i: int| 0 <= i < small.len() ==> small[i] <= large[i],
    ensures
        sum(small) <= sum(large),
        sum(small) == sum(large) ==> small == large,
    decreases small.len(),
{
    if small.len() > 0 {
        let s = small.drop_last();
        let l = large.drop_last();
        lemma_sum_pointwise(s, l);
        let last = small.len() - 1;
        if sum(small) == sum(large) {
            assert(small =~= s.push(small[last]));
        }
    }
}

/// A deduction from a set that fits its line keeps every known cell, and
/// the set fits the line that comes out.
pub proof fn lemma_deduced_fits(set: Seq<Seq<bool>>, line: Seq<Cell>)
    requires
        fits(set, line),
    ensures
        refines(line, deduced(set, line)),
        fits(set, deduced(set, line)),
{
    let out = deduced(set, line);
    assert forall|i: int| 0 <= i < line.len() && #[trigger] line[i] != Cell::Unknown implies out[i]
        == line[i] by {
        let bit = line[i] == Cell::Full;
        assert(set[0][i] == bit);
    }
}

/// Deducing every line from a set that fits it keeps the shape and every
/// known cell, and every set fits the line that comes out.
pub proof fn lemma_deduce_each(
    sets: Seq<Seq<Seq<bool>>>,
    lines: Seq<Seq<Cell>>,
    count: nat,
    len: nat,
)
    requires
        rectangular(lines, count, len),
        sets.len() == count,
        fit_each(sets, lines),
    ensures
        rectangular(deduce_each(sets, lines), count, len),
        refines_each(lines, deduce_each(sets, lines)),
        fit_each(sets, deduce_each(sets, lines)),
{
    let out = deduce_each(sets, lines);
    assert forall|i: int| 0 <= i < count implies (#[trigger] out[i]).len() == len && refines(
        lines[i],
        out[i],
    ) && fits(sets[i], out[i]) by {
        lemma_deduced_fits(sets[i], lines[i]);
    }
}

/// Mirroring turns the shape, and mirroring twice gives the lines back.
pub proof fn lemma_mirror(lines: Seq<Seq<Cell>>, count: nat, len: nat)
    requires
        rectangular(lines, count, len),
    ensures
        rectangular(mirror(lines, len), len, count),
        mirror(mirror(lines, len), count) == lines,
{
    let turned = mirror(lines, len);
    let back = mirror(turned, count);
    assert forall|i: int| 0 <= i < count implies #[trigger] back[i] == lines[i] by {}
}

/// Mirroring keeps refinement.
pub proof fn lemma_mirror_refines(
    before: Seq<Seq<Cell>>,
    after: Seq<Seq<Cell>>,
    count: nat,
    len: nat,
)
    requires
        rectangular(before, count, len),
        rectangular(after, count, len),
        refines_each(before, after),
    ensures
        refines_each(mirror(before, len), mirror(after, len)),
{
}

/// Refinement goes on through a second refinement.
pub proof fn lemma_refines_each_chain(a: Seq<Seq<Cell>>, b: Seq<Seq<Cell>>, c: Seq<Seq<Cell>>)
    requires
        refines_each(a, b),
        refines_each(b, c),
    ensures
        refines_each(a, c),
{
}

/// Lines that refine others have no more unknown cells in sum, and as many
/// only where they are the same lines.
pub proof fn lemma_refined_unknowns(before: Seq<Seq<Cell>>, after: Seq<Seq<Cell>>)
    requires
        refines_each(before, after),
    ensures
        sum(unknowns(after)) <= sum(unknowns(before)),
        sum(unknowns(after)) == sum(unknowns(before)) ==> after == before,
{
    let a = unknowns(after);
    let b = unknowns(before);
    assert forall|i: int| 0 <= i < a.len() implies a[i] <= b[i] by {
        lemma_refined_counts(before[i], after[i]);
    }
    lemma_sum_pointwise(a, b);
    if sum(a) == sum(b) {
        assert forall|i: int| 0 <= i < after.len() implies #[trigger] after[i] == before[i] by {
            lemma_refined_counts(before[i], after[i]);
            assert(a[i] == b[i]);
        }
    }
}

/// Filtering every set against its line keeps the shape of the sets and
/// grows none; sets of unchanged sizes are unchanged; and where no set is
/// dead afterwards, every set fits its line.
pub proof fn lemma_filter_each(
    sets: Seq<Seq<Seq<bool>>>,
    lines: Seq<Seq<Cell>>,
    count: nat,
    len: nat,
)
    requires
        sized(sets, count, len),
        lines.len() == count,
    ensures
        sized(filter_each(sets, lines), count, len),
        sum(sizes(filter_each(sets, lines))) <= sum(sizes(sets)),
        same_sizes(filter_each(sets, lines), sets) <==> sum(sizes(filter_each(sets, lines))) == sum(
            sizes(sets),
        ),
        same_sizes(filter_each(sets, lines), sets) ==> filter_each(sets, lines) == sets,
        !any_dead(filter_each(sets, lines), lines) ==> fit_each(filter_each(sets, lines), lines),
{
    let out = filter_each(sets, lines);
    assert forall|i: int, j: int|
        0 <= i < count && 0 <= j < out[i].len() implies (#[trigger] out[i][j]).len()
        == len by {
        lemma_filter_shrinks(sets[i], lines[i]);
    }
    assert forall|i: int| 0 <= i < count implies sizes(out)[i] <= sizes(sets)[i] by {
        lemma_filter_shrinks(sets[i], lines[i]);
    }
    lemma_sum_pointwise(sizes(out), sizes(sets));
    if sum(sizes(out)) == sum(sizes(sets)) {
        assert forall|i: int|
            0 <= i < out.len() implies (#[trigger] out[i]).len() == sets[i].len() by {
            assert(sizes(out)[i] == sizes(sets)[i]);
        }
    }
    if same_sizes(out, sets) {
        assert forall|i: int| 0 <= i < count implies #[trigger] out[i] == sets[i] by {
            lemma_filter_shrinks(sets[i], lines[i]);
        }
        assert(out =~= sets);
    }
    if !any_dead(out, lines) {
        assert forall|i: int| 0 <= i < out.len() implies fits(#[trigger] out[i], lines[i]) by {
            lemma_filter_agree(sets[i], lines[i]);
        }
    }
}

/// Filtering leaves patterns of the constraints only, where there were no
/// others before.
pub proof fn lemma_filter_each_genuine(
    sets: Seq<Seq<Seq<bool>>>,
    lines: Seq<Seq<Cell>>,
    limits: Seq<Seq<u32>>,
)
    requires
        genuine(sets, limits),
    ensures
        genuine(filter_each(sets, lines), limits),
{
    let out = filter_each(sets, lines);
    assert forall|i: int, j: int| 0 <= i < out.len() && 0 <= j < out[i].len() implies satisfies(
        #[trigger] out[i][j],
        limits[i],
    ) by {
        lemma_filter_shrinks(sets[i], lines[i]);
    }
}

/// A line holds no more `Full` cells than a pattern that agrees with it has
/// filled positions, and as many only where every filled position of the
/// pattern is a `Full` cell.
pub proof fn lemma_agreeing_weight(line: Seq<Cell>, bits: Seq<bool>)
    requires
        bits.len() == line.len(),
        consistent(bits, line),
    ensures
        count_of(line, Cell::Full) <= count_filled(bits),
        count_of(line, Cell::Full) == count_filled(bits) ==> forall|i: int|
            0 <= i < line.len() && bits[i] ==> #[trigger] line[i] == Cell::Full,
    decreases line.len(),
{
    if line.len() > 0 {
        let last = line.len() - 1;
        let front = line.drop_last();
        let head = bits.drop_last();
        lemma_agreeing_weight(front, head);
        if count_of(line, Cell::Full) == count_filled(bits) {
            assert forall|i: int| 0 <= i < line.len() && bits[i] implies #[trigger] line[i]
                == Cell::Full by {
                if i < last {
                    assert(front[i] == line[i]);
                }
            }
        }
    }
}

/// A line deduced from a set that fits it, of patterns of one constraint, is
/// closed: once it holds all the `Full` cells of the runs, every pattern of
/// the set is blank elsewhere, so the other cells are `Empty`.
pub proof fn lemma_deduced_closed(set: Seq<Seq<bool>>, prior: Seq<Cell>, runs: Seq<u32>)
    requires
        fits(set, prior),
        forall|j: int| 0 <= j < set.len() ==> (#[trigger] set[j]).len() == prior.len(),
        forall|j: int| 0 <= j < set.len() ==> satisfies(#[trigger] set[j], runs),
    ensures
        closed(deduced(set, prior), runs),
{
    let out = deduced(set, prior);
    lemma_deduced_fits(set, prior);
    if count_of(out, Cell::Full) == run_total(runs) {
        assert forall|i: int| 0 <= i < out.len() implies #[trigger] out[i] != Cell::Unknown by {
            if out[i] != Cell::Full {
                assert forall|j: int| 0 <= j < set.len() implies !(#[trigger] set[j])[i] by {
                    lemma_pattern_weight(set[j], runs);
                    lemma_agreeing_weight(out, set[j]);
                }
            }
        }
    }
}

/// Deducing every line from a set that fits it, of patterns of the line's
/// constraint, gives closed lines.
pub proof fn lemma_deduce_each_closed(
    sets: Seq<Seq<Seq<bool>>>,
    lines: Seq<Seq<Cell>>,
    limits: Seq<Seq<u32>>,
    count: nat,
    len: nat,
)
    requires
        rectangular(lines, count, len),
        sized(sets, count, len),
        genuine(sets, limits),
        fit_each(sets, lines),
    ensures
        closed_each(deduce_each(sets, lines), limits),
{
    let out = deduce_each(sets, lines);
    assert forall|i: int| 0 <= i < out.len() implies closed(#[trigger] out[i], limits[i]) by {
        lemma_deduced_closed(sets[i], lines[i], limits[i]);
    }
}

/// On a valid board the columns are the mirror of the rows.
pub proof fn lemma_columns_mirror_rows(b: Board)
    requires
        valid(b),
    ensures
        b.columns == mirror(b.rows, b.col_limits.len()),
        b.rows == mirror(b.columns, b.row_limits.len()),
{
    let turned = mirror(b.rows, b.col_limits.len());
    assert forall|c: int|
        0 <= c < b.columns.len() implies #[trigger] b.columns[c] == turned[c] by {}
    assert(b.columns =~= turned);
    lemma_mirror(b.rows, b.row_limits.len(), b.col_limits.len());
}

/// One iteration takes a valid propagating board to a valid board with the
/// same constraints, keeps every known cell, and, unless it ends the
/// propagation, uses up a pattern or an unknown cell. It stalls exactly
/// where the unknown cells and the patterns are as many as before.
pub proof fn lemma_advance_valid(b: Board)
    requires
        valid(b),
        b.phase == Phase::Propagating,
    ensures
        valid(advance(b)),
        advance(b).row_limits == b.row_limits,
        advance(b).col_limits == b.col_limits,
        advance(b).phase != Phase::Initialized,
        advance(b).phase == Phase::Propagating ==> measure(advance(b)) < measure(b),
        refines_each(b.rows, advance(b).rows),
        advance(b).phase == Phase::Propagating || advance(b).phase == Phase::Stalled ==> (advance(
            b,
        ).phase == Phase::Stalled <==> sum(unknowns(advance(b).rows)) == sum(unknowns(b.rows))
            && sum(sizes(advance(b).row_sets)) == sum(sizes(b.row_sets)) && sum(
            sizes(advance(b).col_sets),
        ) == sum(sizes(b.col_sets))),
{
    let high = b.row_limits.len();
    let wide = b.col_limits.len();
    let rows1 = deduce_each(b.row_sets, b.rows);
    let cols1 = mirror(rows1, wide);
    let col_sets2 = filter_each(b.col_sets, cols1);
    let cols3 = deduce_each(col_sets2, cols1);
    let rows3 = mirror(cols3, high);
    lemma_columns_mirror_rows(b);
    lemma_deduce_each(b.row_sets, b.rows, high, wide);
    lemma_mirror(rows1, high, wide);
    lemma_filter_each(b.col_sets, cols1, wide, high);
    lemma_filter_each_genuine(b.col_sets, cols1, b.col_limits);
    lemma_filter_each_genuine(b.row_sets, rows3, b.row_limits);
    lemma_deduce_each_closed(b.row_sets, b.rows, b.row_limits, high, wide);
    if !complete(cols1, b.col_limits) && !any_dead(col_sets2, cols1) {
        lemma_deduce_each(col_sets2, cols1, wide, high);
        lemma_deduce_each_closed(col_sets2, cols1, b.col_limits, wide, high);
        if complete(cols3, b.col_limits) {
            assert forall|r: int| 0 <= r < rows3.len() implies closed(
                #[trigger] rows3[r],
                b.row_limits[r],
            ) by {}
        }
        lemma_mirror(cols3, wide, high);
        lemma_mirror_refines(cols1, cols3, wide, high);
        lemma_refines_each_chain(b.rows, rows1, rows3);
        lemma_filter_each(b.row_sets, rows3, high, wide);
        lemma_refined_unknowns(b.rows, rows3);
    }
}

/// Column `c` of a grid of bits.
pub open spec fn column_of(grid: Seq<Seq<bool>>, c: int) -> Seq<bool> {
    Seq::new(grid.len(), |r: int| grid[r][c])
}

/// The grid of bits `grid` solves the puzzle: each of its rows satisfies the
/// constraint of that row, and each of its columns that of the column.
pub open spec fn solves(
    grid: Seq<Seq<bool>>,
    row_limits: Seq<Seq<u32>>,
    col_limits: Seq<Seq<u32>>,
) -> bool {
    &&& grid.len() == row_limits.len()
    &&& forall|r: int|
        0 <= r < grid.len() ==> (#[trigger] grid[r]).len() == col_limits.len() && satisfies(
            grid[r],
            row_limits[r],
        )
    &&& forall|c: int|
        0 <= c < col_limits.len() ==> satisfies(column_of(grid, c), #[trigger] col_limits[c])
}

/// The board has ruled out nothing of `grid`: it has not failed, the known
/// cells are those of the grid, and, where the possibility sets are in use,
/// each line of the grid is still in the set of that line.
pub open spec fn respects(b: Board, grid: Seq<Seq<bool>>) -> bool {
    &&& !(b.phase is Failed)
    &&& forall|r: int| 0 <= r < b.rows.len() ==> consistent(grid[r], #[trigger] b.rows[r])
    &&& b.phase == Phase::Propagating || b.phase == Phase::Stalled ==> {
        &&& forall|r: int|
            0 <= r < b.row_sets.len() ==> (#[trigger] b.row_sets[r]).contains(grid[r])
        &&& forall|c: int|
            0 <= c < b.col_sets.len() ==> (#[trigger] b.col_sets[c]).contains(column_of(grid, c))
    }
}

/// A deduction from a set marks no cell against a pattern of the set that
/// agreed with the line before.
pub proof fn lemma_deduced_agrees(set: Seq<Seq<bool>>, line: Seq<Cell>, bits: Seq<bool>)
    requires
        set.contains(bits),
        consistent(bits, line),
    ensures
        consistent(bits, deduced(set, line)),
{}

/// Propagation is sound: an iteration rules out nothing of a solution that
/// the board had not ruled out before, and does not fail where there is
/// such a solution.
pub proof fn lemma_advance_respects(b: Board, grid: Seq<Seq<bool>>)
    requires
        valid(b),
        b.phase == Phase::Propagating,
        solves(grid, b.row_limits, b.col_limits),
        respects(b, grid),
    ensures
        respects(advance(b), grid),
{
    let high = b.row_limits.len();
    let wide = b.col_limits.len();
    let rows1 = deduce_each(b.row_sets, b.rows);
    let cols1 = mirror(rows1, wide);
    let col_sets2 = filter_each(b.col_sets, cols1);
    let cols3 = deduce_each(col_sets2, cols1);
    let rows3 = mirror(cols3, high);
    let row_sets4 = filter_each(b.row_sets, rows3);
    assert forall|r: int| 0 <= r < high implies consistent(grid[r], #[trigger] rows1[r]) by {
        lemma_deduced_agrees(b.row_sets[r], b.rows[r], grid[r]);
    }
    assert forall|c: int| 0 <= c < wide implies (#[trigger] col_sets2[c]).contains(
        column_of(grid, c),
    ) && !dead(col_sets2[c], cols1[c]) by {
        lemma_filter_agree(b.col_sets[c], cols1[c]);
    }
    assert forall|c: int|
        0 <= c < wide implies consistent(column_of(grid, c), #[trigger] cols3[c]) by {
        lemma_deduced_agrees(col_sets2[c], cols1[c], column_of(grid, c));
    }
    assert forall|r: int|
        0 <= r < high implies (#[trigger] row_sets4[r]).contains(grid[r]) && !dead(
        row_sets4[r],
        rows3[r],
    ) by {
        lemma_filter_agree(b.row_sets[r], rows3[r]);
    }
}

/// Preparing a board rules out nothing of a solution, and does not fail
/// where there is one.
pub proof fn lemma_prepared_respects(b: Board, start: Board, grid: Seq<Seq<bool>>)
    requires
        valid(b),
        b.phase == Phase::Initialized,
        prepared(b, start),
        solves(grid, b.row_limits, b.col_limits),
    ensures
        respects(start, grid),
{
    assert forall|r: int| 0 <= r < b.row_limits.len() implies min_length(#[trigger] b.row_limits[r])
        <= b.col_limits.len() by {
        lemma_satisfies_needs_room(grid[r], b.row_limits[r]);
    }
    assert forall|c: int| 0 <= c < b.col_limits.len() implies min_length(#[trigger] b.col_limits[c])
        <= b.row_limits.len() by {
        lemma_satisfies_needs_room(column_of(grid, c), b.col_limits[c]);
    }
}

/// Running one iteration more is running the iterations so far and then
/// one, where propagation has not stopped.
pub proof fn lemma_run_step(b: Board, n: nat)
    requires
        run(b, n).phase == Phase::Propagating,
    ensures
        run(b, n + 1) == advance(run(b, n)),
    decreases n,
{
    if n == 0 {
        assert(run(advance(b), 0) == advance(b));
    } else {
        lemma_run_step(advance(b), (n - 1) as nat);
    }
}

/// A line that is `Full` exactly where a pattern is filled holds as many
/// `Full` cells as the pattern has filled positions.
proof fn lemma_matching_weight(line: Seq<Cell>, bits: Seq<bool>)
    requires
        bits.len() == line.len(),
        forall|i: int| 0 <= i < line.len() ==> (line[i] == Cell::Full) == bits[i],
    ensures
        count_of(line, Cell::Full) == count_filled(bits),
    decreases line.len(),
{
    if line.len() > 0 {
        lemma_matching_weight(line.drop_last(), bits.drop_last());
    }
}

/// A stalled board has a cell that is still unknown.
pub proof fn lemma_stalled_has_unknown(b: Board)
    requires
        valid(b),
        b.phase == Phase::Stalled,
    ensures
        exists|r: int, c: int|
            0 <= r < b.rows.len() && 0 <= c < b.columns.len() && (#[trigger] b.rows[r])[c]
                == Cell::Unknown && (#[trigger] b.columns[c])[r] == Cell::Unknown,
{
    let c = choose|c: int|
        0 <= c < b.columns.len() && count_of(#[trigger] b.columns[c], Cell::Full) != run_total(
            b.col_limits[c],
        );
    let column = b.columns[c];
    let bits = b.col_sets[c][0];
    lemma_pattern_weight(bits, b.col_limits[c]);
    if forall|r: int| 0 <= r < column.len() ==> column[r] != Cell::Unknown {
        lemma_matching_weight(column, bits);
    }
}

/// Every known cell of a board has the value that a solution gives it, where
/// the board has ruled out nothing of that solution.
pub proof fn lemma_known_cells_are_the_solution(b: Board, grid: Seq<Seq<bool>>, r: int, c: int)
    requires
        respects(b, grid),
        0 <= r < b.rows.len(),
        0 <= c < b.rows[r].len(),
        b.rows[r][c] != Cell::Unknown,
    ensures
        grid[r][c] == (b.rows[r][c] == Cell::Full),
{}

/// The cell that shows a bit of a solved grid.
pub open spec fn cell_of(bit: bool) -> Cell {
    if bit {
        Cell::Full
    } else {
        Cell::Empty
    }
}

/// Every cell of `rows` is known and shows the bit of `grid` at its place.
pub open spec fn shows(rows: Seq<Seq<Cell>>, grid: Seq<Seq<bool>>) -> bool {
    forall|r: int, c: int|
        0 <= r < rows.len() && 0 <= c < rows[r].len() ==> (#[trigger] rows[r][c]) == cell_of(
            grid[r][c],
        )
}

/// A finished board is the solution: where a grid solves the puzzle and the
/// board has ruled out nothing of it, the finished board has no unknown
/// cell, and every cell shows the bit of that grid. So the puzzle has no
/// other solution that the board had not ruled out.
pub proof fn lemma_finished_is_the_solution(b: Board, grid: Seq<Seq<bool>>)
    requires
        valid(b),
        b.phase == Phase::Finished,
        solves(grid, b.row_limits, b.col_limits),
        respects(b, grid),
    ensures
        shows(b.rows, grid),
{
    let high = b.row_limits.len();
    let wide = b.col_limits.len();
    // each column holds the `Full` cells of its runs, so every filled
    // position of the grid is a `Full` cell
    assert forall|r: int, c: int|
        0 <= r < high && 0 <= c < wide && grid[r][c] implies (#[trigger] b.rows[r][c])
        == Cell::Full by {
        let column = b.columns[c];
        let bits = column_of(grid, c);
        assert forall|i: int| 0 <= i < column.len() implies match #[trigger] column[i] {
            Cell::Full => bits[i],
            Cell::Empty => !bits[i],
            Cell::Unknown => true,
        } by {
            assert(consistent(grid[i], b.rows[i]));
        }
        lemma_pattern_weight(bits, b.col_limits[c]);
        lemma_agreeing_weight(column, bits);
    }
    // then each row holds the `Full` cells of its runs too, and is closed
    assert forall|r: int, c: int|
        0 <= r < b.rows.len() && 0 <= c < b.rows[r].len() implies (#[trigger] b.rows[r][c])
        == cell_of(grid[r][c]) by {
        let line = b.rows[r];
        let bits = grid[r];
        assert forall|i: int| 0 <= i < line.len() implies (line[i] == Cell::Full) == bits[i] by {}
        lemma_matching_weight(line, bits);
        lemma_pattern_weight(bits, b.row_limits[r]);
    }
}

} // verus!
