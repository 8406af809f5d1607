//! Run-length constraints: what it means for a pattern to satisfy one, how
//! much room a constraint needs, and how many patterns satisfy it.

use vstd::prelude::*;

verus! {

/// The room that the runs from index `k` on need: their lengths, and one
/// separating position between each two neighbours.
pub open spec fn need(runs: Seq<u32>, k: int) -> int
    decreases runs.len() - k,
{
    if k < 0 || k >= runs.len() {
        0
    } else if k == runs.len() - 1 {
        runs[k] as int
    } else {
        runs[k] + 1 + need(runs, k + 1)
    }
}

/// The shortest line that can hold all of `runs`.
pub open spec fn min_length(runs: Seq<u32>) -> int {
    need(runs, 0)
}

/// The sum of the run lengths of a constraint.
pub open spec fn run_total(runs: Seq<u32>) -> int
    decreases runs.len(),
{
    if runs.len() == 0 {
        0
    } else {
        run_total(runs.drop_last()) + runs.last()
    }
}

/// How many positions of a pattern are filled.
pub open spec fn count_filled(line: Seq<bool>) -> nat
    decreases line.len(),
{
    if line.len() == 0 {
        0
    } else {
        count_filled(line.drop_last()) + if line.last() {
            1nat
        } else {
            0nat
        }
    }
}

/// How many runs from index `k` on have a positive length.
pub open spec fn positives(runs: Seq<u32>, k: int) -> nat
    decreases runs.len() - k,
{
    if k < 0 || k >= runs.len() {
        0
    } else if runs[k] > 0 {
        1 + positives(runs, k + 1)
    } else {
        positives(runs, k + 1)
    }
}

/// `starts` gives a start position to each of the first `starts.len()` runs:
/// every run lies inside the line, the runs come in order, and at least one
/// position separates each run from the next.
pub open spec fn arranged(runs: Seq<u32>, len: int, starts: Seq<int>) -> bool {
    &&& starts.len() <= runs.len()
    &&& forall|k: int|
        0 <= k < starts.len() ==> 0 <= #[trigger] starts[k] && starts[k] + runs[k] <= len
    &&& forall|j: int, k: int|
        0 <= j < k < starts.len() ==> #[trigger] starts[j] + runs[j] < #[trigger] starts[k]
}

/// `starts` places every run of the constraint in a line of `len` positions.
pub open spec fn placed(runs: Seq<u32>, len: int, starts: Seq<int>) -> bool {
    starts.len() == runs.len() && arranged(runs, len, starts)
}

/// Whether position `x` lies inside one of the runs that `starts` places.
pub open spec fn filled(runs: Seq<u32>, starts: Seq<int>, x: int) -> bool {
    exists|k: int| 0 <= k < starts.len() && #[trigger] starts[k] <= x && x < starts[k] + runs[k]
}

/// The pattern of `len` positions that the placement `starts` fills.
pub open spec fn drawn(runs: Seq<u32>, len: int, starts: Seq<int>) -> Seq<bool> {
    Seq::new(len as nat, |x: int| filled(runs, starts, x))
}

/// The pattern `line` satisfies the constraint `runs`: some placement of the
/// runs fills exactly the positions that the pattern fills.
pub open spec fn satisfies(line: Seq<bool>, runs: Seq<u32>) -> bool {
    exists|starts: Seq<int>| #[trigger]
        placed(runs, line.len() as int, starts) && line == drawn(
            runs,
            line.len() as int,
            starts,
        )
}

/// The pattern of `len` positions with nothing filled.
pub open spec fn blank(len: nat) -> Seq<bool> {
    Seq::new(len, |x: int| false)
}

/// The number of ways to choose `k` things out of `n`.
pub open spec fn binomial(n: nat, k: nat) -> nat
    decreases n,
{
    if k == 0 {
        1
    } else if n == 0 {
        0
    } else {
        binomial((n - 1) as nat, (k - 1) as nat) + binomial((n - 1) as nat, k)
    }
}

/// How many patterns of `len` positions satisfy `runs`, where the line is
/// long enough: the ways to hand out the spare positions to the gaps before
/// the runs of positive length.
pub open spec fn pattern_count(len: int, runs: Seq<u32>) -> nat {
    binomial((len - min_length(runs) + positives(runs, 0)) as nat, positives(runs, 0))
}

/// The room that a suffix of the runs needs is never negative, and grows
/// with the suffix.
pub proof fn lemma_need_monotone(runs: Seq<u32>, j: int, k: int)
    requires
        0 <= j <= k,
    ensures
        0 <= need(runs, k) <= need(runs, j),
    decreases k - j,
{
    lemma_need_step(runs, k);
    if j < k {
        lemma_need_monotone(runs, j + 1, k);
        lemma_need_step(runs, j);
    }
}

/// One step of [`need`], and its sign.
pub proof fn lemma_need_step(runs: Seq<u32>, k: int)
    ensures
        0 <= need(runs, k),
        0 <= k < runs.len() ==> need(runs, k) >= runs[k] + need(runs, k + 1),
        0 <= k < runs.len() - 1 ==> need(runs, k) == runs[k] + 1 + need(runs, k + 1),
    decreases runs.len() - k,
{
    if 0 <= k < runs.len() {
        lemma_need_step(runs, k + 1);
    }
}

/// In a placement of all runs, the runs from `k` on fit between the start of
/// run `k` and the end of the line.
pub proof fn lemma_placed_leaves_room(runs: Seq<u32>, len: int, starts: Seq<int>, k: int)
    requires
        placed(runs, len, starts),
        0 <= k < runs.len(),
    ensures
        starts[k] + need(runs, k) <= len,
    decreases runs.len() - k,
{
    if k < runs.len() - 1 {
        lemma_placed_leaves_room(runs, len, starts, k + 1);
    }
}

/// A pattern can satisfy a constraint only where the line is long enough
/// for the runs.
pub proof fn lemma_satisfies_needs_room(line: Seq<bool>, runs: Seq<u32>)
    requires
        satisfies(line, runs),
    ensures
        min_length(runs) <= line.len(),
{
    let starts = choose|starts: Seq<int>| #[trigger]
        placed(runs, line.len() as int, starts) && line == drawn(runs, line.len() as int, starts);
    if runs.len() > 0 {
        lemma_placed_leaves_room(runs, line.len() as int, starts, 0);
    }
}

/// Filling the blank positions from `lo` up to `hi` adds that many filled
/// positions; among the first `n` positions, as many as lie in that range.
proof fn lemma_fill_count(before: Seq<bool>, after: Seq<bool>, lo: int, hi: int, n: int)
    requires
        before.len() == after.len(),
        0 <= lo <= hi <= before.len(),
        0 <= n <= before.len(),
        forall|x: int| 0 <= x < before.len() ==> after[x] == (before[x] || lo <= x < hi),
        forall|x: int| lo <= x < hi ==> !before[x],
    ensures
        count_filled(after.take(n)) == count_filled(before.take(n)) + if n <= lo {
            0
        } else if n >= hi {
            hi - lo
        } else {
            n - lo
        },
    decreases n,
{
    if n > 0 {
        lemma_fill_count(before, after, lo, hi, n - 1);
        assert(after.take(n).drop_last() =~= after.take(n - 1));
        assert(before.take(n).drop_last() =~= before.take(n - 1));
    }
}

/// The first `k` runs of a placement fill as many positions as they are long
/// in sum.
proof fn lemma_drawn_weight(runs: Seq<u32>, len: int, starts: Seq<int>, k: int)
    requires
        placed(runs, len, starts),
        0 <= k <= runs.len(),
    ensures
        count_filled(drawn(runs, len, starts.take(k))) == run_total(runs.take(k)),
    decreases k,
{
    let now = drawn(runs, len, starts.take(k));
    if k == 0 {
        lemma_blank_weight(now);
    } else {
        lemma_drawn_weight(runs, len, starts, k - 1);
        let before = drawn(runs, len, starts.take(k - 1));
        let lo = starts[k - 1];
        let hi = starts[k - 1] + runs[k - 1];
        assert forall|x: int| 0 <= x < len implies now[x] == (before[x] || lo <= x < hi) by {
            if lo <= x < hi {
                assert(starts.take(k)[k - 1] == starts[k - 1]);
            }
        }
        lemma_fill_count(before, now, lo, hi, len);
        assert(now.take(len) =~= now);
        assert(before.take(len) =~= before);
        assert(runs.take(k).drop_last() =~= runs.take(k - 1));
    }
}

/// A pattern with no filled position counts none.
proof fn lemma_blank_weight(line: Seq<bool>)
    requires
        forall|x: int| 0 <= x < line.len() ==> !line[x],
    ensures
        count_filled(line) == 0,
    decreases line.len(),
{
    if line.len() > 0 {
        lemma_blank_weight(line.drop_last());
    }
}

/// A pattern that satisfies a constraint fills as many positions as the
/// runs of the constraint are long in sum.
pub proof fn lemma_pattern_weight(line: Seq<bool>, runs: Seq<u32>)
    requires
        satisfies(line, runs),
    ensures
        count_filled(line) == run_total(runs),
{
    let starts = choose|starts: Seq<int>| #[trigger]
        placed(runs, line.len() as int, starts) && line == drawn(runs, line.len() as int, starts);
    lemma_drawn_weight(runs, line.len() as int, starts, runs.len() as int);
    assert(starts.take(runs.len() as int) =~= starts);
    assert(runs.take(runs.len() as int) =~= runs);
}

} // verus!
