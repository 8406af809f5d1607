//! The depth-first search over placements, as a mathematical object, and the
//! proofs that it finds every pattern of a constraint exactly once.
//!
//! A run of length zero fills nothing, so the place it takes cannot be seen
//! in the pattern. The search gives such a run the earliest place only;
//! a placement in which every run of length zero sits so is called snug.

use vstd::prelude::*;
use crate::runs::{arranged, binomial, drawn, filled, min_length, need, pattern_count, placed,
    positives, lemma_need_step, lemma_placed_leaves_room};

verus! {

/// The first position that the run after those of `starts` may take: past the
/// last placed run and one separating position.
pub open spec fn next_free(runs: Seq<u32>, starts: Seq<int>) -> int {
    if starts.len() == 0 {
        0
    } else {
        starts.last() + runs[starts.len() - 1] + 1
    }
}

/// The earliest position that run `k` may take behind run `k - 1`.
pub open spec fn earliest(runs: Seq<u32>, starts: Seq<int>, k: int) -> int {
    if k <= 0 {
        0
    } else {
        starts[k - 1] + runs[k - 1] + 1
    }
}

/// Every run of length zero sits at the earliest position it may take.
pub open spec fn snug(runs: Seq<u32>, starts: Seq<int>) -> bool {
    forall|k: int|
        0 <= k < starts.len() && runs[k] == 0 ==> starts[k] == #[trigger] earliest(runs, starts, k)
}

/// The last position that the search tries for the run after those of
/// `starts`: the latest that leaves room for the runs behind it, or, for a
/// run of length zero, the earliest.
pub open spec fn last_start(runs: Seq<u32>, len: int, starts: Seq<int>) -> int {
    if runs[starts.len() as int] == 0 {
        next_free(runs, starts)
    } else {
        len - need(runs, starts.len() as int)
    }
}

/// The state of the search at `starts` can still be completed: the placed
/// runs are arranged and snug, and the rest fits behind them.
pub open spec fn promising(runs: Seq<u32>, len: int, starts: Seq<int>) -> bool {
    &&& arranged(runs, len, starts)
    &&& snug(runs, starts)
    &&& starts.len() < runs.len() ==> next_free(runs, starts) + need(runs, starts.len() as int)
        <= len
}

/// The placements that the search reaches from the state `starts` when it
/// tries the positions from `from` on for the next run, in the order in which
/// it reaches them.
pub open spec fn completions(runs: Seq<u32>, len: int, starts: Seq<int>, from: int) -> Seq<
    Seq<int>,
>
    decreases runs.len() - starts.len(), last_start(runs, len, starts) - from + 1,
{
    if starts.len() >= runs.len() {
        seq![starts]
    } else if from > last_start(runs, len, starts) {
        Seq::empty()
    } else {
        completions(runs, len, starts.push(from), from + runs[starts.len() as int] + 1)
            + completions(runs, len, starts, from + 1)
    }
}

/// The number of states that the search enters below the state `starts`
/// when it tries the positions from `from` on for the next run.
pub open spec fn visits(runs: Seq<u32>, len: int, starts: Seq<int>, from: int) -> nat
    decreases runs.len() - starts.len(), last_start(runs, len, starts) - from + 1,
{
    if starts.len() >= runs.len() {
        0
    } else if from > last_start(runs, len, starts) {
        0
    } else {
        1 + visits(runs, len, starts.push(from), from + runs[starts.len() as int] + 1) + visits(
            runs,
            len,
            starts,
            from + 1,
        )
    }
}

/// Every placement that the search reaches from a state extends that state,
/// and puts the next run at `from` or later.
pub proof fn lemma_completions_extend(
    runs: Seq<u32>,
    len: int,
    starts: Seq<int>,
    from: int,
    i: int,
)
    requires
        starts.len() <= runs.len(),
        0 <= i < completions(runs, len, starts, from).len(),
    ensures
        completions(runs, len, starts, from)[i].len() == runs.len(),
        completions(runs, len, starts, from)[i].take(starts.len() as int) == starts,
        starts.len() < runs.len() ==> from <= completions(
            runs,
            len,
            starts,
            from,
        )[i][starts.len() as int] <= last_start(runs, len, starts),
    decreases runs.len() - starts.len(), last_start(runs, len, starts) - from + 1,
{
    let k = starts.len() as int;
    if k < runs.len() {
        let first = completions(runs, len, starts.push(from), from + runs[k] + 1);
        if i < first.len() {
            lemma_completions_extend(runs, len, starts.push(from), from + runs[k] + 1, i);
            assert(first[i].take(k + 1)[k] == from);
        } else {
            lemma_completions_extend(runs, len, starts, from + 1, i - first.len());
        }
    }
}

/// Placing the next run at a position that the search tries keeps the state
/// promising.
pub proof fn lemma_promising_step(runs: Seq<u32>, len: int, starts: Seq<int>, at: int)
    requires
        promising(runs, len, starts),
        starts.len() < runs.len(),
        next_free(runs, starts) <= at <= last_start(runs, len, starts),
    ensures
        promising(runs, len, starts.push(at)),
        next_free(runs, starts.push(at)) == at + runs[starts.len() as int] + 1,
{
    let k = starts.len() as int;
    let next = starts.push(at);
    lemma_need_step(runs, k);
    lemma_need_step(runs, k + 1);
    assert forall|j: int|
        0 <= j < next.len() && runs[j] == 0 implies next[j] == #[trigger] earliest(
        runs,
        next,
        j,
    ) by {
        if j < k {
            assert(earliest(runs, starts, j) == earliest(runs, next, j));
        }
    }
}

/// Every placement that the search reaches from a promising state places all
/// runs, and is snug.
pub proof fn lemma_completions_placed(
    runs: Seq<u32>,
    len: int,
    starts: Seq<int>,
    from: int,
    i: int,
)
    requires
        promising(runs, len, starts),
        starts.len() < runs.len() ==> next_free(runs, starts) <= from,
        0 <= i < completions(runs, len, starts, from).len(),
    ensures
        placed(runs, len, completions(runs, len, starts, from)[i]),
        snug(runs, completions(runs, len, starts, from)[i]),
    decreases runs.len() - starts.len(), last_start(runs, len, starts) - from + 1,
{
    let k = starts.len() as int;
    if k < runs.len() {
        let first = completions(runs, len, starts.push(from), from + runs[k] + 1);
        if i < first.len() {
            lemma_promising_step(runs, len, starts, from);
            lemma_completions_placed(runs, len, starts.push(from), from + runs[k] + 1, i);
        } else {
            lemma_completions_placed(runs, len, starts, from + 1, i - first.len());
        }
    }
}

/// The search reaches every snug placement that extends the state and puts
/// the next run at `from` or later.
pub proof fn lemma_completions_cover(
    runs: Seq<u32>,
    len: int,
    starts: Seq<int>,
    from: int,
    goal: Seq<int>,
)
    requires
        placed(runs, len, goal),
        snug(runs, goal),
        starts.len() <= runs.len(),
        goal.take(starts.len() as int) == starts,
        starts.len() < runs.len() ==> from <= goal[starts.len() as int],
    ensures
        completions(runs, len, starts, from).contains(goal),
    decreases runs.len() - starts.len(), last_start(runs, len, starts) - from + 1,
{
    let k = starts.len() as int;
    let all = completions(runs, len, starts, from);
    if k >= runs.len() {
        assert(all[0] == goal);
    } else {
        lemma_placed_leaves_room(runs, len, goal, k);
        if runs[k] == 0 {
            assert(goal[k] == earliest(runs, goal, k));
        }
        let first = completions(runs, len, starts.push(from), from + runs[k] + 1);
        let rest = completions(runs, len, starts, from + 1);
        if goal[k] == from {
            assert(goal.take(k + 1) =~= starts.push(from));
            lemma_completions_cover(runs, len, starts.push(from), from + runs[k] + 1, goal);
            let i = choose|i: int| 0 <= i < first.len() && first[i] == goal;
            assert(all[i] == goal);
        } else {
            lemma_completions_cover(runs, len, starts, from + 1, goal);
            let i = choose|i: int| 0 <= i < rest.len() && rest[i] == goal;
            assert(all[first.len() + i] == goal);
        }
    }
}

/// The search reaches no placement twice.
pub proof fn lemma_completions_distinct(
    runs: Seq<u32>,
    len: int,
    starts: Seq<int>,
    from: int,
    i: int,
    j: int,
)
    requires
        starts.len() <= runs.len(),
        0 <= i < j < completions(runs, len, starts, from).len(),
    ensures
        completions(runs, len, starts, from)[i] != completions(runs, len, starts, from)[j],
    decreases runs.len() - starts.len(), last_start(runs, len, starts) - from + 1,
{
    let k = starts.len() as int;
    if k < runs.len() {
        let first = completions(runs, len, starts.push(from), from + runs[k] + 1);
        if j < first.len() {
            lemma_completions_distinct(runs, len, starts.push(from), from + runs[k] + 1, i, j);
        } else if i >= first.len() {
            lemma_completions_distinct(
                runs,
                len,
                starts,
                from + 1,
                i - first.len(),
                j - first.len(),
            );
        } else {
            lemma_completions_extend(runs, len, starts.push(from), from + runs[k] + 1, i);
            lemma_completions_extend(runs, len, starts, from + 1, j - first.len());
            assert(first[i].take(k + 1)[k] == from);
        }
    }
}

/// No way to choose more things than there are.
pub proof fn lemma_binomial_zero(n: nat, k: nat)
    requires
        n < k,
    ensures
        binomial(n, k) == 0,
    decreases n,
{
    if n > 0 {
        lemma_binomial_zero((n - 1) as nat, (k - 1) as nat);
        lemma_binomial_zero((n - 1) as nat, k);
    }
}

/// One step of [`positives`].
pub proof fn lemma_positives_step(runs: Seq<u32>, k: int)
    requires
        0 <= k < runs.len(),
    ensures
        positives(runs, k) == positives(runs, k + 1) + if runs[k] > 0 {
            1nat
        } else {
            0nat
        },
{}

/// The number of placements that the search reaches from a state: the ways
/// to hand out the positions that the remaining runs can spare to the gaps
/// before those of them that have a positive length.
pub proof fn lemma_completions_count(runs: Seq<u32>, len: int, starts: Seq<int>, from: int)
    requires
        starts.len() <= runs.len(),
        starts.len() < runs.len() ==> if runs[starts.len() as int] == 0 {
            from == next_free(runs, starts) && from + need(runs, starts.len() as int) <= len
        } else {
            from + need(runs, starts.len() as int) <= len + 1
        },
    ensures
        completions(runs, len, starts, from).len() == binomial(
            (len - need(runs, starts.len() as int) - from + positives(
                runs,
                starts.len() as int,
            )) as nat,
            positives(runs, starts.len() as int),
        ),
    decreases runs.len() - starts.len(), last_start(runs, len, starts) - from + 1,
{
    let k = starts.len() as int;
    let p = positives(runs, k);
    let spare = len - need(runs, k) - from;
    if k < runs.len() {
        lemma_need_step(runs, k);
        lemma_need_step(runs, k + 1);
        lemma_positives_step(runs, k);
        let next = starts.push(from);
        let first = completions(runs, len, next, from + runs[k] + 1);
        let rest = completions(runs, len, starts, from + 1);
        if from > last_start(runs, len, starts) {
            lemma_binomial_zero((spare + p) as nat, p);
        } else {
            lemma_completions_count(runs, len, next, from + runs[k] + 1);
            if runs[k] > 0 {
                lemma_completions_count(runs, len, starts, from + 1);
                assert(first.len() == binomial((spare + p - 1) as nat, (p - 1) as nat));
            } else {
                assert(rest.len() == 0);
            }
        }
    }
}

/// Two snug placements that fill the same positions agree on their first
/// `n` runs.
pub proof fn lemma_snug_agree(runs: Seq<u32>, len: int, a: Seq<int>, b: Seq<int>, n: int)
    requires
        placed(runs, len, a),
        placed(runs, len, b),
        snug(runs, a),
        snug(runs, b),
        drawn(runs, len, a) == drawn(runs, len, b),
        0 <= n <= runs.len(),
    ensures
        forall|j: int| 0 <= j < n ==> a[j] == b[j],
    decreases n,
{
    if n > 0 {
        lemma_snug_agree(runs, len, a, b, n - 1);
        let k = n - 1;
        if runs[k] == 0 {
            assert(a[k] == earliest(runs, a, k));
            assert(b[k] == earliest(runs, b, k));
        } else {
            if a[k] < b[k] {
                lemma_gap_is_blank(runs, len, a, b, k);
            }
            if b[k] < a[k] {
                lemma_gap_is_blank(runs, len, b, a, k);
            }
        }
    }
}

/// Where two placements agree before run `k`, and the first starts that run
/// earlier than the second, the first fills a position that the second
/// leaves blank.
proof fn lemma_gap_is_blank(runs: Seq<u32>, len: int, a: Seq<int>, b: Seq<int>, k: int)
    requires
        placed(runs, len, a),
        placed(runs, len, b),
        0 <= k < runs.len(),
        runs[k] > 0,
        forall|j: int| 0 <= j < k ==> a[j] == b[j],
        a[k] < b[k],
    ensures
        drawn(runs, len, a) != drawn(runs, len, b),
{
    assert(drawn(runs, len, a)[a[k]]);
}

/// Two snug placements that fill the same positions are the same placement.
pub proof fn lemma_snug_placement_unique(runs: Seq<u32>, len: int, a: Seq<int>, b: Seq<int>)
    requires
        placed(runs, len, a),
        placed(runs, len, b),
        snug(runs, a),
        snug(runs, b),
        drawn(runs, len, a) == drawn(runs, len, b),
    ensures
        a == b,
{
    lemma_snug_agree(runs, len, a, b, runs.len() as int);
}

/// The start that run `k` takes once every run of length zero before it, and
/// itself, has moved to the earliest position.
pub open spec fn settled_at(runs: Seq<u32>, starts: Seq<int>, k: int) -> int
    decreases k,
{
    if k < 0 {
        0
    } else if runs[k] > 0 {
        starts[k]
    } else if k == 0 {
        0
    } else {
        settled_at(runs, starts, k - 1) + runs[k - 1] + 1
    }
}

/// The placement `starts` with every run of length zero moved to the
/// earliest position.
pub open spec fn settled(runs: Seq<u32>, starts: Seq<int>) -> Seq<int> {
    Seq::new(starts.len(), |k: int| settled_at(runs, starts, k))
}

/// Settling moves no run to the right, and keeps each run behind the one
/// before it.
proof fn lemma_settled_at(runs: Seq<u32>, len: int, starts: Seq<int>, k: int)
    requires
        placed(runs, len, starts),
        0 <= k < runs.len(),
    ensures
        0 <= settled_at(runs, starts, k) <= starts[k],
        k > 0 ==> settled_at(runs, starts, k - 1) + runs[k - 1] < settled_at(runs, starts, k),
    decreases k,
{
    if k > 0 {
        lemma_settled_at(runs, len, starts, k - 1);
    }
}

/// In a settled placement the runs come in order.
proof fn lemma_settled_order(runs: Seq<u32>, len: int, starts: Seq<int>, j: int, k: int)
    requires
        placed(runs, len, starts),
        0 <= j < k < runs.len(),
    ensures
        settled_at(runs, starts, j) + runs[j] < settled_at(runs, starts, k),
    decreases k - j,
{
    lemma_settled_at(runs, len, starts, k);
    if j < k - 1 {
        lemma_settled_order(runs, len, starts, j, k - 1);
    }
}

/// Settling a placement gives a snug placement that fills the same
/// positions.
pub proof fn lemma_settled(runs: Seq<u32>, len: int, starts: Seq<int>)
    requires
        placed(runs, len, starts),
    ensures
        placed(runs, len, settled(runs, starts)),
        snug(runs, settled(runs, starts)),
        drawn(runs, len, settled(runs, starts)) == drawn(runs, len, starts),
{
    let moved = settled(runs, starts);
    assert forall|k: int| 0 <= k < moved.len() implies 0 <= #[trigger] moved[k] && moved[k]
        + runs[k] <= len by {
        lemma_settled_at(runs, len, starts, k);
    }
    assert forall|j: int, k: int| 0 <= j < k < moved.len() implies #[trigger] moved[j] + runs[j]
        < #[trigger] moved[k] by {
        lemma_settled_order(runs, len, starts, j, k);
    }
    assert forall|x: int| 0 <= x < len implies filled(runs, moved, x) == filled(
        runs,
        starts,
        x,
    ) by {
        if filled(runs, starts, x) {
            let k = choose|k: int|
                0 <= k < starts.len() && #[trigger] starts[k] <= x && x < starts[k] + runs[k];
            assert(moved[k] == starts[k]);
        }
    }
}

/// Placing one more run fills its positions and leaves the others as they
/// were.
pub proof fn lemma_filled_push(runs: Seq<u32>, starts: Seq<int>, at: int, x: int)
    requires
        starts.len() < runs.len(),
    ensures
        filled(runs, starts.push(at), x) == (filled(runs, starts, x) || (at <= x < at
            + runs[starts.len() as int])),
{
    let next = starts.push(at);
    let n = starts.len() as int;
    if filled(runs, starts, x) {
        let k = choose|k: int|
            0 <= k < starts.len() && #[trigger] starts[k] <= x && x < starts[k] + runs[k];
        assert(next[k] == starts[k]);
    }
    if at <= x < at + runs[n] {
        assert(next[n] == at);
    }
}

/// There is a way to choose `k` things out of `n` where `n` is at least `k`.
pub proof fn lemma_binomial_positive(n: nat, k: nat)
    requires
        k <= n,
    ensures
        binomial(n, k) >= 1,
    decreases n,
{
    if k > 0 && n > 0 {
        lemma_binomial_positive((n - 1) as nat, (k - 1) as nat);
    }
}

/// A constraint that fits its line has at least one pattern.
pub proof fn lemma_pattern_count_positive(len: int, runs: Seq<u32>)
    requires
        min_length(runs) <= len,
    ensures
        pattern_count(len, runs) >= 1,
{
    lemma_binomial_positive(
        (len - min_length(runs) + positives(runs, 0)) as nat,
        positives(runs, 0),
    );
}

} // verus!
