//! The possibility set of a line: the patterns that still satisfy the line's
//! constraint and agree with its known cells.

use vstd::prelude::*;
use crate::bounds::lemma_sizes_fit;
use crate::cell::{Cell, CellLine};
use crate::line::{consistent, BoolLine};
use crate::outcome::SolveError;
use crate::runs::{blank, drawn, filled, min_length, need, pattern_count, placed, positives,
    satisfies, lemma_need_monotone, lemma_need_step};
use crate::search::{completions, last_start, next_free, promising, settled, visits,
    lemma_completions_count, lemma_completions_cover, lemma_completions_distinct,
    lemma_completions_placed, lemma_filled_push, lemma_promising_step, lemma_settled,
    lemma_snug_placement_unique};

verus! {

/// `set` holds the patterns of `len` positions that satisfy `runs`: each of
/// them, nothing else, and none twice.
pub open spec fn enumerates(set: Seq<Seq<bool>>, len: nat, runs: Seq<u32>) -> bool {
    &&& forall|i: int|
        0 <= i < set.len() ==> (#[trigger] set[i]).len() == len && satisfies(set[i], runs)
    &&& forall|line: Seq<bool>|
        line.len() == len && #[trigger] satisfies(line, runs) ==> set.contains(line)
    &&& set.no_duplicates()
    &&& set.len() == pattern_count(len as int, runs)
}

/// The test that a pattern agrees with the known cells `known`.
pub open spec fn agrees(known: Seq<Cell>) -> spec_fn(Seq<bool>) -> bool {
    |bits: Seq<bool>| consistent(bits, known)
}

/// What filtering `set` against the known cells `known` leaves: the patterns
/// that agree with them, in their order. A set of exactly one pattern is
/// left as it is.
pub open spec fn filtered(set: Seq<Seq<bool>>, known: Seq<Cell>) -> Seq<Seq<bool>> {
    if set.len() == 1 {
        set
    } else {
        set.filter(agrees(known))
    }
}

/// No pattern of `set` agrees with the known cells of `line`.
pub open spec fn dead(set: Seq<Seq<bool>>, line: Seq<Cell>) -> bool {
    forall|j: int| 0 <= j < set.len() ==> !consistent(#[trigger] set[j], line)
}

/// The patterns that a sequence of lines holds.
pub open spec fn patterns_of(lines: Seq<BoolLine>) -> Seq<Seq<bool>> {
    Seq::new(lines.len(), |i: int| lines[i]@)
}

/// The patterns still possible for one line.
#[derive(Debug)]
pub struct Possibles {
    lines: Vec<BoolLine>,
}

impl View for Possibles {
    type V = Seq<Seq<bool>>;

    closed spec fn view(&self) -> Seq<Seq<bool>> {
        patterns_of(self.lines@)
    }
}

/// The room that each suffix of `limit` needs, or `None` where the whole of
/// it needs more than `len`.
fn room_needed(limit: &Vec<u32>, len: usize) -> (res: Option<Vec<usize>>)
    ensures
        res is None <==> min_length(limit@) > len,
        res matches Some(left) ==> {
            &&& left@.len() == limit@.len()
            &&& forall|k: int| 0 <= k < left@.len() ==> left@[k] == need(limit@, k)
        },
{
    let count: usize = limit.len();
    let mut left: Vec<usize> = Vec::new();
    let mut n: usize = 0;
    while n < count
        invariant
            n <= count,
            left@.len() == n,
        decreases count - n,
    {
        left.push(0);
        n += 1;
    }
    let mut k: usize = count;
    while k > 0
        invariant
            k <= count,
            count == limit@.len(),
            left@.len() == count,
            forall|j: int| k <= j < count ==> left@[j] == need(limit@, j) && left@[j] <= len,
        decreases k,
    {
        k -= 1;
        let tail: u128 = if k + 1 < count {
            left[k + 1] as u128 + 1
        } else {
            0
        };
        let total: u128 = limit[k] as u128 + tail;
        if total > len as u128 {
            proof {
                lemma_need_monotone(limit@, 0, k as int);
            }
            return None;
        }
        left.set(k, total as usize);
    }
    Some(left)
}

/// `after` is `before` with the patterns of the placements `found` behind
/// it, in their order.
spec fn appended(
    before: Seq<BoolLine>,
    after: Seq<BoolLine>,
    runs: Seq<u32>,
    len: int,
    found: Seq<Seq<int>>,
) -> bool {
    &&& after.len() == before.len() + found.len()
    &&& forall|i: int| 0 <= i < before.len() ==> after[i] == before[i]
    &&& forall|i: int|
        0 <= i < found.len() ==> (#[trigger] after[before.len() + i])@ == drawn(runs, len, found[i])
}

/// Places the runs from `index` on in every way that the state allows, and
/// appends the pattern of each complete placement to `out`. Returns the
/// number of states entered below this one.
fn place(
    limit: &Vec<u32>,
    left: &Vec<usize>,
    len: usize,
    line: &BoolLine,
    index: usize,
    begin: usize,
    out: &mut Vec<BoolLine>,
    Ghost(starts): Ghost<Seq<int>>,
) -> (entered: u128)
    requires
        left@.len() == limit@.len(),
        forall|k: int| 0 <= k < left@.len() ==> left@[k] == need(limit@, k),
        starts.len() == index,
        index <= limit@.len(),
        promising(limit@, len as int, starts),
        index < limit@.len() ==> begin == next_free(limit@, starts),
        line@ == drawn(limit@, len as int, starts),
    ensures
        appended(
            old(out)@,
            final(out)@,
            limit@,
            len as int,
            completions(limit@, len as int, starts, begin as int),
        ),
        completions(limit@, len as int, starts, begin as int).len() >= 1,
        entered == visits(limit@, len as int, starts, begin as int),
        entered <= (limit@.len() - index) * completions(
            limit@,
            len as int,
            starts,
            begin as int,
        ).len(),
    decreases limit@.len() - index,
{
    let count: usize = limit.len();
    let ghost before = out@;
    let ghost all = completions(limit@, len as int, starts, begin as int);
    if index == count {
        out.push(line.duplicate());
        return 0;
    }
    let run: usize = limit[index] as usize;
    proof {
        lemma_need_step(limit@, index as int);
    }
    let hi: usize = if run == 0 {
        begin
    } else {
        len - left[index]
    };
    let mut at: usize = begin;
    let mut entered: u128 = 0;
    let ghost mut done: Seq<Seq<int>> = Seq::empty();
    loop
        invariant_except_break
            begin <= at <= hi,
            done + completions(limit@, len as int, starts, at as int) == all,
            entered + visits(limit@, len as int, starts, at as int) == visits(
                limit@,
                len as int,
                starts,
                begin as int,
            ),
            at > begin ==> done.len() >= 1,
        invariant
            count == limit@.len(),
            index < count,
            run == limit@[index as int],
            hi == last_start(limit@, len as int, starts),
            all == completions(limit@, len as int, starts, begin as int),
            left@.len() == limit@.len(),
            forall|k: int| 0 <= k < left@.len() ==> left@[k] == need(limit@, k),
            starts.len() == index,
            promising(limit@, len as int, starts),
            begin == next_free(limit@, starts),
            line@ == drawn(limit@, len as int, starts),
            out@.len() == before.len() + done.len(),
            forall|i: int| 0 <= i < before.len() ==> out@[i] == before[i],
            forall|i: int|
                0 <= i < done.len() ==> (#[trigger] out@[before.len() + i])@ == drawn(
                    limit@,
                    len as int,
                    done[i],
                ),
            entered <= (count - index) * done.len(),
        ensures
            done == all,
            done.len() >= 1,
            entered == visits(limit@, len as int, starts, begin as int),
        decreases hi - at,
    {
        let ghost next = starts.push(at as int);
        let ghost first = completions(limit@, len as int, next, at + run + 1);
        let ghost rest = completions(limit@, len as int, starts, at + 1);
        proof {
            lemma_promising_step(limit@, len as int, starts, at as int);
        }
        let mut next_line = line.duplicate();
        next_line.fill(at, run);
        proof {
            assert forall|x: int| 0 <= x < len implies next_line@[x] == filled(limit@, next, x) by {
                lemma_filled_push(limit@, starts, at as int, x);
            }
            assert(next_line@ =~= drawn(limit@, len as int, next));
        }
        // the cursor moves past the run and its separator; behind the last
        // run there is none
        let next_begin: usize = if index + 1 < count {
            at + run + 1
        } else {
            0
        };
        let ghost mid = out@;
        let below = place(limit, left, len, &next_line, index + 1, next_begin, out, Ghost(next));
        proof {
            let grown = done + first;
            assert(completions(limit@, len as int, starts, at as int) == first + rest);
            assert(grown + rest =~= done + (first + rest));
            assert forall|i: int| 0 <= i < grown.len() implies (#[trigger] out@[before.len() + i])@
                == drawn(limit@, len as int, grown[i]) by {
                if i >= done.len() {
                    assert(out@[mid.len() + (i - done.len())]@ == drawn(
                        limit@,
                        len as int,
                        first[i - done.len()],
                    ));
                }
            }
            assert(below + 1 <= (count - index) * first.len()) by (nonlinear_arith)
                requires
                    below <= (count - (index + 1)) * first.len(),
                    first.len() >= 1,
                    index < count,
            ;
            assert(entered + below + 1 <= (count - index) * grown.len()) by (nonlinear_arith)
                requires
                    below + 1 <= (count - index) * first.len(),
                    entered <= (count - index) * done.len(),
                    grown.len() == done.len() + first.len(),
            ;
            assert(grown.len() <= out.len());
            lemma_sizes_fit(count - index, grown.len() as int);
            assert(visits(limit@, len as int, starts, at as int) == 1 + visits(
                limit@,
                len as int,
                next,
                at + run + 1,
            ) + visits(limit@, len as int, starts, at + 1));
            done = grown;
        }
        entered = entered + below + 1;
        if at == hi {
            break;
        }
        at += 1;
    }
    entered
}

impl Possibles {
    /// Enumerates the patterns of `len` positions that satisfy `limit`.
    ///
    /// Fails where the runs need more room than `len`.
    pub fn new(len: usize, limit: &Vec<u32>) -> (res: Result<Possibles, SolveError>)
        ensures
            res is Err <==> min_length(limit@) > len,
            res matches Err(e) ==> e == SolveError::InvalidConstraint,
            res matches Ok(set) ==> enumerates(set@, len as nat, limit@),
            res matches Ok(set) ==> (limit@ == seq![0u32] ==> set@ == seq![blank(len as nat)]),
    {
        match Possibles::search(len, limit) {
            Ok(found) => Ok(found.0),
            Err(e) => Err(e),
        }
    }

    /// Enumerates as [`Possibles::new`] does, and also counts the states that
    /// the search enters: the initial one, and one for each run it places.
    pub fn search(len: usize, limit: &Vec<u32>) -> (res: Result<(Possibles, u128), SolveError>)
        ensures
            res is Err <==> min_length(limit@) > len,
            res matches Err(e) ==> e == SolveError::InvalidConstraint,
            res matches Ok(found) ==> {
                &&& enumerates(found.0@, len as nat, limit@)
                &&& limit@ == seq![0u32] ==> found.0@ == seq![blank(len as nat)]
                &&& found.1 == 1 + visits(limit@, len as int, Seq::empty(), 0)
            },
    {
        let left = match room_needed(limit, len) {
            Some(left) => left,
            None => {
                return Err(SolveError::InvalidConstraint);
            },
        };
        let line = BoolLine::new(len);
        let mut lines: Vec<BoolLine> = Vec::new();
        proof {
            assert(line@ =~= drawn(limit@, len as int, Seq::empty()));
        }
        let entered = place(limit, &left, len, &line, 0, 0, &mut lines, Ghost(Seq::empty()));
        proof {
            let all = completions(limit@, len as int, Seq::empty(), 0);
            let set = patterns_of(lines@);
            assert(lines@.len() == lines.len());
            assert forall|i: int| 0 <= i < set.len() implies #[trigger] set[i] == drawn(
                limit@,
                len as int,
                all[i],
            ) by {
                assert(lines@[0 + i]@ == drawn(limit@, len as int, all[i]));
            }
            assert(limit@.len() == limit.len());
            lemma_sizes_fit(limit@.len() as int, lines@.len() as int);
            lemma_search_enumerates(limit@, len as int, patterns_of(lines@));
            if limit@ == seq![0u32] {
                lemma_zero_run_is_blank(len as nat, patterns_of(lines@));
            }
        }
        Ok((Possibles { lines }, entered + 1))
    }

    /// Removes the patterns that disagree with a known cell of `cell_line`.
    /// A set of exactly one pattern is left as it is.
    pub fn update(&mut self, cell_line: &CellLine)
        requires
            forall|i: int|
                0 <= i < old(self)@.len() ==> (#[trigger] old(self)@[i]).len() == cell_line@.len(),
        ensures
            final(self)@ == filtered(old(self)@, cell_line@),
    {
        if self.lines.len() == 1 {
            return;
        }
        let ghost set = self@;
        let mut kept: Vec<BoolLine> = Vec::new();
        let mut i: usize = 0;
        while i < self.lines.len()
            invariant
                i <= self.lines@.len(),
                self@ == set,
                forall|j: int| 0 <= j < set.len() ==> (#[trigger] set[j]).len() == cell_line@.len(),
                patterns_of(kept@) == set.take(i as int).filter(agrees(cell_line@)),
            decreases self.lines@.len() - i,
        {
            proof {
                assert(set.take(i + 1) =~= set.take(i as int).push(set[i as int]));
                set.take(i as int).lemma_filter_push(set[i as int], agrees(cell_line@));
            }
            if self.lines[i].check(cell_line) {
                kept.push(self.lines[i].duplicate());
            }
            i += 1;
        }
        assert(set.take(i as int) =~= set);
        self.lines = kept;
    }

    /// Filters the set against `cell_line` as [`Possibles::update`] does, and
    /// tells whether a pattern that agrees with the line is left.
    pub fn narrow(&mut self, cell_line: &CellLine) -> (alive: bool)
        requires
            forall|i: int|
                0 <= i < old(self)@.len() ==> (#[trigger] old(self)@[i]).len() == cell_line@.len(),
        ensures
            final(self)@ == filtered(old(self)@, cell_line@),
            alive == !dead(final(self)@, cell_line@),
    {
        proof {
            lemma_filter_agree(self@, cell_line@);
            lemma_filter_shrinks(self@, cell_line@);
        }
        self.update(cell_line);
        let left: usize = self.lines.len();
        if left == 0 {
            false
        } else if left == 1 {
            assert(old(self)@.contains(self@[0]));
            self.lines[0].check(cell_line)
        } else {
            true
        }
    }

    /// The number of patterns in the set.
    pub fn len(&self) -> (n: usize)
        ensures
            n == self@.len(),
    {
        self.lines.len()
    }

    /// Whether position `i` of pattern `which` is filled.
    pub fn get(&self, which: usize, i: usize) -> (bit: bool)
        requires
            which < self@.len(),
            i < self@[which as int].len(),
        ensures
            bit == self@[which as int][i as int],
    {
        self.lines[which].get(i)
    }
}

/// The patterns that the search draws from the initial state are those that
/// satisfy the constraint.
pub proof fn lemma_search_enumerates(runs: Seq<u32>, len: int, set: Seq<Seq<bool>>)
    requires
        0 <= len,
        min_length(runs) <= len,
        set.len() == completions(runs, len, Seq::empty(), 0).len(),
        forall|i: int|
            0 <= i < set.len()
                ==> #[trigger] set[i]
                    == drawn(runs, len, completions(runs, len, Seq::empty(), 0)[i]),
    ensures
        enumerates(set, len as nat, runs),
{
    let root = Seq::<int>::empty();
    let all = completions(runs, len, root, 0);
    assert(promising(runs, len, root));
    assert forall|i: int| 0 <= i < set.len() implies (#[trigger] set[i]).len() == len && satisfies(
        set[i],
        runs,
    ) by {
        lemma_completions_placed(runs, len, root, 0, i);
    }
    assert forall|line: Seq<bool>|
        line.len() == len && #[trigger] satisfies(line, runs) implies set.contains(
        line,
    ) by {
        let starts = choose|starts: Seq<int>| #[trigger]
            placed(runs, line.len() as int, starts)
                && line == drawn(runs, line.len() as int, starts);
        lemma_settled(runs, len, starts);
        let goal = settled(runs, starts);
        assert(goal.take(0) =~= root);
        lemma_completions_cover(runs, len, root, 0, goal);
        let i = choose|i: int| 0 <= i < all.len() && all[i] == goal;
        assert(set[i] == line);
    }
    assert forall|i: int, j: int| 0 <= i < set.len() && 0 <= j < set.len() && i != j implies set[i]
        != set[j] by {
        lemma_completions_placed(runs, len, root, 0, i);
        lemma_completions_placed(runs, len, root, 0, j);
        if set[i] == set[j] {
            lemma_snug_placement_unique(runs, len, all[i], all[j]);
            if i < j {
                lemma_completions_distinct(runs, len, root, 0, i, j);
            } else {
                lemma_completions_distinct(runs, len, root, 0, j, i);
            }
        }
    }
    lemma_completions_count(runs, len, root, 0);
}

/// Filtering only removes: every pattern that is left was there before, the
/// set does not grow, and a set of unchanged size is unchanged.
pub proof fn lemma_filter_shrinks(set: Seq<Seq<bool>>, known: Seq<Cell>)
    ensures
        forall|j: int|
            0 <= j < filtered(set, known).len()
                ==> set.contains(#[trigger] filtered(set, known)[j]),
        filtered(set, known).len() <= set.len(),
        filtered(set, known).len() == set.len() ==> filtered(set, known) == set,
{
    lemma_filter_is_part(set, agrees(known));
}

/// What a filter keeps is part of what it was given, and all of it where
/// nothing was removed.
proof fn lemma_filter_is_part(set: Seq<Seq<bool>>, test: spec_fn(Seq<bool>) -> bool)
    ensures
        forall|j: int|
            0 <= j < set.filter(test).len() ==> set.contains(#[trigger] set.filter(test)[j]),
        set.filter(test).len() <= set.len(),
        set.filter(test).len() == set.len() ==> set.filter(test) == set,
        forall|j: int| 0 <= j < set.filter(test).len() ==> test(#[trigger] set.filter(test)[j]),
        forall|j: int|
            0 <= j < set.len() && test(set[j]) ==> set.filter(test).contains(#[trigger] set[j]),
    decreases set.len(),
{
    reveal(Seq::filter);
    if set.len() > 0 {
        let front = set.drop_last();
        lemma_filter_is_part(front, test);
    }
}

/// Filtering twice against the same cells leaves what filtering once leaves.
pub proof fn lemma_filter_idempotent(set: Seq<Seq<bool>>, known: Seq<Cell>)
    ensures
        filtered(filtered(set, known), known) == filtered(set, known),
{
    let once = filtered(set, known);
    if set.len() != 1 && once.len() != 1 {
        lemma_filter_is_part(set, agrees(known));
        lemma_filter_keeps_all(once, agrees(known));
    }
}

/// A filter removes nothing from patterns that all pass its test.
proof fn lemma_filter_keeps_all(set: Seq<Seq<bool>>, test: spec_fn(Seq<bool>) -> bool)
    requires
        forall|j: int| 0 <= j < set.len() ==> test(#[trigger] set[j]),
    ensures
        set.filter(test) == set,
    decreases set.len(),
{
    reveal(Seq::filter);
    if set.len() > 0 {
        let front = set.drop_last();
        lemma_filter_keeps_all(front, test);
    }
}

/// After a filter of a set that did not hold exactly one pattern, every
/// pattern that is left agrees with the cells; and a filter removes no
/// pattern that agrees with them.
pub proof fn lemma_filter_agree(set: Seq<Seq<bool>>, known: Seq<Cell>)
    ensures
        set.len() != 1 ==> forall|j: int|
            0 <= j < filtered(set, known).len()
                ==> consistent(#[trigger] filtered(set, known)[j], known),
        forall|j: int|
            0 <= j < set.len() && consistent(set[j], known)
                ==> filtered(set, known).contains(#[trigger] set[j]),
{
    lemma_filter_is_part(set, agrees(known));
}

/// The constraint of the single run of length zero has one pattern, the
/// blank line.
pub proof fn lemma_zero_run_is_blank(len: nat, set: Seq<Seq<bool>>)
    requires
        enumerates(set, len, seq![0u32]),
    ensures
        set == seq![blank(len)],
{
    reveal_with_fuel(positives, 2);
    let line = set[0];
    assert(line =~= blank(len));
}

} // verus!
