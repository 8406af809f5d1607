//! Solving one line on its own: seed it with known ranges, enumerate,
//! filter once, deduce once.

use vstd::prelude::*;
use crate::cell::{always, deduced, Cell, CellLine};
use crate::line::consistent;
use crate::outcome::SolveError;
use crate::possibles::{Possibles, lemma_filter_agree, lemma_filter_shrinks};
use crate::runs::{min_length, satisfies};
use crate::search::visits;

verus! {

/// The range `(start, length)`, with positions counted from one, lies
/// inside a line of `len` positions.
pub open spec fn within(range: (u32, u32), len: usize) -> bool {
    1 <= range.0 && range.0 - 1 + range.1 <= len
}

/// Whether position `x`, counted from zero, lies in one of `ranges`.
pub open spec fn marked(ranges: Seq<(u32, u32)>, x: int) -> bool {
    exists|k: int|
        0 <= k < ranges.len() && (#[trigger] ranges[k]).0 - 1 <= x && x < ranges[k].0 - 1
            + ranges[k].1
}

/// The line `line` with `cell` at every position that lies in one of
/// `ranges`.
pub open spec fn painted(line: Seq<Cell>, ranges: Seq<(u32, u32)>, cell: Cell) -> Seq<Cell> {
    Seq::new(
        line.len(),
        |x: int|
            if marked(ranges, x) {
                cell
            } else {
                line[x]
            },
    )
}

/// The line of `len` cells that is `Empty` in the ranges of `empty`, `Full`
/// in those of `full`, which win where both claim a position, and `Unknown`
/// elsewhere.
pub open spec fn seeded(len: nat, empty: Seq<(u32, u32)>, full: Seq<(u32, u32)>) -> Seq<Cell> {
    painted(painted(Seq::new(len, |x: int| Cell::Unknown), empty, Cell::Empty), full, Cell::Full)
}

/// The pattern `bits` fits a line of `len` positions with the constraint
/// `runs` and the known cells `known`.
pub open spec fn survives(bits: Seq<bool>, len: nat, runs: Seq<u32>, known: Seq<Cell>) -> bool {
    bits.len() == len && satisfies(bits, runs) && consistent(bits, known)
}

/// Whether every pattern that survives holds `bit` at position `i`.
pub open spec fn forced(len: nat, runs: Seq<u32>, known: Seq<Cell>, i: int, bit: bool) -> bool {
    forall|bits: Seq<bool>| #[trigger] survives(bits, len, runs, known) ==> bits[i] == bit
}

/// What the surviving patterns tell of each position: `Full` where all of
/// them fill it, `Empty` where none does, `Unknown` elsewhere.
pub open spec fn concluded(len: nat, runs: Seq<u32>, known: Seq<Cell>) -> Seq<Cell> {
    Seq::new(
        len,
        |i: int|
            if forced(len, runs, known, i, true) {
                Cell::Full
            } else if forced(len, runs, known, i, false) {
                Cell::Empty
            } else {
                Cell::Unknown
            },
    )
}

/// Sets every cell that lies in one of `ranges` to `cell`.
fn paint(line: &mut CellLine, ranges: &Vec<(u32, u32)>, cell: Cell)
    requires
        forall|k: int|
            0 <= k < ranges@.len() ==> within(#[trigger] ranges@[k], old(line)@.len() as usize),
    ensures
        final(line)@ == painted(old(line)@, ranges@, cell),
{
    let len: usize = line.len();
    let mut k: usize = 0;
    while k < ranges.len()
        invariant
            k <= ranges@.len(),
            len == old(line)@.len(),
            forall|k: int| 0 <= k < ranges@.len() ==> within(#[trigger] ranges@[k], len),
            line@ == painted(old(line)@, ranges@.take(k as int), cell),
        decreases ranges@.len() - k,
    {
        let range = ranges[k];
        let start: usize = range.0 as usize - 1;
        let end: usize = start + range.1 as usize;
        let ghost held = line@;
        let mut i: usize = start;
        while i < end
            invariant
                start <= i <= end <= len,
                line@.len() == len,
                forall|x: int|
                    0 <= x < len ==> line@[x] == if start <= x < i {
                        cell
                    } else {
                        held[x]
                    },
            decreases end - i,
        {
            line.set(i, cell);
            i += 1;
        }
        proof {
            let more = ranges@.take(k + 1);
            assert forall|x: int|
                0 <= x < len implies line@[x] == painted(old(line)@, more, cell)[x] by {
                if start <= x < end {
                    assert(more[k as int] == range);
                }
            }
        }
        k += 1;
    }
    assert(ranges@.take(k as int) =~= ranges@);
}

/// Solves one line of `len` positions on its own.
///
/// The line is seeded with the ranges of `empty` and of `full`, each a start
/// position counted from one and a length. The patterns of `limit` are
/// enumerated and filtered once against the seeded line, and the cells are
/// deduced once from what is left. Returns the deduced line with the number
/// of states that the enumeration entered.
///
/// Fails with `InvalidConstraint` where the runs need more room than `len`,
/// and with `Unsatisfiable` where no pattern agrees with the seeded cells.
pub fn solve_a_line(
    len: usize,
    empty: &Vec<(u32, u32)>,
    full: &Vec<(u32, u32)>,
    limit: &Vec<u32>,
) -> (res: Result<(CellLine, u128), SolveError>)
    requires
        forall|k: int| 0 <= k < empty@.len() ==> within(#[trigger] empty@[k], len),
        forall|k: int| 0 <= k < full@.len() ==> within(#[trigger] full@[k], len),
    ensures
        res == Err::<(CellLine, u128), SolveError>(SolveError::InvalidConstraint) <==> min_length(
            limit@,
        ) > len,
        res == Err::<(CellLine, u128), SolveError>(SolveError::Unsatisfiable) <==> min_length(
            limit@,
        ) <= len && forall|bits: Seq<bool>|
            !#[trigger] survives(bits, len as nat, limit@, seeded(len as nat, empty@, full@)),
        res matches Ok(found) ==> {
            &&& found.0@ == concluded(len as nat, limit@, seeded(len as nat, empty@, full@))
            &&& found.1 == 1 + visits(limit@, len as int, Seq::empty(), 0)
        },
{
    let mut cell_line = CellLine::new(len);
    paint(&mut cell_line, empty, Cell::Empty);
    paint(&mut cell_line, full, Cell::Full);
    let ghost known = cell_line@;
    assert(known == seeded(len as nat, empty@, full@));
    let (mut set, entered) = match Possibles::search(len, limit) {
        Ok(found) => found,
        Err(e) => {
            return Err(e);
        },
    };
    let ghost all = set@;
    let alive = set.narrow(&cell_line);
    let ghost left = set@;
    proof {
        lemma_filter_agree(all, known);
        lemma_filter_shrinks(all, known);
    }
    if !alive {
        return Err(SolveError::Unsatisfiable);
    }
    cell_line.update(&set);
    proof {
        let goal = concluded(len as nat, limit@, known);
        assert forall|i: int| 0 <= i < len implies cell_line@[i] == goal[i] by {
            lemma_forced(left, len as nat, limit@, known, i, true);
            lemma_forced(left, len as nat, limit@, known, i, false);
        }
        assert(survives(left[0], len as nat, limit@, known));
    }
    Ok((cell_line, entered))
}

/// Where `left` holds exactly the surviving patterns, all of `left` hold a
/// bit at a position exactly where every surviving pattern does.
proof fn lemma_forced(
    left: Seq<Seq<bool>>,
    len: nat,
    runs: Seq<u32>,
    known: Seq<Cell>,
    i: int,
    bit: bool,
)
    requires
        forall|j: int| 0 <= j < left.len() ==> #[trigger] survives(left[j], len, runs, known),
        forall|bits: Seq<bool>| #[trigger] survives(bits, len, runs, known) ==> left.contains(bits),
    ensures
        always(left, i, bit) == forced(len, runs, known, i, bit),
{
    if forced(len, runs, known, i, bit) {
        assert forall|j: int| 0 <= j < left.len() implies (#[trigger] left[j])[i] == bit by {
            assert(survives(left[j], len, runs, known));
        }
    }
}

} // verus!
