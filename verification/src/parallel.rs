//! Enumeration of many lines at once, on all available cores.

use rayon::iter::{IntoParallelRefIterator, ParallelIterator};
use vstd::prelude::*;
use crate::outcome::SolveError;
use crate::possibles::{enumerates, Possibles};
use crate::runs::min_length;

verus! {

/// What [`Possibles::new`] may return for a line of `len` positions with the
/// constraint `runs`.
pub open spec fn enumeration_of(
    len: usize,
    runs: Seq<u32>,
    res: Result<Possibles, SolveError>,
) -> bool {
    &&& res is Err <==> min_length(runs) > len
    &&& res matches Err(e) ==> e == SolveError::InvalidConstraint
    &&& res matches Ok(set) ==> enumerates(set@, len as nat, runs)
}

/// Enumerates one line; this is what each parallel task runs.
fn enumerate_line(len: usize, limit: &Vec<u32>) -> (res: Result<Possibles, SolveError>)
    ensures
        enumeration_of(len, limit@, res),
{
    Possibles::new(len, limit)
}

/// Runs the enumeration of one line on every constraint of `limits`, for
/// lines of `len` positions, through rayon's `par_iter`, `map` and
/// `collect`.
///
/// Trusted: that the vector which rayon collects has one entry for each
/// constraint, in the order of the constraints, and that each entry is what
/// the mapped function returned for that constraint.
#[verifier::external_body]
pub(crate) fn enumerate_lines(len: usize, limits: &Vec<Vec<u32>>) -> (out: Vec<
    Result<Possibles, SolveError>,
>)
    ensures
        out@.len() == limits@.len(),
        forall|i: int|
            0 <= i < limits@.len() ==> enumeration_of(len, limits@[i]@, #[trigger] out@[i]),
{
    limits.par_iter().map(|limit| enumerate_line(len, limit)).collect()
}

/// `e` is the first failure among `found`.
pub open spec fn first_failure(found: Seq<Result<Possibles, SolveError>>, e: SolveError) -> bool {
    exists|i: int|
        0 <= i < found.len() && #[trigger] found[i] == Err::<Possibles, SolveError>(e) && forall|
            j: int,
        |
            0 <= j < i ==> #[trigger] found[j] is Ok
}

/// Takes the possibility sets out of the results of an enumeration, or
/// fails with the first failure among them.
pub fn gather(found: Vec<Result<Possibles, SolveError>>) -> (res: Result<
    Vec<Possibles>,
    SolveError,
>)
    ensures
        res is Err <==> exists|i: int| 0 <= i < found@.len() && #[trigger] found@[i] is Err,
        res matches Err(e) ==> first_failure(found@, e),
        res matches Ok(sets) ==> {
            &&& sets@.len() == found@.len()
            &&& forall|i: int|
                0 <= i < found@.len() ==> #[trigger] found@[i] == Ok::<Possibles, SolveError>(
                    sets@[i],
                )
        },
{
    let mut sets: Vec<Possibles> = Vec::new();
    for item in it: found
        invariant
            sets@.len() == it.index(),
            forall|i: int|
                0 <= i < it.index() ==> #[trigger] found@[i] == Ok::<Possibles, SolveError>(
                    sets@[i],
                ),
    {
        match item {
            Ok(set) => {
                sets.push(set);
            },
            Err(e) => {
                return Err(e);
            },
        }
    }
    Ok(sets)
}

} // verus!
