//! Bounds on the sizes that the counters of the solver reach.

use vstd::prelude::*;

verus! {

/// The product of two sizes, and one size more, stay below the greatest
/// 128-bit number.
pub proof fn lemma_sizes_fit(a: int, b: int)
    requires
        0 <= a <= usize::MAX,
        0 <= b <= usize::MAX,
    ensures
        a * b + usize::MAX < u128::MAX,
{
    assert(a * b <= 0xffff_ffff_ffff_ffff * 0xffff_ffff_ffff_ffff) by (nonlinear_arith)
        requires
            0 <= a <= 0xffff_ffff_ffff_ffff,
            0 <= b <= 0xffff_ffff_ffff_ffff,
    ;
}

} // verus!
