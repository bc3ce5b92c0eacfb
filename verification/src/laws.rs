//! Properties that tie the public operations together.

use vstd::prelude::*;

verus! {

use crate::arena::Smalloc;
use crate::bits::lemma_clog2_mono;

/// Size classes are monotone in the request size: whenever `a <= b`, the
/// class serving `a` is at most the class serving `b`.
pub proof fn lemma_size_level_monotonic<
    const LENGTH: usize,
    const MIN: usize,
    const PAGE_SIZE: usize,
>(a: int, b: int)
    requires
        0 <= a <= b,
    ensures
        Smalloc::<LENGTH, MIN, PAGE_SIZE>::spec_size_level(a) <= Smalloc::<
            LENGTH,
            MIN,
            PAGE_SIZE,
        >::spec_size_level(b),
{
    lemma_clog2_mono(a as nat, b as nat);
}

} // verus!
