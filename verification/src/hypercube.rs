use vstd::arithmetic::power2::pow2;
use vstd::bits::{lemma_usize_pow2_no_overflow, lemma_usize_shl_is_mul};
use vstd::prelude::*;

verus! {

/// Number of vertices of the boolean hypercube with `num_vars` variables,
/// which is also the exclusive upper bound of the vertex indices.
pub fn stop_value(num_vars: usize) -> (r: usize)
    requires
        num_vars < usize::BITS,
    ensures
        r as nat == pow2(num_vars as nat),
        r == 1usize << num_vars,
{
    proof {
        lemma_usize_pow2_no_overflow(num_vars as nat);
        lemma_usize_shl_is_mul(1, num_vars);
    }
    1usize << num_vars
}

} // verus!
