//! The random number generator behind shuffling and drawing, taken from
//! nanorand's WyRand and trusted only for what holds of every outcome.

use vstd::prelude::*;
use nanorand::Rng;

verus! {

#[verifier::external_type_specification]
#[verifier::external_body]
pub struct ExWyRand(nanorand::WyRand);

/// Relies on nanorand's Rng::generate_range over `0..n`: the draw does not
/// panic for a non-empty range and the result stays below `n`.
#[verifier::external_body]
pub(crate) fn rand_below(rng: &mut nanorand::WyRand, n: usize) -> (r: usize)
    requires
        n > 0,
    ensures
        r < n,
{
    rng.generate_range(0..n)
}

/// Relies on nanorand's Rng::shuffle: a Fisher-Yates pass that only swaps
/// elements in place, so the same items come out, in some order.
#[verifier::external_body]
pub(crate) fn shuffle_vec<T: View>(rng: &mut nanorand::WyRand, v: &mut Vec<T>)
    ensures
        final(v)@.to_multiset() == old(v)@.to_multiset(),
        final(v)@.map_values(|x: T| x@).to_multiset() == old(v)@.map_values(
            |x: T| x@,
        ).to_multiset(),
        final(v)@.len() == old(v)@.len(),
{
    rng.shuffle(v.as_mut_slice());
}

} // verus!
