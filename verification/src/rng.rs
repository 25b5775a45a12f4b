//! Randomness, drawn from the process-wide generator through trusted wrappers.
//!
//! Nothing is assumed about which value comes out of a draw, only what holds
//! of every outcome.

use vstd::prelude::*;

verus! {

/// Relies on `rand::random_range`: a random index strictly below `n`.
/// The bound is all that is assumed of the result.
#[verifier::external_body]
pub fn random_below(n: usize) -> (r: usize)
    requires
        1 <= n,
    ensures
        r < n,
{
    rand::random_range(0..n)
}

/// Relies on `rand::seq::SliceRandom::shuffle`: a permutation of the vector in
/// place. Which permutation comes out is not assumed, so only the multiset of
/// elements (and so of their views) is known to be preserved.
#[verifier::external_body]
pub fn shuffle<T: DeepView>(v: &mut Vec<T>)
    ensures
        final(v)@.to_multiset() == old(v)@.to_multiset(),
        final(v).deep_view().to_multiset() == old(v).deep_view().to_multiset(),
{
    rand::seq::SliceRandom::shuffle(v.as_mut_slice(), &mut rand::rng())
}

} // verus!
