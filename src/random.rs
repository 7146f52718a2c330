//! The source of randomness that the generators draw from.
use rand::rngs::StdRng;
use rand::seq::SliceRandom;
use vstd::prelude::*;

verus! {

#[verifier::external_type_specification]
#[verifier::external_body]
pub struct ExStdRng(StdRng);

/// Relies on rand's `SliceRandom::shuffle`, which reorders the elements in
/// place by swaps: the result is a permutation of the input.
#[verifier::external_body]
pub(crate) fn shuffle<T>(v: &mut Vec<T>, rng: &mut StdRng)
    ensures
        final(v)@.to_multiset() == old(v)@.to_multiset(),
{
    v.shuffle(rng);
}

} // verus!
