use vstd::prelude::*;

use rand::seq::SliceRandom;

use crate::card::Card;

verus! {

/// Relies on rand::seq::SliceRandom::shuffle: an in-place permutation of
/// the slice, so the cards and the length are unchanged.
#[verifier::external_body]
pub(crate) fn shuffle_cards(v: &mut Vec<Card>)
    ensures
        final(v)@.to_multiset() == old(v)@.to_multiset(),
        final(v)@.len() == old(v)@.len(),
{
    v.as_mut_slice().shuffle(&mut rand::rng());
}

/// Relies on rand::random_range: a draw from 0..n, which is nonempty, so
/// the call returns a value below the bound.
#[verifier::external_body]
pub(crate) fn random_below(n: usize) -> (r: usize)
    requires
        n >= 1,
    ensures
        r < n,
{
    rand::random_range(0..n)
}

} // verus!
