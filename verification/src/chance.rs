//! Randomness from the `rand` crate: the deck shuffle and random numbers.
use vstd::prelude::*;
use rand::seq::SliceRandom;
use rand::RngExt;
use rand::rngs::ThreadRng;
use crate::cards::Card;

verus! {

/// The thread-local generator of `rand`, carried through opaquely.
#[verifier::external_type_specification]
#[verifier::external_body]
pub struct ExThreadRng(rand::rngs::ThreadRng);

/// Calls `rand::rng()`, a handle on the thread-local random generator.
/// Nothing is claimed of the handle.
#[verifier::external_body]
pub(crate) fn thread_rng() -> ThreadRng {
    rand::rng()
}

/// Calls `SliceRandom::shuffle` on the cards. The crate's implementation only
/// swaps elements, so the claim is that the same cards, each as often as
/// before, come out (in an order that is not stated: it is random).
#[verifier::external_body]
pub(crate) fn shuffle_cards(cards: &mut Vec<Card>, rng: &mut ThreadRng)
    ensures
        final(cards)@.to_multiset() == old(cards)@.to_multiset(),
{
    cards.shuffle(rng);
}

/// Calls `RngExt::random_range(0..bound)`: claims a number below `bound`
/// (which one is random). The crate panics on an empty range, so `bound` is
/// positive.
#[verifier::external_body]
pub(crate) fn random_below(rng: &mut ThreadRng, bound: u32) -> (r: u32)
    requires
        bound > 0,
    ensures
        r < bound,
{
    rng.random_range(0..bound)
}

} // verus!
