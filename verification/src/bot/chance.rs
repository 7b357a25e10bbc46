//! Random choices drawn from the thread's random number generator: those of the bots, and the
//! order in which players sit and the keeper pass is scattered.
use crate::cards::Card;
use rand::seq::SliceRandom;
use rand::Rng;
use vstd::prelude::*;

verus! {

/// A number drawn uniformly from `0..n`, by `rand::Rng::gen_range(0, n)` on the thread's
/// generator. The draw is random: all that is promised is that it lies in the range; the
/// function panics on an empty range, which `requires` leaves out.
#[verifier::external_body]
pub(crate) fn random_below(n: usize) -> (r: usize)
    requires
        n > 0,
    ensures
        r < n,
{
    rand::thread_rng().gen_range(0, n)
}

/// A fair coin, by `rand::Rng::gen::<bool>()` on the thread's generator. Either value may
/// come back.
#[verifier::external_body]
pub(crate) fn random_bool() -> (r: bool) {
    rand::thread_rng().gen::<bool>()
}

/// `rand::seq::SliceRandom::partial_shuffle(cards, rng, amount)` on the thread's generator:
/// the cards are swapped about in place, so what comes out is a rearrangement of what went
/// in. Which rearrangement is random.
#[verifier::external_body]
pub(crate) fn partial_shuffle(cards: &mut Vec<Card>, amount: usize)
    ensures
        final(cards)@.to_multiset() == old(cards)@.to_multiset(),
{
    cards.partial_shuffle(&mut rand::thread_rng(), amount);
}

/// `rand::seq::SliceRandom::shuffle(items, rng)` on the thread's generator: a random
/// rearrangement of the items.
#[verifier::external_body]
pub(crate) fn shuffle<T>(items: &mut Vec<T>)
    ensures
        final(items)@.to_multiset() == old(items)@.to_multiset(),
{
    items.shuffle(&mut rand::thread_rng());
}

} // verus!
