//! Deterministic deck shuffling through a seeded pseudo-random generator.

use vstd::prelude::*;
use rand::SeedableRng;
use rand::seq::SliceRandom;
use crate::card::Card;

verus! {

/// The order in which a generator seeded with `seed` leaves the cards of
/// `deck`: a fixed permutation of the input, the same in every run, so that a
/// hand built from a seed can be replayed bit for bit.
pub uninterp spec fn shuffle_of(deck: Seq<Card>, seed: u64) -> Seq<Card>;

/// Relies on `rand::rngs::StdRng::seed_from_u64` and
/// `rand::seq::SliceRandom::shuffle`: the generator is a deterministic
/// function of the seed, and a shuffle only reorders the slice it is given.
#[verifier::external_body]
pub fn shuffle_cards(deck: Vec<Card>, seed: u64) -> (r: Vec<Card>)
    ensures
        r@ == shuffle_of(deck@, seed),
        r@.to_multiset() == deck@.to_multiset(),
{
    let mut cards = deck;
    let mut rng = rand::rngs::StdRng::seed_from_u64(seed);
    cards.as_mut_slice().shuffle(&mut rng);
    cards
}

} // verus!
