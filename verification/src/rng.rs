//! Random numbers from a seeded generator.
//!
//! The generator is that of the `rand` crate. What it returns is named, not
//! stated: each name is a function of the generator's state and the arguments.
use rand::rngs::StdRng;
use rand::seq::SliceRandom;
use rand::{RngExt, SeedableRng};
use vstd::prelude::*;

verus! {

/// `rand::rngs::StdRng`, a generator whose numbers follow from its seed.
#[verifier::external_type_specification]
#[verifier::external_body]
pub struct ExStdRng(StdRng);

/// The state that a generator holds.
pub uninterp spec fn rng_state(rng: StdRng) -> int;

/// The state of a generator that was just made from `seed`.
pub uninterp spec fn seeded_state(seed: u64) -> int;

/// The number below `end` that a generator in this state draws, and the state
/// that it is in afterwards.
pub uninterp spec fn drawn_below(state: int, end: usize) -> (usize, int);

/// The number up to `last` that a generator in this state draws, and the state
/// that it is in afterwards.
pub uninterp spec fn drawn_up_to(state: int, last: usize) -> (usize, int);

/// What a generator in this state shuffles `items` to, and the state that it is
/// in afterwards.
pub uninterp spec fn shuffled(state: int, items: Seq<usize>) -> (Seq<usize>, int);

/// `StdRng::seed_from_u64`: the state of the new generator follows from the seed
/// alone.
#[verifier::external_body]
pub(crate) fn seeded_rng(seed: u64) -> (rng: StdRng)
    ensures
        rng_state(rng) == seeded_state(seed),
{
    StdRng::seed_from_u64(seed)
}

/// `RngExt::random_range` over `..end`: the number lies in the range, and it and
/// the next state follow from the state and the range. An empty range panics.
#[verifier::external_body]
pub(crate) fn draw_below(rng: &mut StdRng, end: usize) -> (value: usize)
    requires
        end > 0,
    ensures
        (value, rng_state(*final(rng))) == drawn_below(rng_state(*old(rng)), end),
        value < end,
{
    rng.random_range(..end)
}

/// `RngExt::random_range` over `..=last`: the number lies in the range, and it
/// and the next state follow from the state and the range.
#[verifier::external_body]
pub(crate) fn draw_up_to(rng: &mut StdRng, last: usize) -> (value: usize)
    ensures
        (value, rng_state(*final(rng))) == drawn_up_to(rng_state(*old(rng)), last),
        value <= last,
{
    rng.random_range(..=last)
}

/// `SliceRandom::shuffle`: the items are reordered, and their order and the next
/// state follow from the state and the items.
#[verifier::external_body]
pub(crate) fn shuffle(rng: &mut StdRng, items: &mut Vec<usize>)
    ensures
        (final(items)@, rng_state(*final(rng))) == shuffled(rng_state(*old(rng)), old(items)@),
        final(items)@.to_multiset() == old(items)@.to_multiset(),
{
    items.shuffle(rng)
}

} // verus!
