//! Random draws from a seeded generator of the `rand` crate.

use rand::rngs::StdRng;
use rand::{RngExt, SeedableRng};
use vstd::prelude::*;

verus! {

/// The standard generator of the `rand` crate.
#[verifier::external_type_specification]
#[verifier::external_body]
pub struct ExStdRng(StdRng);

/// What a generator holds: the words of its state.
pub uninterp spec fn rng_state(rng: StdRng) -> Seq<u32>;

/// The state that `StdRng::seed_from_u64` makes of a seed.
pub uninterp spec fn seeded(seed: u64) -> Seq<u32>;

/// What `random::<u32>()` draws, and the state that it leaves.
pub uninterp spec fn drawn_word(state: Seq<u32>) -> (u32, Seq<u32>);

/// What `random_range` draws from the `usize` range below `bound`, and the state
/// that it leaves.
pub uninterp spec fn drawn_index(state: Seq<u32>, bound: usize) -> (usize, Seq<u32>);

/// What `random_range` draws from the `i8` range from zero below `bound`, and the
/// state that it leaves.
pub uninterp spec fn drawn_offset(state: Seq<u32>, bound: i8) -> (i8, Seq<u32>);

/// What `random_range` draws from the `u32` range from `low` to `high`, and the
/// state that it leaves.
pub uninterp spec fn drawn_count(state: Seq<u32>, low: u32, high: u32) -> (u32, Seq<u32>);

/// `StdRng::seed_from_u64`: the state depends on the seed alone.
#[verifier::external_body]
pub(crate) fn seed_rng(seed: u64) -> (rng: StdRng)
    ensures
        rng_state(rng) == seeded(seed),
{
    StdRng::seed_from_u64(seed)
}

/// `RngExt::random::<u32>`: the word and the next state depend on the state
/// alone.
#[verifier::external_body]
pub(crate) fn draw_word(rng: &mut StdRng) -> (word: u32)
    ensures
        (word, rng_state(*final(rng))) == drawn_word(rng_state(*old(rng))),
{
    rng.random::<u32>()
}

/// `RngExt::random_range` on `usize`: the number is in the range, and it and the
/// next state depend on the state and the range alone.
#[verifier::external_body]
pub(crate) fn draw_index(rng: &mut StdRng, bound: usize) -> (index: usize)
    requires
        bound > 0,
    ensures
        (index, rng_state(*final(rng))) == drawn_index(rng_state(*old(rng)), bound),
        index < bound,
{
    rng.random_range(0..bound)
}

/// `RngExt::random_range` on `i8`: the number is in the range, and it and the
/// next state depend on the state and the range alone.
#[verifier::external_body]
pub(crate) fn draw_offset(rng: &mut StdRng, bound: i8) -> (offset: i8)
    requires
        bound > 0,
    ensures
        (offset, rng_state(*final(rng))) == drawn_offset(rng_state(*old(rng)), bound),
        0 <= offset < bound,
{
    rng.random_range(0..bound)
}

/// `RngExt::random_range` on `u32`: the number is in the range, and it and the
/// next state depend on the state and the range alone.
#[verifier::external_body]
pub(crate) fn draw_count(rng: &mut StdRng, low: u32, high: u32) -> (count: u32)
    requires
        low <= high,
    ensures
        (count, rng_state(*final(rng))) == drawn_count(rng_state(*old(rng)), low, high),
        low <= count <= high,
{
    rng.random_range(low..=high)
}

} // verus!
