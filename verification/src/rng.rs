//! The seeded generator that breaks ties: `rand`'s `StdRng`, behind contracts that name
//! what it returns.

use rand::rngs::StdRng;
use rand::{Rng, SeedableRng};
use vstd::prelude::*;

verus! {

/// `rand`'s `StdRng`. Nothing is known of a value of it but what the contracts below
/// say of `rng_state`.
#[verifier::external_type_specification]
#[verifier::external_body]
pub struct ExStdRng(StdRng);

/// The state of a generator: all that the numbers it will give depend on.
pub uninterp spec fn rng_state(rng: StdRng) -> Seq<u8>;

/// The state of the generator that `StdRng::seed_from_u64` makes from `seed`.
pub uninterp spec fn seeded_state(seed: u64) -> Seq<u8>;

/// What `gen_range(0..bound)`, asked for a `u64`, does to a generator in state `state`:
/// the number it returns, and the state in which it leaves the generator.
pub uninterp spec fn draw_below(state: Seq<u8>, bound: u64) -> (u64, Seq<u8>);

/// Calls `StdRng::seed_from_u64`. Believed: the state of the new generator depends on
/// the seed alone.
#[verifier::external_body]
pub(crate) fn seeded_rng(seed: u64) -> (rng: StdRng)
    ensures
        rng_state(rng) == seeded_state(seed),
{
    StdRng::seed_from_u64(seed)
}

/// `StdRng`'s `clone`. Believed: the copy is in the state of the generator it was made
/// from.
pub assume_specification[ <StdRng as Clone>::clone ](rng: &StdRng) -> (copy: StdRng)
    ensures
        rng_state(copy) == rng_state(*rng),
;

/// Calls `Rng::gen_range` with the range `0..bound`, on a `u64`. Believed: the number
/// returned lies in the range, and both it and the state in which the generator is left
/// depend on nothing but the state in which the generator was and on `bound`.
#[verifier::external_body]
pub(crate) fn next_below(rng: &mut StdRng, bound: usize) -> (drawn: usize)
    requires
        bound > 0,
    ensures
        drawn < bound,
        drawn == draw_below(rng_state(*old(rng)), bound as u64).0,
        rng_state(*final(rng)) == draw_below(rng_state(*old(rng)), bound as u64).1,
{
    rng.gen_range(0..bound as u64) as usize
}

} // verus!
