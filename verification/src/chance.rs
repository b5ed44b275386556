//! The random number generator, and what of it the library relies on.
//!
//! A generator is its state and nothing else: the same state yields the same
//! numbers. That is what lets a seed replay an animation.

use rand::rngs::{StdRng, SysRng};
use rand::RngExt;
use rand::SeedableRng;
use vstd::prelude::*;

verus! {

/// `rand::rngs::StdRng`.
#[verifier::external_type_specification]
#[verifier::external_body]
pub struct ExStdRng(StdRng);

/// The internal state of a generator: key, stream, position and buffered words.
pub uninterp spec fn rng_state(rng: StdRng) -> Seq<u8>;

/// The state `StdRng::seed_from_u64` starts from.
pub uninterp spec fn seed_state(seed: u64) -> Seq<u8>;

/// What `RngExt::random_range(0..n)` returns in a given state, and the state it
/// leaves.
pub uninterp spec fn index_draw(state: Seq<u8>, n: usize) -> (usize, Seq<u8>);

/// `StdRng::seed_from_u64`: a generator whose state follows from the seed alone.
#[verifier::external_body]
pub(crate) fn seeded(seed: u64) -> (rng: StdRng)
    ensures
        rng_state(rng) == seed_state(seed),
{
    StdRng::seed_from_u64(seed)
}

/// `StdRng::try_from_rng` on `SysRng`: a fresh seed from the operating system,
/// or `None` where the system gives none. Nothing is known of the state the
/// generator starts from, nor of when the system gives a seed.
#[verifier::external_body]
pub(crate) fn unseeded() -> (rng: Option<StdRng>) {
    StdRng::try_from_rng(&mut SysRng).ok()
}

/// `RngExt::random_range(0..n)`: an index below `n`, decided by the state alone.
/// The range must not be empty.
#[verifier::external_body]
pub(crate) fn index_below(rng: &mut StdRng, n: usize) -> (i: usize)
    requires
        n > 0,
    ensures
        i < n,
        (i, rng_state(*final(rng))) == index_draw(rng_state(*old(rng)), n),
{
    rng.random_range(0..n)
}

} // verus!
