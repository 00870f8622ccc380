//! The seeded pseudo-random generator behind the tile spawns.
//!
//! The generator is `rand`'s `StdRng`. Nothing is proved of it here: this
//! module names the words it hands out and states, without proof, how its
//! operations act on that stream of words. Everything else in the crate is
//! proved from these statements.

use vstd::prelude::*;
use rand::rngs::StdRng;
use rand::RngCore;
use rand::SeedableRng;

verus! {

/// `rand::rngs::StdRng`, whose inside the verifier does not see.
#[verifier::external_type_specification]
#[verifier::external_body]
pub struct ExStdRng(rand::rngs::StdRng);

/// The 32-bit word that a generator in state `rng` hands out at its `k`-th
/// draw from now (`k = 0` is the next draw), when words are drawn one by one
/// with `next_u32`. The generator is a deterministic stream cipher: its
/// state fixes every word that it will ever hand out.
pub uninterp spec fn upcoming_word(rng: StdRng, k: nat) -> u32;

/// The `k`-th 32-bit word handed out by a generator that
/// `StdRng::seed_from_u64` made from `seed`. It depends on the seed alone,
/// for the version of `rand` that the crate is built with.
pub uninterp spec fn seeded_word(seed: u64, k: nat) -> u32;

/// Every word that a generator in state `rng` will hand out, by draw.
pub open spec fn stream(rng: StdRng) -> spec_fn(nat) -> u32 {
    |k: nat| upcoming_word(rng, k)
}

/// Every word that a generator freshly seeded with `seed` hands out, by draw.
pub open spec fn seeded_stream(seed: u64) -> spec_fn(nat) -> u32 {
    |k: nat| seeded_word(seed, k)
}

/// The stream `words` without its first `n` words.
pub open spec fn skipped(words: spec_fn(nat) -> u32, n: nat) -> spec_fn(nat) -> u32 {
    |k: nat| words(k + n)
}

/// Calls `StdRng::seed_from_u64`. Trusted: the words of the new generator
/// depend on the seed alone.
#[verifier::external_body]
pub(crate) fn seeded_rng(seed: u64) -> (rng: StdRng)
    ensures
        forall|k: nat| #[trigger] upcoming_word(rng, k) == seeded_word(seed, k),
{
    StdRng::seed_from_u64(seed)
}

/// Calls `StdRng::next_u32`. Trusted: the call hands out the generator's next
/// word and leaves the generator with the words that followed it.
#[verifier::external_body]
pub(crate) fn draw_word(rng: &mut StdRng) -> (word: u32)
    ensures
        word == upcoming_word(*old(rng), 0),
        forall|k: nat| #[trigger] upcoming_word(*final(rng), k) == upcoming_word(*old(rng), k + 1),
{
    rng.next_u32()
}

/// `StdRng::clone`. Trusted: the copy hands out the same words as the
/// generator it was made from.
pub assume_specification[ <StdRng as Clone>::clone ](rng: &StdRng) -> (copy: StdRng)
    ensures
        forall|k: nat| #[trigger] upcoming_word(copy, k) == upcoming_word(*rng, k),
;

/// Calls `rand::thread_rng().next_u64()`: a seed from the thread's
/// generator, which the operating system seeds. Nothing is claimed of the
/// value. `rand` panics here if the operating system cannot seed the
/// generator.
#[verifier::external_body]
pub(crate) fn entropy_seed() -> (seed: u64) {
    rand::thread_rng().next_u64()
}

} // verus!
