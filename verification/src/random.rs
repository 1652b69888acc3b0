//! The seeded random source used by maze generation. A ChaCha8 generator
//! is fully determined by its seed and the draws made from it so far; the
//! generator keeps that record of draws as ghost state, so that what is
//! drawn can be stated as a function of the seed and the draws before it.
use vstd::prelude::*;
use rand::Rng;
use rand::SeedableRng;
use rand_chacha::ChaCha8Rng;

verus! {

/// The ChaCha8 generator of `rand_chacha`, carried through maze generation.
#[verifier::external_type_specification]
#[verifier::external_body]
pub struct ExChaCha8Rng(rand_chacha::ChaCha8Rng);

/// The record of a draw of a number below `n`. A draw is recorded as
/// `(0, n, 0)` for a number below `n` and `(1, numerator, denominator)` for
/// a yes/no with that chance.
pub open spec fn below_draw(n: u64) -> (u8, u64, u64) {
    (0u8, n, 0u64)
}

/// The record of a yes/no draw with chance `numerator / denominator`.
pub open spec fn ratio_draw(numerator: u32, denominator: u32) -> (u8, u64, u64) {
    (1u8, numerator as u64, denominator as u64)
}

/// The number `Rng::gen_range(0..n)` on `u64` gives from a ChaCha8
/// generator seeded by `ChaCha8Rng::seed_from_u64(seed)` that has already
/// made the draws `prior`.
pub uninterp spec fn chacha8_below(seed: u64, prior: Seq<(u8, u64, u64)>, n: u64) -> u64;

/// The answer `Rng::gen_ratio(numerator, denominator)` gives from a ChaCha8
/// generator seeded by `ChaCha8Rng::seed_from_u64(seed)` that has already
/// made the draws `prior`.
pub uninterp spec fn chacha8_ratio(seed: u64, prior: Seq<(u8, u64, u64)>, numerator: u32, denominator: u32) -> bool;

/// A ChaCha8 generator with the seed it was made from and the draws made
/// from it since, in order.
pub struct SeededRng {
    rng: ChaCha8Rng,
    seed: Ghost<u64>,
    draws: Ghost<Seq<(u8, u64, u64)>>,
}

impl SeededRng {
    /// The seed the generator was made from.
    pub closed spec fn seed(&self) -> u64 {
        self.seed@
    }

    /// The draws made from the generator so far, oldest first.
    pub closed spec fn draws(&self) -> Seq<(u8, u64, u64)> {
        self.draws@
    }

    /// A generator seeded with `seed`, no draws made yet.
    pub fn new(seed: u64) -> (r: SeededRng)
        ensures
            r.seed() == seed,
            r.draws() == Seq::<(u8, u64, u64)>::empty(),
    {
        SeededRng { rng: seeded_rng(seed), seed: Ghost(seed), draws: Ghost(Seq::empty()) }
    }
}

/// Calls `ChaCha8Rng::seed_from_u64`. The generator's state is opaque; it
/// is tied to `seed` by the draws stated of `SeededRng`, which alone holds
/// what this returns.
#[verifier::external_body]
fn seeded_rng(seed: u64) -> (rng: ChaCha8Rng) {
    ChaCha8Rng::seed_from_u64(seed)
}

/// Calls `Rng::gen_range(0..n)` on `u64`, which panics on an empty range,
/// so `n > 0` is required. The value lies in `0..n` and is the one the
/// generator's seed and earlier draws determine (`chacha8_below`); the draw
/// is added to the record.
#[verifier::external_body]
pub(crate) fn random_below(rng: &mut SeededRng, n: u64) -> (r: u64)
    requires
        n > 0,
    ensures
        r < n,
        r == chacha8_below(old(rng).seed(), old(rng).draws(), n),
        final(rng).seed() == old(rng).seed(),
        final(rng).draws() == old(rng).draws().push(below_draw(n)),
{
    rng.rng.gen_range(0..n)
}

/// Calls `Rng::gen_ratio(numerator, denominator)`: `true` with chance
/// `numerator / denominator`. `rand` panics when `denominator == 0` or
/// `numerator > denominator`. A ratio of 0 never yields `true` and a ratio
/// of 1 always does (`Bernoulli::from_ratio` / `sample`); the answer is the
/// one the generator's seed and earlier draws determine (`chacha8_ratio`),
/// and the draw is added to the record.
#[verifier::external_body]
pub(crate) fn random_ratio(rng: &mut SeededRng, numerator: u32, denominator: u32) -> (b: bool)
    requires
        0 < denominator,
        numerator <= denominator,
    ensures
        numerator == 0 ==> !b,
        numerator == denominator ==> b,
        b == chacha8_ratio(old(rng).seed(), old(rng).draws(), numerator, denominator),
        final(rng).seed() == old(rng).seed(),
        final(rng).draws() == old(rng).draws().push(ratio_draw(numerator, denominator)),
{
    rng.rng.gen_ratio(numerator, denominator)
}

} // verus!
