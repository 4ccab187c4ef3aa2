//! The seeded random generator that dungeon generation and the simulation draw
//! from.
//!
//! `ChaCha8Rng` comes from `rand_chacha` and its draws from `rand::Rng`. A
//! generator made by `seed_from_u64(seed)` is reproducible: what it gives next
//! depends on the seed and on the calls made on it so far, nothing else.
//! `SeededRng` keeps that seed and that list of calls beside the generator, as
//! its view, and each draw is named as a function of that view.

use rand::Rng;
use rand::SeedableRng;
use rand_chacha::ChaCha8Rng;
use vstd::prelude::*;

verus! {

/// The ChaCha8 generator of `rand_chacha`, carried through opaquely.
#[verifier::external_type_specification]
#[verifier::external_body]
pub struct ExChaCha8Rng(ChaCha8Rng);

/// A call made on a generator: `(0, low, high)` for `gen_range(low..=high)` on
/// `i32`, `(1, numerator, denominator)` for `gen_ratio(numerator, denominator)`.
pub type RngCall = (int, int, int);

/// The value `gen_range(low..=high)` gives on a `ChaCha8Rng` made by
/// `seed_from_u64(g.0)` on which the calls `g.1` were made before.
pub uninterp spec fn chacha_range_draw(g: (u64, Seq<RngCall>), low: i32, high: i32) -> i32;

/// The value `gen_ratio(numerator, denominator)` gives on a `ChaCha8Rng` made
/// by `seed_from_u64(g.0)` on which the calls `g.1` were made before.
pub uninterp spec fn chacha_ratio_draw(g: (u64, Seq<RngCall>), numerator: u32, denominator: u32) -> bool;

/// The generator state after `gen_range(low..=high)` on `g`.
pub open spec fn after_range(g: (u64, Seq<RngCall>), low: i32, high: i32) -> (u64, Seq<RngCall>) {
    (g.0, g.1.push((0, low as int, high as int)))
}

/// The generator state after `gen_ratio(numerator, denominator)` on `g`.
pub open spec fn after_ratio(g: (u64, Seq<RngCall>), numerator: u32, denominator: u32) -> (u64, Seq<RngCall>) {
    (g.0, g.1.push((1, numerator as int, denominator as int)))
}

/// A ChaCha8 generator made from a `u64` seed, with the seed and the calls made
/// on it so far. Only `SeededRng::new` makes one and only the draws below touch
/// the generator, so the generator is always the one `seed_from_u64(seed)`
/// gives after exactly those calls.
pub struct SeededRng {
    rng: ChaCha8Rng,
    seed: Ghost<u64>,
    calls: Ghost<Seq<RngCall>>,
}

impl View for SeededRng {
    type V = (u64, Seq<RngCall>);

    closed spec fn view(&self) -> (u64, Seq<RngCall>) {
        (self.seed@, self.calls@)
    }
}

/// Calls `ChaCha8Rng::seed_from_u64` (`rand_core::SeedableRng`). Nothing is
/// claimed of the generator itself, whose state is opaque.
#[verifier::external_body]
fn seeded_chacha(seed: u64) -> ChaCha8Rng {
    ChaCha8Rng::seed_from_u64(seed)
}

/// Calls `rand::Rng::gen_range` with the inclusive range `low..=high` on the
/// generator of `rng`. The claims: the result lies in that range; it is the
/// named draw `chacha_range_draw` for the generator's seed and earlier calls;
/// and the call is recorded. An empty range panics and is left out.
#[verifier::external_body]
pub(crate) fn random_through(rng: &mut SeededRng, low: i32, high: i32) -> (r: i32)
    requires
        low <= high,
    ensures
        low <= r <= high,
        r == chacha_range_draw(old(rng)@, low, high),
        final(rng)@ == after_range(old(rng)@, low, high),
{
    rng.rng.gen_range(low..=high)
}

/// Calls `rand::Rng::gen_ratio` on the generator of `rng`, which returns `true`
/// with probability `numerator / denominator`. The claims: a ratio of one
/// always gives `true` and a numerator of zero always `false`, as rand
/// documents; the result is the named draw `chacha_ratio_draw` for the
/// generator's seed and earlier calls; and the call is recorded. A zero
/// denominator or a numerator above it panics and is left out.
#[verifier::external_body]
pub(crate) fn random_ratio(rng: &mut SeededRng, numerator: u32, denominator: u32) -> (r: bool)
    requires
        0 < denominator,
        numerator <= denominator,
    ensures
        numerator == denominator ==> r,
        numerator == 0 ==> !r,
        r == chacha_ratio_draw(old(rng)@, numerator, denominator),
        final(rng)@ == after_ratio(old(rng)@, numerator, denominator),
{
    rng.rng.gen_ratio(numerator, denominator)
}

impl SeededRng {
    /// A generator seeded with `seed`, with no call made on it yet.
    pub fn new(seed: u64) -> (r: Self)
        ensures
            r@ == (seed, Seq::<RngCall>::empty()),
    {
        SeededRng { rng: seeded_chacha(seed), seed: Ghost(seed), calls: Ghost(Seq::empty()) }
    }
}

/// A draw from the half-open range `low..high`. For integers rand samples
/// `low..high` exactly as `low..=high - 1` (`UniformInt::sample_single` checks
/// the range and calls `sample_single_inclusive`), so this is that draw.
pub(crate) fn random_below(rng: &mut SeededRng, low: i32, high: i32) -> (r: i32)
    requires
        low < high,
    ensures
        low <= r < high,
        r == chacha_range_draw(old(rng)@, low, (high - 1) as i32),
        final(rng)@ == after_range(old(rng)@, low, (high - 1) as i32),
{
    random_through(rng, low, high - 1)
}

} // verus!
