//! The pseudo-random source of one render call: a splitmix64 generator,
//! seeded from the caller's 32-bit seed, keys a xoroshiro128+ generator.
use vstd::prelude::*;
use xorshift::{Rand, Rng, SeedableRng, SplitMix64, Xoroshiro128};

verus! {

#[verifier::external_type_specification]
#[verifier::external_body]
pub struct ExSplitMix64(SplitMix64);

#[verifier::external_type_specification]
#[verifier::external_body]
pub struct ExXoroshiro128(Xoroshiro128);

/// Relies on `SeedableRng::<u64>::from_seed` of xorshift's `SplitMix64`,
/// which makes a splitmix64 generator whose state is the seed.
#[verifier::external_body]
fn split_mix(seed: u64) -> (r: SplitMix64) {
    <SplitMix64 as SeedableRng<u64>>::from_seed(seed)
}

/// Relies on `Rand::rand` of xorshift's `Xoroshiro128`, which keys a
/// xoroshiro128+ generator with two outputs of the generator it is given.
#[verifier::external_body]
fn xoroshiro_keyed_by(sm: &mut SplitMix64) -> (r: Xoroshiro128) {
    <Xoroshiro128 as Rand>::rand(sm)
}

/// Relies on `Rng::next_u32` of xorshift's `Xoroshiro128`: the low half of
/// the generator's next output. Nothing is assumed of the value.
#[verifier::external_body]
pub(crate) fn next_u32(rng: &mut Xoroshiro128) -> (r: u32) {
    rng.next_u32()
}

/// The generator of one render call for `seed`.
pub(crate) fn seeded_generator(seed: u32) -> Xoroshiro128 {
    let mut sm = split_mix(seed as u64);
    xoroshiro_keyed_by(&mut sm)
}

} // verus!
