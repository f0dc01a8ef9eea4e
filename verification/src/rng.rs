//! Trusted interface to the random-number crates used to place mines:
//! `rand_xoshiro`'s Xoshiro256++ generator, seeded either explicitly or from
//! the operating system's entropy source.

use vstd::prelude::*;
use rand::{Rng, RngCore};
use rand_xoshiro::Xoshiro256PlusPlus;

verus! {

#[verifier::external_type_specification]
#[verifier::external_body]
pub struct ExXoshiro(Xoshiro256PlusPlus);

/// Relies on `rand::rngs::OsRng::try_fill_bytes`: bytes from the operating
/// system's entropy source, or `None` when the source fails.  Nothing is
/// promised of the bytes.
#[verifier::external_body]
pub fn os_seed() -> Option<[u8; 32]> {
    let mut s = [0u8; 32];
    match rand::rngs::OsRng.try_fill_bytes(&mut s) {
        Ok(()) => Some(s),
        Err(_) => None,
    }
}

/// Relies on `Xoshiro256PlusPlus::from_seed` (`rand_core::SeedableRng`):
/// builds the generator state from a seed.
#[verifier::external_body]
pub fn xo_from_seed(seed: [u8; 32]) -> Xoshiro256PlusPlus {
    <Xoshiro256PlusPlus as rand::SeedableRng>::from_seed(seed)
}

/// Relies on `Xoshiro256PlusPlus::fill_bytes` (`rand_core::RngCore`): the
/// generator's next bytes; it never fails.  Nothing is promised of the bytes.
#[verifier::external_body]
pub fn xo_next_seed(rng: &mut Xoshiro256PlusPlus) -> [u8; 32] {
    let mut s = [0u8; 32];
    rng.fill_bytes(&mut s);
    s
}

/// Relies on `rand::Rng::gen_range`: a value drawn from `0..bound`, which is
/// non-empty, so the call cannot panic and the result is below the bound.
#[verifier::external_body]
pub fn xo_below(rng: &mut Xoshiro256PlusPlus, bound: usize) -> (r: usize)
    requires
        bound >= 1,
    ensures
        r < bound,
{
    rng.gen_range(0..bound)
}

} // verus!
