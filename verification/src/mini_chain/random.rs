//! Draws from a random number generator.
use vstd::prelude::*;
use rand::Rng;
use rand::distributions::Standard;
use rand::rngs::StdRng;

verus! {

#[verifier::external_type_specification]
#[verifier::external_body]
pub struct ExStdRng(rand::rngs::StdRng);

/// Calls `Rng::gen::<u8>`; any value may come back.
#[verifier::external_body]
pub(crate) fn random_u8(rng: &mut StdRng) -> (r: u8) {
    rng.gen()
}

/// Calls `Rng::gen::<u16>`; any value may come back.
#[verifier::external_body]
pub(crate) fn random_u16(rng: &mut StdRng) -> (r: u16) {
    rng.gen()
}

/// Calls `Rng::gen::<u32>`; any value may come back.
#[verifier::external_body]
pub(crate) fn random_u32(rng: &mut StdRng) -> (r: u32) {
    rng.gen()
}

/// Calls `Rng::gen::<u64>`; any value may come back.
#[verifier::external_body]
pub(crate) fn random_u64(rng: &mut StdRng) -> (r: u64) {
    rng.gen()
}

/// Calls `Rng::gen::<u128>`; any value may come back.
#[verifier::external_body]
pub(crate) fn random_u128(rng: &mut StdRng) -> (r: u128) {
    rng.gen()
}

/// Calls `Rng::gen_range(low..high)`, which panics on an empty range and
/// otherwise returns a value of the half-open range.
#[verifier::external_body]
pub(crate) fn random_in_range(rng: &mut StdRng, low: u64, high: u64) -> (r: u64)
    requires
        low < high,
    ensures
        low <= r < high,
{
    rng.gen_range(low..high)
}

/// Calls `Rng::sample_iter(Standard)` and keeps the first `len` bytes:
/// exactly `len` bytes come back, of any value.
#[verifier::external_body]
pub(crate) fn random_bytes(rng: &mut StdRng, len: usize) -> (r: Vec<u8>)
    ensures
        r@.len() == len,
{
    rng.sample_iter(Standard).take(len).collect()
}

} // verus!
