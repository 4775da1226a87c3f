//! Random numbers, from the `rand` crate.
use vstd::prelude::*;
use rand::rngs::ThreadRng;
use rand::Rng;

verus! {

#[verifier::external_type_specification]
#[verifier::external_body]
pub struct ExThreadRng(rand::rngs::ThreadRng);

/// `rand::rng` (formerly `rand::thread_rng`): a handle to the thread-local
/// generator.
#[verifier::external_body]
pub(crate) fn thread_rng() -> (r: ThreadRng) {
    rand::rng()
}

/// `Rng::random_range` over `lo..=hi`: a value in that range, which must not
/// be empty.
#[verifier::external_body]
pub(crate) fn random_range_i32(rng: &mut ThreadRng, lo: i32, hi: i32) -> (r: i32)
    requires
        lo <= hi,
    ensures
        lo <= r <= hi,
{
    rng.random_range(lo..=hi)
}

/// `rand::random::<u8>`: any byte.
#[verifier::external_body]
pub(crate) fn random_u8() -> (r: u8) {
    rand::random::<u8>()
}

} // verus!
