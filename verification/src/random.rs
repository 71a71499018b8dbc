//! Random numbers.
use vstd::prelude::*;

verus! {

/// The generator that a replica draws its election timeouts from.
#[verifier::external_type_specification]
#[verifier::external_body]
pub struct ExStdRng(rand::rngs::StdRng);

/// `rand::SeedableRng::seed_from_u64` for `StdRng`: a generator made from a
/// seed. Nothing is claimed of the numbers it will give.
#[verifier::external_body]
pub(crate) fn seeded(seed: u64) -> rand::rngs::StdRng {
    rand::SeedableRng::seed_from_u64(seed)
}

/// `rand::Rng::gen_range` on a half-open range: a number in the range. Which
/// one is not claimed.
#[verifier::external_body]
pub(crate) fn draw_between(rng: &mut rand::rngs::StdRng, lo: u64, hi: u64) -> (r: u64)
    requires
        lo < hi,
    ensures
        lo <= r < hi,
{
    rand::Rng::gen_range(rng, lo..hi)
}

/// `rand::Rng::gen_ratio`: true with a chance of `numerator` in `denominator`;
/// never where that is none, always where it is all.
#[verifier::external_body]
pub(crate) fn draw_ratio(rng: &mut rand::rngs::StdRng, numerator: u32, denominator: u32) -> (r: bool)
    requires
        numerator <= denominator,
        denominator > 0,
    ensures
        numerator == 0 ==> !r,
        numerator == denominator ==> r,
{
    rand::Rng::gen_ratio(rng, numerator, denominator)
}

/// `rand::random` of a `bool`. Nothing is claimed of the outcome.
#[verifier::external_body]
pub(crate) fn coin() -> bool {
    rand::random::<bool>()
}

/// `rand::seq::SliceRandom::shuffle` with the thread's generator: the same
/// numbers in some order. Which order is not claimed.
#[verifier::external_body]
pub(crate) fn shuffled(v: Vec<u64>) -> (r: Vec<u64>)
    ensures
        r@.to_multiset() == v@.to_multiset(),
{
    let mut r = v;
    rand::seq::SliceRandom::shuffle(r.as_mut_slice(), &mut rand::thread_rng());
    r
}

} // verus!
