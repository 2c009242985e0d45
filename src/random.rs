use vstd::prelude::*;
use rand::rngs::ThreadRng;
use rand::Rng;

verus! {

#[verifier::external_type_specification]
#[verifier::external_body]
pub struct ExThreadRng(rand::rngs::ThreadRng);

/// Relies on `rand::thread_rng`: a handle to this thread's random generator.
#[verifier::external_body]
pub(crate) fn thread_rng() -> ThreadRng {
    rand::thread_rng()
}

/// Relies on `rand::Rng::gen_range`: a value drawn from `0..n`, which must not
/// be empty (it panics on an empty range).
#[verifier::external_body]
pub(crate) fn below(rng: &mut ThreadRng, n: usize) -> (r: usize)
    requires
        n > 0,
    ensures
        r < n,
{
    rng.gen_range(0..n)
}

/// Relies on `rand::Rng::gen_ratio`: `true` with chance `numerator / denominator`;
/// never when `numerator` is 0, always when it equals `denominator`. It panics
/// when `denominator` is 0 or below `numerator`.
#[verifier::external_body]
pub(crate) fn chance(rng: &mut ThreadRng, numerator: u32, denominator: u32) -> (r: bool)
    requires
        0 < denominator,
        numerator <= denominator,
    ensures
        numerator == 0 ==> !r,
        numerator == denominator ==> r,
{
    rng.gen_ratio(numerator, denominator)
}

/// Relies on `rand::random`: a `usize` from this thread's generator; nothing
/// is known of its value.
#[verifier::external_body]
pub(crate) fn random_usize() -> usize {
    rand::random::<usize>()
}

} // verus!
