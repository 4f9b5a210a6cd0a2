use rand::rngs::StdRng;
use rand::Rng;
use vstd::prelude::*;

verus! {

/// The generator every randomised operation of this crate draws from,
/// `rand::rngs::StdRng`. Its state is not modelled: nothing is known of the
/// numbers that it will give.
#[verifier::external_type_specification]
#[verifier::external_body]
pub struct ExStdRng(StdRng);

/// Calls `rand::Rng::gen_range` on the half-open range `low..high`.
///
/// Assumed, not proved: the call panics on an empty range, which `requires`
/// excludes, and otherwise returns some value of the range. Which one is
/// not stated.
#[verifier::external_body]
pub(crate) fn draw_index(rng: &mut StdRng, low: usize, high: usize) -> (r: usize)
    requires
        low < high,
    ensures
        low <= r < high,
{
    rng.gen_range(low..high)
}

/// Calls `rand::Rng::gen_ratio`, a Bernoulli draw that is `true` with
/// probability `numerator / denominator`.
///
/// Assumed, not proved: the call panics when `denominator` is zero or
/// smaller than `numerator`, which `requires` excludes; it always returns
/// `true` when the two are equal and always `false` when `numerator` is
/// zero. Nothing else is stated of the outcome.
#[verifier::external_body]
pub(crate) fn draw_ratio(rng: &mut StdRng, numerator: u32, denominator: u32) -> (r: bool)
    requires
        0 < denominator,
        numerator <= denominator,
    ensures
        numerator == denominator ==> r,
        numerator == 0 ==> !r,
{
    rng.gen_ratio(numerator, denominator)
}

/// Calls `rand::Rng::gen` for a `u64`, which draws from all 64-bit numbers.
/// Nothing is stated of the outcome.
#[verifier::external_body]
pub(crate) fn draw_u64(rng: &mut StdRng) -> (r: u64) {
    rng.gen()
}

} // verus!
