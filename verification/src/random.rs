//! Random choices, drawn from a ChaCha8 generator of the `rand_chacha` crate.
use rand::Rng;
use rand_chacha::ChaCha8Rng;
use vstd::prelude::*;

verus! {

/// The ChaCha8 generator of `rand_chacha`, declared so that verified code can carry
/// it to the draws below; nothing inside it is visible.
#[verifier::external_type_specification]
#[verifier::external_body]
pub struct ExChaCha8Rng(ChaCha8Rng);

/// Draws a number in `0..n` with `rand::Rng::gen_range`.
/// Claimed: the result lies below `n` (the range is half-open); which number comes
/// out is left unsaid, it depends on the generator's state.
#[verifier::external_body]
pub(crate) fn random_below(rng: &mut ChaCha8Rng, n: usize) -> (r: usize)
    requires
        n > 0,
    ensures
        r < n,
{
    rng.gen_range(0..n)
}

/// Draws a boolean that is `true` with probability `numerator / denominator`, with
/// `rand::Rng::gen_ratio`, which panics when `denominator` is 0 or below `numerator`.
/// Nothing is claimed of the result: it depends on the generator's state.
#[verifier::external_body]
pub(crate) fn random_ratio(rng: &mut ChaCha8Rng, numerator: u32, denominator: u32) -> bool
    requires
        0 < denominator,
        numerator <= denominator,
{
    rng.gen_ratio(numerator, denominator)
}

} // verus!
