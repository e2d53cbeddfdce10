//! Random draws, from the generator of the `rand` crate that belongs to
//! the thread.
//!
//! Nothing is known of a draw but its range: two draws may differ whatever
//! came before them.

use rand::rngs::ThreadRng;
use rand::Rng;
use vstd::prelude::*;

verus! {

/// `rand::rngs::ThreadRng`, the generator of random numbers of a thread.
/// Nothing is known of a value of it.
#[verifier::external_type_specification]
#[verifier::external_body]
pub struct ExThreadRng(ThreadRng);

/// `Rng::gen_range` on the range from 0 up to `n`, without `n`: some
/// number of that range. The range must not be empty.
#[verifier::external_body]
pub(crate) fn draw_below(rng: &mut ThreadRng, n: u64) -> (d: u64)
    requires
        n > 0,
    ensures
        d < n,
{
    rng.gen_range(0..n)
}

/// `Rng::gen_ratio`: `true` or `false`, and always `true` where the two
/// numbers are equal, always `false` where the first is 0. The second must
/// not be 0 nor less than the first.
#[verifier::external_body]
pub(crate) fn draw_ratio(rng: &mut ThreadRng, numerator: u32, denominator: u32) -> (b: bool)
    requires
        0 < denominator,
        numerator <= denominator,
    ensures
        numerator == denominator ==> b,
        numerator == 0 ==> !b,
{
    rng.gen_ratio(numerator, denominator)
}

/// `Rng::gen` for a `u32`: some number.
#[verifier::external_body]
pub(crate) fn draw_u32(rng: &mut ThreadRng) -> u32 {
    rng.gen()
}

} // verus!
