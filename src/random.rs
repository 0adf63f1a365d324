use rand::seq::SliceRandom;
use rand::Rng;
use vstd::prelude::*;

verus! {

/// Relies on rand's `Rng::gen_range` on the thread-local generator: a value
/// of the half-open range `lo..hi`, which must not be empty.
#[verifier::external_body]
pub(crate) fn random_in(lo: i32, hi: i32) -> (r: i32)
    requires
        lo < hi,
    ensures
        lo <= r < hi,
{
    rand::thread_rng().gen_range(lo..hi)
}

/// Relies on rand's `Rng::gen_ratio` on the thread-local generator: `true`
/// with chance `numerator / denominator`: always `true` when they are equal,
/// always `false` when the numerator is zero.
#[verifier::external_body]
pub(crate) fn random_ratio(numerator: u32, denominator: u32) -> (r: bool)
    requires
        0 < denominator,
        numerator <= denominator,
    ensures
        r || numerator < denominator,
        !r || numerator > 0,
{
    rand::thread_rng().gen_ratio(numerator, denominator)
}

/// Relies on rand's `SliceRandom::choose` on the thread-local generator: one
/// of the four values, each equally likely.
#[verifier::external_body]
pub(crate) fn pick_one(values: &[usize; 4]) -> (r: usize)
    ensures
        r == values@[0] || r == values@[1] || r == values@[2] || r == values@[3],
{
    *values.choose(&mut rand::thread_rng()).unwrap()
}

} // verus!
