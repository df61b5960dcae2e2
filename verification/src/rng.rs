use vstd::prelude::*;

verus! {

#[verifier::external_type_specification]
#[verifier::external_body]
pub struct ExStdRng(rand::rngs::StdRng);

/// Relies on rand's `Rng::gen_range` over the half-open range `lo..hi`: it
/// returns a uniformly distributed value of that range, and panics only when
/// the range is empty.
#[verifier::external_body]
pub(crate) fn rand_range(rng: &mut rand::rngs::StdRng, lo: usize, hi: usize) -> (r: usize)
    requires
        lo < hi,
    ensures
        lo <= r < hi,
{
    rand::Rng::gen_range(rng, lo..hi)
}

/// Relies on rand's `Rng::gen_ratio`: it returns true with probability
/// `num / den`, and panics only when `den` is zero or `num` exceeds `den`.
/// Nothing is promised of any single outcome.
#[verifier::external_body]
pub(crate) fn rand_ratio(rng: &mut rand::rngs::StdRng, num: u32, den: u32) -> (r: bool)
    requires
        0 < den,
        num <= den,
{
    rand::Rng::gen_ratio(rng, num, den)
}

} // verus!
