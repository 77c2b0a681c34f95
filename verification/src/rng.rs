//! The random numbers that the maze and the tank placement draw.
use vstd::prelude::*;
use rand::rngs::ThreadRng;
use rand::Rng;

verus! {

/// rand's thread-local generator, carried through without looking inside.
#[verifier::external_type_specification]
#[verifier::external_body]
pub struct ExThreadRng(ThreadRng);

/// `Rng::gen_range` on the range `0..n`. rand documents that the value is
/// drawn from the range and that an empty range panics, so `n > 0` is
/// required and the result is below `n`; which value comes out is chance and
/// is not stated.
#[verifier::external_body]
pub(crate) fn random_below(rng: &mut ThreadRng, n: usize) -> (r: usize)
    requires
        n > 0,
    ensures
        r < n,
{
    rng.gen_range(0..n)
}

/// `Rng::gen` for a `bool`: a fair coin (rand's `Standard` distribution
/// tests the sign bit of a fresh `u32`). The result is chance: nothing is
/// stated of it.
#[verifier::external_body]
pub(crate) fn random_flag(rng: &mut ThreadRng) -> bool {
    rng.gen::<bool>()
}

} // verus!
