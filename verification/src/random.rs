//! Randomness: the generator of the `rand` crate, and the three draws that
//! the library makes from it. What is stated of them here is believed, not
//! proved.

use vstd::prelude::*;
use rand::rngs::StdRng;
use rand::seq::SliceRandom;
use rand::Rng;

verus! {

/// The random number generator of the `rand` crate that the library draws
/// from. Nothing is known of its state.
#[verifier::external_type_specification]
#[verifier::external_body]
pub struct ExStdRng(rand::rngs::StdRng);

/// `Rng::gen_ratio` of the `rand` crate: a coin that shows `true` with a
/// chance of `numerator` in `denominator`. Only the two sure cases are
/// stated: it is `true` when the two are equal and `false` when the
/// numerator is zero. The call panics on a zero denominator and on a
/// numerator above the denominator, which are excluded.
#[verifier::external_body]
pub(crate) fn rng_ratio(rng: &mut StdRng, numerator: u32, denominator: u32) -> (r: bool)
    requires
        denominator > 0,
        numerator <= denominator,
    ensures
        numerator == denominator ==> r,
        numerator == 0 ==> !r,
{
    rng.gen_ratio(numerator, denominator)
}

/// `Rng::gen_range` of the `rand` crate on the range from zero up to, and
/// without, `bound`: the number drawn lies in that range. The call panics on
/// an empty range, which is excluded.
#[verifier::external_body]
pub(crate) fn rng_below(rng: &mut StdRng, bound: usize) -> (r: usize)
    requires
        bound > 0,
    ensures
        r < bound,
{
    rng.gen_range(0..bound)
}

/// `SliceRandom::shuffle` of the `rand` crate: it swaps elements of the
/// slice among themselves, so the list holds the same elements afterwards,
/// each as often as before, in some order.
#[verifier::external_body]
pub(crate) fn rng_shuffle(rng: &mut StdRng, cells: &mut Vec<i32>)
    ensures
        final(cells)@.to_multiset() == old(cells)@.to_multiset(),
{
    cells.shuffle(rng)
}

} // verus!
