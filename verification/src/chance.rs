//! The random draws. Nothing here is proved: each contract states what the
//! generator's documentation promises of every outcome.

use rand::distributions::Bernoulli;
use rand::distributions::Distribution;
use rand::rngs::StdRng;
use rand::Rng;
use vstd::prelude::*;

verus! {

/// `rand::rngs::StdRng`, the generator, carried through unopened.
#[verifier::external_type_specification]
#[verifier::external_body]
pub struct ExStdRng(rand::rngs::StdRng);

/// `rand::distributions::Bernoulli`, the coin, carried through unopened.
#[verifier::external_type_specification]
#[verifier::external_body]
pub struct ExBernoulli(rand::distributions::Bernoulli);

/// One draw of `Bernoulli::sample`. Either value may come back, so nothing
/// is promised of it.
#[verifier::external_body]
pub(crate) fn flip(coin: &Bernoulli, rng: &mut StdRng) -> (heads: bool) {
    coin.sample(rng)
}

/// One draw of `Rng::gen_range` on the half-open range from zero to `n`.
/// The range must not be empty; the value drawn lies in it.
#[verifier::external_body]
pub(crate) fn pick_below(rng: &mut StdRng, n: usize) -> (k: usize)
    requires
        n > 0,
    ensures
        k < n,
{
    rng.gen_range(0..n)
}

} // verus!
