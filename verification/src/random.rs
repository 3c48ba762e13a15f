//! The random draws the search makes, each taken from the `rand` crate.
//!
//! Nothing here is proved: every contract states what the source of `rand`
//! shows of the call it wraps, for every outcome of the draw.

use rand::distributions::Distribution;
use rand::distributions::WeightedError;
use rand::distributions::WeightedIndex;
use rand::rngs::ThreadRng;
use rand::seq::IteratorRandom;
use rand::seq::SliceRandom;
use rand::Rng;
use vstd::prelude::*;

verus! {

/// `rand::rngs::ThreadRng`, the handle to the generator of the current thread.
#[verifier::external_type_specification]
#[verifier::external_body]
pub struct ExThreadRng(ThreadRng);

/// `rand::distributions::WeightedError`, the reasons for which a weighted
/// distribution cannot be built.
#[verifier::external_type_specification]
#[verifier::external_body]
pub struct ExWeightedError(WeightedError);

/// A `rand::distributions::WeightedIndex<u128>`: a distribution over the
/// indices of the weights it was built from.
#[verifier::external_body]
pub struct RankSampler {
    inner: WeightedIndex<u128>,
}

/// The weights a sampler was built from, in their order.
pub uninterp spec fn sampler_weights(sampler: RankSampler) -> Seq<u128>;

/// The sum of a sequence of weights.
pub open spec fn weight_sum(weights: Seq<u128>) -> nat
    decreases weights.len(),
{
    if weights.len() == 0 {
        0
    } else {
        weight_sum(weights.drop_last()) + weights.last() as nat
    }
}

/// `rand::thread_rng`: hands out the generator of the current thread.
pub assume_specification[ rand::thread_rng ]() -> (rng: ThreadRng);

/// `Rng::gen_range` on `0..bound`: the draw lies below `bound`. The call
/// panics on an empty range, which the precondition leaves out.
#[verifier::external_body]
pub(crate) fn random_below(rng: &mut ThreadRng, bound: usize) -> (r: usize)
    requires
        bound > 0,
    ensures
        r < bound,
{
    rng.gen_range(0..bound)
}

/// `Rng::gen_ratio`: a Bernoulli trial that succeeds with probability
/// `numerator / denominator`. It never succeeds at a zero numerator and
/// always succeeds when numerator and denominator are equal. The call panics
/// on a zero denominator and on a ratio above one.
#[verifier::external_body]
pub(crate) fn random_ratio(rng: &mut ThreadRng, numerator: u32, denominator: u32) -> (r: bool)
    requires
        denominator > 0,
        numerator <= denominator,
    ensures
        numerator == 0 ==> !r,
        numerator == denominator ==> r,
{
    rng.gen_ratio(numerator, denominator)
}

/// `SliceRandom::shuffle`: reorders the items in place by swaps, so the
/// items afterwards are a rearrangement of the items before.
#[verifier::external_body]
pub(crate) fn shuffle(rng: &mut ThreadRng, items: &mut Vec<usize>)
    ensures
        final(items)@.to_multiset() == old(items)@.to_multiset(),
{
    items.shuffle(rng)
}

/// `IteratorRandom::choose` over the items: one of them, and `None` exactly
/// when there is none.
#[verifier::external_body]
pub(crate) fn choose_one(rng: &mut ThreadRng, items: Vec<usize>) -> (r: Option<usize>)
    ensures
        r is None <==> items@.len() == 0,
        r matches Some(x) ==> items@.contains(x),
{
    items.into_iter().choose(rng)
}

/// `WeightedIndex::new`: fails without weights and when they sum to zero,
/// else keeps the weights. The sum is formed in `u128`, so it has to fit.
#[verifier::external_body]
pub(crate) fn new_sampler(weights: &Vec<u128>) -> (r: Result<RankSampler, WeightedError>)
    requires
        weight_sum(weights@) <= u128::MAX,
    ensures
        match r {
            Ok(sampler) => {
                &&& weights@.len() > 0
                &&& weight_sum(weights@) > 0
                &&& sampler_weights(sampler) == weights@
            },
            Err(_) => weights@.len() == 0 || weight_sum(weights@) == 0,
        },
{
    match WeightedIndex::new(weights) {
        Ok(inner) => Ok(RankSampler { inner }),
        Err(e) => Err(e),
    }
}

/// `WeightedIndex::sample`: the index of one of the weights, never of a
/// weight that is zero.
#[verifier::external_body]
pub(crate) fn sample_rank(rng: &mut ThreadRng, sampler: &RankSampler) -> (r: usize)
    ensures
        r < sampler_weights(*sampler).len(),
        sampler_weights(*sampler)[r as int] > 0,
{
    sampler.inner.sample(rng)
}

} // verus!
