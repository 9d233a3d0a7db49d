use vstd::prelude::*;

use rand::distr::weighted::Error as WeightError;
use rand::distr::weighted::WeightedIndex;
use rand::distr::Distribution;
use rand::rngs::StdRng;
use rand::seq::IndexedRandom;

verus! {

#[verifier::external_type_specification]
#[verifier::external_body]
pub struct ExStdRng(StdRng);

/// A `rand` weighted-index distribution over `u16` weights, held opaque: what it holds
/// is stated only through `weighted_choice_weights`.
#[verifier::external_body]
pub struct WeightedChoice {
    dist: WeightedIndex<u16>,
}

#[verifier::external_type_specification]
#[verifier::external_body]
pub struct ExWeightError(WeightError);

/// The weights that a weighted-index distribution was built from, one per index.
pub uninterp spec fn weighted_choice_weights(dist: WeightedChoice) -> Seq<u16>;

/// The sum of `weights`.
pub open spec fn weight_sum(weights: Seq<u16>) -> int
    decreases weights.len(),
{
    if weights.len() == 0 {
        0
    } else {
        weight_sum(weights.drop_last()) + weights.last()
    }
}

/// `rand`'s `WeightedIndex::new` on `u16` weights. Its source fails on an empty list
/// (`InvalidInput`), on a running sum past `u16::MAX` (`Overflow`) and on a zero total
/// (`InsufficientNonZero`), and otherwise keeps the weights it was given; the contract
/// says exactly that. Which error variant comes out is not stated.
#[verifier::external_body]
pub(crate) fn weighted_index_new(weights: &Vec<u16>) -> (r: Result<WeightedChoice, WeightError>)
    ensures
        r is Ok <==> (weights@.len() > 0 && 0 < weight_sum(weights@) <= u16::MAX),
        r matches Ok(dist) ==> weighted_choice_weights(dist) == weights@,
{
    WeightedIndex::new(weights).map(|dist| WeightedChoice { dist })
}

/// `rand`'s `Distribution::sample` for `WeightedIndex<u16>`. Its source draws a value
/// below the total weight and returns the index whose cumulative range holds it, so the
/// index is in bounds and never one of weight zero; which index comes out rests on the
/// generator and is not stated.
#[verifier::external_body]
pub(crate) fn weighted_index_sample(dist: &WeightedChoice, rng: &mut StdRng) -> (r: usize)
    ensures
        r < weighted_choice_weights(*dist).len(),
        weighted_choice_weights(*dist)[r as int] > 0,
{
    dist.dist.sample(rng)
}

/// `rand`'s `IndexedRandom::choose` on a slice of indices: `None` on an empty slice,
/// otherwise one of its elements, drawn by the generator (which one is not stated).
#[verifier::external_body]
pub(crate) fn choose_index(indexes: &Vec<usize>, rng: &mut StdRng) -> (r: Option<usize>)
    ensures
        r is None <==> indexes@.len() == 0,
        r matches Some(i) ==> indexes@.contains(i),
{
    indexes.as_slice().choose(rng).copied()
}

} // verus!
