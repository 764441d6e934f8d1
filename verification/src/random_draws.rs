//! Draws from a seeded generator of the `rand` crate.
use rand::distr::weighted::WeightedIndex;
use rand::distr::Distribution;
use rand::rngs::StdRng;
use rand::seq::{IndexedRandom, IteratorRandom};
use rand::RngExt;
use vstd::prelude::*;

verus! {

/// The generator type of the `rand` crate.
#[verifier::external_type_specification]
#[verifier::external_body]
pub struct ExStdRng(rand::rngs::StdRng);

/// The sum of weights.
pub open spec fn total_weight(weights: Seq<u128>) -> nat
    decreases weights.len(),
{
    if weights.len() == 0 {
        0
    } else {
        total_weight(weights.drop_last()) + weights.last() as nat
    }
}

/// `RngExt::random_range` on an inclusive range gives a number of the range.
#[verifier::external_body]
pub(crate) fn draw_between(rng: &mut StdRng, low: usize, high: usize) -> (r: usize)
    requires
        low <= high,
    ensures
        low <= r <= high,
{
    rng.random_range(low..=high)
}

/// `RngExt::random_range` on an inclusive range of small numbers gives a number of the range.
#[verifier::external_body]
pub(crate) fn draw_small(rng: &mut StdRng, low: i32, high: i32) -> (r: i32)
    requires
        low <= high,
    ensures
        low <= r <= high,
{
    rng.random_range(low..=high)
}

/// `RngExt::random` for a truth value; either one can come out.
#[verifier::external_body]
pub(crate) fn draw_bool(rng: &mut StdRng) -> bool {
    rng.random::<bool>()
}

/// `IndexedRandom::choose` from the two truth values; either one can come out.
#[verifier::external_body]
pub(crate) fn choose_bool(rng: &mut StdRng) -> bool {
    [false, true].choose(rng) == Some(&true)
}

/// `WeightedIndex::new` followed by `Distribution::sample`: there is a draw when the sum of
/// the weights is positive and fits a word, and the draw never has weight zero.
#[verifier::external_body]
pub(crate) fn draw_weighted(rng: &mut StdRng, weights: &Vec<u128>) -> (r: Option<usize>)
    ensures
        match r {
            Some(i) => i < weights@.len() && weights@[i as int] > 0,
            None => true,
        },
        r is Some <==> 0 < total_weight(weights@) <= u128::MAX,
{
    WeightedIndex::new(weights).ok().map(|distribution| distribution.sample(rng))
}

/// `IteratorRandom::sample` on the numbers below `n`: as many distinct ones as are wanted and
/// there are.
#[verifier::external_body]
pub(crate) fn sample_indices(rng: &mut StdRng, n: usize, amount: usize) -> (r: Vec<usize>)
    ensures
        r@.len() == if amount <= n {
            amount
        } else {
            n
        },
        forall|i: int| 0 <= i < r@.len() ==> #[trigger] r@[i] < n,
        r@.no_duplicates(),
{
    (0..n).sample(rng, amount)
}

} // verus!
