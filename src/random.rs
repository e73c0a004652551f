use vstd::prelude::*;

use rand::distributions::{IndependentSample, Weighted, WeightedChoice};
use rand::Rng;

verus! {

/// The sum of a list of weights.
pub open spec fn weights_sum(w: Seq<u32>) -> int
    decreases w.len(),
{
    if w.len() == 0 {
        0
    } else {
        weights_sum(w.drop_last()) + w.last()
    }
}

/// Relies on rand's `Rng::gen_range` on the thread-local generator: for
/// `low < high` it returns a value in `[low, high)`; it panics when
/// `low >= high`.
#[verifier::external_body]
pub(crate) fn random_below(n: usize) -> (r: usize)
    requires
        n > 0,
    ensures
        r < n,
{
    rand::thread_rng().gen_range(0, n)
}

/// Relies on rand's `WeightedChoice`: `new` panics on an empty list, a
/// total weight of zero or a total above `u32::MAX`; `ind_sample` returns
/// the item of the first entry whose running total exceeds a draw below the
/// total, which is always an entry of positive weight.
#[verifier::external_body]
pub(crate) fn random_weighted_index(weights: &Vec<u32>) -> (r: usize)
    requires
        weights@.len() > 0,
        0 < weights_sum(weights@) <= u32::MAX,
    ensures
        r < weights@.len(),
        weights@[r as int] > 0,
{
    let mut items: Vec<Weighted<usize>> = Vec::new();
    for (i, w) in weights.iter().enumerate() {
        items.push(Weighted { weight: *w, item: i });
    }
    let chooser = WeightedChoice::new(&mut items);
    chooser.ind_sample(&mut rand::thread_rng())
}

} // verus!
