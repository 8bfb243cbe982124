//! Data-parallel evaluation on a thread pool.

use rayon::iter::{IntoParallelIterator, ParallelIterator};
use vstd::prelude::*;

verus! {

/// Applies `evaluate` to every index below `count`, in parallel, and gathers
/// the results in index order.
///
/// Calls `rayon`'s `into_par_iter` on the range `0..count`, then `map` with
/// `evaluate` and `collect` into a `Vec`. Trusted, not proved: that
/// `evaluate` is called on indices below `count` only, and that the vector
/// holds at each position `i` what one call of `evaluate` on `i` returned,
/// since `collect` keeps the order of an indexed parallel iterator. Nothing
/// is claimed about the order in which the calls are made.
#[verifier::external_body]
pub(crate) fn map_indices<F>(count: usize, evaluate: F) -> (results: Vec<u32>) where
    F: Fn(usize) -> u32 + Sync + Send,

    requires
        forall|index: usize| index < count ==> call_requires(evaluate, (index,)),
    ensures
        results.len() == count,
        forall|index: usize|
            index < count ==> call_ensures(evaluate, (index,), #[trigger] results[index as int]),
{
    (0..count).into_par_iter().map(evaluate).collect()
}

} // verus!
