//! Work that is shared out among threads.

use rayon::iter::{IntoParallelIterator, ParallelIterator};
use vstd::prelude::*;

verus! {

/// What `f` gives for each of the first `n` numbers, in their order.
///
/// Calls `map` and `collect` of a parallel iterator of `rayon` over a range. Such
/// an iterator applies the function once to every number of the range, on any
/// thread and in any order, and `collect` puts the results into the order of the
/// range.
#[verifier::external_body]
pub(crate) fn map_range<R: Send, F: Fn(usize) -> R + Sync>(n: usize, f: F) -> (out: Vec<R>)
    requires
        forall|i: usize| i < n ==> #[trigger] f.requires((i,)),
    ensures
        out@.len() == n,
        forall|i: int| 0 <= i < n ==> f.ensures((i as usize,), #[trigger] out@[i]),
{
    (0..n).into_par_iter().map(|i| f(i)).collect()
}

} // verus!
