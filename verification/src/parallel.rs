//! The one door to the thread pool.
use rayon::prelude::IntoParallelIterator;
use rayon::prelude::ParallelIterator;
use rayon::prelude::ParallelSliceMut;
use vstd::prelude::*;

use crate::artifact::CachedModule;
use crate::names::views;
use crate::order::is_stable_sort_of;

verus! {

/// Applies `f` to every item on rayon's thread pool.
///
/// Calls rayon's `IntoParallelIterator::into_par_iter` on a vector, then
/// `ParallelIterator::map` and `ParallelIterator::collect` into a vector. Claimed of
/// them: each item is handed to `f` once, and the results come back in the order of
/// the items, because a vector's parallel iterator is indexed.
#[verifier::external_body]
pub(crate) fn map_in_parallel<T: Send, U: Send, F: Fn(T) -> U + Sync + Send>(
    items: Vec<T>,
    f: F,
) -> (results: Vec<U>)
    requires
        forall|i: int| 0 <= i < items@.len() ==> call_requires(f, (#[trigger] items@[i],)),
    ensures
        results@.len() == items@.len(),
        forall|i: int|
            0 <= i < items@.len() ==> call_ensures(f, (items@[i],), #[trigger] results@[i]),
{
    items.into_par_iter().map(f).collect()
}

/// Runs two tasks, at once where there is a thread to spare.
///
/// Calls `rayon::join`. Claimed of it: each task is run once, and the results come back in the
/// order of the tasks.
#[verifier::external_body]
pub(crate) fn join_in_parallel<
    A: FnOnce() -> RA + Send,
    B: FnOnce() -> RB + Send,
    RA: Send,
    RB: Send,
>(a: A, b: B) -> (r: (RA, RB))
    requires
        call_requires(a, ()),
        call_requires(b, ()),
    ensures
        call_ensures(a, (), r.0),
        call_ensures(b, (), r.1),
{
    rayon::join(a, b)
}

/// Sorts modules by their name on rayon's thread pool.
///
/// Calls rayon's `ParallelSliceMut::par_sort_by_key` with the text of the name as the key.
/// Claimed of it: the modules come out in the order of their names, which for a `String`
/// is the order of code points, none is lost, and those with one name keep their order.
#[verifier::external_body]
pub(crate) fn sort_modules_by_name(modules: &mut Vec<CachedModule>)
    ensures
        is_stable_sort_of::<CachedModule>(views(final(modules)@), views(old(modules)@)),
{
    modules.par_sort_by_key(|module| module.name.to_text());
}

} // verus!
