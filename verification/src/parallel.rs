//! The rayon worker pool and the parallel depth sort used for large frames.
use vstd::prelude::*;
use rayon::slice::ParallelSliceMut;
use crate::depth_sort::{
    is_stable_sort_by_key, keys_of, lemma_sorted_permutation_keys, lemma_stable_sort_is_permutation,
    lemma_stable_sort_is_sorted, lemma_stable_sort_unique, sort_by_depth, sorted_by_key,
    ScratchBuffers,
};

verus! {

/// Makes rayon's `ThreadPool` known to Verus, as an opaque type: nothing
/// of its inside is modelled.
#[verifier::external_type_specification]
#[verifier::external_body]
pub struct ExThreadPool(rayon::ThreadPool);

/// Makes rayon's `ThreadPoolBuildError` known to Verus, as an opaque type.
#[verifier::external_type_specification]
#[verifier::external_body]
pub struct ExThreadPoolBuildError(rayon::ThreadPoolBuildError);

/// Below this many items the radix sort is used even when a pool exists.
pub const PARALLEL_SORT_MIN: usize = 50_000;

/// Why a worker pool could not be made.
#[derive(Debug, Clone, Copy, PartialEq, Eq)]
pub enum PoolError {
    /// The operating system refused to start the pool's threads.
    BuildFailed,
}

/// A rayon worker pool and the thread count it was asked for.
pub struct WorkerPool {
    pub pool: rayon::ThreadPool,
    /// The thread count handed to the pool builder.
    pub threads: Ghost<usize>,
}

/// Calls `rayon::ThreadPoolBuilder::new().num_threads(num_threads).build()`
/// and keeps the requested count beside the pool. Claimed: a pool that
/// comes back was built with `num_threads` as its thread count. Whether the
/// threads can be started depends on the operating system, so success is
/// not promised.
#[verifier::external_body]
fn build_pool(num_threads: usize) -> (r: Result<WorkerPool, rayon::ThreadPoolBuildError>)
    ensures
        r matches Ok(p) ==> p.threads@ == num_threads,
{
    match rayon::ThreadPoolBuilder::new().num_threads(num_threads).build() {
        Ok(pool) => Ok(WorkerPool { pool, threads: Ghost(num_threads) }),
        Err(e) => Err(e),
    }
}

/// Calls `rayon::slice::ParallelSliceMut::par_sort_unstable_by_key` on the
/// items with the key as sort key, inside `pool` (`ThreadPool::install`).
/// Claimed, as rayon documents it: the items come out sorted by key and as
/// a rearrangement of the input (items with equal keys in any order).
#[verifier::external_body]
fn par_sort_by_key_in(pool: &rayon::ThreadPool, items: &mut Vec<(u32, u32)>)
    ensures
        final(items)@.to_multiset() == old(items)@.to_multiset(),
        sorted_by_key(final(items)@),
{
    pool.install(|| items.par_sort_unstable_by_key(|p| p.0));
}

/// A worker pool of `num_threads` threads, or `None` for `0` (run on the
/// calling thread).
pub fn build_thread_pool(num_threads: usize) -> (r: Result<Option<WorkerPool>, PoolError>)
    ensures
        num_threads == 0 <==> r matches Ok(None),
        r matches Ok(Some(p)) ==> p.threads@ == num_threads,
{
    if num_threads > 0 {
        match build_pool(num_threads) {
            Ok(p) => Ok(Some(p)),
            Err(_) => Err(PoolError::BuildFailed),
        }
    } else {
        Ok(None)
    }
}

/// Depth sort that hands large batches to the pool's parallel sort and
/// uses the stable radix sort otherwise.
pub fn sort_by_depth_parallel(
    items: &mut Vec<(u32, u32)>,
    scratch: &mut ScratchBuffers,
    pool: &Option<WorkerPool>,
)
    requires
        old(items)@.len() <= u32::MAX,
    ensures
        sorted_by_key(final(items)@),
        final(items)@.to_multiset() == old(items)@.to_multiset(),
        old(items)@.len() < PARALLEL_SORT_MIN || pool.is_none() ==> is_stable_sort_by_key(
            old(items)@,
            final(items)@,
        ),
        forall|st: Seq<(u32, u32)>| #[trigger]
            is_stable_sort_by_key(old(items)@, st) ==> keys_of(final(items)@) == keys_of(st) && (
            old(items)@.len() < PARALLEL_SORT_MIN || pool.is_none() ==> final(items)@ == st),
{
    let ghost before = items@;
    match pool {
        Some(p) => {
            if items.len() < PARALLEL_SORT_MIN {
                sort_by_depth(items, scratch);
                proof {
                    lemma_stable_sort_is_sorted(before, items@);
                    lemma_stable_sort_is_permutation(before, items@);
                }
            } else {
                par_sort_by_key_in(&p.pool, items);
            }
        },
        None => {
            sort_by_depth(items, scratch);
            proof {
                lemma_stable_sort_is_sorted(before, items@);
                lemma_stable_sort_is_permutation(before, items@);
            }
        },
    }
    proof {
        assert forall|st: Seq<(u32, u32)>| #[trigger]
            is_stable_sort_by_key(before, st) implies keys_of(items@) == keys_of(st) && (
        before.len() < PARALLEL_SORT_MIN || pool.is_none() ==> items@ == st) by {
            lemma_sorted_permutation_keys(before, st, items@);
            if before.len() < PARALLEL_SORT_MIN || pool.is_none() {
                lemma_stable_sort_unique(before, items@, st);
            }
        }
    }
}

} // verus!
