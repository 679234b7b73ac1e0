//! A tracing garbage collector for reference graphs with cycles, written as a
//! sequential engine whose every operation carries a machine-checked contract.
//!
//! Mutators put data under management with one of the `track_*` operations
//! of the [`collector::Collector`] and get a handle back. Handles are cloned
//! and dropped through the collector, which counts them; data is reached
//! under a warrant. A collection finds the allocations that no handle in
//! the hands of a mutator leads to, takes them out of the list of tracked
//! allocations and hands them to the dropper, which releases them.

pub mod atomic;
pub mod collector;
pub mod concurrency;
pub mod finalize;
pub mod laws;
pub mod marker;
pub mod plumbing;
pub mod scan;
pub mod wrappers;

use crate::collector::Collector;
use vstd::prelude::*;

verus! {

/// How many allocations are tracked.
pub fn number_of_tracked_allocations(collector: &Collector) -> (n: usize)
    requires
        collector.list_ok(),
    ensures
        n == collector.tracked_count(),
{
    collector.tracked_data_count()
}

/// How many handles are live.
pub fn number_of_active_handles(collector: &Collector) -> (n: usize)
    ensures
        n == collector.live_handles(),
{
    collector.handle_count()
}

/// Runs a collection, whatever the trigger says.
pub fn collect(collector: &mut Collector)
    requires
        old(collector).wf(),
    ensures
        final(collector).wf(),
        old(collector).collected_from(final(collector)),
        final(collector).size() == old(collector).size(),
        forall|t: usize| #[trigger] final(collector).is_tracked(t) ==> old(collector).is_tracked(t),
{
    collector.collect();
}

/// Returns when the release actions of everything that was condemned before
/// the call have run.
pub fn synchronize_destructors(collector: &mut Collector)
    requires
        old(collector).wf(),
    ensures
        final(collector).wf(),
        old(collector).synchronized_from(final(collector)),
        final(collector).size() == old(collector).size(),
        final(collector).condemned() == Seq::<usize>::empty(),
        forall|t: usize| #[trigger] final(collector).is_tracked(t) == old(collector).is_tracked(t),
        forall|t: usize|
            t < old(collector).size() ==> #[trigger] final(collector).outside_handles(t)
                >= old(collector).outside_handles(t),
{
    collector.synchronize_destructors()
}

/// What `run_with_gc_cleanup` leaves of the collector: a collection and one
/// round of the dropper.
pub open spec fn cleaned_up(pre: &Collector, post: &Collector) -> bool {
    exists|mid: Collector| #[trigger] pre.collected_from(&mid) && mid.synchronized_from(post)
}

/// Runs `f`, then a collection, then the dropper, and returns what `f`
/// returned.
pub fn run_with_gc_cleanup<T, F: FnOnce() -> T>(collector: &mut Collector, f: F) -> (res: T)
    requires
        old(collector).wf(),
        f.requires(()),
    ensures
        final(collector).wf(),
        f.ensures((), res),
        cleaned_up(old(collector), final(collector)),
{
    let res = f();

    collect(collector);
    synchronize_destructors(collector);

    res
}

} // verus!
