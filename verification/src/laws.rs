//! What holds of the collector as a whole, proved from the contracts of its
//! operations.

use crate::atomic::AtomicGc;
use crate::collector::allocation::lemma_release_targets_exact;
use crate::collector::data::GcData;
use crate::collector::dropper::released_refs;
use crate::collector::graph::{batch_refs, count_of, lemma_indegree_after_emptying};
use crate::collector::{Collector, InternalGcRef};
use vstd::prelude::*;

verus! {

/// Whatever is reachable in `a` is reachable in `b`, if every allocation
/// that is reachable in `a` is tracked in `b` with the same references, is
/// held in `b` if it is in `a`, and has no fewer outside handles in `b`.
pub(crate) proof fn lemma_reach_transfer(a: &Collector, b: &Collector, id: usize, n: nat)
    requires
        a.size() == b.size(),
        forall|i: usize|
            #![trigger b.is_tracked(i)]
            a.is_tracked(i) && a.reachable(i) ==> b.is_tracked(i) && (a.held(i) ==> b.held(i))
                && b.outside_handles(i) >= a.outside_handles(i) && b.payload(i).targets()
                == a.payload(i).targets(),
        a.reach(id, n),
    ensures
        b.reach(id, n),
    decreases n,
{
    assert(a.reachable(id));
    assert(b.is_tracked(id));
    if n == 0 {
    } else if a.reach(id, (n - 1) as nat) {
        lemma_reach_transfer(a, b, id, (n - 1) as nat);
    } else {
        let from = choose|from: usize|
            a.reach(from, (n - 1) as nat) && #[trigger] a.refers_to(from, id);
        assert(a.reachable(from));
        assert(b.is_tracked(from));
        lemma_reach_transfer(a, b, from, (n - 1) as nat);
        assert(b.refers_to(from, id));
    }
}

/// Releasing what waits to be released takes nothing away from what is
/// reachable, where nothing that waits is tracked.
pub(crate) proof fn lemma_sync_keeps_reachable(pre: &Collector, post: &Collector, id: usize)
    requires
        pre.synchronized_from(post),
        forall|i: usize|
            #![trigger pre.is_tracked(i)]
            pre.is_tracked(i) ==> i < pre.size() && !pre.condemned().contains(i),
        pre.reachable(id),
    ensures
        post.reachable(id),
{
    let n = choose|n: nat| pre.reach(id, n);
    assert forall|i: usize|
        #![trigger post.is_tracked(i)]
        pre.is_tracked(i) && pre.reachable(i) implies post.is_tracked(i) && (pre.held(i)
        ==> post.held(i)) && post.outside_handles(i) >= pre.outside_handles(i) && post.payload(
        i,
    ).targets() == pre.payload(i).targets() by {
        let _ = post.records@[i as int];
    }
    lemma_reach_transfer(pre, post, id, n);
}

/// A release that gives back every count of every allocation of `batch`
/// gives back as many counts of `t` as the data of the batch refers to it.
pub(crate) proof fn lemma_released_refs_exact(
    records: Seq<GcData>,
    edges: Seq<Seq<usize>>,
    batch: Seq<usize>,
    t: usize,
)
    requires
        edges.len() == records.len(),
        forall|i: int|
            0 <= i < records.len() ==> #[trigger] edges[i]
                == records[i].underlying_allocation.payload.targets(),
        forall|j: int|
            0 <= j < batch.len() ==> (#[trigger] batch[j]) < records.len()
                && records[batch[j] as int].underlying_allocation.payload.all_live()
                && records[batch[j] as int].underlying_allocation.gives_back_all(),
    ensures
        released_refs(records, batch, t) == batch_refs(edges, batch, t),
    decreases batch.len(),
{
    if batch.len() > 0 {
        let rest = batch.drop_last();
        assert(batch.last() == batch[batch.len() - 1]);
        assert forall|j: int| 0 <= j < rest.len() implies (#[trigger] rest[j]) < records.len()
            && records[rest[j] as int].underlying_allocation.payload.all_live()
            && records[rest[j] as int].underlying_allocation.gives_back_all() by {
            assert(rest[j] == batch[j]);
        }
        lemma_released_refs_exact(records, edges, rest, t);
        lemma_release_targets_exact(records[batch.last() as int].underlying_allocation, t);
        let _ = edges[batch.last() as int];
    }
}

/// Where the release of what waits gives back every count that the waiting
/// data holds, it leaves every allocation with the outside handles it had.
pub(crate) proof fn lemma_exact_sync_same_outside(pre: &Collector, post: &Collector, t: usize)
    requires
        pre.wf(),
        pre.gives_back_all_counts(),
        pre.synchronized_from(post),
        t < pre.size(),
    ensures
        post.outside_handles(t) == pre.outside_handles(t),
{
    let batch = pre.condemned();
    let edges = pre.edge_table();
    assert(pre.batch_ok(batch));
    assert forall|j: int| 0 <= j < batch.len() implies (#[trigger] batch[j]) < pre.records.len()
        && pre.records@[batch[j] as int].underlying_allocation.payload.all_live()
        && pre.records@[batch[j] as int].underlying_allocation.gives_back_all() by {
        assert(pre.record_ok(batch[j] as int));
        assert(pre.allocation(batch[j]).gives_back_all());
    }
    lemma_released_refs_exact(pre.records@, edges, batch, t);
    assert forall|i: int| 0 <= i < edges.len() implies #[trigger] post.edge_table()[i] == (
    if batch.contains(i as usize) {
        Seq::<usize>::empty()
    } else {
        edges[i]
    }) by {
        let _ = post.records@[i];
        if batch.contains(i as usize) {
            assert(post.records@[i].underlying_allocation.payload.targets()
                =~= Seq::<usize>::empty());
        }
    }
    assert(edges.len() == pre.records.len());
    lemma_indegree_after_emptying(edges, batch, post.edge_table(), t);
    let _ = post.records@[t as int];
    assert(pre.record_ok(t as int));
}

/// Where the release of what waits gives back every count that the waiting
/// data holds, it adds nothing to what is reachable.
pub(crate) proof fn lemma_exact_sync_same_reach(
    pre: &Collector,
    post: &Collector,
    id: usize,
    n: nat,
)
    requires
        pre.wf(),
        pre.gives_back_all_counts(),
        pre.synchronized_from(post),
        post.reach(id, n),
    ensures
        pre.reach(id, n),
{
    lemma_tracked_is_not_condemned(pre);
    assert forall|i: usize|
        #![trigger pre.is_tracked(i)]
        post.is_tracked(i) && post.reachable(i) implies pre.is_tracked(i) && (post.held(i)
        ==> pre.held(i)) && pre.outside_handles(i) >= post.outside_handles(i) && pre.payload(
        i,
    ).targets() == post.payload(i).targets() by {
        assert(pre.is_tracked(i));
        let _ = post.records@[i as int];
        lemma_exact_sync_same_outside(pre, post, i);
    }
    lemma_reach_transfer(post, pre, id, n);
}

/// An allocation that can be reached from outside managed data when a
/// collection starts is tracked after it, and its data, its release flag and
/// its lockout are as they were.
pub proof fn lemma_reachable_survives(pre: Collector, post: Collector, id: usize)
    requires
        pre.wf(),
        pre.collected_from(&post),
        pre.reachable(id),
    ensures
        post.is_tracked(id),
        !post.is_deallocated(id),
        post.allocation(id) == pre.allocation(id),
        post.lockout_state(id) == pre.lockout_state(id),
        post.outside_handles(id) >= pre.outside_handles(id),
{
    let mid = choose|mid: Collector|
        pre.synchronized_from(&mid) && mid.wf() && #[trigger] mid.swept_from(&post);
    lemma_tracked_is_not_condemned(&pre);
    lemma_sync_keeps_reachable(&pre, &mid, id);
    assert(mid.is_tracked(id));
    assert(mid.index_ok());
    assert(mid.record_ok(id as int));
    let _ = post.records@[id as int];
    let _ = mid.records@[id as int];
    assert(post.index@.dom().contains(id));
    assert(post.edge_table() =~= mid.edge_table()) by {
        assert forall|k: int| 0 <= k < mid.records.len() implies post.edge_table()[k]
            == mid.edge_table()[k] by {
            let _ = post.records@[k];
        }
    }
    assert(mid.outside_handles(id) >= pre.outside_handles(id));
}

/// In a well-formed collector no tracked allocation waits to be released.
pub(crate) proof fn lemma_tracked_is_not_condemned(c: &Collector)
    requires
        c.wf(),
    ensures
        forall|i: usize|
            #![trigger c.is_tracked(i)]
            c.is_tracked(i) ==> i < c.size() && !c.condemned().contains(i),
{
    assert(c.index_ok());
    assert(c.batch_ok(c.condemned()));
    assert forall|i: usize| #![trigger c.is_tracked(i)] c.is_tracked(i) implies i < c.size()
        && !c.condemned().contains(i) by {
        if c.condemned().contains(i) {
            let j = choose|j: int| 0 <= j < c.condemned().len() && c.condemned()[j] == i;
            assert(!c.index@.dom().contains(c.condemned()[j]));
        }
    }
}

/// A tracked allocation that cannot be reached from outside managed data
/// when a collection starts has been released after the collection and one
/// round of the dropper: it is no longer tracked, its release is flagged, and
/// its release action has run exactly once.
///
/// This is so where the release of what waits when the collection starts
/// gives back every count that the waiting data holds. Data that is released
/// without running anything keeps the counts of the atomic slots it owns, and
/// what those slots refer to stays rooted for good.
pub proof fn lemma_unreachable_released(pre: Collector, mid: Collector, post: Collector, id: usize)
    requires
        pre.wf(),
        pre.gives_back_all_counts(),
        pre.collected_from(&mid),
        mid.synchronized_from(&post),
        pre.is_tracked(id),
        !pre.reachable(id),
    ensures
        !post.is_tracked(id),
        post.is_deallocated(id),
        post.allocation(id).release_runs() == 1,
        post.allocation(id).action() == pre.allocation(id).action(),
{
    let synced = choose|synced: Collector|
        pre.synchronized_from(&synced) && synced.wf() && #[trigger] synced.swept_from(&mid);
    lemma_tracked_is_not_condemned(&pre);
    if synced.reachable(id) {
        let n = choose|n: nat| synced.reach(id, n);
        lemma_exact_sync_same_reach(&pre, &synced, id, n);
        assert(pre.reachable(id));
    }
    assert(mid.condemned().contains(id));
    let _ = post.records@[id as int];
    let _ = mid.records@[id as int];
    let _ = synced.records@[id as int];
    assert(!mid.index@.dom().contains(id));
}

/// Between operations the count of every allocation covers the references
/// that managed data holds to it; in particular it is not negative.
pub proof fn lemma_counts_cover_references(c: Collector, id: usize)
    requires
        c.wf(),
        id < c.size(),
    ensures
        c.ref_count(id) >= 0,
        c.outside_handles(id) >= 0,
{
    assert(c.incoming(id) + count_of(Seq::<usize>::empty(), id)
        <= c.ref_count(id));
}

/// Data that a warrant can be taken on has not been released: a release is
/// flagged before the release action runs, and no warrant is given on an
/// allocation whose release is flagged. This holds wherever the records are
/// in order, which they are between operations and also between any two
/// release actions of a batch.
pub proof fn lemma_warrant_reaches_live_data(c: Collector, id: usize)
    requires
        c.parts_ok(Seq::empty()),
        c.can_take_warrant(id),
    ensures
        !c.allocation(id).released(),
{
    assert(c.record_ok(id as int));
}

/// Cloning a handle and dropping the clone leaves every count as it was.
pub proof fn lemma_clone_then_drop_is_net_zero(
    pre: Collector,
    mid: Collector,
    post: Collector,
    handle: InternalGcRef,
    clone: InternalGcRef,
    clone_after: InternalGcRef,
)
    requires
        pre.wf(),
        handle.target() < pre.size(),
        pre.positive_count(handle.target()) < i64::MAX,
        pre.counted_up(handle.target(), &mid),
        clone.target() == handle.target(),
        clone.live(),
        mid.handle_dropped(clone, &post, clone_after),
    ensures
        post.size() == pre.size(),
        forall|id: usize| id < pre.size() ==> #[trigger] post.ref_count(id) == pre.ref_count(id),
        post.live_handles() == pre.live_handles(),
{
    assert forall|id: usize| id < pre.size() implies #[trigger] post.ref_count(id)
        == pre.ref_count(id) by {
        assert(pre.record_ok(id as int));
        let _ = mid.records@[id as int];
        let _ = post.records@[id as int];
    }
}

/// A collection, one round of the dropper and a second collection: the
/// second collection takes nothing out of the list and hands the dropper an
/// empty batch.
pub proof fn lemma_second_collection_is_fixed_point(
    s0: Collector,
    s1: Collector,
    s2: Collector,
    s3: Collector,
)
    requires
        s0.wf(),
        s0.collected_from(&s1),
        s1.synchronized_from(&s2),
        s2.collected_from(&s3),
    ensures
        forall|id: usize| #[trigger] s3.is_tracked(id) <==> s2.is_tracked(id),
        s3.condemned().len() == 0,
{
    let mid0 = choose|mid: Collector|
        s0.synchronized_from(&mid) && mid.wf() && #[trigger] mid.swept_from(&s1);
    let mid2 = choose|mid: Collector|
        s2.synchronized_from(&mid) && mid.wf() && #[trigger] mid.swept_from(&s3);
    assert(mid0.index_ok());
    assert forall|id: usize| s2.is_tracked(id) implies mid2.reachable(id) by {
        assert(s1.index@.dom().contains(id));
        assert(mid0.reachable(id));
        let n = choose|n: nat| mid0.reach(id, n);
        // what the first sweep kept is reachable in what it left
        assert forall|i: usize|
            #![trigger s1.is_tracked(i)]
            mid0.is_tracked(i) && mid0.reachable(i) implies s1.is_tracked(i) && (mid0.held(i)
            ==> s1.held(i)) && s1.outside_handles(i) >= mid0.outside_handles(i) && s1.payload(
            i,
        ).targets() == mid0.payload(i).targets() by {
            assert(s1.index@.dom().contains(i));
            assert(mid0.index@.dom().contains(i));
            assert(mid0.record_ok(i as int));
            let _ = s1.records@[i as int];
            assert(s1.edge_table() =~= mid0.edge_table()) by {
                assert forall|k: int| 0 <= k < mid0.records.len() implies s1.edge_table()[k]
                    == mid0.edge_table()[k] by {
                    let _ = s1.records@[k];
                }
            }
        }
        lemma_reach_transfer(&mid0, &s1, id, n);
        assert(s1.reachable(id));
        // the dropper's round takes nothing away from it
        assert forall|i: usize| #![trigger s1.is_tracked(i)] s1.is_tracked(i) implies i
            < s1.size() && !s1.condemned().contains(i) by {
            assert(s1.index@.dom().contains(i));
        }
        lemma_sync_keeps_reachable(&s1, &s2, id);
        // nor does the round that opens the second collection
        assert(s2.condemned() == Seq::<usize>::empty());
        assert forall|i: usize| #![trigger s2.is_tracked(i)] s2.is_tracked(i) implies i
            < s2.size() && !s2.condemned().contains(i) by {
            assert(s1.index@.dom().contains(i));
        }
        lemma_sync_keeps_reachable(&s2, &mid2, id);
    }
    assert forall|id: usize| #[trigger] s3.is_tracked(id) <==> s2.is_tracked(id) by {
        assert(s3.index@.dom().contains(id) <==> mid2.index@.dom().contains(id) && mid2.reachable(
            id,
        ));
    }
    assert(s3.condemned().len() == 0) by {
        if s3.condemned().len() > 0 {
            let x = s3.condemned()[0];
            assert(s3.condemned().contains(x));
        }
    }
}

/// A load after a store of `x` returns a handle to the allocation of `x`.
pub proof fn lemma_load_after_store(
    slot: AtomicGc,
    c0: Collector,
    x: InternalGcRef,
    stored: AtomicGc,
    c1: Collector,
    c2: Collector,
    loaded: InternalGcRef,
)
    requires
        slot.stored(&c0, x, &stored, &c1),
        stored.loaded(&c1, &c2, loaded),
    ensures
        loaded.target() == x.target(),
        loaded.live(),
{
}

/// A swap of `y` after a store of `x` returns a handle to the allocation of
/// `x` and leaves the slot referring to the allocation of `y`.
pub proof fn lemma_swap_after_store(
    slot: AtomicGc,
    c0: Collector,
    x: InternalGcRef,
    stored: AtomicGc,
    c1: Collector,
    y: InternalGcRef,
    swapped: AtomicGc,
    previous: InternalGcRef,
)
    requires
        slot.stored(&c0, x, &stored, &c1),
        stored.swapped(y, &swapped, previous),
    ensures
        previous.target() == x.target(),
        previous.live(),
        swapped.referent() == y.target(),
{
}

} // verus!
