pub mod access;
pub mod allocation;
pub mod collect_impl;
pub mod data;
pub mod dropper;
pub mod graph;
pub mod ref_cnt;
pub mod tracking;
pub mod trigger;

use crate::collector::allocation::{GcAllocation, Payload};
use crate::collector::data::GcData;
use crate::collector::dropper::{BackgroundDropper, DropMessage};
use crate::collector::graph::{count_of, indegree};
use crate::collector::ref_cnt::GcRefCount;
use crate::collector::trigger::GcTrigger;
use crate::concurrency::atomic_protection::{AtomicProtectingSpinlock, SpinlockState};
use crate::concurrency::chunked_ll::ChunkedLinkedList;
use crate::concurrency::lockout::{LockoutState, Warrant};
use vstd::prelude::*;

verus! {

/// A handle: one counted reference to an allocation.
///
/// The handle names the allocation by the number of its record. Dropping it
/// a second time does nothing, because the first drop invalidates it.
#[derive(Debug)]
pub struct InternalGcRef {
    pub(crate) data_ref: usize,
    pub(crate) invalidated: bool,
}

/// How a new handle relates to the counts of its allocation.
#[derive(Copy, Clone, Debug, PartialEq, Eq, Structural)]
pub enum RefCountPolicy {
    /// counts for nothing, now or when it is dropped
    TransientHandle,
    /// the first handle of a new allocation, whose count was started at one
    InitialCreation,
    /// one more handle to an allocation that has handles already
    FromExistingHandle,
    /// takes over a count that something else gave up
    InheritExistingCounts,
}

/// Proof that a mutator has access to the data of one allocation. While it
/// is out, the collector does not scan that data and keeps it.
pub struct GcGuardWarrant {
    pub(crate) _warrant: Warrant,
    pub(crate) data: usize,
}

/// The collector: the records of all allocations ever made, the list of
/// those that are tracked, and what decides on and carries out collections.
pub struct Collector {
    /// keeps atomic-slot operations and collections apart
    pub(crate) atomic_spinlock: AtomicProtectingSpinlock,
    /// decides when a collection is due
    pub(crate) trigger: GcTrigger,
    /// takes the condemned allocations
    pub(crate) dropper: BackgroundDropper,
    /// the records of the tracked allocations, by number
    pub(crate) tracked_data: ChunkedLinkedList,
    /// the record of every allocation, under the number that handles use
    pub(crate) records: Vec<GcData>,
    /// how many handles are live
    pub(crate) live_handle_count: usize,
    /// the slot of the list that holds each tracked allocation
    pub(crate) index: Ghost<Map<usize, (usize, usize)>>,
}

/// One more, starting over at zero after the largest value.
pub open spec fn wrapping_inc(n: usize) -> usize {
    if n == usize::MAX {
        0
    } else {
        (n + 1) as usize
    }
}

/// One less, starting over at the largest value after zero.
pub open spec fn wrapping_dec(n: usize) -> usize {
    if n == 0 {
        usize::MAX
    } else {
        (n - 1) as usize
    }
}

/// `n` less, starting over at the largest value after zero each time.
pub open spec fn wrapping_sub_n(x: usize, n: nat) -> usize
    decreases n,
{
    if n == 0 {
        x
    } else {
        wrapping_dec(wrapping_sub_n(x, (n - 1) as nat))
    }
}

/// Taking `a` and then `b` is taking `a + b`.
pub proof fn lemma_wrapping_sub_split(x: usize, a: nat, b: nat)
    ensures
        wrapping_sub_n(wrapping_sub_n(x, a), b) == wrapping_sub_n(x, a + b),
    decreases b,
{
    if b > 0 {
        lemma_wrapping_sub_split(x, a, (b - 1) as nat);
    }
}

impl InternalGcRef {
    /// The allocation that the handle refers to.
    pub open(crate) spec fn target(&self) -> usize {
        self.data_ref
    }

    /// The handle has not been invalidated.
    pub open(crate) spec fn live(&self) -> bool {
        !self.invalidated
    }

    /// Whether the two handles refer to the same allocation.
    pub fn ptr_eq(&self, o: &Self) -> (same: bool)
        ensures
            same == (self.target() == o.target()),
    {
        self.data_ref == o.data_ref
    }

    /// Whether the handle has been invalidated.
    pub fn is_invalidated(&self) -> (b: bool)
        ensures
            b == !self.live(),
    {
        self.invalidated
    }

    /// Invalidates the handle and leaves the count of its allocation as it
    /// is: whoever calls this takes the count over.
    pub fn invalidate_without_touching_reference_counts(&mut self)
        ensures
            !final(self).live(),
            final(self).target() == old(self).target(),
    {
        self.invalidated = true;
    }

    /// The allocation that the handle refers to.
    pub fn data(&self) -> (id: usize)
        ensures
            id == self.target(),
    {
        self.data_ref
    }
}

impl GcGuardWarrant {
    /// The allocation whose data the warrant gives access to.
    pub open(crate) spec fn subject(&self) -> usize {
        self.data
    }

    /// The allocation whose data the warrant gives access to.
    pub fn data(&self) -> (id: usize)
        ensures
            id == self.subject(),
    {
        self.data
    }
}

impl Collector {
    /// The number of allocations ever made.
    pub open(crate) spec fn size(&self) -> nat {
        self.records.len() as nat
    }

    /// What each allocation refers to, by number.
    pub open(crate) spec fn edge_table(&self) -> Seq<Seq<usize>> {
        Seq::new(
            self.records@.len(),
            |i: int| self.records@[i].underlying_allocation.payload.targets(),
        )
    }

    /// Allocation `id` is in the list of tracked allocations.
    pub open(crate) spec fn is_tracked(&self, id: usize) -> bool {
        self.index@.dom().contains(id)
    }

    /// The number of handles and atomic slots that refer to allocation `id`.
    pub open(crate) spec fn ref_count(&self, id: usize) -> int {
        self.records@[id as int].ref_cnt.count()
    }

    /// The positive counter of allocation `id`, which bounds its count from
    /// above.
    pub open(crate) spec fn positive_count(&self, id: usize) -> int {
        self.records@[id as int].ref_cnt.positive()
    }

    /// Who holds the lockout of allocation `id`.
    pub open(crate) spec fn lockout_state(&self, id: usize) -> LockoutState {
        self.records@[id as int].lockout@
    }

    /// The release of allocation `id` has begun.
    pub open(crate) spec fn is_deallocated(&self, id: usize) -> bool {
        self.records@[id as int].deallocated
    }

    /// The data of allocation `id`.
    pub open(crate) spec fn payload(&self, id: usize) -> Payload {
        self.records@[id as int].underlying_allocation.payload
    }

    /// The data and release action of allocation `id`.
    pub open(crate) spec fn allocation(&self, id: usize) -> GcAllocation {
        self.records@[id as int].underlying_allocation
    }

    /// The number of references to `id` that the data of all allocations hold.
    pub open(crate) spec fn incoming(&self, id: usize) -> nat {
        indegree(self.edge_table(), Set::full(), self.edge_table().len(), id)
    }

    /// The number of handles and slots referring to `id` that no managed data
    /// holds: those in the hands of mutators.
    pub open spec fn outside_handles(&self, id: usize) -> int {
        self.ref_count(id) - self.incoming(id)
    }

    /// Some mutator holds a warrant on the data of `id`.
    pub open(crate) spec fn held(&self, id: usize) -> bool {
        self.records@[id as int].lockout@ != LockoutState::Idle
    }

    /// Data that refers to `targets` can be taken in as managed data: every
    /// allocation it refers to is tracked, and mutators hold that many
    /// references to it.
    pub open spec fn can_adopt(&self, targets: Seq<usize>) -> bool {
        &&& forall|k: int|
            0 <= k < targets.len() ==> (#[trigger] targets[k]) < self.size() && self.is_tracked(
                targets[k],
            )
        &&& forall|t: usize|
            t < self.size() ==> #[trigger] count_of(targets, t) <= self.outside_handles(t)
    }

    /// Allocation `id` is a root: it is tracked, and a mutator holds a
    /// warrant on its data, or a handle or slot that refers to it.
    pub open spec fn root(&self, id: usize) -> bool {
        &&& id < self.size()
        &&& self.is_tracked(id)
        &&& (self.held(id) || self.outside_handles(id) > 0)
    }

    /// The data of allocation `from` holds a reference to allocation `to`.
    pub open spec fn refers_to(&self, from: usize, to: usize) -> bool {
        from < self.size() && self.payload(from).targets().contains(to)
    }

    /// Allocation `id` is tracked and can be reached from a root over at
    /// most `n` references between tracked allocations.
    pub open spec fn reach(&self, id: usize, n: nat) -> bool
        decreases n,
    {
        &&& self.is_tracked(id)
        &&& if n == 0 {
            self.root(id)
        } else {
            self.reach(id, (n - 1) as nat) || exists|b: usize|
                self.reach(b, (n - 1) as nat) && #[trigger] self.refers_to(b, id)
        }
    }

    /// Allocation `id` can be reached from outside managed data.
    pub open spec fn reachable(&self, id: usize) -> bool {
        exists|n: nat| self.reach(id, n)
    }

    /// Nothing has changed from `self` to `post` about which allocations
    /// there are, which are tracked, what their data is and whether their
    /// release has begun; and every allocation has the outside handles it
    /// had, but `id`, which has `delta` more.
    pub open spec fn handles_moved(&self, post: &Self, id: usize, delta: int) -> bool {
        &&& post.size() == self.size()
        &&& forall|t: usize| #[trigger] post.is_tracked(t) == self.is_tracked(t)
        &&& forall|t: usize|
            t < self.size() ==> #[trigger] post.outside_handles(t) == self.outside_handles(t)
                + if t == id {
                delta
            } else {
                0
            }
        &&& forall|t: usize| t < self.size() ==> #[trigger] post.payload(t) == self.payload(t)
        &&& forall|t: usize|
            t < self.size() ==> #[trigger] post.is_deallocated(t) == self.is_deallocated(t)
    }

    /// From `self` to `post` one allocation has been added, number `id`,
    /// which is tracked and has `count` handles, and whose data refers to
    /// `targets`. The older allocations are as they were, but each has as
    /// many fewer outside handles as `targets` refers to it.
    pub open spec fn adopted(
        &self,
        post: &Self,
        id: usize,
        targets: Seq<usize>,
        count: int,
    ) -> bool {
        &&& id == self.size()
        &&& post.size() == self.size() + 1
        &&& post.is_tracked(id)
        &&& !post.is_deallocated(id)
        &&& post.payload(id).targets() == targets
        &&& post.ref_count(id) == count
        &&& post.outside_handles(id) == count - count_of(targets, id)
        &&& forall|t: usize| t != id ==> #[trigger] post.is_tracked(t) == self.is_tracked(t)
        &&& forall|t: usize|
            t < self.size() ==> #[trigger] post.outside_handles(t) == self.outside_handles(t)
                - count_of(targets, t)
        &&& forall|t: usize| t < self.size() ==> #[trigger] post.payload(t) == self.payload(t)
        &&& forall|t: usize|
            t < self.size() ==> #[trigger] post.is_deallocated(t) == self.is_deallocated(t)
    }

    /// The ids that wait in the dropper's queue to be released.
    pub open(crate) spec fn condemned(&self) -> Seq<usize> {
        if self.dropper.messages@.len() == 1 {
            match self.dropper.messages@[0] {
                DropMessage::DataToDrop(buffer) => buffer@,
                DropMessage::SyncUp => Seq::empty(),
            }
        } else {
            Seq::empty()
        }
    }

    /// What holds of one record at all times.
    pub open(crate) spec fn record_ok(&self, i: int) -> bool {
        let r = self.records@[i];
        let targets = r.underlying_allocation.payload.targets();
        &&& r.lockout.wf()
        &&& r.lockout@ != LockoutState::CollectorExclusive
        &&& r.ref_cnt.wf()
        &&& r.underlying_allocation.releases <= 1
        &&& forall|k: int| 0 <= k < targets.len() ==> #[trigger] targets[k] < self.size()
        &&& r.underlying_allocation.payload.all_live()
        &&& r.underlying_allocation.releases == 1 ==> r.deallocated && targets.len() == 0
        &&& self.index@.dom().contains(i as usize) ==> {
            &&& !r.deallocated
            &&& r.underlying_allocation.releases == 0
            &&& forall|k: int|
                0 <= k < targets.len() ==> self.index@.dom().contains(#[trigger] targets[k])
        }
    }

    /// The list of tracked allocations and the index agree.
    pub open(crate) spec fn index_ok(&self) -> bool {
        &&& forall|id: usize| #[trigger]
            self.index@.dom().contains(id) ==> id < self.size()
                && self.tracked_data@.contains_pair(self.index@[id], id)
        &&& forall|p: (usize, usize)| #[trigger]
            self.tracked_data@.dom().contains(p) ==> self.index@.dom().contains(
                self.tracked_data@[p],
            ) && self.index@[self.tracked_data@[p]] == p
    }

    /// `batch` lists, each once, the allocations that are no longer tracked
    /// and not yet released.
    pub open(crate) spec fn batch_ok(&self, batch: Seq<usize>) -> bool {
        &&& batch.no_duplicates()
        &&& forall|j: int|
            0 <= j < batch.len() ==> {
                &&& (#[trigger] batch[j]) < self.size()
                &&& !self.index@.dom().contains(batch[j])
                &&& self.records@[batch[j] as int].underlying_allocation.releases == 0
            }
        &&& forall|i: int|
            0 <= i < self.size() && !self.index@.dom().contains(i as usize) && (
            #[trigger] self.records@[i]).underlying_allocation.releases == 0 ==> batch.contains(
                i as usize,
            )
    }

    /// The dropper's queue holds at most one message, a batch.
    pub open(crate) spec fn queue_ok(&self) -> bool {
        &&& self.dropper.messages@.len() <= 1
        &&& self.dropper.messages@.len() == 1 ==> self.dropper.messages@[0] is DataToDrop
    }

    /// No allocation has fewer handles than managed data holds of it, even
    /// after the counts in `owed` are given back.
    pub open(crate) spec fn counts_ok(&self, owed: Seq<usize>) -> bool {
        forall|t: usize|
            t < self.size() ==> #[trigger] self.incoming(t) + count_of(owed, t) <= self.ref_count(
                t,
            )
    }

    /// What holds of the records, the list and the index at all times,
    /// while the counts in `owed` are still to be given back.
    pub open(crate) spec fn parts_ok(&self, owed: Seq<usize>) -> bool {
        &&& self.tracked_data.wf()
        &&& self.atomic_spinlock.wf()
        &&& self.dropper.wf()
        &&& self.index_ok()
        &&& forall|i: int| 0 <= i < self.size() ==> #[trigger] self.record_ok(i)
        &&& self.counts_ok(owed)
    }

    /// What holds of the collector while an operation may be under way.
    pub open(crate) spec fn wf_core(&self) -> bool {
        &&& self.parts_ok(Seq::empty())
        &&& self.queue_ok()
        &&& self.batch_ok(self.condemned())
    }

    /// What holds of the collector between operations: no atomic-slot
    /// operation or collection is under way, and no lockout is held
    /// exclusively.
    pub open(crate) spec fn wf(&self) -> bool {
        &&& self.wf_core()
        &&& self.atomic_spinlock@ == SpinlockState::Idle
        &&& forall|i: int|
            0 <= i < self.size() ==> !(#[trigger] self.records@[i]).lockout.exclusively_held()
    }

    /// A collector that tracks nothing, with the trigger at its defaults and
    /// nothing waiting to be released.
    pub fn new() -> (c: Self)
        ensures
            c.wf(),
            c.size() == 0,
            c.tracked_count() == 0,
            c.live_handles() == 0,
            c.condemned() == Seq::<usize>::empty(),
            c.trigger_view().trigger_percent()
                == crate::collector::trigger::DEFAULT_ALLOCATION_TRIGGER_PERCENT,
            c.trigger_view().handle_deficit_percent()
                == crate::collector::trigger::DEFAULT_HANDLE_DEFICIT_TRIGGER_PERCENT,
            c.trigger_view().last_count() == 0,
    {
        let c = Self {
            atomic_spinlock: AtomicProtectingSpinlock::default(),
            trigger: GcTrigger::default(),
            dropper: BackgroundDropper::new(),
            tracked_data: ChunkedLinkedList::new(),
            records: Vec::new(),
            live_handle_count: 0,
            index: Ghost(Map::empty()),
        };
        c
    }

    /// The count of live handles.
    pub open(crate) spec fn live_handles(&self) -> usize {
        self.live_handle_count
    }

    /// The number of allocations in the list of tracked allocations.
    pub open(crate) spec fn tracked_count(&self) -> nat {
        self.tracked_data@.dom().len()
    }

    /// Nothing differs between `self` and `post`: every record is what it
    /// was, and so is everything else.
    pub open(crate) spec fn unchanged(&self, post: &Self) -> bool {
        &&& post.records@ == self.records@
        &&& post.live_handle_count == self.live_handle_count
        &&& post.atomic_spinlock == self.atomic_spinlock
        &&& post.trigger == self.trigger
        &&& post.dropper == self.dropper
        &&& post.tracked_data == self.tracked_data
        &&& post.index == self.index
    }

    /// Nothing differs between `self` and `post` but the count of live
    /// handles.
    pub open(crate) spec fn same_but_handle_count(&self, post: &Self) -> bool {
        &&& post.records == self.records
        &&& post.atomic_spinlock == self.atomic_spinlock
        &&& post.trigger == self.trigger
        &&& post.dropper == self.dropper
        &&& post.tracked_data == self.tracked_data
        &&& post.index == self.index
    }

    /// The list of tracked allocations is in order.
    pub open(crate) spec fn list_ok(&self) -> bool {
        self.tracked_data.wf()
    }

    /// The number of tracked allocations.
    pub fn tracked_data_count(&self) -> (n: usize)
        requires
            self.list_ok(),
        ensures
            n == self.tracked_count(),
    {
        self.tracked_data.estimate_len()
    }

    /// The number of live handles.
    pub fn handle_count(&self) -> (n: usize)
        ensures
            n == self.live_handles(),
    {
        self.live_handle_count
    }

    /// What `increment_reference_count` does: one more handle of `data`, one
    /// more live handle, nothing else.
    pub open(crate) spec fn counted_up(&self, data: usize, post: &Self) -> bool {
        &&& post.records@ == self.records@.update(
            data as int,
            GcData {
                ref_cnt: GcRefCount {
                    count_positive: (self.records@[data as int].ref_cnt.count_positive + 1) as i64,
                    ..self.records@[data as int].ref_cnt
                },
                ..self.records@[data as int]
            },
        )
        &&& post.live_handle_count == wrapping_inc(self.live_handle_count)
        &&& post.atomic_spinlock == self.atomic_spinlock
        &&& post.trigger == self.trigger
        &&& post.dropper == self.dropper
        &&& post.tracked_data == self.tracked_data
        &&& post.index == self.index
    }

    /// What `decrement_reference_count` does: one handle of `data` less, one
    /// live handle less, nothing else.
    pub open(crate) spec fn counted_down(&self, data: usize, post: &Self) -> bool {
        &&& post.records@ == self.records@.update(
            data as int,
            GcData {
                ref_cnt: GcRefCount {
                    count_negative: (self.records@[data as int].ref_cnt.count_negative - 1) as i64,
                    ..self.records@[data as int].ref_cnt
                },
                ..self.records@[data as int]
            },
        )
        &&& post.live_handle_count == wrapping_dec(self.live_handle_count)
        &&& post.atomic_spinlock == self.atomic_spinlock
        &&& post.trigger == self.trigger
        &&& post.dropper == self.dropper
        &&& post.tracked_data == self.tracked_data
        &&& post.index == self.index
    }

    /// Counts one more live handle; the count wraps around.
    pub fn increment_handle_count(&mut self)
        ensures
            final(self).live_handles() == wrapping_inc(old(self).live_handles()),
            old(self).same_but_handle_count(final(self)),
    {
        if self.live_handle_count == usize::MAX {
            self.live_handle_count = 0;
        } else {
            self.live_handle_count = self.live_handle_count + 1;
        }
    }

    /// Counts one more handle of allocation `data`.
    pub fn increment_reference_count(&mut self, data: usize)
        requires
            data < old(self).size(),
            old(self).positive_count(data) < i64::MAX,
        ensures
            old(self).counted_up(data, final(self)),
    {
        self.records[data].ref_cnt.inc_count();
        if self.live_handle_count == usize::MAX {
            self.live_handle_count = 0;
        } else {
            self.live_handle_count = self.live_handle_count + 1;
        }
    }

    /// The negative counter of allocation `data` can go down by one.
    pub open(crate) spec fn can_count_down(&self, data: usize) -> bool {
        self.records@[data as int].ref_cnt.negative() > i64::MIN
    }

    /// Counts one handle of allocation `data` less. The count of live
    /// handles wraps around.
    pub fn decrement_reference_count(&mut self, data: usize)
        requires
            data < old(self).size(),
            old(self).can_count_down(data),
        ensures
            old(self).counted_down(data, final(self)),
    {
        self.records[data].ref_cnt.dec_count();
        if self.live_handle_count == 0 {
            self.live_handle_count = usize::MAX;
        } else {
            self.live_handle_count = self.live_handle_count - 1;
        }
    }

    /// A change that leaves every payload and release count alone, and the
    /// list and the index too, keeps what holds of the records, provided
    /// that each record is still in order by itself and the counts still
    /// cover what managed data holds.
    pub(crate) proof fn lemma_counts_changed(&self, post: &Self, owed: Seq<usize>,
        owed_after: Seq<usize>)
        requires
            self.parts_ok(owed),
            post.size() == self.size(),
            post.tracked_data == self.tracked_data,
            post.index == self.index,
            post.atomic_spinlock == self.atomic_spinlock,
            post.dropper == self.dropper,
            forall|i: int|
                0 <= i < self.size() ==> {
                    &&& (#[trigger] post.records@[i]).underlying_allocation
                        == self.records@[i].underlying_allocation
                    &&& post.records@[i].lockout.wf()
                    &&& post.records@[i].lockout@ != LockoutState::CollectorExclusive
                    &&& post.records@[i].deallocated == self.records@[i].deallocated
                    &&& post.records@[i].ref_cnt.wf()
                },
            forall|t: usize|
                t < self.size() ==> self.incoming(t) + count_of(owed_after, t)
                    <= #[trigger] post.ref_count(t),
        ensures
            post.parts_ok(owed_after),
            post.edge_table() == self.edge_table(),
            forall|batch: Seq<usize>| #[trigger] self.batch_ok(batch) ==> post.batch_ok(batch),
            post.condemned() == self.condemned(),
            post.queue_ok() == self.queue_ok(),
    {
        assert(post.edge_table() =~= self.edge_table());
        assert forall|i: int| 0 <= i < post.size() implies #[trigger] post.record_ok(i) by {
            assert(self.record_ok(i));
        }
        assert forall|t: usize| t < post.size() implies #[trigger] post.incoming(t) + count_of(
            owed_after,
            t,
        ) <= post.ref_count(t) by {}
        assert forall|batch: Seq<usize>| #[trigger] self.batch_ok(batch) implies post.batch_ok(
            batch,
        ) by {
            assert forall|i: int|
                0 <= i < post.size() && !post.index@.dom().contains(i as usize) && (
                #[trigger] post.records@[i]).underlying_allocation.releases == 0
                    implies batch.contains(
                i as usize,
            ) by {
                assert(self.records@[i].underlying_allocation.releases == 0);
            }
        }
    }

    /// Where the records, the list and the index are the same, the same
    /// holds of them.
    pub(crate) proof fn lemma_same_records(&self, post: &Self)
        requires
            post.records == self.records,
            post.tracked_data == self.tracked_data,
            post.index == self.index,
        ensures
            post.edge_table() == self.edge_table(),
            forall|owed: Seq<usize>| #[trigger]
                self.parts_ok(owed) && post.dropper.wf() && post.atomic_spinlock.wf()
                    ==> post.parts_ok(owed),
            forall|batch: Seq<usize>| #[trigger] self.batch_ok(batch) ==> post.batch_ok(batch),
            forall|t: usize| #[trigger] post.outside_handles(t) == self.outside_handles(t),
            forall|t: usize| #[trigger] post.incoming(t) == self.incoming(t),
    {
        assert(post.edge_table() =~= self.edge_table());
        assert forall|owed: Seq<usize>| #[trigger]
            self.parts_ok(owed) && post.dropper.wf() && post.atomic_spinlock.wf()
                implies post.parts_ok(
            owed,
        ) by {
            assert forall|i: int| 0 <= i < post.size() implies #[trigger] post.record_ok(i) by {
                assert(self.record_ok(i));
            }
            assert forall|t: usize| t < post.size() implies #[trigger] post.incoming(t) + count_of(
                owed,
                t,
            ) <= post.ref_count(t) by {
                assert(self.incoming(t) + count_of(owed, t) <= self.ref_count(t));
            }
        }
    }

    /// After one more handle was counted the collector is as well formed as
    /// before, and every allocation has as many outside handles as before
    /// but `data`, which has one more.
    pub(crate) proof fn lemma_counted_up(&self, data: usize, post: &Self)
        requires
            self.wf_core(),
            data < self.size(),
            self.positive_count(data) < i64::MAX,
            self.counted_up(data, post),
        ensures
            post.wf_core(),
            self.wf() ==> post.wf(),
            post.edge_table() == self.edge_table(),
            self.handles_moved(post, data, 1),
    {
        assert(self.record_ok(data as int));
        assert forall|t: usize| t < self.size() implies self.incoming(t) + count_of(
            Seq::<usize>::empty(),
            t,
        ) <= #[trigger] post.ref_count(t) by {
            assert(self.incoming(t) + count_of(Seq::<usize>::empty(), t) <= self.ref_count(t));
        }
        assert forall|i: int| 0 <= i < self.size()
            implies (#[trigger] post.records@[i]).ref_cnt.wf()
            && post.records@[i].lockout.wf() && post.records@[i].lockout@
            != LockoutState::CollectorExclusive by {
            assert(self.record_ok(i));
        }
        self.lemma_counts_changed(post, Seq::empty(), Seq::empty());
        assert(self.batch_ok(self.condemned()));
        if self.wf() {
            assert forall|i: int| 0 <= i < post.size() implies !(
            #[trigger] post.records@[i]).lockout.exclusively_held() by {
                assert(!self.records@[i].lockout.exclusively_held());
            }
        }
    }

    /// After one handle less was counted the collector is as well formed as
    /// before, and every allocation has as many outside handles as before
    /// but `data`, which has one less.
    pub(crate) proof fn lemma_counted_down(&self, data: usize, post: &Self)
        requires
            self.wf_core(),
            data < self.size(),
            self.outside_handles(data) >= 1,
            self.counted_down(data, post),
        ensures
            post.wf_core(),
            self.wf() ==> post.wf(),
            post.edge_table() == self.edge_table(),
            self.handles_moved(post, data, -1),
    {
        assert(self.record_ok(data as int));
        assert forall|t: usize| t < self.size() implies self.incoming(t) + count_of(
            Seq::<usize>::empty(),
            t,
        ) <= #[trigger] post.ref_count(t) by {
            assert(self.incoming(t) + count_of(Seq::<usize>::empty(), t) <= self.ref_count(t));
        }
        assert forall|i: int| 0 <= i < self.size()
            implies (#[trigger] post.records@[i]).ref_cnt.wf()
            && post.records@[i].lockout.wf() && post.records@[i].lockout@
            != LockoutState::CollectorExclusive by {
            assert(self.record_ok(i));
            assert(self.incoming(data) + count_of(Seq::<usize>::empty(), data) <= self.ref_count(
                data,
            ));
        }
        self.lemma_counts_changed(post, Seq::empty(), Seq::empty());
        assert(self.batch_ok(self.condemned()));
        if self.wf() {
            assert forall|i: int| 0 <= i < post.size() implies !(
            #[trigger] post.records@[i]).lockout.exclusively_held() by {
                assert(!self.records@[i].lockout.exclusively_held());
            }
        }
    }
}

} // verus!
