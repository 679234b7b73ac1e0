use crate::collector::allocation::{DeallocationAction, GcAllocation, Payload};
use crate::collector::data::GcData;
use crate::collector::graph::{
    count_of, lemma_count_contains, lemma_indegree_none, lemma_indegree_push,
};
use crate::collector::ref_cnt::{GcRefCount, ROOT_OVERRIDE_VALUE};
use crate::collector::{wrapping_inc, Collector, InternalGcRef, RefCountPolicy};
use crate::concurrency::lockout::{Lockout, LockoutState};
use vstd::prelude::*;

verus! {

impl InternalGcRef {
    /// A handle to allocation `data_ref`, counted as `ref_cnt_policy` says.
    pub(crate) fn new(collector: &mut Collector, data_ref: usize,
        ref_cnt_policy: RefCountPolicy) -> (res:
        Self)
        requires
            data_ref < old(collector).size(),
            ref_cnt_policy == RefCountPolicy::FromExistingHandle ==> old(collector).positive_count(
                data_ref,
            ) < i64::MAX,
            ref_cnt_policy == RefCountPolicy::InitialCreation ==> old(collector).ref_count(data_ref)
                == 1,
        ensures
            res.target() == data_ref,
            res.live() == (ref_cnt_policy != RefCountPolicy::TransientHandle),
            match ref_cnt_policy {
                RefCountPolicy::TransientHandle => *final(collector) == *old(collector),
                RefCountPolicy::InheritExistingCounts => *final(collector) == *old(collector),
                RefCountPolicy::InitialCreation => old(collector).same_but_handle_count(
                    final(collector),
                ) && final(collector).live_handles() == wrapping_inc(old(collector).live_handles()),
                RefCountPolicy::FromExistingHandle => old(collector).counted_up(
                    data_ref,
                    final(collector),
                ),
            },
    {
        match ref_cnt_policy {
            RefCountPolicy::TransientHandle => {},
            RefCountPolicy::InheritExistingCounts => {},
            RefCountPolicy::InitialCreation => {
                collector.increment_handle_count();
            },
            RefCountPolicy::FromExistingHandle => {
                collector.increment_reference_count(data_ref);
            },
        }
        let pre_invalidated = matches!(ref_cnt_policy, RefCountPolicy::TransientHandle);
        Self { data_ref, invalidated: pre_invalidated }
    }

    /// Gives the handle up: see `Collector::drop_handle`.
    pub fn invalidate(&mut self, collector: &mut Collector)
        requires
            old(collector).wf(),
            old(self).target() < old(collector).size(),
            old(self).live() ==> old(collector).outside_handles(old(self).target()) >= 1,
        ensures
            final(collector).wf(),
            old(collector).handle_dropped(*old(self), final(collector), *final(self)),
            old(collector).handles_moved(
                final(collector),
                old(self).target(),
                if old(self).live() {
                    -1int
                } else {
                    0int
                },
            ),
    {
        collector.drop_handle(self);
    }
}

impl Collector {
    /// The allocation that `track` makes of `data` with release action
    /// `action`.
    pub open(crate) spec fn fresh_allocation(data: Payload, action: DeallocationAction) ->
        GcAllocation {
        GcAllocation { payload: data, deallocation_action: action, releases: 0 }
    }

    /// The record that `track` makes for `allocation`: nobody holds its
    /// lockout, its release has not begun, and it counts one handle and is
    /// marked as rooted.
    pub open(crate) spec fn fresh_record(allocation: GcAllocation) -> GcData {
        GcData {
            lockout: Lockout { count: 0 },
            deallocated: false,
            ref_cnt: GcRefCount {
                count_positive: 1,
                count_negative: 0,
                found_internally: ROOT_OVERRIDE_VALUE,
            },
            underlying_allocation: allocation,
        }
    }

    /// `data` can be put under management: mutators hold the handles and
    /// slots that it owns, none of its handles is invalidated, and the list
    /// has room.
    pub open spec fn can_track(&self, data: Payload) -> bool {
        &&& data.all_live()
        &&& self.can_adopt(data.targets())
        &&& self.tracked_count() < usize::MAX
    }

    /// The record that cyclic initialization leaves for `data`: as a fresh
    /// record, but with a count of two, one for the handle that was returned
    /// and one for the handle that the initializer was given.
    pub open(crate) spec fn initialized_record(data: Payload, action: DeallocationAction) ->
        GcData {
        GcData {
            lockout: Lockout { count: 0 },
            deallocated: false,
            ref_cnt: GcRefCount {
                count_positive: 2,
                count_negative: 0,
                found_internally: ROOT_OVERRIDE_VALUE,
            },
            underlying_allocation: Self::fresh_allocation(data, action),
        }
    }

    /// `post` is `self` with `record` added at the end and put into the slot
    /// of the list that was next to be used. The count of live handles is
    /// left open.
    pub open(crate) spec fn record_added(&self, record: GcData, post: &Self) -> bool {
        let id = self.records.len();
        &&& post.records@ == self.records@.push(record)
        &&& post.index@.dom().contains(id)
        &&& post.index@ == self.index@.insert(id, post.index@[id])
        &&& post.index@[id] == self.tracked_data.next_slot()
        &&& !self.tracked_data@.dom().contains(post.index@[id])
        &&& post.tracked_data@ == self.tracked_data@.insert(post.index@[id], id)
        &&& post.tracked_data.free_slots() == self.tracked_data.free_slots_after_insert()
        &&& post.tracked_data.chunk_count() == self.tracked_data.chunk_count_after_insert()
        &&& post.tracked_data.wf()
        &&& post.atomic_spinlock == self.atomic_spinlock
        &&& post.trigger == self.trigger
        &&& post.dropper == self.dropper
    }

    /// What tracking `allocation` does: a new record at the end, in a slot
    /// of the list that was free, and one more live handle.
    pub open(crate) spec fn tracked_from(
        &self,
        allocation: GcAllocation,
        post: &Self,
        handle: InternalGcRef,
    ) -> bool {
        &&& handle.data_ref == self.records.len()
        &&& !handle.invalidated
        &&& self.record_added(Self::fresh_record(allocation), post)
        &&& post.live_handle_count == wrapping_inc(self.live_handle_count)
    }

    /// `targets` can be taken in by a new allocation that may refer to
    /// itself: mutators hold that many references to each older allocation,
    /// and the new one is referred to at most `own` times.
    pub open spec fn can_adopt_cyclic(&self, targets: Seq<usize>, own: nat) -> bool {
        &&& forall|k: int|
            0 <= k < targets.len() ==> (#[trigger] targets[k]) <= self.size() && (targets[k]
                < self.size() ==> self.is_tracked(targets[k]))
        &&& forall|t: usize|
            t < self.size() ==> #[trigger] count_of(targets, t) <= self.outside_handles(t)
        &&& forall|t: usize| t == self.size() ==> #[trigger] count_of(targets, t) <= own
    }

    /// What `drop_handle` does: a live handle is invalidated and gives its
    /// count back; an invalidated one changes nothing.
    pub open spec fn handle_dropped(
        &self,
        handle: InternalGcRef,
        post: &Self,
        handle_after: InternalGcRef,
    ) -> bool {
        &&& !handle_after.live()
        &&& handle_after.target() == handle.target()
        &&& if handle.live() {
            self.counted_down(handle.target(), post)
        } else {
            *post == *self
        }
    }

    /// Puts `data` under management; on release its destructor runs.
    pub fn track_with_drop(&mut self, data: Payload) -> (handle: InternalGcRef)
        requires
            old(self).wf(),
            old(self).can_track(data),
        ensures
            final(self).wf(),
            old(self).tracked_from(
                Self::fresh_allocation(data, DeallocationAction::RunDrop),
                final(self),
                handle,
            ),
            old(self).adopted(final(self), handle.target(), data.targets(), 1),
            final(self).payload(handle.target()) == data,
    {
        let gc_data_ptr = GcAllocation::allocate_with_drop(data);
        self.track(gc_data_ptr)
    }

    /// Puts `data` under management; on release nothing runs.
    pub fn track_with_no_drop(&mut self, data: Payload) -> (handle: InternalGcRef)
        requires
            old(self).wf(),
            old(self).can_track(data),
        ensures
            final(self).wf(),
            old(self).tracked_from(
                Self::fresh_allocation(data, DeallocationAction::DoNothing),
                final(self),
                handle,
            ),
            old(self).adopted(final(self), handle.target(), data.targets(), 1),
            final(self).payload(handle.target()) == data,
    {
        let gc_data_ptr = GcAllocation::allocate_no_drop(data);
        self.track(gc_data_ptr)
    }

    /// Puts `data` under management; on release its finalizer runs.
    pub fn track_with_finalization(&mut self, data: Payload) -> (handle: InternalGcRef)
        requires
            old(self).wf(),
            old(self).can_track(data),
        ensures
            final(self).wf(),
            old(self).tracked_from(
                Self::fresh_allocation(data, DeallocationAction::RunFinalizer),
                final(self),
                handle,
            ),
            old(self).adopted(final(self), handle.target(), data.targets(), 1),
            final(self).payload(handle.target()) == data,
    {
        let gc_data_ptr = GcAllocation::allocate_with_finalization(data);
        self.track(gc_data_ptr)
    }

    /// Puts boxed `data` under management; on release the box is dropped.
    pub fn track_boxed_value(&mut self, data: Box<Payload>) -> (handle: InternalGcRef)
        requires
            old(self).wf(),
            old(self).can_track(*data),
        ensures
            final(self).wf(),
            old(self).tracked_from(
                Self::fresh_allocation(*data, DeallocationAction::BoxDrop),
                final(self),
                handle,
            ),
            old(self).adopted(final(self), handle.target(), data.targets(), 1),
            final(self).payload(handle.target()) == *data,
    {
        let gc_data_ptr = GcAllocation::from_box(data);
        self.track(gc_data_ptr)
    }

    /// The live handle to allocation `id`.
    pub open(crate) spec fn live_handle_to(id: usize) -> InternalGcRef {
        InternalGcRef { data_ref: id, invalidated: false }
    }

    /// What cyclic initialization does: a new record at the end, in a slot
    /// of the list that was free, released by `action`, with a count of two;
    /// and two more live handles.
    pub open(crate) spec fn initialized_from(
        &self,
        action: DeallocationAction,
        post: &Self,
        handle: InternalGcRef,
    ) -> bool {
        let id = self.records.len();
        &&& handle.data_ref == id
        &&& !handle.invalidated
        &&& self.record_added(
            Self::initialized_record(post.records@[id as int].underlying_allocation.payload,
                action),
            post,
        )
        &&& post.live_handle_count == wrapping_inc(wrapping_inc(self.live_handle_count))
    }

    /// `init_function` can initialize the next allocation: it accepts a live
    /// handle to that allocation, and whatever data it returns owns only
    /// live handles, refers to the new allocation at most once, through the
    /// handle it was given, and otherwise to what mutators hold.
    pub open spec fn can_initialize<F: FnOnce(InternalGcRef) -> Payload>(
        &self,
        init_function: F,
    ) -> bool {
        &&& self.tracked_count() < usize::MAX
        &&& forall|h: InternalGcRef|
            h.target() == self.size() && h.live() ==> #[trigger] init_function.requires((h,))
        &&& forall|h: InternalGcRef, p: Payload| #[trigger]
            init_function.ensures((h,), p) ==> p.all_live() && self.can_adopt_cyclic(
                p.targets(),
                1,
            )
    }

    /// Makes an allocation whose data may refer to the allocation itself:
    /// `init_function` is given a handle to the new allocation and returns
    /// the data, which is released by its destructor. While the function
    /// runs, the allocation is locked out exclusively.
    pub fn track_with_initializer<F: FnOnce(InternalGcRef) -> Payload>(
        &mut self,
        init_function: F,
    ) -> (handle: InternalGcRef)
        requires
            old(self).wf(),
            old(self).can_initialize(init_function),
        ensures
            final(self).wf(),
            old(self).initialized_from(DeallocationAction::RunDrop, final(self), handle),
            old(self).adopted(
                final(self),
                handle.target(),
                final(self).payload(handle.target()).targets(),
                2,
            ),
            init_function.ensures(
                (Self::live_handle_to(handle.target()),),
                final(self).payload(handle.target()),
            ),
    {
        let gc_allocation = GcAllocation::allocate_uninitialized_with_drop();
        self.initialize_and_track(init_function, gc_allocation)
    }

    /// As `track_with_initializer`, for data that is released by its
    /// finalizer.
    pub fn track_with_initializer_and_finalize<F: FnOnce(InternalGcRef) -> Payload>(
        &mut self,
        init_function: F,
    ) -> (handle: InternalGcRef)
        requires
            old(self).wf(),
            old(self).can_initialize(init_function),
        ensures
            final(self).wf(),
            old(self).initialized_from(DeallocationAction::RunFinalizer, final(self), handle),
            old(self).adopted(
                final(self),
                handle.target(),
                final(self).payload(handle.target()).targets(),
                2,
            ),
            init_function.ensures(
                (Self::live_handle_to(handle.target()),),
                final(self).payload(handle.target()),
            ),
    {
        let gc_allocation = GcAllocation::allocate_uninitialized_with_finalization();
        self.initialize_and_track(init_function, gc_allocation)
    }

    /// Puts the uninitialized `gc_allocation` into the list under an
    /// exclusive warrant, has `init_function` make the data from a handle to
    /// it, writes the data, and gives the warrant back.
    fn initialize_and_track<F: FnOnce(InternalGcRef) -> Payload>(
        &mut self,
        init_function: F,
        gc_allocation: GcAllocation,
    ) -> (reference: InternalGcRef)
        requires
            old(self).wf(),
            old(self).can_initialize(init_function),
            gc_allocation.release_runs() == 0,
        ensures
            final(self).wf(),
            old(self).initialized_from(gc_allocation.action(), final(self), reference),
            old(self).adopted(
                final(self),
                reference.target(),
                final(self).payload(reference.target()).targets(),
                2,
            ),
            init_function.ensures(
                (Self::live_handle_to(reference.target()),),
                final(self).payload(reference.target()),
            ),
    {
        let id = self.records.len();
        let mut gc_data = GcData {
            underlying_allocation: gc_allocation,
            lockout: Lockout::new(),
            deallocated: false,
            ref_cnt: GcRefCount::new(1),
        };
        // Nobody else may reach the data before it is written.
        let warrant = gc_data.lockout.try_take_exclusive_warrant();
        self.records.push(gc_data);

        let gc_handle = self.tracked_data.insert(id);
        proof {
            self.index = Ghost(self.index@.insert(id, gc_handle.slot()));
        }
        let reference = InternalGcRef::new(self, gc_handle.v, RefCountPolicy::InitialCreation);

        let handle_for_data = InternalGcRef::new(self, id, RefCountPolicy::FromExistingHandle);
        let t = init_function(handle_for_data);
        let _ = self.records[id].underlying_allocation.initialize(t);

        warrant.unwrap().release(&mut self.records[id].lockout);
        proof {
            let record = Self::initialized_record(t, gc_allocation.action());
            assert(self.records@ =~= old(self).records@.push(record));
            assert(old(self).can_adopt_cyclic(t.targets(), 2));
            old(self).lemma_record_added(record, self);
            let _ = self.records@[reference.data_ref as int];
        }
        reference
    }

    /// Makes the record of `gc_data_ptr`, with a count of one for the handle
    /// that is returned, and puts it into the list.
    fn track(&mut self, gc_data_ptr: GcAllocation) -> (res: InternalGcRef)
        requires
            old(self).wf(),
            gc_data_ptr.release_runs() == 0,
            old(self).can_track(gc_data_ptr.contents()),
        ensures
            final(self).wf(),
            old(self).tracked_from(gc_data_ptr, final(self), res),
            old(self).adopted(final(self), res.target(), gc_data_ptr.contents().targets(), 1),
            final(self).payload(res.target()) == gc_data_ptr.contents(),
    {
        let id = self.records.len();
        self.records.push(
            GcData {
                underlying_allocation: gc_data_ptr,
                lockout: Lockout::new(),
                deallocated: false,
                ref_cnt: GcRefCount::new(1),
            },
        );
        let item = self.tracked_data.insert(id);
        proof {
            self.index = Ghost(self.index@.insert(id, item.slot()));
        }
        let res = InternalGcRef::new(self, item.v, RefCountPolicy::InitialCreation);
        proof {
            old(self).lemma_adopt_is_cyclic_adopt(gc_data_ptr.contents().targets(), 1);
            old(self).lemma_record_added(Self::fresh_record(gc_data_ptr), self);
            let _ = self.records@[res.data_ref as int];
        }
        res
    }

    /// After a record was added the collector is well formed, provided that
    /// the record is in order by itself and mutators held what its data
    /// refers to. Every older allocation then has as many fewer outside
    /// handles as the new data refers to it.
    pub(crate) proof fn lemma_record_added(&self, record: GcData, post: &Self)
        requires
            self.wf_core(),
            self.record_added(record, post),
            record.lockout.wf(),
            record.lockout@ != LockoutState::CollectorExclusive,
            record.ref_cnt.wf(),
            !record.deallocated,
            record.underlying_allocation.releases == 0,
            record.underlying_allocation.payload.all_live(),
            self.can_adopt_cyclic(
                record.underlying_allocation.payload.targets(),
                record.ref_cnt.count() as nat,
            ),
        ensures
            post.wf_core(),
            self.wf() && post.atomic_spinlock == self.atomic_spinlock
                && !record.lockout.exclusively_held() ==> post.wf(),
            post.size() == self.size() + 1,
            self.adopted(
                post,
                self.records.len(),
                record.underlying_allocation.payload.targets(),
                record.ref_cnt.count(),
            ),
    {
        let id = self.records.len();
        let targets = record.underlying_allocation.payload.targets();
        let slot = post.index@[id];
        assert(post.edge_table() =~= self.edge_table().push(targets));
        assert forall|t: usize| t < post.size() implies #[trigger] post.incoming(t) == (if t
            == id {
            0nat
        } else {
            self.incoming(t)
        }) + count_of(targets, t) by {
            lemma_indegree_push(self.edge_table(), Set::full(), targets, t);
            if t == id {
                assert forall|i: int| 0 <= i < self.edge_table().len() implies !(
                #[trigger] self.edge_table()[i]).contains(t) by {
                    assert(self.record_ok(i));
                    let e = self.edge_table()[i];
                    if e.contains(t) {
                        let k = choose|k: int| 0 <= k < e.len() && e[k] == t;
                        assert(e[k] < self.size());
                    }
                }
                lemma_indegree_none(self.edge_table(), Set::full(), self.edge_table().len(), t);
            }
        }
        assert(post.index_ok()) by {
            assert forall|other: usize| #[trigger]
                post.index@.dom().contains(other) implies other < post.size()
                && post.tracked_data@.contains_pair(post.index@[other], other) by {
                if other != id {
                    assert(self.index@.dom().contains(other));
                    assert(self.tracked_data@.contains_pair(self.index@[other], other));
                }
            }
            assert forall|p: (usize, usize)| #[trigger]
                post.tracked_data@.dom().contains(p) implies post.index@.dom().contains(
                post.tracked_data@[p],
            ) && post.index@[post.tracked_data@[p]] == p by {
                if p != slot {
                    assert(self.tracked_data@.dom().contains(p));
                }
            }
        }
        assert forall|i: int| 0 <= i < post.size() implies #[trigger] post.record_ok(i) by {
            if i < self.size() {
                assert(self.record_ok(i));
                assert(post.records@[i] == self.records@[i]);
                if post.index@.dom().contains(i as usize) {
                    assert(self.index@.dom().contains(i as usize));
                }
            }
        }
        assert(post.counts_ok(Seq::empty())) by {
            assert forall|t: usize| t < post.size() implies #[trigger] post.incoming(t) + count_of(
                Seq::<usize>::empty(),
                t,
            ) <= post.ref_count(t) by {
                if t != id {
                    assert(self.incoming(t) + count_of(Seq::<usize>::empty(), t) <= self.ref_count(
                        t,
                    ));
                    assert(count_of(targets, t) <= self.outside_handles(t));
                } else {
                    assert(count_of(targets, t) <= record.ref_cnt.count());
                }
            }
        }
        assert(post.condemned() == self.condemned());
        assert(post.batch_ok(post.condemned())) by {
            let batch = self.condemned();
            assert forall|j: int| 0 <= j < batch.len() implies {
                &&& (#[trigger] batch[j]) < post.size()
                &&& !post.index@.dom().contains(batch[j])
                &&& post.records@[batch[j] as int].underlying_allocation.releases == 0
            } by {
                assert(batch[j] < self.size());
            }
            assert forall|i: int|
                0 <= i < post.size() && !post.index@.dom().contains(i as usize) && (
                #[trigger] post.records@[i]).underlying_allocation.releases == 0
                    implies batch.contains(
                i as usize,
            ) by {
                assert(i < self.size());
                assert(self.records@[i].underlying_allocation.releases == 0);
            }
        }
        if self.wf() && !record.lockout.exclusively_held() {
            assert forall|i: int| 0 <= i < post.size() implies !(
            #[trigger] post.records@[i]).lockout.exclusively_held() by {
                if i < self.size() {
                    assert(!self.records@[i].lockout.exclusively_held());
                }
            }
        }
    }

    /// Mutators that hold what `targets` refers to hold it too when the new
    /// allocation is not referred to at all.
    pub(crate) proof fn lemma_adopt_is_cyclic_adopt(&self, targets: Seq<usize>, own: nat)
        requires
            self.can_adopt(targets),
        ensures
            self.can_adopt_cyclic(targets, own),
    {
        assert forall|t: usize| t == self.size() implies #[trigger] count_of(targets, t)
            <= own by {
            if targets.contains(t) {
                let k = choose|k: int| 0 <= k < targets.len() && targets[k] == t;
                assert(targets[k] < self.size());
            }
            lemma_count_contains(targets, t);
        }
        assert forall|k: int| 0 <= k < targets.len() implies #[trigger] targets[k]
            <= self.size() by {
            assert(targets[k] < self.size());
        }
    }

    /// Invalidates `handle` and, if it was live, gives its count back. A
    /// second call on the same handle does nothing.
    pub fn drop_handle(&mut self, handle: &mut InternalGcRef)
        requires
            old(self).wf(),
            old(handle).target() < old(self).size(),
            old(handle).live() ==> old(self).outside_handles(old(handle).target()) >= 1,
        ensures
            final(self).wf(),
            old(self).handle_dropped(*old(handle), final(self), *final(handle)),
            old(self).handles_moved(
                final(self),
                old(handle).target(),
                if old(handle).live() {
                    -1int
                } else {
                    0int
                },
            ),
    {
        let was_invalidated = handle.invalidated;
        handle.invalidated = true;
        if !was_invalidated {
            proof {
                assert(self.record_ok(handle.data_ref as int));
            }
            self.decrement_reference_count(handle.data_ref);
            proof {
                old(self).lemma_counted_down(handle.data_ref, self);
            }
        }
    }

    /// One more handle to the allocation of `handle`.
    pub fn clone_handle(&mut self, handle: &InternalGcRef) -> (res: InternalGcRef)
        requires
            old(self).wf(),
            handle.target() < old(self).size(),
            old(self).positive_count(handle.target()) < i64::MAX,
        ensures
            final(self).wf(),
            old(self).counted_up(handle.target(), final(self)),
            old(self).handles_moved(final(self), handle.target(), 1),
            res.target() == handle.target(),
            res.live(),
    {
        let res = InternalGcRef::new(self, handle.data_ref, RefCountPolicy::FromExistingHandle);
        proof {
            old(self).lemma_counted_up(handle.data_ref, self);
        }
        res
    }
}

} // verus!
