use crate::collector::allocation::{DeallocationAction, GcAllocation, Payload};
use crate::collector::data::GcData;
use crate::collector::graph::{count_of, lemma_indegree_update};
use crate::collector::{Collector, GcGuardWarrant, InternalGcRef};
use crate::concurrency::atomic_protection::APSInclusiveGuard;
use crate::concurrency::lockout::{Lockout, LockoutState};
use vstd::prelude::*;

verus! {

impl Collector {
    /// A shared warrant on the data of `id` can be had: its release has not
    /// begun, and its lockout has room for one more holder.
    pub open spec fn can_take_warrant(&self, id: usize) -> bool {
        &&& id < self.size()
        &&& !self.is_deallocated(id)
        &&& self.lockout_shared_holders(id) < Lockout::max_shared()
    }

    /// The number of shared warrants out on the data of `id`.
    pub open(crate) spec fn lockout_shared_holders(&self, id: usize) -> nat {
        self.records@[id as int].lockout.shared_holders()
    }

    /// Nothing differs between `self` and `post` but the count of the
    /// lockout of `id`, which is `count`.
    pub open(crate) spec fn lockout_set(&self, id: usize, count: u64, post: &Self) -> bool {
        &&& post.records@ == self.records@.update(
            id as int,
            GcData { lockout: Lockout { count }, ..self.records@[id as int] },
        )
        &&& post.live_handle_count == self.live_handle_count
        &&& post.atomic_spinlock == self.atomic_spinlock
        &&& post.trigger == self.trigger
        &&& post.dropper == self.dropper
        &&& post.tracked_data == self.tracked_data
        &&& post.index == self.index
    }

    /// What `get_data_warrant` does: one more shared holder of the lockout
    /// of `id`, nothing else.
    pub open spec fn warrant_taken(&self, id: usize, post: &Self) -> bool {
        self.lockout_set(id, (self.lockout_shared_holders(id) + 1) as u64, post)
    }

    /// What `release_data_warrant` does: one shared holder of the lockout of
    /// `id` less, nothing else.
    pub open spec fn warrant_released(&self, id: usize, post: &Self) -> bool {
        self.lockout_set(id, (self.lockout_shared_holders(id) - 1) as u64, post)
    }

    /// Nothing differs between `self` and `post` but the data of `id`, which
    /// is `data`.
    pub open(crate) spec fn payload_replaced(&self, id: usize, data: Payload, post: &Self) -> bool {
        &&& post.records@ == self.records@.update(
            id as int,
            GcData {
                underlying_allocation: GcAllocation {
                    payload: data,
                    ..self.records@[id as int].underlying_allocation
                },
                ..self.records@[id as int]
            },
        )
        &&& post.live_handle_count == self.live_handle_count
        &&& post.atomic_spinlock == self.atomic_spinlock
        &&& post.trigger == self.trigger
        &&& post.dropper == self.dropper
        &&& post.tracked_data == self.tracked_data
        &&& post.index == self.index
    }

    /// `data` can take the place of the data of `id`: none of its handles
    /// is invalidated, and mutators hold whatever it refers to more often
    /// than the data it replaces.
    pub open spec fn can_replace(&self, id: usize, data: Payload) -> bool {
        &&& id < self.size()
        &&& !self.is_deallocated(id)
        &&& data.all_live()
        &&& forall|k: int|
            0 <= k < data.targets().len() ==> (#[trigger] data.targets()[k]) < self.size()
                && self.is_tracked(data.targets()[k])
        &&& forall|t: usize|
            t < self.size() ==> #[trigger] count_of(data.targets(), t) <= self.outside_handles(t)
                + count_of(self.payload(id).targets(), t)
    }

    /// Whether a warrant on the data that `handle` refers to can be taken
    /// now.
    pub fn warrant_available(&self, handle: &InternalGcRef) -> (available: bool)
        requires
            self.wf(),
        ensures
            available == self.can_take_warrant(handle.target()),
    {
        let id = handle.data_ref;
        if id >= self.records.len() {
            return false;
        }
        proof {
            assert(self.record_ok(id as int));
            assert(!self.records@[id as int].lockout.exclusively_held());
        }
        !self.records[id].deallocated && self.records[id].lockout.is_free_for_shared()
    }

    /// Whether `handle` can be cloned now: it refers to an allocation of
    /// this collector whose count has room for one more handle.
    pub fn clone_available(&self, handle: &InternalGcRef) -> (available: bool)
        ensures
            available == (handle.target() < self.size() && self.positive_count(handle.target())
                < i64::MAX),
    {
        let id = handle.data_ref;
        id < self.records.len() && self.records[id].ref_cnt.has_room()
    }

    /// Takes a shared warrant on the data that `handle` refers to. The
    /// collector keeps that allocation, and whatever it refers to, for as
    /// long as the warrant is out.
    pub fn get_data_warrant(&mut self, handle: &InternalGcRef) -> (warrant: GcGuardWarrant)
        requires
            old(self).wf(),
            old(self).can_take_warrant(handle.target()),
        ensures
            final(self).wf(),
            warrant.subject() == handle.target(),
            old(self).warrant_taken(handle.target(), final(self)),
            old(self).handles_moved(final(self), handle.target(), 0),
            final(self).lockout_shared_holders(handle.target())
                == old(self).lockout_shared_holders(handle.target()) + 1,
    {
        let id = handle.data_ref;
        proof {
            assert(self.record_ok(id as int));
            assert(!self.records@[id as int].lockout.exclusively_held());
        }
        let taken = self.records[id].lockout.take_warrant();
        proof {
            old(self).lemma_lockout_set(id, self);
        }
        GcGuardWarrant { _warrant: taken.unwrap(), data: id }
    }

    /// Gives a shared warrant back.
    pub fn release_data_warrant(&mut self, warrant: GcGuardWarrant)
        requires
            old(self).wf(),
            warrant.subject() < old(self).size(),
            old(self).lockout_shared_holders(warrant.subject()) >= 1,
        ensures
            final(self).wf(),
            old(self).warrant_released(warrant.subject(), final(self)),
            old(self).handles_moved(final(self), warrant.subject(), 0),
            final(self).lockout_shared_holders(warrant.subject())
                == old(self).lockout_shared_holders(warrant.subject()) - 1,
    {
        let id = warrant.data;
        proof {
            assert(self.record_ok(id as int));
        }
        warrant._warrant.release(&mut self.records[id].lockout);
        proof {
            old(self).lemma_lockout_set(id, self);
        }
    }

    /// The data that the warrant gives access to.
    pub fn get_payload(&self, warrant: &GcGuardWarrant) -> (data: &Payload)
        requires
            warrant.subject() < self.size(),
        ensures
            *data == self.payload(warrant.subject()),
    {
        &self.records[warrant.data].underlying_allocation.payload
    }

    /// The data that `handle` refers to, without a warrant. This is for data
    /// in which nothing changes behind a shared reference, so that a scan
    /// and a reader cannot get in each other's way.
    pub fn deref_data(&self, handle: &InternalGcRef) -> (data: &Payload)
        requires
            handle.target() < self.size(),
            !self.is_deallocated(handle.target()),
        ensures
            *data == self.payload(handle.target()),
    {
        &self.records[handle.data_ref].underlying_allocation.payload
    }

    /// A new handle to the allocation of `handle` if its data is of the type
    /// with identity `type_identity`, and nothing otherwise. The data is
    /// looked at under a warrant, which is given back before the call
    /// returns.
    pub fn downcast(&mut self, handle: &InternalGcRef, type_identity: u64) -> (res: Option<
        InternalGcRef,
    >)
        requires
            old(self).wf(),
            old(self).can_take_warrant(handle.target()),
            old(self).positive_count(handle.target()) < i64::MAX,
        ensures
            final(self).wf(),
            res.is_some() <==> old(self).payload(handle.target()).stored_type() == type_identity,
            match res {
                Some(new_handle) => {
                    &&& new_handle.target() == handle.target()
                    &&& new_handle.live()
                    &&& old(self).handles_moved(final(self), handle.target(), 1)
                    &&& final(self).ref_count(handle.target()) == old(self).ref_count(
                        handle.target(),
                    ) + 1
                    &&& final(self).live_handles() == crate::collector::wrapping_inc(
                        old(self).live_handles(),
                    )
                },
                None => old(self).unchanged(final(self)),
            },
            final(self).lockout_state(handle.target()) == old(self).lockout_state(handle.target()),
    {
        let gc_guard = self.get_data_warrant(handle);
        let found = self.get_payload(&gc_guard).type_identity();
        let res = if found == type_identity {
            let new_handle = self.clone_handle(handle);
            Some(new_handle)
        } else {
            None
        };
        self.release_data_warrant(gc_guard);
        proof {
            assert(old(self).record_ok(handle.data_ref as int));
            if res.is_none() {
                assert(self.records@ =~= old(self).records@);
            }
        }
        res
    }

    /// As `downcast`, for data that is reached without a warrant.
    pub fn deref_downcast(&mut self, handle: &InternalGcRef, type_identity: u64) -> (res: Option<
        InternalGcRef,
    >)
        requires
            old(self).wf(),
            handle.target() < old(self).size(),
            !old(self).is_deallocated(handle.target()),
            old(self).positive_count(handle.target()) < i64::MAX,
        ensures
            final(self).wf(),
            res.is_some() <==> old(self).payload(handle.target()).stored_type() == type_identity,
            match res {
                Some(new_handle) => {
                    &&& new_handle.target() == handle.target()
                    &&& new_handle.live()
                    &&& old(self).counted_up(handle.target(), final(self))
                    &&& old(self).handles_moved(final(self), handle.target(), 1)
                },
                None => *final(self) == *old(self),
            },
    {
        if self.deref_data(handle).type_identity() == type_identity {
            let new_handle = self.clone_handle(handle);
            Some(new_handle)
        } else {
            None
        }
    }

    /// Puts `data` in the place of the data that the warrant gives access to
    /// and returns what was there. Handles and slots that `data` owns pass
    /// from the mutator to managed data; those of the data returned pass to
    /// the mutator.
    pub fn replace_payload(&mut self, warrant: &GcGuardWarrant, data: Payload) ->
        (previous: Payload)
        requires
            old(self).wf(),
            old(self).can_replace(warrant.subject(), data),
        ensures
            final(self).wf(),
            previous == old(self).payload(warrant.subject()),
            old(self).payload_replaced(warrant.subject(), data, final(self)),
            final(self).size() == old(self).size(),
            final(self).payload(warrant.subject()) == data,
            forall|t: usize| #[trigger] final(self).is_tracked(t) == old(self).is_tracked(t),
            forall|t: usize|
                t < old(self).size() ==> #[trigger] final(self).outside_handles(t)
                    == old(self).outside_handles(t) + count_of(previous.targets(), t) - count_of(
                    data.targets(),
                    t,
                ),
    {
        let id = warrant.data;
        let previous = self.records[id].underlying_allocation.initialize(data);
        proof {
            old(self).lemma_payload_replaced(id, data, self);
        }
        previous
    }

    /// Sets the growth, in parts per million of the number of allocations
    /// that the last collection left, beyond which a collection is due.
    pub fn set_gc_trigger_percent(&mut self, new_trigger_percent: u64)
        requires
            old(self).wf(),
        ensures
            final(self).wf(),
            final(self).trigger_view().trigger_percent() == new_trigger_percent,
            final(self).trigger_view().handle_deficit_percent()
                == old(self).trigger_view().handle_deficit_percent(),
            final(self).trigger_view().last_count() == old(self).trigger_view().last_count(),
            old(self).same_but_trigger(final(self)),
    {
        self.trigger.set_trigger_percent(new_trigger_percent);
        proof {
            old(self).lemma_same_but_trigger(self);
        }
    }

    /// Takes an inclusive hold of the lock that keeps atomic-slot operations
    /// and collections apart.
    pub(crate) fn get_collection_blocker_spinlock(&mut self) -> (guard: APSInclusiveGuard)
        requires
            old(self).atomic_spinlock.wf(),
            old(self).atomic_spinlock.admits_inclusive(),
        ensures
            final(self).atomic_spinlock.wf(),
            final(self).atomic_spinlock@ == old(self).atomic_spinlock.after_lock_inclusive(),
            final(self).records == old(self).records,
            final(self).live_handle_count == old(self).live_handle_count,
            final(self).trigger == old(self).trigger,
            final(self).dropper == old(self).dropper,
            final(self).tracked_data == old(self).tracked_data,
            final(self).index == old(self).index,
    {
        let guard = self.atomic_spinlock.lock_inclusive();
        guard.unwrap()
    }

    /// After the lockout of one allocation changed hands among mutators the
    /// collector is as well formed as before.
    pub(crate) proof fn lemma_lockout_set(&self, id: usize, post: &Self)
        requires
            self.wf(),
            id < self.size(),
            post.records@[id as int].lockout.wf(),
            !post.records@[id as int].lockout.exclusively_held(),
            self.lockout_set(id, post.records@[id as int].lockout.count, post),
        ensures
            post.wf(),
            post.edge_table() == self.edge_table(),
            self.handles_moved(post, id, 0),
    {
        assert forall|i: int| 0 <= i < self.size() implies {
            &&& (#[trigger] post.records@[i]).underlying_allocation
                == self.records@[i].underlying_allocation
            &&& post.records@[i].lockout.wf()
            &&& post.records@[i].lockout@ != LockoutState::CollectorExclusive
            &&& post.records@[i].deallocated == self.records@[i].deallocated
            &&& post.records@[i].ref_cnt.wf()
        } by {
            assert(self.record_ok(i));
        }
        assert forall|t: usize| t < self.size() implies self.incoming(t) + count_of(
            Seq::<usize>::empty(),
            t,
        ) <= #[trigger] post.ref_count(t) by {
            assert(self.incoming(t) + count_of(Seq::<usize>::empty(), t) <= self.ref_count(t));
        }
        self.lemma_counts_changed(post, Seq::empty(), Seq::empty());
        assert(self.batch_ok(self.condemned()));
        assert forall|i: int| 0 <= i < post.size() implies !(
        #[trigger] post.records@[i]).lockout.exclusively_held() by {
            assert(!self.records@[i].lockout.exclusively_held());
        }
    }

    /// After the data of one allocation was replaced by data that mutators
    /// could hand over the collector is as well formed as before, and the
    /// outside handles of each allocation changed by what the two payloads
    /// refer to.
    pub(crate) proof fn lemma_payload_replaced(&self, id: usize, data: Payload, post: &Self)
        requires
            self.wf_core(),
            self.can_replace(id, data),
            self.payload_replaced(id, data, post),
        ensures
            post.wf_core(),
            self.wf() ==> post.wf(),
            forall|t: usize|
                t < self.size() ==> #[trigger] post.outside_handles(t) == self.outside_handles(t)
                    + count_of(self.payload(id).targets(), t) - count_of(data.targets(), t),
    {
        let before = self.payload(id).targets();
        let after = data.targets();
        assert(post.edge_table() =~= self.edge_table().update(id as int, after));
        assert(self.record_ok(id as int));
        assert forall|t: usize| t < self.size() implies #[trigger] post.incoming(t) + count_of(
            before,
            t,
        ) == self.incoming(t) + count_of(after, t) by {
            lemma_indegree_update(
                self.edge_table(),
                Set::full(),
                id as int,
                after,
                self.edge_table().len(),
                t,
            );
        }
        assert forall|i: int| 0 <= i < post.size() implies #[trigger] post.record_ok(i) by {
            assert(self.record_ok(i));
        }
        assert(post.counts_ok(Seq::empty())) by {
            assert forall|t: usize| t < post.size() implies #[trigger] post.incoming(t) + count_of(
                Seq::<usize>::empty(),
                t,
            ) <= post.ref_count(t) by {
                assert(self.incoming(t) + count_of(Seq::<usize>::empty(), t) <= self.ref_count(t));
                assert(count_of(after, t) <= self.outside_handles(t) + count_of(before, t));
            }
        }
        assert(post.condemned() == self.condemned());
        assert(post.batch_ok(post.condemned())) by {
            let batch = self.condemned();
            assert forall|i: int|
                0 <= i < post.size() && !post.index@.dom().contains(i as usize) && (
                #[trigger] post.records@[i]).underlying_allocation.releases == 0
                    implies batch.contains(
                i as usize,
            ) by {
                assert(self.records@[i].underlying_allocation.releases == 0);
            }
        }
        if self.wf() {
            assert forall|i: int| 0 <= i < post.size() implies !(
            #[trigger] post.records@[i]).lockout.exclusively_held() by {
                assert(!self.records@[i].lockout.exclusively_held());
            }
        }
    }

    /// The number of handles and atomic slots that refer to the allocation
    /// of `handle`.
    pub fn ref_count_of(&self, handle: &InternalGcRef) -> (n: i64)
        requires
            self.wf(),
            handle.target() < self.size(),
        ensures
            n == self.ref_count(handle.target()),
    {
        proof {
            assert(self.record_ok(handle.data_ref as int));
        }
        self.records[handle.data_ref].ref_cnt.snapshot_ref_count()
    }

    /// The number of allocations ever made.
    pub fn allocation_count(&self) -> (n: usize)
        ensures
            n == self.size(),
    {
        self.records.len()
    }

    /// Whether the release of allocation `id` has begun.
    pub fn is_deallocation_started(&self, id: usize) -> (started: bool)
        requires
            id < self.size(),
        ensures
            started == self.is_deallocated(id),
    {
        self.records[id].deallocated
    }

    /// How often the release action of allocation `id` has run.
    pub fn release_runs_of(&self, id: usize) -> (runs: u64)
        requires
            id < self.size(),
        ensures
            runs == self.allocation(id).release_runs(),
    {
        self.records[id].underlying_allocation.releases
    }

    /// The release action of allocation `id`.
    pub fn release_action_of(&self, id: usize) -> (action: DeallocationAction)
        requires
            id < self.size(),
        ensures
            action == self.allocation(id).action(),
    {
        self.records[id].underlying_allocation.deallocation_action
    }

    /// Whether allocation `id` is in the list of tracked allocations.
    pub fn tracks(&self, id: usize) -> (found: bool)
        requires
            self.wf(),
        ensures
            found == self.is_tracked(id),
    {
        let ids = self.tracked_ids();
        let mut k: usize = 0;
        while k < ids.len()
            invariant
                0 <= k <= ids.len(),
                forall|j: int| 0 <= j < k ==> #[trigger] ids@[j] != id,
                forall|j: int|
                    0 <= j < ids@.len() ==> self.index@.dom().contains(#[trigger] ids@[j]),
            decreases ids.len() - k,
        {
            if ids[k] == id {
                proof {
                    assert(self.index@.dom().contains(ids@[k as int]));
                }
                return true;
            }
            k = k + 1;
        }
        proof {
            if self.is_tracked(id) {
                assert(ids@.contains(id));
            }
        }
        false
    }

    /// The trigger.
    pub open(crate) spec fn trigger_view(&self) -> crate::collector::trigger::GcTrigger {
        self.trigger
    }

    /// Nothing differs between `self` and `post` but the trigger.
    pub open(crate) spec fn same_but_trigger(&self, post: &Self) -> bool {
        &&& post.records == self.records
        &&& post.live_handle_count == self.live_handle_count
        &&& post.atomic_spinlock == self.atomic_spinlock
        &&& post.dropper == self.dropper
        &&& post.tracked_data == self.tracked_data
        &&& post.index == self.index
    }

    /// A change of the trigger alone keeps the collector well formed.
    pub(crate) proof fn lemma_same_but_trigger(&self, post: &Self)
        requires
            self.same_but_trigger(post),
        ensures
            self.wf_core() ==> post.wf_core(),
            self.wf() ==> post.wf(),
            post.edge_table() == self.edge_table(),
    {
        assert(post.edge_table() =~= self.edge_table());
        if self.wf_core() {
            assert forall|i: int| 0 <= i < post.size() implies #[trigger] post.record_ok(i) by {
                assert(self.record_ok(i));
            }
            assert forall|t: usize| t < post.size() implies #[trigger] post.incoming(t) + count_of(
                Seq::<usize>::empty(),
                t,
            ) <= post.ref_count(t) by {
                assert(self.incoming(t) + count_of(Seq::<usize>::empty(), t) <= self.ref_count(t));
            }
            assert(post.condemned() == self.condemned());
            assert(self.batch_ok(self.condemned()));
            assert(post.batch_ok(post.condemned()));
        }
    }
}

} // verus!
