use crate::collector::{Collector, InternalGcRef, RefCountPolicy};
use vstd::prelude::*;

verus! {

/// A slot that holds a reference to one allocation and can be read and
/// rewritten in one step.
///
/// The slot owns one count of the allocation it refers to, exactly as a
/// handle would: storing moves a count into the slot and the displaced count
/// out of it. Every operation holds the lock that keeps collections out for
/// as long as it takes.
#[derive(Debug)]
pub struct AtomicGc {
    pub(crate) atomic_ptr: usize,
}

/// What a failed `compare_exchange` hands back.
#[derive(Debug)]
pub struct CompareExchangeError {
    /// a new handle to the allocation that the slot referred to
    pub current: InternalGcRef,
    /// the handle that was to be stored
    pub new: InternalGcRef,
}

impl AtomicGc {
    /// The allocation that the slot refers to.
    pub open(crate) spec fn referent(&self) -> usize {
        self.atomic_ptr
    }

    /// `handle` can go into a slot: it is live, and the release of its
    /// allocation has not begun.
    pub open spec fn storable(collector: &Collector, handle: InternalGcRef) -> bool {
        &&& handle.live()
        &&& handle.target() < collector.size()
        &&& !collector.is_deallocated(handle.target())
    }

    /// What `load` does: a new live handle to the allocation that the slot
    /// refers to, counted.
    pub open spec fn loaded(&self, pre: &Collector, post: &Collector, res: InternalGcRef) -> bool {
        &&& res.target() == self.referent()
        &&& res.live()
        &&& pre.counted_up(self.referent(), post)
    }

    /// What `store` does: the slot refers to the allocation of `new`, whose
    /// count it takes over, and the count that it held before is given back.
    pub open spec fn stored(
        &self,
        pre: &Collector,
        new: InternalGcRef,
        after: &Self,
        post: &Collector,
    ) -> bool {
        &&& after.referent() == new.target()
        &&& pre.counted_down(self.referent(), post)
    }

    /// What `swap` does: the slot refers to the allocation of `new`, whose
    /// count it takes over, and the handle returned takes over the count
    /// that the slot held before.
    pub open spec fn swapped(&self, new: InternalGcRef, after: &Self, res: InternalGcRef) -> bool {
        &&& after.referent() == new.target()
        &&& res.target() == self.referent()
        &&& res.live()
    }

    /// Whether `handle` can go into a slot now.
    pub fn is_storable(collector: &Collector, handle: &InternalGcRef) -> (ok: bool)
        ensures
            ok == Self::storable(collector, *handle),
    {
        !handle.is_invalidated() && handle.data() < collector.allocation_count()
            && !collector.is_deallocation_started(handle.data())
    }

    /// The allocation that the slot refers to.
    pub fn referent_id(&self) -> (id: usize)
        ensures
            id == self.referent(),
    {
        self.atomic_ptr
    }

    /// A slot that refers to the allocation of `data` and takes its count
    /// over.
    pub fn new(collector: &Collector, data: InternalGcRef) -> (slot: Self)
        requires
            Self::storable(collector, data),
        ensures
            slot.referent() == data.target(),
    {
        let mut data = data;
        let atomic_ptr = data.data();
        // The handle is forgotten; the slot absorbs its count.
        data.invalidate_without_touching_reference_counts();
        Self { atomic_ptr }
    }

    /// A new handle to the allocation that the slot refers to.
    pub fn load(&self, collector: &mut Collector) -> (res: InternalGcRef)
        requires
            old(collector).wf(),
            self.referent() < old(collector).size(),
            old(collector).positive_count(self.referent()) < i64::MAX,
        ensures
            final(collector).wf(),
            self.loaded(old(collector), final(collector), res),
            old(collector).handles_moved(final(collector), self.referent(), 1),
    {
        let collection_blocker = collector.get_collection_blocker_spinlock();
        let gc_data_ptr = self.atomic_ptr;
        let internal_handle = InternalGcRef::new(
            collector,
            gc_data_ptr,
            RefCountPolicy::FromExistingHandle,
        );
        collection_blocker.release(&mut collector.atomic_spinlock);
        proof {
            old(collector).lemma_counted_up(gc_data_ptr, collector);
        }
        internal_handle
    }

    /// Puts the allocation of `new` into the slot, which takes the count of
    /// `new` over, and gives back the count of the allocation displaced.
    pub fn store(&mut self, collector: &mut Collector, new: InternalGcRef)
        requires
            old(collector).wf(),
            Self::storable(old(collector), new),
            old(self).referent() < old(collector).size(),
            old(collector).outside_handles(old(self).referent()) >= 1,
        ensures
            final(collector).wf(),
            old(self).stored(old(collector), new, final(self), final(collector)),
            old(collector).handles_moved(final(collector), old(self).referent(), -1),
    {
        let mut new = new;
        let raw_data_ptr = new.data();
        let collection_blocker = collector.get_collection_blocker_spinlock();
        // The slot absorbs the count of what is stored.
        new.invalidate_without_touching_reference_counts();
        let old_data = self.atomic_ptr;
        self.atomic_ptr = raw_data_ptr;
        // The count of what leaves the slot goes down.
        proof {
            assert(old(collector).record_ok(old_data as int));
        }
        collector.decrement_reference_count(old_data);
        collection_blocker.release(&mut collector.atomic_spinlock);
        proof {
            old(collector).lemma_counted_down(old_data, collector);
        }
    }

    /// Puts the allocation of `new` into the slot, which takes the count of
    /// `new` over, and returns a handle that takes over the count of the
    /// allocation displaced.
    pub fn swap(&mut self, collector: &mut Collector, new: InternalGcRef) -> (res: InternalGcRef)
        requires
            old(collector).wf(),
            Self::storable(old(collector), new),
            old(self).referent() < old(collector).size(),
        ensures
            *final(collector) == *old(collector),
            old(self).swapped(new, final(self), res),
    {
        let mut new = new;
        let raw_data_ptr = new.data();
        let collection_blocker = collector.get_collection_blocker_spinlock();
        let old_data_ptr = self.atomic_ptr;
        self.atomic_ptr = raw_data_ptr;
        // The slot absorbs the count of what is stored.
        new.invalidate_without_touching_reference_counts();
        // What was in the slot goes out with the count that the slot held.
        let internal_handle = InternalGcRef::new(
            collector,
            old_data_ptr,
            RefCountPolicy::InheritExistingCounts,
        );
        collection_blocker.release(&mut collector.atomic_spinlock);
        internal_handle
    }

    /// Puts the allocation of `new` into the slot if the slot refers to the
    /// allocation of `current`; the two are compared by identity. On success
    /// the slot takes the count of `new` over and the handle returned takes
    /// over the count of the allocation displaced. On failure the slot stays
    /// as it is, and `new` comes back untouched beside a new handle to the
    /// allocation that the slot refers to.
    pub fn compare_exchange(
        &mut self,
        collector: &mut Collector,
        current: &InternalGcRef,
        new: InternalGcRef,
    ) -> (res: Result<InternalGcRef, CompareExchangeError>)
        requires
            old(collector).wf(),
            Self::storable(old(collector), new),
            old(self).referent() < old(collector).size(),
            old(collector).positive_count(old(self).referent()) < i64::MAX,
        ensures
            final(collector).wf(),
            res.is_ok() <==> old(self).referent() == current.target(),
            match res {
                Ok(previous) => {
                    &&& old(self).swapped(new, final(self), previous)
                    &&& *final(collector) == *old(collector)
                },
                Err(e) => {
                    &&& final(self).referent() == old(self).referent()
                    &&& e.new == new
                    &&& old(self).loaded(old(collector), final(collector), e.current)
                    &&& old(collector).handles_moved(final(collector), old(self).referent(), 1)
                },
            },
    {
        let guess_ptr = current.data();
        let new_ptr = new.data();
        let collection_blocker = collector.get_collection_blocker_spinlock();
        let res = if self.atomic_ptr == guess_ptr {
            let old_data = self.atomic_ptr;
            self.atomic_ptr = new_ptr;
            // The slot absorbs the count of what is stored.
            let mut new = new;
            new.invalidate_without_touching_reference_counts();
            // What was in the slot goes out with the count that the slot held.
            let internal_handle = InternalGcRef::new(
                collector,
                old_data,
                RefCountPolicy::InheritExistingCounts,
            );
            Ok(internal_handle)
        } else {
            let internal_handle = InternalGcRef::new(
                collector,
                self.atomic_ptr,
                RefCountPolicy::FromExistingHandle,
            );
            Err(CompareExchangeError { current: internal_handle, new })
        };
        collection_blocker.release(&mut collector.atomic_spinlock);
        proof {
            if old(self).referent() != current.target() {
                old(collector).lemma_counted_up(old(self).referent(), collector);
            }
        }
        res
    }

    /// A transient handle to the allocation that the slot refers to, for a
    /// scan to report: it counts for nothing. The slot is read under the
    /// lock that keeps collections out.
    pub fn scan(&self, collector: &mut Collector) -> (res: InternalGcRef)
        requires
            old(collector).wf(),
            self.referent() < old(collector).size(),
        ensures
            *final(collector) == *old(collector),
            res.target() == self.referent(),
            !res.live(),
    {
        let collection_blocker = collector.get_collection_blocker_spinlock();
        let gc_data_ptr = self.atomic_ptr;
        let internal_handle = InternalGcRef::new(
            collector,
            gc_data_ptr,
            RefCountPolicy::TransientHandle,
        );
        collection_blocker.release(&mut collector.atomic_spinlock);
        internal_handle
    }

    /// Ends the slot and gives back the count that it held.
    pub fn drop_slot(self, collector: &mut Collector)
        requires
            old(collector).wf(),
            self.referent() < old(collector).size(),
            old(collector).outside_handles(self.referent()) >= 1,
        ensures
            final(collector).wf(),
            old(collector).counted_down(self.referent(), final(collector)),
            old(collector).handles_moved(final(collector), self.referent(), -1),
    {
        proof {
            assert(collector.record_ok(self.atomic_ptr as int));
        }
        collector.decrement_reference_count(self.atomic_ptr);
        proof {
            old(collector).lemma_counted_down(self.atomic_ptr, collector);
        }
    }
}

} // verus!
