use crate::atomic::AtomicGc;
use crate::collector::allocation::lemma_release_targets_bounded;
use crate::collector::data::GcData;
use crate::collector::graph::{count_of, lemma_count_contains, lemma_indegree_update};
use crate::collector::{
    lemma_wrapping_sub_split, wrapping_sub_n, Collector, InternalGcRef,
};
use crate::concurrency::cross_thread_buffer::CrossThreadBuffer;
use vstd::prelude::*;

verus! {

/// What the collector asks of the dropper.
pub enum DropMessage {
    /// release these allocations, running whatever their release action is
    DataToDrop(CrossThreadBuffer<usize>),
    /// work off everything sent before, then report back
    SyncUp,
}

/// The queue through which the collector hands condemned allocations to the
/// party that releases them, and the buffer that comes back for reuse.
pub struct BackgroundDropper {
    /// the messages not yet worked off, oldest first
    pub(crate) messages: Vec<DropMessage>,
    /// at most one emptied buffer, kept for the next collection
    pub(crate) recycled: Option<CrossThreadBuffer<usize>>,
}

impl BackgroundDropper {
    /// The messages not yet worked off, oldest first.
    pub open(crate) spec fn queue(&self) -> Seq<DropMessage> {
        self.messages@
    }

    /// Whether an emptied buffer is kept for reuse.
    pub open(crate) spec fn keeps_buffer(&self) -> bool {
        self.recycled is Some
    }

    /// A buffer kept for reuse is empty.
    pub open(crate) spec fn wf(&self) -> bool {
        match self.recycled {
            Some(buffer) => buffer@.len() == 0,
            None => true,
        }
    }

    pub fn new() -> (s: Self)
        ensures
            s.wf(),
            s.queue() == Seq::<DropMessage>::empty(),
            !s.keeps_buffer(),
    {
        Self { messages: Vec::new(), recycled: None }
    }

    /// Queues a message behind those already waiting.
    pub fn send_msg(&mut self, msg: DropMessage)
        ensures
            final(self).queue() == old(self).queue().push(msg),
            final(self).wf() == old(self).wf(),
            final(self).keeps_buffer() == old(self).keeps_buffer(),
    {
        self.messages.push(msg);
    }

    /// An empty buffer: the recycled one if there is one, else a new one.
    pub fn get_buffer(&mut self) -> (buffer: CrossThreadBuffer<usize>)
        requires
            old(self).wf(),
        ensures
            final(self).wf(),
            buffer@ == Seq::<usize>::empty(),
            final(self).queue() == old(self).queue(),
            !final(self).keeps_buffer(),
    {
        match self.recycled.take() {
            Some(buffer) => buffer,
            None => CrossThreadBuffer::default(),
        }
    }

    /// Takes the oldest message off the queue.
    pub fn next_message(&mut self) -> (msg: Option<DropMessage>)
        ensures
            final(self).wf() == old(self).wf(),
            final(self).keeps_buffer() == old(self).keeps_buffer(),
            match msg {
                Some(m) => old(self).queue().len() > 0 && m == old(self).queue()[0]
                    && final(self).queue() == old(self).queue().subrange(1,
                    old(self).queue().len() as int),
                None => old(self).queue().len() == 0 && final(self).queue() == old(self).queue(),
            },
    {
        if self.messages.len() == 0 {
            None
        } else {
            let msg = self.messages.remove(0);
            assert(self.messages@ =~= old(self).messages@.subrange(
                1,
                old(self).messages@.len() as int,
            ));
            Some(msg)
        }
    }

    /// Empties a buffer that has been worked off and keeps it for reuse,
    /// unless one is kept already.
    pub fn recycle(&mut self, buffer: CrossThreadBuffer<usize>)
        requires
            old(self).wf(),
        ensures
            final(self).wf(),
            final(self).queue() == old(self).queue(),
            final(self).keeps_buffer(),
    {
        let mut buffer = buffer;
        buffer.clear();
        if self.recycled.is_none() {
            self.recycled = Some(buffer);
        }
    }
}

impl Default for BackgroundDropper {
    fn default() -> (s: Self)
        ensures
            s.wf(),
            s.queue() == Seq::<DropMessage>::empty(),
            !s.keeps_buffer(),
    {
        Self::new()
    }
}

/// The number of counts that releasing the allocations of `batch` gives
/// back, with the records as they are in `records`.
pub open(crate) spec fn released_counts(records: Seq<GcData>, batch: Seq<usize>) -> nat
    decreases batch.len(),
{
    if batch.len() == 0 {
        0
    } else {
        released_counts(records, batch.drop_last())
            + records[batch.last() as int].underlying_allocation.release_targets().len()
    }
}

/// The number of counts of allocation `t` that releasing the allocations of
/// `batch` gives back, with the records as they are in `records`.
pub open(crate) spec fn released_refs(records: Seq<GcData>, batch: Seq<usize>, t: usize) -> nat
    decreases batch.len(),
{
    if batch.len() == 0 {
        0
    } else {
        released_refs(records, batch.drop_last(), t) + count_of(
            records[batch.last() as int].underlying_allocation.release_targets(),
            t,
        )
    }
}

impl Collector {
    /// The record of an allocation after its release: flagged, released
    /// once, with data that owns nothing any more.
    pub open(crate) spec fn record_released(before: GcData, after: GcData) -> bool {
        &&& after.deallocated
        &&& after.underlying_allocation.releases == 1
        &&& after.underlying_allocation.deallocation_action
            == before.underlying_allocation.deallocation_action
        &&& after.underlying_allocation.payload.value == before.underlying_allocation.payload.value
        &&& after.underlying_allocation.payload.type_identity
            == before.underlying_allocation.payload.type_identity
        &&& after.underlying_allocation.payload.handles@ == Seq::<InternalGcRef>::empty()
        &&& after.underlying_allocation.payload.atomics@ == Seq::<AtomicGc>::empty()
    }

    /// What the release of the allocations in `batch` does. Each of them is
    /// flagged, its release action has run once, and its data owns nothing
    /// any more. The counts that its live handles and dropped slots held are
    /// given back, one by one, through the negative counters; no allocation
    /// has fewer outside handles than before. Nothing else changes.
    pub open(crate) spec fn released_from(&self, batch: Seq<usize>, post: &Self) -> bool {
        &&& post.records.len() == self.records.len()
        &&& post.index == self.index
        &&& post.tracked_data == self.tracked_data
        &&& post.trigger == self.trigger
        &&& post.atomic_spinlock == self.atomic_spinlock
        &&& post.live_handle_count == wrapping_sub_n(
            self.live_handle_count,
            released_counts(self.records@, batch),
        )
        &&& forall|i: int|
            0 <= i < self.records.len() ==> {
                &&& (#[trigger] post.records@[i]).lockout == self.records@[i].lockout
                &&& post.records@[i].ref_cnt.count_positive
                    == self.records@[i].ref_cnt.count_positive
                &&& post.records@[i].ref_cnt.found_internally
                    == self.records@[i].ref_cnt.found_internally
                &&& post.records@[i].ref_cnt.count_negative
                    == self.records@[i].ref_cnt.count_negative - released_refs(
                    self.records@,
                    batch,
                    i as usize,
                )
                &&& if batch.contains(i as usize) {
                    Self::record_released(self.records@[i], post.records@[i])
                } else {
                    &&& post.records@[i].deallocated == self.records@[i].deallocated
                    &&& post.records@[i].underlying_allocation
                        == self.records@[i].underlying_allocation
                }
            }
        &&& forall|t: usize|
            t < self.records.len() ==> #[trigger] post.outside_handles(t) >= self.outside_handles(t)
    }

    /// What `synchronize_destructors` does: the allocations that waited in
    /// the dropper's queue are released, and the queue is empty.
    pub open spec fn synchronized_from(&self, post: &Self) -> bool {
        &&& self.released_from(self.condemned(), post)
        &&& post.dropper_queue_len() == 0
        &&& post.keeps_buffer() == (self.keeps_buffer() || self.dropper_queue_len() == 1)
    }

    /// The release of what waits in the dropper's queue gives back every
    /// count that the waiting data holds.
    pub open spec fn gives_back_all_counts(&self) -> bool {
        forall|j: int|
            0 <= j < self.condemned().len() ==> self.allocation(
                #[trigger] self.condemned()[j],
            ).gives_back_all()
    }

    /// Whether the dropper keeps an emptied buffer for the next collection.
    pub open(crate) spec fn keeps_buffer(&self) -> bool {
        self.dropper.keeps_buffer()
    }

    /// The number of messages in the dropper's queue.
    pub open(crate) spec fn dropper_queue_len(&self) -> nat {
        self.dropper.messages@.len()
    }

    /// Releases allocation `b` of `batch` and gives back the counts that its
    /// data held. The release of every allocation of the batch has been
    /// flagged by then, and stays flagged: a release action that came upon
    /// a handle to another allocation of its batch would find the flag set.
    fn release_one(&mut self, b: usize, Ghost(batch): Ghost<Seq<usize>>)
        requires
            old(self).parts_ok(Seq::empty()),
            b < old(self).size(),
            !old(self).index@.dom().contains(b),
            old(self).records@[b as int].underlying_allocation.releases == 0,
            batch.contains(b),
            forall|j: int|
                0 <= j < batch.len() ==> #[trigger] batch[j] < old(self).size()
                    && old(self).records@[batch[j] as int].deallocated,
        ensures
            final(self).parts_ok(Seq::empty()),
            final(self).dropper == old(self).dropper,
            old(self).released_from(seq![b], final(self)),
            forall|j: int|
                0 <= j < batch.len()
                    ==> final(self).records@[#[trigger] batch[j] as int].deallocated,
    {
        proof {
            assert(self.record_ok(b as int));
            let at = choose|at: int| 0 <= at < batch.len() && batch[at] == b;
            assert(self.records@[batch[at] as int].deallocated);
        }
        let ghost before_targets = self.records@[b as int].underlying_allocation.payload.targets();
        let ghost before_allocation = self.records@[b as int].underlying_allocation;
        let mut dropped = self.records[b].underlying_allocation.deallocate();
        let ghost total = dropped@.len();
        proof {
            let emptied = self.records@[b as int].underlying_allocation.payload;
            assert(emptied.targets() =~= Seq::<usize>::empty());
            assert(self.edge_table() =~= old(self).edge_table().update(
                b as int,
                Seq::<usize>::empty(),
            ));
            assert forall|t: usize| t < self.size() implies #[trigger] self.incoming(t) + count_of(
                dropped@,
                t,
            ) + old(self).outside_handles(t) <= self.ref_count(t) by {
                lemma_indegree_update(
                    old(self).edge_table(),
                    Set::full(),
                    b as int,
                    Seq::<usize>::empty(),
                    old(self).edge_table().len(),
                    t,
                );
                lemma_release_targets_bounded(before_allocation, t);
            }
            assert forall|k: int| 0 <= k < dropped@.len() implies #[trigger] dropped@[k]
                < self.size() by {
                let t = dropped@[k];
                lemma_count_contains(dropped@, t);
                lemma_release_targets_bounded(before_allocation, t);
                lemma_count_contains(before_targets, t);
                let m = choose|m: int| 0 <= m < before_targets.len() && before_targets[m] == t;
                assert(before_targets[m] < old(self).size());
            }
            assert forall|i: int| 0 <= i < self.size() implies #[trigger] self.record_ok(i) by {
                assert(old(self).record_ok(i));
            }
            assert forall|t: usize| t < self.size() implies old(self).outside_handles(t) >= 0 by {
                assert(old(self).incoming(t) + count_of(Seq::<usize>::empty(), t)
                    <= old(self).ref_count(t));
            }
        }
        let ghost emptied = *self;
        let ghost released = dropped@;
        while dropped.len() > 0
            invariant
                self.records.len() == old(self).records.len(),
                released == before_allocation.release_targets(),
                b < self.size(),
                self.index == old(self).index,
                self.tracked_data == old(self).tracked_data,
                self.trigger == old(self).trigger,
                self.atomic_spinlock == old(self).atomic_spinlock,
                self.dropper == old(self).dropper,
                total >= dropped@.len(),
                self.live_handle_count == wrapping_sub_n(
                    old(self).live_handle_count,
                    (total - dropped@.len()) as nat,
                ),
                forall|k: int| 0 <= k < dropped@.len() ==> #[trigger] dropped@[k] < self.size(),
                forall|i: int| 0 <= i < self.size() ==> #[trigger] self.record_ok(i),
                old(self).parts_ok(Seq::empty()),
                forall|t: usize| t < self.size() ==> old(self).outside_handles(t) >= 0,
                self.edge_table() == emptied.edge_table(),
                forall|t: usize|
                    t < self.size() ==> #[trigger] self.incoming(t) + count_of(dropped@, t)
                        + old(self).outside_handles(t) <= self.ref_count(t),
                forall|i: int|
                    0 <= i < self.size() ==> {
                        &&& (#[trigger] self.records@[i]).lockout == emptied.records@[i].lockout
                        &&& self.records@[i].deallocated == emptied.records@[i].deallocated
                        &&& self.records@[i].underlying_allocation
                            == emptied.records@[i].underlying_allocation
                        &&& self.records@[i].ref_cnt.count_positive
                            == emptied.records@[i].ref_cnt.count_positive
                        &&& self.records@[i].ref_cnt.found_internally
                            == emptied.records@[i].ref_cnt.found_internally
                        &&& self.records@[i].ref_cnt.count_negative + count_of(
                            released,
                            i as usize,
                        ) - count_of(dropped@, i as usize)
                            == emptied.records@[i].ref_cnt.count_negative
                    },
            decreases dropped@.len(),
        {
            let ghost owed = dropped@;
            let ghost before = *self;
            let t = dropped.pop().unwrap();
            proof {
                assert(owed.drop_last() =~= dropped@);
                assert(owed.last() == t);
                assert(t == owed[owed.len() - 1]);
                assert(self.record_ok(t as int));
                assert(self.incoming(t) + count_of(owed, t) + old(self).outside_handles(t)
                    <= self.ref_count(t));
            }
            self.decrement_reference_count(t);
            proof {
                assert(self.edge_table() =~= before.edge_table());
                assert forall|i: int| 0 <= i < self.size() implies #[trigger] self.record_ok(i) by {
                    assert(before.record_ok(i));
                    if i == t {
                        assert(before.incoming(t) + count_of(owed, t) + old(self).outside_handles(t)
                            <= before.ref_count(t));
                    }
                }
                assert forall|u: usize| u < self.size() implies #[trigger] self.incoming(u)
                    + count_of(dropped@, u) + old(self).outside_handles(u) <= self.ref_count(u) by {
                    assert(before.incoming(u) + count_of(owed, u) + old(self).outside_handles(u)
                        <= before.ref_count(u));
                }
            }
        }
        proof {
            assert(dropped@ =~= Seq::<usize>::empty());
            assert(seq![b].drop_last() =~= Seq::<usize>::empty());
            assert(released_counts(old(self).records@, seq![b]) == total) by {
                assert(released_counts(old(self).records@, Seq::<usize>::empty()) == 0);
                assert(seq![b].last() == b);
            }
            assert forall|t: usize| #[trigger]
                released_refs(old(self).records@, seq![b], t) == count_of(released, t) by {
                assert(released_refs(old(self).records@, Seq::<usize>::empty(), t) == 0);
                assert(seq![b].last() == b);
            }
            assert forall|i: int| 0 <= i < self.records.len() implies (
            #[trigger] self.records@[i]).ref_cnt.count_negative
                == old(self).records@[i].ref_cnt.count_negative - released_refs(
                old(self).records@,
                seq![b],
                i as usize,
            ) by {
                let _ = emptied.records@[i];
                let _ = released_refs(old(self).records@, seq![b], i as usize);
            }
            assert(self.counts_ok(Seq::empty())) by {
                assert forall|t: usize| t < self.size() implies #[trigger] self.incoming(t)
                    + count_of(Seq::<usize>::empty(), t) <= self.ref_count(t) by {
                    assert(self.incoming(t) + count_of(dropped@, t) + old(self).outside_handles(t)
                        <= self.ref_count(t));
                }
            }
            assert forall|t: usize| t < self.records.len() implies #[trigger] self.outside_handles(
                t,
            ) >= old(self).outside_handles(t) by {
                assert(self.incoming(t) + count_of(dropped@, t) + old(self).outside_handles(t)
                    <= self.ref_count(t));
            }
            assert forall|i: int| 0 <= i < self.records.len() implies (if seq![b].contains(
                i as usize,
            ) {
                Self::record_released(old(self).records@[i], #[trigger] self.records@[i])
            } else {
                &&& self.records@[i].deallocated == old(self).records@[i].deallocated
                &&& self.records@[i].underlying_allocation
                    == old(self).records@[i].underlying_allocation
            }) by {
                if i == b {
                    assert(seq![b][0] == b);
                } else {
                    assert(emptied.records@[i] == old(self).records@[i]);
                }
            }
        }
    }

    /// The state in which the release of every allocation in `batch` has been
    /// flagged and nothing else has changed.
    pub open(crate) spec fn flagged_from(&self, batch: Seq<usize>, post: &Self) -> bool {
        &&& post.records.len() == self.records.len()
        &&& post.index == self.index
        &&& post.tracked_data == self.tracked_data
        &&& post.trigger == self.trigger
        &&& post.atomic_spinlock == self.atomic_spinlock
        &&& post.dropper == self.dropper
        &&& post.live_handle_count == self.live_handle_count
        &&& forall|i: int|
            0 <= i < self.records.len() ==> #[trigger] post.records@[i] == (if batch.contains(
                i as usize,
            ) {
                GcData { deallocated: true, ..self.records@[i] }
            } else {
                self.records@[i]
            })
    }

    /// Flagging allocations that are not tracked keeps the records in order
    /// and changes no count.
    pub(crate) proof fn lemma_flagged_from(&self, batch: Seq<usize>, post: &Self)
        requires
            self.parts_ok(Seq::empty()),
            self.batch_ok(batch),
            self.flagged_from(batch, post),
        ensures
            post.parts_ok(Seq::empty()),
            post.batch_ok(batch),
            post.edge_table() == self.edge_table(),
            forall|t: usize|
                t < self.size() ==> #[trigger] post.outside_handles(t) == self.outside_handles(t),
    {
        assert(post.edge_table() =~= self.edge_table());
        assert forall|i: int| 0 <= i < post.size() implies #[trigger] post.record_ok(i) by {
            assert(self.record_ok(i));
            if batch.contains(i as usize) {
                let j = choose|j: int| 0 <= j < batch.len() && batch[j] == i as usize;
                assert(!self.index@.dom().contains(batch[j]));
            }
        }
        assert forall|t: usize| t < post.size() implies #[trigger] post.incoming(t) + count_of(
            Seq::<usize>::empty(),
            t,
        ) <= post.ref_count(t) by {
            assert(self.incoming(t) + count_of(Seq::<usize>::empty(), t) <= self.ref_count(t));
        }
        assert forall|i: int|
            0 <= i < post.size() && !post.index@.dom().contains(i as usize) && (
            #[trigger] post.records@[i]).underlying_allocation.releases == 0 implies batch.contains(
            i as usize,
        ) by {
            assert(self.records@[i].underlying_allocation.releases == 0);
        }
    }

    /// Releasing the first `j` allocations of a batch and then the next one
    /// is releasing the first `j + 1`.
    pub(crate) proof fn lemma_released_step(
        &self,
        batch: Seq<usize>,
        j: int,
        mid: &Self,
        post: &Self,
    )
        requires
            0 <= j < batch.len(),
            batch.no_duplicates(),
            forall|k: int| 0 <= k < batch.len() ==> #[trigger] batch[k] < self.records.len(),
            self.released_from(batch.take(j), mid),
            mid.released_from(seq![batch[j]], post),
        ensures
            self.released_from(batch.take(j + 1), post),
    {
        let b = batch[j];
        let done = batch.take(j);
        let next = batch.take(j + 1);
        assert(next.drop_last() =~= done);
        assert(next.last() == b);
        assert(!done.contains(b)) by {
            if done.contains(b) {
                let k = choose|k: int| 0 <= k < done.len() && done[k] == b;
                assert(batch[k] == batch[j]);
            }
        }
        assert(mid.records@[b as int].underlying_allocation
            == self.records@[b as int].underlying_allocation);
        assert(seq![b].drop_last() =~= Seq::<usize>::empty());
        assert(released_counts(mid.records@, seq![b])
            == mid.records@[b as int].underlying_allocation.release_targets().len()) by {
            assert(released_counts(mid.records@, Seq::<usize>::empty()) == 0);
            assert(seq![b].last() == b);
        }
        lemma_wrapping_sub_split(
            self.live_handle_count,
            released_counts(self.records@, done),
            released_counts(mid.records@, seq![b]),
        );
        assert forall|t: usize| #[trigger]
            released_refs(self.records@, next, t) == released_refs(self.records@, done, t)
                + released_refs(mid.records@, seq![b], t) by {
            assert(released_refs(mid.records@, Seq::<usize>::empty(), t) == 0);
            assert(seq![b].last() == b);
        }
        assert forall|i: int| 0 <= i < self.records.len() implies {
            &&& (#[trigger] post.records@[i]).lockout == self.records@[i].lockout
            &&& post.records@[i].ref_cnt.count_positive == self.records@[i].ref_cnt.count_positive
            &&& post.records@[i].ref_cnt.found_internally
                == self.records@[i].ref_cnt.found_internally
            &&& post.records@[i].ref_cnt.count_negative == self.records@[i].ref_cnt.count_negative
                - released_refs(self.records@, next, i as usize)
            &&& if next.contains(i as usize) {
                Self::record_released(self.records@[i], post.records@[i])
            } else {
                &&& post.records@[i].deallocated == self.records@[i].deallocated
                &&& post.records@[i].underlying_allocation == self.records@[i].underlying_allocation
            }
        } by {
            let _ = mid.records@[i];
            let _ = released_refs(self.records@, next, i as usize);
            assert(seq![b][0] == b);
            if i == b {
                assert(next[j] == b);
                assert(seq![b].contains(i as usize));
            } else {
                assert(!seq![b].contains(i as usize));
                if done.contains(i as usize) {
                    let k = choose|k: int| 0 <= k < done.len() && done[k] == i as usize;
                    assert(next[k] == i as usize);
                } else if next.contains(i as usize) {
                    let k = choose|k: int| 0 <= k < next.len() && next[k] == i as usize;
                    if k < j {
                        assert(done[k] == i as usize);
                    }
                }
            }
        }
        assert forall|t: usize| t < self.records.len() implies #[trigger] post.outside_handles(t)
            >= self.outside_handles(t) by {
            assert(mid.outside_handles(t) >= self.outside_handles(t));
        }
    }

    /// Works off one batch: first flags the release of every allocation in
    /// it, then releases them one by one, then hands the emptied buffer back
    /// for reuse.
    ///
    /// Every allocation of the batch is flagged before the first release
    /// action runs, so that no release action can reach into the data of
    /// another allocation of the same batch unnoticed.
    pub(crate) fn run_batch(&mut self, to_drop: CrossThreadBuffer<usize>)
        requires
            old(self).parts_ok(Seq::empty()),
            old(self).batch_ok(to_drop@),
        ensures
            final(self).parts_ok(Seq::empty()),
            final(self).batch_ok(Seq::empty()),
            final(self).dropper.messages@ == old(self).dropper.messages@,
            final(self).dropper.keeps_buffer(),
            old(self).released_from(to_drop@, final(self)),
    {
        let ghost batch = to_drop@;
        let n = to_drop.len();
        let mut i: usize = 0;
        while i < n
            invariant
                0 <= i <= n,
                n == batch.len(),
                batch == to_drop@,
                old(self).batch_ok(batch),
                old(self).flagged_from(batch.take(i as int), self),
            decreases n - i,
        {
            let data = *to_drop.get(i);
            let ghost before = *self;
            self.records[data].deallocated = true;
            proof {
                let done = batch.take(i as int);
                let next = batch.take(i + 1);
                assert(next.drop_last() =~= done);
                assert forall|k: int| 0 <= k < self.records.len()
                    implies #[trigger] self.records@[k]
                    == (if next.contains(k as usize) {
                    GcData { deallocated: true, ..old(self).records@[k] }
                } else {
                    old(self).records@[k]
                }) by {
                    let _ = before.records@[k];
                    if k == data {
                        assert(next[i as int] == data);
                    } else if done.contains(k as usize) {
                        let m = choose|m: int| 0 <= m < done.len() && done[m] == k as usize;
                        assert(next[m] == k as usize);
                    } else if next.contains(k as usize) {
                        let m = choose|m: int| 0 <= m < next.len() && next[m] == k as usize;
                        if m < i {
                            assert(done[m] == k as usize);
                        }
                    }
                }
            }
            i = i + 1;
        }
        let ghost flagged = *self;
        proof {
            assert(batch.take(n as int) =~= batch);
            old(self).lemma_flagged_from(batch, &flagged);
            assert forall|k: int| 0 <= k < batch.len() implies flagged.records@[
                #[trigger] batch[k] as int
            ].deallocated by {
                assert(batch.contains(batch[k]));
            }
            assert(flagged.released_from(batch.take(0), self)) by {
                assert(batch.take(0) =~= Seq::<usize>::empty());
                assert(released_counts(flagged.records@, Seq::<usize>::empty()) == 0);
                assert forall|t: usize| #[trigger]
                    released_refs(flagged.records@, Seq::<usize>::empty(), t) == 0 by {}
            }
        }
        let mut j: usize = 0;
        while j < n
            invariant
                0 <= j <= n,
                n == batch.len(),
                batch == to_drop@,
                flagged.batch_ok(batch),
                forall|k: int|
                    0 <= k < batch.len()
                        ==> flagged.records@[#[trigger] batch[k] as int].deallocated,
                forall|k: int|
                    0 <= k < batch.len() ==> self.records@[#[trigger] batch[k] as int].deallocated,
                self.parts_ok(Seq::empty()),
                self.dropper == flagged.dropper,
                flagged.released_from(batch.take(j as int), self),
            decreases n - j,
        {
            let data = *to_drop.get(j);
            let ghost mid = *self;
            proof {
                let done = batch.take(j as int);
                assert(!done.contains(data)) by {
                    if done.contains(data) {
                        let k = choose|k: int| 0 <= k < done.len() && done[k] == data;
                        assert(batch[k] == batch[j as int]);
                    }
                }
                assert(batch[j as int] == data);
                let _ = self.records@[data as int];
                assert(flagged.records@[batch[j as int] as int].deallocated);
            }
            self.release_one(data, Ghost(batch));
            proof {
                flagged.lemma_released_step(batch, j as int, &mid, self);
            }
            j = j + 1;
        }
        proof {
            assert(batch.take(n as int) =~= batch);
            assert(old(self).released_from(batch, self)) by {
                assert(released_counts(old(self).records@, batch) == released_counts(
                    flagged.records@,
                    batch,
                )) by {
                    Self::lemma_released_counts_same(old(self).records@, flagged.records@, batch);
                }
                assert forall|k: int| 0 <= k < self.records.len() implies {
                    &&& (#[trigger] self.records@[k]).lockout == old(self).records@[k].lockout
                    &&& self.records@[k].ref_cnt.count_positive
                        == old(self).records@[k].ref_cnt.count_positive
                    &&& self.records@[k].ref_cnt.found_internally
                        == old(self).records@[k].ref_cnt.found_internally
                    &&& self.records@[k].ref_cnt.count_negative
                        == old(self).records@[k].ref_cnt.count_negative - released_refs(
                        old(self).records@,
                        batch,
                        k as usize,
                    )
                    &&& if batch.contains(k as usize) {
                        Self::record_released(old(self).records@[k], self.records@[k])
                    } else {
                        &&& self.records@[k].deallocated == old(self).records@[k].deallocated
                        &&& self.records@[k].underlying_allocation
                            == old(self).records@[k].underlying_allocation
                    }
                } by {
                    let _ = flagged.records@[k];
                    Self::lemma_released_refs_same(
                        old(self).records@,
                        flagged.records@,
                        batch,
                        k as usize,
                    );
                }
                assert forall|t: usize| t < self.records.len()
                    implies #[trigger] self.outside_handles(
                    t,
                ) >= old(self).outside_handles(t) by {
                    assert(flagged.outside_handles(t) == old(self).outside_handles(t));
                    assert(self.outside_handles(t) >= flagged.outside_handles(t));
                }
            }
            assert(self.batch_ok(Seq::empty())) by {
                assert forall|k: int|
                    0 <= k < self.size() && !self.index@.dom().contains(k as usize) && (
                    #[trigger] self.records@[k]).underlying_allocation.releases == 0 implies Seq::<
                    usize,
                >::empty().contains(k as usize) by {
                    if !batch.contains(k as usize) {
                        assert(old(self).records@[k].underlying_allocation.releases == 0);
                    }
                }
            }
        }
        let ghost released = *self;
        let mut to_drop = to_drop;
        to_drop.clear();
        self.dropper.recycle(to_drop);
        proof {
            assert(self.edge_table() =~= released.edge_table());
            assert forall|k: int| 0 <= k < self.size() implies #[trigger] self.record_ok(k) by {
                assert(released.record_ok(k));
            }
            assert forall|t: usize| t < self.size() implies #[trigger] self.incoming(t) + count_of(
                Seq::<usize>::empty(),
                t,
            ) <= self.ref_count(t) by {
                assert(released.incoming(t) + count_of(Seq::<usize>::empty(), t)
                    <= released.ref_count(t));
            }
            assert(released.batch_ok(Seq::empty()));
            assert forall|t: usize| t < self.records.len() implies #[trigger] self.outside_handles(
                t,
            ) >= old(self).outside_handles(t) by {
                assert(released.outside_handles(t) >= old(self).outside_handles(t));
            }
        }
    }

    /// Has the dropper work off everything that was handed to it, and
    /// returns when it has: every allocation that waited to be released is
    /// released.
    pub fn synchronize_destructors(&mut self)
        requires
            old(self).wf_core(),
        ensures
            final(self).wf_core(),
            old(self).wf() ==> final(self).wf(),
            old(self).synchronized_from(final(self)),
            final(self).size() == old(self).size(),
            final(self).condemned() == Seq::<usize>::empty(),
            forall|t: usize| #[trigger] final(self).is_tracked(t) == old(self).is_tracked(t),
            forall|t: usize|
                t < old(self).size() ==> #[trigger] final(self).outside_handles(t)
                    >= old(self).outside_handles(t),
    {
        let ghost waiting = self.condemned();
        self.dropper.send_msg(DropMessage::SyncUp);
        let ghost done = Seq::<usize>::empty();
        let ghost processed = false;
        proof {
            old(self).lemma_same_records(self);
            assert(released_counts(old(self).records@, Seq::<usize>::empty()) == 0);
            assert forall|t: usize| #[trigger]
                released_refs(old(self).records@, Seq::<usize>::empty(), t) == 0 by {}
            assert(old(self).batch_ok(waiting));
        }
        loop
            invariant
                old(self).wf_core(),
                waiting == old(self).condemned(),
                self.parts_ok(Seq::empty()),
                old(self).released_from(done, self),
                self.dropper.messages@.len() >= 1,
                self.dropper.keeps_buffer() == (old(self).dropper.keeps_buffer() || processed),
                (!processed && done == Seq::<usize>::empty() && self.batch_ok(waiting)
                    && self.records == old(self).records && self.dropper.messages@
                    == old(self).dropper.messages@.push(DropMessage::SyncUp)) || (processed
                    && old(self).dropper.messages@.len() == 1 && done == waiting
                    && self.batch_ok(Seq::empty()) && self.dropper.messages@
                    == seq![DropMessage::SyncUp]),
            decreases self.dropper.messages@.len(),
        {
            let ghost before = *self;
            match self.dropper.next_message() {
                Some(DropMessage::DataToDrop(to_drop)) => {
                    proof {
                        before.lemma_same_records(self);
                        assert(before.dropper.messages@[0] == DropMessage::DataToDrop(to_drop));
                        assert(done == Seq::<usize>::empty());
                        assert(old(self).dropper.messages@.len() == 1);
                        assert(old(self).dropper.messages@[0] == before.dropper.messages@[0]);
                        assert(to_drop@ == waiting);
                        assert(self.dropper.messages@ =~= seq![DropMessage::SyncUp]);
                    }
                    let ghost popped = *self;
                    self.run_batch(to_drop);
                    proof {
                        done = waiting;
                        processed = true;
                        assert(old(self).released_from(waiting, self)) by {
                            assert forall|i: int| 0 <= i < old(self).records.len() implies {
                                &&& (#[trigger] self.records@[i]).lockout
                                    == old(self).records@[i].lockout
                            } by {
                                let _ = popped.records@[i];
                            }
                            assert forall|t: usize|
                                t < old(self).records.len() implies #[trigger] self.outside_handles(
                                t,
                            ) >= old(self).outside_handles(t) by {
                                assert(popped.outside_handles(t) == old(self).outside_handles(t));
                                assert(self.outside_handles(t) >= popped.outside_handles(t));
                            }
                        }
                    }
                },
                Some(DropMessage::SyncUp) => {
                    proof {
                        before.lemma_same_records(self);
                        assert(before.dropper.messages@[0] == DropMessage::SyncUp);
                        if done == Seq::<usize>::empty() && before.dropper.messages@
                            == old(self).dropper.messages@.push(DropMessage::SyncUp) {
                            if old(self).dropper.messages@.len() == 1 {
                                assert(before.dropper.messages@[0]
                                    == old(self).dropper.messages@[0]);
                            }
                            assert(old(self).dropper.messages@.len() == 0);
                            assert(waiting == Seq::<usize>::empty());
                        }
                        assert(self.dropper.messages@.len() == 0);
                        assert(self.condemned() == Seq::<usize>::empty());
                        assert(self.batch_ok(Seq::empty()));
                        assert forall|t: usize|
                            t < old(self).records.len() implies #[trigger] self.outside_handles(t)
                            >= old(self).outside_handles(t) by {
                            assert(before.outside_handles(t) >= old(self).outside_handles(t));
                        }
                        if old(self).wf() {
                            assert forall|i: int| 0 <= i < self.size() implies !(
                            #[trigger] self.records@[i]).lockout.exclusively_held() by {
                                assert(!old(self).records@[i].lockout.exclusively_held());
                            }
                        }
                    }
                    return ;
                },
                None => {
                    proof {
                        assert(false);
                    }
                    return ;
                },
            }
        }
    }

    /// Records that agree on the allocations of `batch` give back the same
    /// counts of each allocation for it.
    pub(crate) proof fn lemma_released_refs_same(
        r1: Seq<GcData>,
        r2: Seq<GcData>,
        batch: Seq<usize>,
        t: usize,
    )
        requires
            forall|k: int|
                0 <= k < batch.len() ==> r1[#[trigger] batch[k] as int].underlying_allocation
                    == r2[batch[k] as int].underlying_allocation,
        ensures
            released_refs(r1, batch, t) == released_refs(r2, batch, t),
        decreases batch.len(),
    {
        if batch.len() > 0 {
            assert(batch.last() == batch[batch.len() - 1]);
            assert forall|k: int| 0 <= k < batch.drop_last().len() implies r1[
                #[trigger] batch.drop_last()[k] as int
            ].underlying_allocation == r2[batch.drop_last()[k] as int].underlying_allocation by {
                assert(batch.drop_last()[k] == batch[k]);
            }
            Self::lemma_released_refs_same(r1, r2, batch.drop_last(), t);
        }
    }

    /// Records that agree on the allocations of `batch` give back the same
    /// number of counts for it.
    pub(crate) proof fn lemma_released_counts_same(
        r1: Seq<GcData>,
        r2: Seq<GcData>,
        batch: Seq<usize>,
    )
        requires
            forall|k: int|
                0 <= k < batch.len() ==> r1[#[trigger] batch[k] as int].underlying_allocation
                    == r2[batch[k] as int].underlying_allocation,
        ensures
            released_counts(r1, batch) == released_counts(r2, batch),
        decreases batch.len(),
    {
        if batch.len() > 0 {
            assert(batch.last() == batch[batch.len() - 1]);
            assert forall|k: int| 0 <= k < batch.drop_last().len() implies r1[
                #[trigger] batch.drop_last()[k] as int
            ].underlying_allocation == r2[batch.drop_last()[k] as int].underlying_allocation by {
                assert(batch.drop_last()[k] == batch[k]);
            }
            Self::lemma_released_counts_same(r1, r2, batch.drop_last());
        }
    }
}

} // verus!
