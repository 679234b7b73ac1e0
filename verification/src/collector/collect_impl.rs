use crate::collector::data::GcData;
use crate::collector::dropper::DropMessage;
use crate::collector::graph::{
    count_of, indegree, lemma_count_contains, lemma_count_prefix, lemma_count_take_next,
    lemma_indegree_insert, lemma_indegree_mono, lemma_indegree_same_keep, lemma_indegree_witness,
    lemma_unmarked_insert, unmarked_count,
};
use crate::collector::ref_cnt::{GcRefCount, ROOT_OVERRIDE_VALUE};
use crate::collector::Collector;
use crate::concurrency::chunked_ll::ChunkedLinkedList;
use crate::concurrency::lockout::{Lockout, UNSAFE_EXCLUSIVE_SIGNPOST};
use crate::concurrency::seg_queue::{
    work_queue_items, work_queue_new, work_queue_pop, work_queue_push,
};
use crossbeam::queue::SegQueue;
use vstd::prelude::*;

verus! {

impl Collector {
    /// The record of a tracked allocation once a collection has frozen it:
    /// the collector holds its lockout if nobody else did, and the negative
    /// counter is folded into the positive one. The tally of `found` is
    /// whatever the collection has made of it since.
    pub open(crate) spec fn frozen_record(r: GcData, found: int) -> GcData {
        GcData {
            lockout: if r.lockout.count == 0 {
                Lockout { count: UNSAFE_EXCLUSIVE_SIGNPOST }
            } else {
                r.lockout
            },
            ref_cnt: GcRefCount {
                count_positive: (r.ref_cnt.count_positive + r.ref_cnt.count_negative) as i64,
                count_negative: 0,
                found_internally: found as i64,
            },
            ..r
        }
    }

    /// The tracked allocations whose lockout nobody holds: those whose data
    /// a collection can scan.
    pub open(crate) spec fn frozen_set(&self) -> Set<int> {
        Set::new(
            |i: int|
                0 <= i < self.records.len() && self.index@.dom().contains(i as usize)
                    && self.records@[i].lockout.count == 0,
        )
    }

    /// The number of references to `t` that scanning finds: those that the
    /// data of scannable allocations hold.
    pub open(crate) spec fn tally(&self, t: usize) -> nat {
        indegree(self.edge_table(), self.frozen_set(), self.edge_table().len(), t)
    }

    /// A collection takes `t` for a root right after scanning: a mutator
    /// holds a warrant on it, or it has more handles than scanning found.
    pub open(crate) spec fn initially_rooted(&self, t: usize) -> bool {
        self.records@[t as int].lockout.count != 0 || self.ref_count(t) > self.tally(t)
    }

    /// `post` is a collection under way that started from `self`: nothing
    /// has changed but the records of tracked allocations, which are frozen
    /// and have the tallies that `found` gives.
    pub open(crate) spec fn collecting(&self, post: &Self, found: spec_fn(usize) -> int) -> bool {
        &&& post.records.len() == self.records.len()
        &&& post.index == self.index
        &&& post.tracked_data == self.tracked_data
        &&& post.trigger == self.trigger
        &&& post.dropper == self.dropper
        &&& post.live_handle_count == self.live_handle_count
        &&& forall|i: int|
            0 <= i < self.records.len() ==> #[trigger] post.records@[i] == (
            if self.index@.dom().contains(i as usize) {
                Self::frozen_record(self.records@[i], found(i as usize))
            } else {
                self.records@[i]
            })
    }

    /// The numbers of the tracked allocations, each once.
    pub(crate) fn tracked_ids(&self) -> (ids: Vec<usize>)
        requires
            self.tracked_data.wf(),
            self.index_ok(),
        ensures
            ids@.no_duplicates(),
            forall|k: int|
                0 <= k < ids@.len() ==> self.index@.dom().contains(#[trigger] ids@[k])
                    && ids@[k] < self.size(),
            forall|id: usize| self.index@.dom().contains(id) ==> #[trigger] ids@.contains(id),
    {
        let items = self.tracked_data.par_iter();
        let mut ids: Vec<usize> = Vec::new();
        let mut k: usize = 0;
        while k < items.len()
            invariant
                0 <= k <= items.len(),
                ids@.len() == k,
                forall|j: int| 0 <= j < k ==> #[trigger] ids@[j] == items@[j].v,
            decreases items.len() - k,
        {
            ids.push(items[k].v);
            k = k + 1;
        }
        proof {
            assert forall|j: int| 0 <= j < ids@.len() implies self.index@.dom().contains(
                #[trigger] ids@[j],
            ) && ids@[j] < self.size() by {
                assert(self.tracked_data@.contains_pair(items@[j].slot(), items@[j].v));
                assert(self.tracked_data@.dom().contains(items@[j].slot()));
            }
            assert forall|i: int, j: int| 0 <= i < ids@.len() && 0 <= j < ids@.len()
                && i != j implies ids@[i]
                != ids@[j] by {
                assert(self.tracked_data@.contains_pair(items@[i].slot(), items@[i].v));
                assert(self.tracked_data@.contains_pair(items@[j].slot(), items@[j].v));
                assert(self.tracked_data@.dom().contains(items@[i].slot()));
                assert(self.tracked_data@.dom().contains(items@[j].slot()));
                if i < j {
                    assert(items@[i].slot() != items@[j].slot());
                } else {
                    assert(items@[j].slot() != items@[i].slot());
                }
            }
            assert forall|id: usize| self.index@.dom().contains(id)
                implies #[trigger] ids@.contains(
                id,
            ) by {
                let p = self.index@[id];
                assert(self.tracked_data@.dom().contains(p));
                let k = choose|k: int| 0 <= k < items@.len() && (#[trigger] items@[k]).slot() == p;
                assert(self.tracked_data@.contains_pair(items@[k].slot(), items@[k].v));
                assert(ids@[k] == id);
            }
        }
        ids
    }

    /// The tally with which a collection leaves the freeze: zero for what it
    /// can scan, the override for what a mutator holds.
    pub open(crate) spec fn tally_frozen(&self) -> spec_fn(usize) -> int {
        |t: usize|
            if self.records@[t as int].lockout.count == 0 {
                0int
            } else {
                ROOT_OVERRIDE_VALUE as int
            }
    }

    /// Takes the lockout of every tracked allocation that nobody holds,
    /// folds its counters, and marks as rooted those that a mutator holds.
    fn freeze(&mut self, ids: &Vec<usize>, Ghost(start): Ghost<Self>)
        requires
            start.parts_ok(Seq::empty()),
            old(self).records == start.records,
            old(self).index == start.index,
            old(self).tracked_data == start.tracked_data,
            old(self).trigger == start.trigger,
            old(self).dropper == start.dropper,
            old(self).live_handle_count == start.live_handle_count,
            ids@.no_duplicates(),
            forall|k: int|
                0 <= k < ids@.len() ==> start.index@.dom().contains(#[trigger] ids@[k]) && ids@[k]
                    < start.size(),
            forall|id: usize| start.index@.dom().contains(id) ==> #[trigger] ids@.contains(id),
        ensures
            start.collecting(final(self), start.tally_frozen()),
            final(self).atomic_spinlock == old(self).atomic_spinlock,
    {
        let ghost done: Set<usize> = Set::empty();
        let mut k: usize = 0;
        while k < ids.len()
            invariant
                0 <= k <= ids.len(),
                start.parts_ok(Seq::empty()),
                self.records.len() == start.records.len(),
                self.index == start.index,
                self.tracked_data == start.tracked_data,
                self.trigger == start.trigger,
                self.dropper == start.dropper,
                self.live_handle_count == start.live_handle_count,
                self.atomic_spinlock == old(self).atomic_spinlock,
                ids@.no_duplicates(),
                forall|j: int|
                    0 <= j < ids@.len() ==> start.index@.dom().contains(#[trigger] ids@[j])
                        && ids@[j] < start.size(),
                forall|j: int| 0 <= j < k ==> done.contains(#[trigger] ids@[j]),
                forall|j: int| k <= j < ids@.len() ==> !done.contains(#[trigger] ids@[j]),
                forall|x: usize| #[trigger] done.contains(x) ==> start.index@.dom().contains(x),
                forall|i: int|
                    0 <= i < start.records.len() ==> #[trigger] self.records@[i] == (
                    if done.contains(i as usize) {
                        Self::frozen_record(start.records@[i], (start.tally_frozen())(i as usize))
                    } else {
                        start.records@[i]
                    }),
            decreases ids.len() - k,
        {
            let data = ids[k];
            proof {
                assert(start.record_ok(data as int));
                assert(self.records@[data as int] == start.records@[data as int]);
            }
            let taken = self.records[data].lockout.try_take_exclusive_access_unsafe();
            self.records[data].ref_cnt.prepare_for_collection();
            if !taken {
                self.records[data].ref_cnt.override_mark_as_rooted();
            }
            proof {
                done = done.insert(data);
                assert(self.records@[data as int] == Self::frozen_record(
                    start.records@[data as int],
                    (start.tally_frozen())(data),
                ));
            }
            k = k + 1;
        }
        proof {
            assert forall|i: int| 0 <= i < start.records.len() implies #[trigger] self.records@[i]
                == (if start.index@.dom().contains(i as usize) {
                Self::frozen_record(start.records@[i], (start.tally_frozen())(i as usize))
            } else {
                start.records@[i]
            }) by {
                if start.index@.dom().contains(i as usize) {
                    assert(ids@.contains(i as usize));
                    let j = choose|j: int| 0 <= j < ids@.len() && ids@[j] == i as usize;
                    assert(done.contains(ids@[j]));
                } else if done.contains(i as usize) {
                    assert(false);
                }
            }
        }
    }

    /// The tally with which a collection leaves the discovery of internal
    /// references: what the freeze left, and one for each reference that
    /// scanning found.
    pub open(crate) spec fn tally_discovered(&self) -> spec_fn(usize) -> int {
        |t: usize| (self.tally_frozen())(t) + self.tally(t)
    }

    /// Scanning the data of `data` after the allocations in `done` never
    /// counts more references to `t` than managed data holds.
    pub(crate) proof fn lemma_tally_bounded(&self, done: Set<int>, data: usize, kk: int, t: usize)
        requires
            self.parts_ok(Seq::empty()),
            data < self.size(),
            t < self.size(),
            !done.contains(data as int),
            0 <= kk <= self.edge_table()[data as int].len(),
        ensures
            indegree(self.edge_table(), done, self.edge_table().len(), t) + count_of(
                self.edge_table()[data as int].take(kk),
                t,
            ) <= self.ref_count(t),
            kk < self.edge_table()[data as int].len() && self.edge_table()[data as int][kk] == t
                ==> indegree(self.edge_table(), done, self.edge_table().len(), t) + count_of(
                self.edge_table()[data as int].take(kk),
                t,
            ) + 1 <= self.ref_count(t),
    {
        let e = self.edge_table();
        let targets = e[data as int];
        lemma_indegree_insert(e, done, data as int, e.len(), t);
        lemma_indegree_mono(e, done.insert(data as int), Set::full(), e.len(), t);
        lemma_count_prefix(targets, kk, t);
        assert(self.incoming(t) + count_of(Seq::<usize>::empty(), t) <= self.ref_count(t));
        if kk < targets.len() && targets[kk] == t {
            lemma_count_take_next(targets, kk, t);
            lemma_count_prefix(targets, kk + 1, t);
        }
    }

    /// Scans the data of every allocation that the collector has frozen and
    /// tallies, for each reference found, the allocation referred to.
    fn discover(&mut self, ids: &Vec<usize>, Ghost(start): Ghost<Self>)
        requires
            start.parts_ok(Seq::empty()),
            start.collecting(old(self), start.tally_frozen()),
            ids@.no_duplicates(),
            forall|k: int|
                0 <= k < ids@.len() ==> start.index@.dom().contains(#[trigger] ids@[k]) && ids@[k]
                    < start.size(),
            forall|id: usize| start.index@.dom().contains(id) ==> #[trigger] ids@.contains(id),
        ensures
            start.collecting(final(self), start.tally_discovered()),
            final(self).atomic_spinlock == old(self).atomic_spinlock,
    {
        let ghost e = start.edge_table();
        let ghost done: Set<int> = Set::empty();
        let mut k: usize = 0;
        proof {
            assert forall|t: usize| #[trigger] indegree(e, done, e.len(), t) == 0 by {
                Self::lemma_indegree_empty(e, e.len(), t);
            }
        }
        while k < ids.len()
            invariant
                0 <= k <= ids.len(),
                e == start.edge_table(),
                start.parts_ok(Seq::empty()),
                self.records.len() == start.records.len(),
                self.index == start.index,
                self.tracked_data == start.tracked_data,
                self.trigger == start.trigger,
                self.dropper == start.dropper,
                self.live_handle_count == start.live_handle_count,
                self.atomic_spinlock == old(self).atomic_spinlock,
                ids@.no_duplicates(),
                forall|j: int|
                    0 <= j < ids@.len() ==> start.index@.dom().contains(#[trigger] ids@[j])
                        && ids@[j] < start.size(),
                forall|j: int|
                    0 <= j < k && start.records@[ids@[j] as int].lockout.count == 0
                        ==> done.contains(#[trigger] ids@[j] as int),
                forall|j: int| k <= j < ids@.len() ==> !done.contains(#[trigger] ids@[j] as int),
                forall|x: int| #[trigger] done.contains(x) ==> start.frozen_set().contains(x),
                forall|i: int|
                    0 <= i < start.records.len() ==> #[trigger] self.records@[i] == (
                    if start.index@.dom().contains(i as usize) {
                        Self::frozen_record(
                            start.records@[i],
                            (start.tally_frozen())(i as usize) + indegree(
                                e,
                                done,
                                e.len(),
                                i as usize,
                            ),
                        )
                    } else {
                        start.records@[i]
                    }),
            decreases ids.len() - k,
        {
            let data = ids[k];
            proof {
                assert(start.record_ok(data as int));
                assert(start.index@.dom().contains(ids@[k as int]));
                assert(!done.contains(ids@[k as int] as int));
            }
            if self.records[data].lockout.unsafe_exclusive_access_taken() {
                let ghost targets = e[data as int];
                let hs = self.records[data].underlying_allocation.scan();
                let mut kk: usize = 0;
                while kk < hs.len()
                    invariant
                        0 <= kk <= hs.len(),
                        e == start.edge_table(),
                        targets == e[data as int],
                        data < start.size(),
                        start.index@.dom().contains(data),
                        !done.contains(data as int),
                        hs@.len() == targets.len(),
                        forall|m: int| 0 <= m < hs@.len() ==> (#[trigger] hs@[m]).target()
                            == targets[m],
                        forall|m: int|
                            0 <= m < targets.len() ==> (#[trigger] targets[m]) < start.size()
                                && start.index@.dom().contains(targets[m]),
                        start.parts_ok(Seq::empty()),
                        self.records.len() == start.records.len(),
                        self.index == start.index,
                        self.tracked_data == start.tracked_data,
                        self.trigger == start.trigger,
                        self.dropper == start.dropper,
                        self.live_handle_count == start.live_handle_count,
                        self.atomic_spinlock == old(self).atomic_spinlock,
                        forall|i: int|
                            0 <= i < start.records.len() ==> #[trigger] self.records@[i] == (
                            if start.index@.dom().contains(i as usize) {
                                Self::frozen_record(
                                    start.records@[i],
                                    (start.tally_frozen())(i as usize) + indegree(
                                        e,
                                        done,
                                        e.len(),
                                        i as usize,
                                    ) + count_of(targets.take(kk as int), i as usize),
                                )
                            } else {
                                start.records@[i]
                            }),
                    decreases hs.len() - kk,
                {
                    let t = hs[kk].data();
                    let ghost before = *self;
                    proof {
                        assert(hs@[kk as int].target() == targets[kk as int]);
                        assert(targets[kk as int] < start.size());
                        start.lemma_tally_bounded(done, data, kk as int, t);
                        assert(start.record_ok(t as int));
                    }
                    self.records[t].ref_cnt.found_once_internally();
                    proof {
                        assert forall|i: int| 0 <= i < start.records.len()
                            implies #[trigger] self.records@[i]
                            == (if start.index@.dom().contains(i as usize) {
                            Self::frozen_record(
                                start.records@[i],
                                (start.tally_frozen())(i as usize) + indegree(
                                    e,
                                    done,
                                    e.len(),
                                    i as usize,
                                ) + count_of(targets.take(kk + 1), i as usize),
                            )
                        } else {
                            start.records@[i]
                        }) by {
                            lemma_count_take_next(targets, kk as int, i as usize);
                            assert(before.records@[i] == (if start.index@.dom().contains(
                                i as usize,
                            ) {
                                Self::frozen_record(
                                    start.records@[i],
                                    (start.tally_frozen())(i as usize) + indegree(
                                        e,
                                        done,
                                        e.len(),
                                        i as usize,
                                    ) + count_of(targets.take(kk as int), i as usize),
                                )
                            } else {
                                start.records@[i]
                            }));
                        }
                    }
                    kk = kk + 1;
                }
                proof {
                    assert(targets.take(kk as int) =~= targets);
                    let grown = done.insert(data as int);
                    assert forall|t: usize| #[trigger]
                        indegree(e, grown, e.len(), t) == indegree(e, done, e.len(), t) + count_of(
                            targets,
                            t,
                        ) by {
                        lemma_indegree_insert(e, done, data as int, e.len(), t);
                    }
                    assert(self.records@[data as int].lockout.count == UNSAFE_EXCLUSIVE_SIGNPOST);
                    assert(start.records@[data as int].lockout.count == 0);
                    done = grown;
                }
            } else {
                proof {
                    assert(start.records@[data as int].lockout.count != 0);
                }
            }
            k = k + 1;
        }
        proof {
            assert forall|i: int| 0 <= i < start.records.len() implies #[trigger] self.records@[i]
                == (if start.index@.dom().contains(i as usize) {
                Self::frozen_record(start.records@[i], (start.tally_discovered())(i as usize))
            } else {
                start.records@[i]
            }) by {
                assert forall|x: int| 0 <= x < e.len() implies (done.contains(x)
                    <==> start.frozen_set().contains(x)) by {
                    if start.frozen_set().contains(x) {
                        assert(ids@.contains(x as usize));
                        let j = choose|j: int| 0 <= j < ids@.len() && ids@[j] == x as usize;
                        assert(done.contains(ids@[j] as int));
                    }
                }
                lemma_indegree_same_keep(e, done, start.frozen_set(), e.len(), i as usize);
            }
        }
    }

    /// Nothing is counted over no records.
    pub(crate) proof fn lemma_indegree_empty(e: Seq<Seq<usize>>, n: nat, t: usize)
        ensures
            indegree(e, Set::empty(), n, t) == 0,
        decreases n,
    {
        if n > 0 {
            Self::lemma_indegree_empty(e, (n - 1) as nat, t);
        }
    }

    /// The tally with which a collection leaves scanning: the override for
    /// what a mutator holds, the references found for the rest.
    pub open(crate) spec fn tally_scanned(&self) -> spec_fn(usize) -> int {
        |t: usize|
            if self.records@[t as int].lockout.count == 0 {
                self.tally(t) as int
            } else {
                ROOT_OVERRIDE_VALUE as int
            }
    }

    /// The tally of a collection in which the allocations of `marked` are
    /// marked: the override for those, the references found for the rest.
    pub open(crate) spec fn tally_marked(&self, marked: Set<usize>) -> spec_fn(usize) -> int {
        |t: usize|
            if marked.contains(t) {
                ROOT_OVERRIDE_VALUE as int
            } else {
                self.tally(t) as int
            }
    }

    /// The tracked allocations that a collection takes for roots.
    pub open(crate) spec fn root_set(&self) -> Set<usize> {
        Set::new(|t: usize| self.index@.dom().contains(t) && self.initially_rooted(t))
    }

    /// Scanning counts no more references to an allocation than it has
    /// handles.
    pub(crate) proof fn lemma_tally_fits(&self, t: usize)
        requires
            self.parts_ok(Seq::empty()),
            t < self.size(),
        ensures
            self.tally(t) <= self.incoming(t) <= self.ref_count(t) <= i64::MAX,
            0 <= self.ref_count(t),
    {
        lemma_indegree_mono(
            self.edge_table(),
            self.frozen_set(),
            Set::full(),
            self.edge_table().len(),
            t,
        );
        assert(self.incoming(t) + count_of(Seq::<usize>::empty(), t) <= self.ref_count(t));
        assert(self.record_ok(t as int));
    }

    /// Marks as rooted every tracked allocation that the collector could not
    /// freeze: a mutator has its data, so it is in use.
    fn root_held(&mut self, ids: &Vec<usize>, Ghost(start): Ghost<Self>)
        requires
            start.parts_ok(Seq::empty()),
            start.collecting(old(self), start.tally_discovered()),
            ids@.no_duplicates(),
            forall|k: int|
                0 <= k < ids@.len() ==> start.index@.dom().contains(#[trigger] ids@[k]) && ids@[k]
                    < start.size(),
            forall|id: usize| start.index@.dom().contains(id) ==> #[trigger] ids@.contains(id),
        ensures
            start.collecting(final(self), start.tally_scanned()),
            final(self).atomic_spinlock == old(self).atomic_spinlock,
    {
        let ghost done: Set<usize> = Set::empty();
        let mut k: usize = 0;
        while k < ids.len()
            invariant
                0 <= k <= ids.len(),
                start.parts_ok(Seq::empty()),
                self.records.len() == start.records.len(),
                self.index == start.index,
                self.tracked_data == start.tracked_data,
                self.trigger == start.trigger,
                self.dropper == start.dropper,
                self.live_handle_count == start.live_handle_count,
                self.atomic_spinlock == old(self).atomic_spinlock,
                ids@.no_duplicates(),
                forall|j: int|
                    0 <= j < ids@.len() ==> start.index@.dom().contains(#[trigger] ids@[j])
                        && ids@[j] < start.size(),
                forall|j: int| 0 <= j < k ==> done.contains(#[trigger] ids@[j]),
                forall|j: int| k <= j < ids@.len() ==> !done.contains(#[trigger] ids@[j]),
                forall|x: usize| #[trigger] done.contains(x) ==> start.index@.dom().contains(x),
                forall|i: int|
                    0 <= i < start.records.len() ==> #[trigger] self.records@[i] == (
                    if start.index@.dom().contains(i as usize) {
                        Self::frozen_record(
                            start.records@[i],
                            if done.contains(i as usize) {
                                (start.tally_scanned())(i as usize)
                            } else {
                                (start.tally_discovered())(i as usize)
                            },
                        )
                    } else {
                        start.records@[i]
                    }),
            decreases ids.len() - k,
        {
            let data = ids[k];
            proof {
                assert(start.record_ok(data as int));
                assert(start.index@.dom().contains(ids@[k as int]));
                assert(!done.contains(ids@[k as int]));
            }
            if !self.records[data].lockout.unsafe_exclusive_access_taken() {
                // Somebody else has this data during the collection, so it is in use.
                self.records[data].ref_cnt.override_mark_as_rooted();
            }
            proof {
                done = done.insert(data);
                start.lemma_tally_fits(data);
            }
            k = k + 1;
        }
        proof {
            assert forall|i: int| 0 <= i < start.records.len() implies #[trigger] self.records@[i]
                == (if start.index@.dom().contains(i as usize) {
                Self::frozen_record(start.records@[i], (start.tally_scanned())(i as usize))
            } else {
                start.records@[i]
            }) by {
                if start.index@.dom().contains(i as usize) {
                    assert(ids@.contains(i as usize));
                    let j = choose|j: int| 0 <= j < ids@.len() && ids@[j] == i as usize;
                    assert(done.contains(ids@[j]));
                }
            }
        }
    }

    /// Marks every tracked allocation that counts as rooted after scanning
    /// and puts it into the queue of allocations whose data is to be
    /// followed.
    fn enqueue_roots(&mut self, ids: &Vec<usize>, Ghost(start): Ghost<Self>) -> (roots: SegQueue<
        usize,
    >)
        requires
            start.parts_ok(Seq::empty()),
            start.collecting(old(self), start.tally_scanned()),
            ids@.no_duplicates(),
            forall|k: int|
                0 <= k < ids@.len() ==> start.index@.dom().contains(#[trigger] ids@[k]) && ids@[k]
                    < start.size(),
            forall|id: usize| start.index@.dom().contains(id) ==> #[trigger] ids@.contains(id),
        ensures
            start.collecting(final(self), start.tally_marked(start.root_set())),
            final(self).atomic_spinlock == old(self).atomic_spinlock,
            forall|m: int|
                0 <= m < work_queue_items(roots).len() ==> start.root_set().contains(
                    #[trigger] work_queue_items(roots)[m],
                ),
            forall|t: usize|
                start.root_set().contains(t) ==> #[trigger] work_queue_items(roots).contains(t),
    {
        let mut roots = work_queue_new();
        let ghost done: Set<usize> = Set::empty();
        let mut k: usize = 0;
        while k < ids.len()
            invariant
                0 <= k <= ids.len(),
                start.parts_ok(Seq::empty()),
                self.records.len() == start.records.len(),
                self.index == start.index,
                self.tracked_data == start.tracked_data,
                self.trigger == start.trigger,
                self.dropper == start.dropper,
                self.live_handle_count == start.live_handle_count,
                self.atomic_spinlock == old(self).atomic_spinlock,
                ids@.no_duplicates(),
                forall|j: int|
                    0 <= j < ids@.len() ==> start.index@.dom().contains(#[trigger] ids@[j])
                        && ids@[j] < start.size(),
                forall|j: int| 0 <= j < k ==> done.contains(#[trigger] ids@[j]),
                forall|j: int| k <= j < ids@.len() ==> !done.contains(#[trigger] ids@[j]),
                forall|x: usize| #[trigger] done.contains(x) ==> start.index@.dom().contains(x),
                forall|i: int|
                    0 <= i < start.records.len() ==> #[trigger] self.records@[i] == (
                    if start.index@.dom().contains(i as usize) {
                        Self::frozen_record(
                            start.records@[i],
                            if done.contains(i as usize) {
                                (start.tally_marked(start.root_set()))(i as usize)
                            } else {
                                (start.tally_scanned())(i as usize)
                            },
                        )
                    } else {
                        start.records@[i]
                    }),
                forall|m: int|
                    0 <= m < work_queue_items(roots).len() ==> start.root_set().contains(
                        #[trigger] work_queue_items(roots)[m],
                    ),
                forall|t: usize|
                    start.root_set().contains(t) && done.contains(t)
                        ==> #[trigger] work_queue_items(roots).contains(t),
            decreases ids.len() - k,
        {
            let data = ids[k];
            proof {
                assert(start.record_ok(data as int));
                assert(start.index@.dom().contains(ids@[k as int]));
                assert(!done.contains(ids@[k as int]));
                start.lemma_tally_fits(data);
            }
            let ghost queued = work_queue_items(roots);
            if self.records[data].ref_cnt.is_rooted() {
                // The override doubles as the mark of what has been queued.
                self.records[data].ref_cnt.override_mark_as_rooted();
                work_queue_push(&mut roots, data);
                proof {
                    assert(start.initially_rooted(data));
                    assert(work_queue_items(roots)[queued.len() as int] == data);
                    assert forall|t: usize|
                        start.root_set().contains(t) && done.insert(data).contains(
                            t,
                        ) implies #[trigger] work_queue_items(roots).contains(t) by {
                        if t != data {
                            assert(done.contains(t));
                            assert(queued.contains(t));
                            let m = choose|m: int| 0 <= m < queued.len() && queued[m] == t;
                            assert(work_queue_items(roots)[m] == t);
                        }
                    }
                }
            } else {
                proof {
                    assert(!start.initially_rooted(data));
                }
            }
            proof {
                done = done.insert(data);
            }
            k = k + 1;
        }
        proof {
            assert forall|i: int| 0 <= i < start.records.len() implies #[trigger] self.records@[i]
                == (if start.index@.dom().contains(i as usize) {
                Self::frozen_record(
                    start.records@[i],
                    (start.tally_marked(start.root_set()))(i as usize),
                )
            } else {
                start.records@[i]
            }) by {
                if start.index@.dom().contains(i as usize) {
                    assert(ids@.contains(i as usize));
                    let j = choose|j: int| 0 <= j < ids@.len() && ids@[j] == i as usize;
                    assert(done.contains(ids@[j]));
                }
            }
            assert forall|t: usize| start.root_set().contains(t)
                implies #[trigger] work_queue_items(
                roots,
            ).contains(t) by {
                assert(ids@.contains(t));
                let j = choose|j: int| 0 <= j < ids@.len() && ids@[j] == t;
                assert(done.contains(ids@[j]));
            }
        }
        roots
    }

    /// What a collection takes for a root can be reached from outside
    /// managed data: it is a root, or the data of an allocation that a
    /// mutator holds refers to it.
    pub(crate) proof fn lemma_root_reachable(&self, t: usize)
        requires
            self.parts_ok(Seq::empty()),
            self.batch_ok(Seq::empty()),
            self.root_set().contains(t),
        ensures
            self.reachable(t),
    {
        let e = self.edge_table();
        assert(self.index_ok());
        assert(t < self.size());
        if self.records@[t as int].lockout.count != 0 || self.outside_handles(t) > 0 {
            assert(self.root(t));
            assert(self.reach(t, 0));
        } else {
            let b = lemma_indegree_witness(e, self.frozen_set(), Set::full(), e.len(), t);
            lemma_count_contains(e[b], t);
            assert(self.record_ok(b));
            let holder = b as usize;
            if !self.index@.dom().contains(holder) {
                if self.records@[b].underlying_allocation.releases == 0 {
                    assert(Seq::<usize>::empty().contains(holder));
                }
                assert(false);
            }
            assert(self.root(holder));
            assert(self.reach(holder, 0));
            assert(self.refers_to(holder, t));
            assert(self.reach(t, 1));
        }
    }

    /// What the data of a reachable allocation refers to is reachable.
    pub(crate) proof fn lemma_reachable_step(&self, b: usize, t: usize)
        requires
            self.reachable(b),
            self.refers_to(b, t),
            self.is_tracked(t),
        ensures
            self.reachable(t),
    {
        let n = choose|n: nat| self.reach(b, n);
        assert(self.reach(t, n + 1));
    }

    /// Follows the references of every marked allocation whose data the
    /// collector has frozen, marking and queueing what they lead to, until
    /// the queue is empty.
    fn propagate(&mut self, roots: SegQueue<usize>, Ghost(start): Ghost<Self>) -> (marked: Ghost<
        Set<usize>,
    >)
        requires
            start.parts_ok(Seq::empty()),
            start.batch_ok(Seq::empty()),
            start.collecting(old(self), start.tally_marked(start.root_set())),
            forall|m: int|
                0 <= m < work_queue_items(roots).len() ==> start.root_set().contains(
                    #[trigger] work_queue_items(roots)[m],
                ),
            forall|t: usize|
                start.root_set().contains(t) ==> #[trigger] work_queue_items(roots).contains(t),
        ensures
            start.collecting(final(self), start.tally_marked(marked@)),
            final(self).atomic_spinlock == old(self).atomic_spinlock,
            forall|t: usize| #[trigger]
                marked@.contains(t) ==> start.index@.dom().contains(t) && start.reachable(t),
            forall|t: usize| start.root_set().contains(t) ==> #[trigger] marked@.contains(t),
            forall|t: usize, k: int|
                marked@.contains(t) && start.records@[t as int].lockout.count == 0 && 0 <= k
                    < start.edge_table()[t as int].len() ==> marked@.contains(
                    #[trigger] start.edge_table()[t as int][k],
                ),
    {
        let mut queue = roots;
        let ghost e = start.edge_table();
        let ghost mut marked: Set<usize> = start.root_set();
        proof {
            assert forall|t: usize| #[trigger] marked.contains(t)
                implies start.index@.dom().contains(
                t,
            ) && t < start.size() && start.reachable(t) by {
                start.lemma_root_reachable(t);
                assert(start.index_ok());
            }
        }
        loop
            invariant
                e == start.edge_table(),
                start.parts_ok(Seq::empty()),
                start.batch_ok(Seq::empty()),
                self.records.len() == start.records.len(),
                self.index == start.index,
                self.tracked_data == start.tracked_data,
                self.trigger == start.trigger,
                self.dropper == start.dropper,
                self.live_handle_count == start.live_handle_count,
                self.atomic_spinlock == old(self).atomic_spinlock,
                forall|i: int|
                    0 <= i < start.records.len() ==> #[trigger] self.records@[i] == (
                    if start.index@.dom().contains(i as usize) {
                        Self::frozen_record(
                            start.records@[i],
                            (start.tally_marked(marked))(i as usize),
                        )
                    } else {
                        start.records@[i]
                    }),
                forall|t: usize| #[trigger]
                    marked.contains(t) ==> start.index@.dom().contains(t) && t < start.size()
                        && start.reachable(t),
                forall|t: usize| start.root_set().contains(t) ==> #[trigger] marked.contains(t),
                forall|m: int|
                    0 <= m < work_queue_items(queue).len() ==> marked.contains(
                        #[trigger] work_queue_items(queue)[m],
                    ),
                forall|t: usize|
                    #![trigger marked.contains(t)]
                    marked.contains(t) && start.records@[t as int].lockout.count == 0
                        ==> work_queue_items(queue).contains(t) || forall|k: int|
                        0 <= k < e[t as int].len() ==> marked.contains(#[trigger] e[t as int][k]),
            ensures
                work_queue_items(queue).len() == 0,
            decreases 2 * unmarked_count(marked, start.size()) + work_queue_items(queue).len(),
        {
            let ghost queue_before = work_queue_items(queue);
            let ghost marked_before = marked;
            let next = work_queue_pop(&mut queue);
            if next.is_none() {
                break ;
            }
            let data = next.unwrap();
            proof {
                assert(queue_before[0] == data);
                assert(marked.contains(data));
                assert(start.record_ok(data as int));
                assert forall|t: usize|
                    t != data && queue_before.contains(t) implies work_queue_items(queue).contains(
                    t,
                ) by {
                    let m = choose|m: int| 0 <= m < queue_before.len() && queue_before[m] == t;
                    assert(work_queue_items(queue)[m - 1] == t);
                }
            }
            if self.records[data].lockout.unsafe_exclusive_access_taken() {
                let ghost targets = e[data as int];
                let hs = self.records[data].underlying_allocation.scan();
                let mut kk: usize = 0;
                while kk < hs.len()
                    invariant
                        0 <= kk <= hs.len(),
                        e == start.edge_table(),
                        targets == e[data as int],
                        data < start.size(),
                        start.index@.dom().contains(data),
                        start.records@[data as int].lockout.count == 0,
                        marked.contains(data),
                        hs@.len() == targets.len(),
                        forall|m: int| 0 <= m < hs@.len() ==> (#[trigger] hs@[m]).target()
                            == targets[m],
                        forall|m: int|
                            0 <= m < targets.len() ==> (#[trigger] targets[m]) < start.size()
                                && start.index@.dom().contains(targets[m]),
                        start.parts_ok(Seq::empty()),
                        start.batch_ok(Seq::empty()),
                        self.records.len() == start.records.len(),
                        self.index == start.index,
                        self.tracked_data == start.tracked_data,
                        self.trigger == start.trigger,
                        self.dropper == start.dropper,
                        self.live_handle_count == start.live_handle_count,
                        self.atomic_spinlock == old(self).atomic_spinlock,
                        forall|i: int|
                            0 <= i < start.records.len() ==> #[trigger] self.records@[i] == (
                            if start.index@.dom().contains(i as usize) {
                                Self::frozen_record(
                                    start.records@[i],
                                    (start.tally_marked(marked))(i as usize),
                                )
                            } else {
                                start.records@[i]
                            }),
                        forall|t: usize| #[trigger]
                            marked.contains(t) ==> start.index@.dom().contains(t) && t
                                < start.size() && start.reachable(t),
                        forall|t: usize|
                            start.root_set().contains(t) ==> #[trigger] marked.contains(t),
                        forall|m: int|
                            0 <= m < work_queue_items(queue).len() ==> marked.contains(
                                #[trigger] work_queue_items(queue)[m],
                            ),
                        forall|m: int| 0 <= m < kk ==> marked.contains(#[trigger] targets[m]),
                        forall|t: usize|
                            #![trigger marked.contains(t)]
                            marked.contains(t) && start.records@[t as int].lockout.count == 0 && t
                                != data ==> work_queue_items(queue).contains(t) || forall|k: int|
                                0 <= k < e[t as int].len() ==> marked.contains(
                                    #[trigger] e[t as int][k],
                                ),
                        2 * unmarked_count(marked, start.size()) + work_queue_items(queue).len() < 2
                            * unmarked_count(marked_before, start.size()) + queue_before.len(),
                    decreases hs.len() - kk,
                {
                    let t = hs[kk].data();
                    proof {
                        assert(hs@[kk as int].target() == targets[kk as int]);
                        assert(targets[kk as int] < start.size());
                        start.lemma_tally_fits(t);
                    }
                    // The override doubles as the mark of what has been queued.
                    if !self.records[t].ref_cnt.was_overriden_as_rooted() {
                        let ghost queued = work_queue_items(queue);
                        let ghost marked_so_far = marked;
                        self.records[t].ref_cnt.override_mark_as_rooted();
                        work_queue_push(&mut queue, t);
                        proof {
                            assert(!marked.contains(t));
                            marked = marked.insert(t);
                            lemma_unmarked_insert(marked_so_far, t, start.size());
                            assert(e[data as int].contains(t));
                            assert(start.refers_to(data, t));
                            start.lemma_reachable_step(data, t);
                            assert(work_queue_items(queue)[queued.len() as int] == t);
                            assert forall|u: usize|
                                #![trigger marked.contains(u)]
                                marked.contains(u) && start.records@[u as int].lockout.count == 0
                                    && u != data implies work_queue_items(queue).contains(u)
                                || forall|k: int|
                                0 <= k < e[u as int].len() ==> marked.contains(
                                    #[trigger] e[u as int][k],
                                ) by {
                                if u != t {
                                    assert(marked_so_far.contains(u));
                                    if queued.contains(u) {
                                        let m = choose|m: int|
                                            0 <= m < queued.len() && queued[m] == u;
                                        assert(work_queue_items(queue)[m] == u);
                                    }
                                }
                            }
                            assert forall|m: int|
                                0 <= m < work_queue_items(queue).len() implies marked.contains(
                                #[trigger] work_queue_items(queue)[m],
                            ) by {
                                if m < queued.len() {
                                    assert(work_queue_items(queue)[m] == queued[m]);
                                    assert(marked_so_far.contains(queued[m]));
                                }
                            }
                        }
                    }
                    kk = kk + 1;
                }
            } else {
                // Somebody else has this data during the collection, so it is in use.
                self.records[data].ref_cnt.override_mark_as_rooted();
                proof {
                    assert(start.records@[data as int].lockout.count != 0);
                }
            }
        }
        Ghost(marked)
    }

    /// The record of a tracked allocation after a collection: the negative
    /// counter is folded into the positive one, and the tally is `found`.
    pub open(crate) spec fn collected_record(r: GcData, found: int) -> GcData {
        GcData {
            ref_cnt: GcRefCount {
                count_positive: (r.ref_cnt.count_positive + r.ref_cnt.count_negative) as i64,
                count_negative: 0,
                found_internally: found as i64,
            },
            ..r
        }
    }

    /// The tally with which a collection leaves a tracked allocation: the
    /// override for those that are reachable, the references found for the
    /// rest.
    pub open(crate) spec fn tally_collected(&self) -> spec_fn(usize) -> int {
        |t: usize|
            if self.reachable(t) {
                ROOT_OVERRIDE_VALUE as int
            } else {
                self.tally(t) as int
            }
    }

    /// What marking and sweeping does, starting with nothing waiting to be
    /// released. The tracked allocations that are reachable stay tracked, in
    /// the slots they had, with their data, lockouts and counts; the others
    /// leave the list and wait, as one batch, to be released. Counters are
    /// folded and tallies set; the trigger is told how many allocations are
    /// left. Nothing else changes.
    pub open(crate) spec fn swept_from(&self, post: &Self) -> bool {
        &&& post.records.len() == self.records.len()
        &&& post.live_handle_count == self.live_handle_count
        &&& post.atomic_spinlock == self.atomic_spinlock
        &&& post.trigger.allocations_trigger_percent == self.trigger.allocations_trigger_percent
        &&& post.trigger.handle_deficit_trigger_percent
            == self.trigger.handle_deficit_trigger_percent
        &&& post.trigger.data_count_at_last_collection == post.tracked_data@.dom().len()
        &&& forall|id: usize|
            #![trigger post.index@.dom().contains(id)]
            post.index@.dom().contains(id) <==> self.index@.dom().contains(id) && self.reachable(
                id,
            )
        &&& forall|id: usize| #[trigger]
            post.index@.dom().contains(id) ==> post.index@[id] == self.index@[id]
        &&& forall|p: (usize, usize)|
            #![trigger post.tracked_data@.dom().contains(p)]
            post.tracked_data@.dom().contains(p) <==> self.tracked_data@.dom().contains(p)
                && self.reachable(self.tracked_data@[p])
        &&& forall|p: (usize, usize)| #[trigger]
            post.tracked_data@.dom().contains(p) ==> post.tracked_data@[p] == self.tracked_data@[p]
        &&& forall|i: int|
            0 <= i < self.records.len() ==> #[trigger] post.records@[i] == (
            if self.index@.dom().contains(i as usize) {
                Self::collected_record(self.records@[i], (self.tally_collected())(i as usize))
            } else {
                self.records@[i]
            })
        &&& post.tracked_data.chunk_count() == self.tracked_data.chunk_count()
        &&& post.tracked_data.free_slots() == self.tracked_data.free_slots()
            + self.slots_in_list(post.condemned())
        &&& post.dropper.messages@.len() == 1
        &&& post.dropper.messages@[0] is DataToDrop
        &&& !post.dropper.keeps_buffer()
        &&& post.condemned().no_duplicates()
        &&& self.in_slot_order(post.condemned())
        &&& forall|id: usize|
            #![trigger post.condemned().contains(id)]
            post.condemned().contains(id) <==> self.index@.dom().contains(id) && !self.reachable(
                id,
            )
    }

    /// The slots in which the list holds the allocations of `ids`, in the
    /// order of `ids`.
    pub open(crate) spec fn slots_in_list(&self, ids: Seq<usize>) -> Seq<(usize, usize)> {
        Seq::new(ids.len(), |k: int| self.index@[ids[k]])
    }

    /// The allocations of `ids` are in the order of their slots in the list.
    pub open(crate) spec fn in_slot_order(&self, ids: Seq<usize>) -> bool {
        forall|j: int, k: int|
            0 <= j < k < ids.len() ==> ChunkedLinkedList::slot_before(
                self.index@[#[trigger] ids[j]],
                self.index@[#[trigger] ids[k]],
            )
    }

    /// What a collection does: what waited to be released is released, then
    /// the tracked allocations are marked and swept.
    pub open spec fn collected_from(&self, post: &Self) -> bool {
        exists|mid: Self|
            self.synchronized_from(&mid) && mid.wf() && #[trigger] mid.swept_from(post)
    }

    /// Every reachable allocation is marked, where the roots are marked and
    /// the marks are closed under the references of scanned data.
    pub(crate) proof fn lemma_marked_complete(&self, marked: Set<usize>, t: usize, n: nat)
        requires
            self.parts_ok(Seq::empty()),
            forall|u: usize| self.root_set().contains(u) ==> #[trigger] marked.contains(u),
            forall|u: usize, k: int|
                marked.contains(u) && self.records@[u as int].lockout.count == 0 && 0 <= k
                    < self.edge_table()[u as int].len() ==> marked.contains(
                    #[trigger] self.edge_table()[u as int][k],
                ),
            forall|u: usize| #[trigger] marked.contains(u) ==> self.index@.dom().contains(u),
            self.reach(t, n),
        ensures
            marked.contains(t),
        decreases n,
    {
        let e = self.edge_table();
        assert(self.index_ok());
        assert(t < self.size());
        self.lemma_tally_fits(t);
        if n == 0 {
            assert(self.root(t));
            assert(self.root_set().contains(t));
        } else if self.reach(t, (n - 1) as nat) {
            self.lemma_marked_complete(marked, t, (n - 1) as nat);
        } else {
            let b = choose|b: usize| self.reach(b, (n - 1) as nat) && #[trigger] self.refers_to(b,
                t);
            self.lemma_marked_complete(marked, b, (n - 1) as nat);
            let targets = e[b as int];
            let k = choose|k: int| 0 <= k < targets.len() && targets[k] == t;
            if self.records@[b as int].lockout.count == 0 {
                assert(marked.contains(e[b as int][k]));
            } else {
                lemma_count_contains(targets, t);
                lemma_indegree_insert(e, self.frozen_set(), b as int, e.len(), t);
                lemma_indegree_mono(e, self.frozen_set().insert(b as int), Set::full(), e.len(), t);
                assert(self.root_set().contains(t));
            }
        }
    }

    /// `post` is a collection that has marked the allocations of `marked`
    /// and given back the lockouts it took.
    pub open(crate) spec fn thawed(&self, post: &Self, marked: Set<usize>) -> bool {
        &&& post.records.len() == self.records.len()
        &&& post.index == self.index
        &&& post.tracked_data == self.tracked_data
        &&& post.trigger == self.trigger
        &&& post.dropper == self.dropper
        &&& post.live_handle_count == self.live_handle_count
        &&& forall|i: int|
            0 <= i < self.records.len() ==> #[trigger] post.records@[i] == (
            if self.index@.dom().contains(i as usize) {
                Self::collected_record(self.records@[i], (self.tally_marked(marked))(i as usize))
            } else {
                self.records@[i]
            })
    }

    /// Gives back the lockout of every tracked allocation that the
    /// collector had frozen.
    fn thaw(&mut self, ids: &Vec<usize>, Ghost(start): Ghost<Self>,
        Ghost(marked): Ghost<Set<usize>>)
        requires
            start.parts_ok(Seq::empty()),
            start.collecting(old(self), start.tally_marked(marked)),
            ids@.no_duplicates(),
            forall|k: int|
                0 <= k < ids@.len() ==> start.index@.dom().contains(#[trigger] ids@[k]) && ids@[k]
                    < start.size(),
            forall|id: usize| start.index@.dom().contains(id) ==> #[trigger] ids@.contains(id),
        ensures
            start.thawed(final(self), marked),
            final(self).atomic_spinlock == old(self).atomic_spinlock,
    {
        let ghost done: Set<usize> = Set::empty();
        let mut k: usize = 0;
        while k < ids.len()
            invariant
                0 <= k <= ids.len(),
                start.parts_ok(Seq::empty()),
                self.records.len() == start.records.len(),
                self.index == start.index,
                self.tracked_data == start.tracked_data,
                self.trigger == start.trigger,
                self.dropper == start.dropper,
                self.live_handle_count == start.live_handle_count,
                self.atomic_spinlock == old(self).atomic_spinlock,
                ids@.no_duplicates(),
                forall|j: int|
                    0 <= j < ids@.len() ==> start.index@.dom().contains(#[trigger] ids@[j])
                        && ids@[j] < start.size(),
                forall|j: int| 0 <= j < k ==> done.contains(#[trigger] ids@[j]),
                forall|j: int| k <= j < ids@.len() ==> !done.contains(#[trigger] ids@[j]),
                forall|x: usize| #[trigger] done.contains(x) ==> start.index@.dom().contains(x),
                forall|i: int|
                    0 <= i < start.records.len() ==> #[trigger] self.records@[i] == (
                    if start.index@.dom().contains(i as usize) {
                        if done.contains(i as usize) {
                            Self::collected_record(
                                start.records@[i],
                                (start.tally_marked(marked))(i as usize),
                            )
                        } else {
                            Self::frozen_record(
                                start.records@[i],
                                (start.tally_marked(marked))(i as usize),
                            )
                        }
                    } else {
                        start.records@[i]
                    }),
            decreases ids.len() - k,
        {
            let data = ids[k];
            proof {
                assert(start.record_ok(data as int));
                assert(start.index@.dom().contains(ids@[k as int]));
                assert(!done.contains(ids@[k as int]));
            }
            self.records[data].lockout.try_release_exclusive_access_unsafe();
            proof {
                done = done.insert(data);
            }
            k = k + 1;
        }
        proof {
            assert forall|i: int| 0 <= i < start.records.len() implies #[trigger] self.records@[i]
                == (if start.index@.dom().contains(i as usize) {
                Self::collected_record(
                    start.records@[i],
                    (start.tally_marked(marked))(i as usize),
                )
            } else {
                start.records@[i]
            }) by {
                if start.index@.dom().contains(i as usize) {
                    assert(ids@.contains(i as usize));
                    let j = choose|j: int| 0 <= j < ids@.len() && ids@[j] == i as usize;
                    assert(done.contains(ids@[j]));
                }
            }
        }
    }

    /// `post` is what sweeping leaves of a collection that started from
    /// `self` and marked the allocations of `marked`: the marked ones are
    /// in the list, the others in the one batch that the dropper got.
    pub open(crate) spec fn sweep_done(&self, post: &Self, marked: Set<usize>) -> bool {
        &&& post.records.len() == self.records.len()
        &&& post.live_handle_count == self.live_handle_count
        &&& forall|i: int|
            0 <= i < self.records.len() ==> #[trigger] post.records@[i] == (
            if self.index@.dom().contains(i as usize) {
                Self::collected_record(self.records@[i], (self.tally_marked(marked))(i as usize))
            } else {
                self.records@[i]
            })
        &&& post.index@ == self.index@.restrict(marked)
        &&& post.tracked_data.wf()
        &&& forall|p: (usize, usize)|
            #![trigger post.tracked_data@.dom().contains(p)]
            post.tracked_data@.dom().contains(p) <==> self.tracked_data@.dom().contains(p)
                && marked.contains(self.tracked_data@[p])
        &&& forall|p: (usize, usize)| #[trigger]
            post.tracked_data@.dom().contains(p) ==> post.tracked_data@[p] == self.tracked_data@[p]
        &&& post.tracked_data.chunk_count() == self.tracked_data.chunk_count()
        &&& post.tracked_data.free_slots() == self.tracked_data.free_slots()
            + self.slots_in_list(post.condemned())
        &&& post.dropper.wf()
        &&& post.dropper.messages@.len() == 1
        &&& post.dropper.messages@[0] is DataToDrop
        &&& !post.dropper.keeps_buffer()
        &&& post.condemned().no_duplicates()
        &&& self.in_slot_order(post.condemned())
        &&& forall|id: usize|
            #![trigger post.condemned().contains(id)]
            post.condemned().contains(id) <==> self.index@.dom().contains(id) && !marked.contains(
                id,
            )
        &&& post.trigger.allocations_trigger_percent == self.trigger.allocations_trigger_percent
        &&& post.trigger.handle_deficit_trigger_percent
            == self.trigger.handle_deficit_trigger_percent
        &&& post.trigger.data_count_at_last_collection == post.tracked_data@.dom().len()
    }

    /// Takes every tracked allocation that is not marked out of the list,
    /// hands them to the dropper as one batch, and tells the trigger how
    /// many allocations are left.
    fn sweep(&mut self, Ghost(start): Ghost<Self>, Ghost(marked): Ghost<Set<usize>>)
        requires
            start.parts_ok(Seq::empty()),
            start.dropper.messages@.len() == 0,
            start.thawed(old(self), marked),
            forall|t: usize| #[trigger] marked.contains(t) ==> start.index@.dom().contains(t),
            forall|t: usize| start.root_set().contains(t) ==> #[trigger] marked.contains(t),
        ensures
            start.sweep_done(final(self), marked),
            final(self).atomic_spinlock == old(self).atomic_spinlock,
    {
        let mut to_drop = self.dropper.get_buffer();
        let ghost listed = self.tracked_data@;
        proof {
            assert(start.index_ok());
        }
        let records = &self.records;
        let keep = |id: usize| -> (is_marked: bool)
            requires
                id < records.len(),
            ensures
                is_marked == records@[id as int].ref_cnt.rooted(),
            { records[id].ref_cnt.is_rooted() };
        assert forall|p: (usize, usize)| listed.dom().contains(p) implies keep.requires(
            (#[trigger] listed[p],),
        ) by {
            assert(start.index@.dom().contains(listed[p]));
        }
        let removed = self.tracked_data.par_retain(keep);
        proof {
            assert forall|p: (usize, usize)|
                #![trigger self.tracked_data@.dom().contains(p)]
                self.tracked_data@.dom().contains(p) <==> listed.dom().contains(p)
                    && marked.contains(listed[p]) by {
                if listed.dom().contains(p) {
                    let id = listed[p];
                    assert(start.index@.dom().contains(id));
                    start.lemma_tally_fits(id);
                    let _ = self.records@[id as int];
                    if self.tracked_data@.dom().contains(p) {
                        assert(listed.contains_pair(p, self.tracked_data@[p]));
                        assert(keep.ensures((self.tracked_data@[p],), true));
                    } else {
                        assert(keep.ensures((listed[p],), false));
                    }
                    if !marked.contains(id) {
                        assert(!start.root_set().contains(id));
                    }
                } else if self.tracked_data@.dom().contains(p) {
                    assert(listed.contains_pair(p, self.tracked_data@[p]));
                }
            }
            assert forall|p: (usize, usize)| #[trigger]
                self.tracked_data@.dom().contains(p) implies self.tracked_data@[p] == listed[p] by {
                assert(listed.contains_pair(p, self.tracked_data@[p]));
            }
        }
        let mut k: usize = 0;
        while k < removed.len()
            invariant
                0 <= k <= removed.len(),
                to_drop@.len() == k,
                forall|j: int| 0 <= j < k ==> #[trigger] to_drop@[j] == removed@[j].v,
            decreases removed.len() - k,
        {
            to_drop.push(removed[k].v);
            k = k + 1;
        }
        proof {
            self.index = Ghost(self.index@.restrict(marked));
            assert forall|k: int| 0 <= k < removed@.len()
                implies start.index@[#[trigger] to_drop@[k]]
                == removed@[k].slot() by {
                assert(listed.contains_pair(removed@[k].slot(), removed@[k].v));
                assert(listed.dom().contains(removed@[k].slot()));
            }
            assert(ChunkedLinkedList::slots_of(removed@) =~= start.slots_in_list(to_drop@));
            assert(start.in_slot_order(to_drop@));
            assert(to_drop@.no_duplicates()) by {
                assert forall|i: int, j: int|
                    0 <= i < to_drop@.len() && 0 <= j < to_drop@.len() && i != j implies to_drop@[i]
                    != to_drop@[j] by {
                    assert(listed.contains_pair(removed@[i].slot(), removed@[i].v));
                    assert(listed.contains_pair(removed@[j].slot(), removed@[j].v));
                    assert(listed.dom().contains(removed@[i].slot()));
                    assert(listed.dom().contains(removed@[j].slot()));
                    if i < j {
                        assert(ChunkedLinkedList::slot_before(
                            removed@[i].slot(),
                            removed@[j].slot(),
                        ));
                    } else {
                        assert(ChunkedLinkedList::slot_before(
                            removed@[j].slot(),
                            removed@[i].slot(),
                        ));
                    }
                }
            }
            assert forall|id: usize|
                #![trigger to_drop@.contains(id)]
                to_drop@.contains(id) <==> start.index@.dom().contains(id) && !marked.contains(
                    id,
                ) by {
                if to_drop@.contains(id) {
                    let j = choose|j: int| 0 <= j < to_drop@.len() && to_drop@[j] == id;
                    assert(listed.contains_pair(removed@[j].slot(), removed@[j].v));
                    assert(listed.dom().contains(removed@[j].slot()));
                    assert(!self.tracked_data@.dom().contains(removed@[j].slot()));
                }
                if start.index@.dom().contains(id) && !marked.contains(id) {
                    let p = start.index@[id];
                    assert(listed.dom().contains(p));
                    assert(!self.tracked_data@.dom().contains(p));
                    let j = choose|j: int|
                        0 <= j < removed@.len() && (#[trigger] removed@[j]).slot() == p;
                    assert(listed.contains_pair(removed@[j].slot(), removed@[j].v));
                    assert(to_drop@[j] == id);
                }
            }
        }
        // Send off the data to be dropped.
        let drop_msg = DropMessage::DataToDrop(to_drop);
        self.dropper.send_msg(drop_msg);
        proof {
            assert(self.dropper.messages@[0] == drop_msg);
        }

        // The trigger works from the new baseline.
        let data_count = self.tracked_data_count();
        self.trigger.set_data_count_after_collection(data_count);
    }

    /// After marking and sweeping the collector is well formed, and what
    /// stayed tracked is what was reachable.
    pub(crate) proof fn lemma_swept(&self, post: &Self, marked: Set<usize>)
        requires
            self.wf(),
            self.dropper.messages@.len() == 0,
            self.sweep_done(post, marked),
            post.atomic_spinlock == self.atomic_spinlock,
            forall|t: usize| #[trigger]
                marked.contains(t) ==> self.index@.dom().contains(t) && self.reachable(t),
            forall|t: usize| self.root_set().contains(t) ==> #[trigger] marked.contains(t),
            forall|t: usize, k: int|
                marked.contains(t) && self.records@[t as int].lockout.count == 0 && 0 <= k
                    < self.edge_table()[t as int].len() ==> marked.contains(
                    #[trigger] self.edge_table()[t as int][k],
                ),
        ensures
            post.wf(),
            self.swept_from(post),
    {
        assert(self.index_ok());
        assert(self.condemned() == Seq::<usize>::empty());
        assert forall|t: usize| self.index@.dom().contains(t) implies (marked.contains(t)
            <==> self.reachable(t)) by {
            if self.reachable(t) {
                let n = choose|n: nat| self.reach(t, n);
                self.lemma_marked_complete(marked, t, n);
            }
        }
        assert(post.edge_table() =~= self.edge_table());
        assert(post.index_ok()) by {
            assert forall|id: usize| #[trigger] post.index@.dom().contains(id) implies id
                < post.size() && post.tracked_data@.contains_pair(post.index@[id], id) by {
                assert(self.index@.dom().contains(id));
                let p = self.index@[id];
                assert(self.tracked_data@.contains_pair(p, id));
                assert(post.tracked_data@.dom().contains(p));
            }
            assert forall|p: (usize, usize)| #[trigger]
                post.tracked_data@.dom().contains(p) implies post.index@.dom().contains(
                post.tracked_data@[p],
            ) && post.index@[post.tracked_data@[p]] == p by {
                assert(self.tracked_data@.dom().contains(p));
            }
        }
        assert forall|i: int| 0 <= i < post.size() implies #[trigger] post.record_ok(i) by {
            assert(self.record_ok(i));
            let _ = post.records@[i];
            if self.index@.dom().contains(i as usize) {
                self.lemma_tally_fits(i as usize);
            }
            if post.index@.dom().contains(i as usize) {
                let targets = self.edge_table()[i];
                assert forall|k: int| 0 <= k < targets.len() implies post.index@.dom().contains(
                    #[trigger] targets[k],
                ) by {
                    assert(self.index@.dom().contains(targets[k]));
                    assert(self.refers_to(i as usize, targets[k]));
                    self.lemma_reachable_step(i as usize, targets[k]);
                }
            }
        }
        assert(post.counts_ok(Seq::empty())) by {
            assert forall|t: usize| t < post.size() implies #[trigger] post.incoming(t) + count_of(
                Seq::<usize>::empty(),
                t,
            ) <= post.ref_count(t) by {
                assert(self.incoming(t) + count_of(Seq::<usize>::empty(), t) <= self.ref_count(t));
                let _ = post.records@[t as int];
                self.lemma_tally_fits(t);
            }
        }
        assert(post.batch_ok(post.condemned())) by {
            let batch = post.condemned();
            assert forall|j: int| 0 <= j < batch.len() implies {
                &&& (#[trigger] batch[j]) < post.size()
                &&& !post.index@.dom().contains(batch[j])
                &&& post.records@[batch[j] as int].underlying_allocation.releases == 0
            } by {
                assert(batch.contains(batch[j]));
                assert(self.record_ok(batch[j] as int));
            }
            assert forall|i: int|
                0 <= i < post.size() && !post.index@.dom().contains(i as usize) && (
                #[trigger] post.records@[i]).underlying_allocation.releases == 0
                    implies batch.contains(
                i as usize,
            ) by {
                if !self.index@.dom().contains(i as usize) {
                    assert(self.records@[i].underlying_allocation.releases == 0);
                    assert(Seq::<usize>::empty().contains(i as usize));
                }
            }
        }
        assert forall|i: int| 0 <= i < post.size() implies !(
        #[trigger] post.records@[i]).lockout.exclusively_held() by {
            assert(!self.records@[i].lockout.exclusively_held());
        }
        assert forall|i: int| 0 <= i < self.records.len() implies #[trigger] post.records@[i] == (
        if self.index@.dom().contains(i as usize) {
            Self::collected_record(self.records@[i], (self.tally_collected())(i as usize))
        } else {
            self.records@[i]
        }) by {}
        assert forall|p: (usize, usize)|
            #![trigger post.tracked_data@.dom().contains(p)]
            post.tracked_data@.dom().contains(p) <==> self.tracked_data@.dom().contains(p)
                && self.reachable(self.tracked_data@[p]) by {
            if self.tracked_data@.dom().contains(p) {
                assert(self.index@.dom().contains(self.tracked_data@[p]));
            }
        }
    }

    /// Runs one collection.
    ///
    /// The lock that keeps atomic-slot operations out is held throughout.
    /// First the dropper works off what an earlier collection condemned, so
    /// that handles in data that is as good as gone do not pass for roots.
    /// Then every tracked allocation that no mutator holds is frozen and its
    /// counters are folded; the data of the frozen ones is scanned to tally
    /// the references that managed data holds; whatever has more handles than
    /// that, or is held by a mutator, is a root; and the references of the
    /// frozen data are followed from the roots. What has not been reached by
    /// then leaves the list and goes to the dropper.
    pub(crate) fn do_collect(&mut self)
        requires
            old(self).wf(),
        ensures
            final(self).wf(),
            old(self).collected_from(final(self)),
            final(self).size() == old(self).size(),
            forall|t: usize| #[trigger] final(self).is_tracked(t) ==> old(self).is_tracked(t),
    {
        let atomic_spinlock_guard = self.atomic_spinlock.lock_exclusive();
        proof {
            old(self).lemma_same_records(self);
            assert(self.condemned() == old(self).condemned());
            assert(old(self).batch_ok(old(self).condemned()));
        }
        let ghost locked = *self;

        // Handles in data that waits to be released must not pass for roots.
        self.synchronize_destructors();

        let ghost mid = Collector { atomic_spinlock: old(self).atomic_spinlock, ..*self };
        proof {
            mid.lemma_same_records(self);
            self.lemma_same_records(&mid);
            old(self).lemma_same_records(&locked);
            assert(self.condemned() == Seq::<usize>::empty());
            assert(mid.condemned() == Seq::<usize>::empty());
            assert(self.batch_ok(self.condemned()));
            assert(self.parts_ok(Seq::empty()));
            assert(mid.wf()) by {
                assert forall|i: int| 0 <= i < mid.size() implies !(
                #[trigger] mid.records@[i]).lockout.exclusively_held() by {
                    assert(!old(self).records@[i].lockout.exclusively_held());
                }
            }
            assert(old(self).synchronized_from(&mid)) by {
                assert forall|t: usize|
                    t < old(self).records.len() implies #[trigger] mid.outside_handles(t)
                        >= old(self).outside_handles(t) by {
                    assert(self.outside_handles(t) >= locked.outside_handles(t));
                }
            }
        }

        let ids = self.tracked_ids();
        self.freeze(&ids, Ghost(mid));
        self.discover(&ids, Ghost(mid));
        self.root_held(&ids, Ghost(mid));
        let roots = self.enqueue_roots(&ids, Ghost(mid));
        let marked = self.propagate(roots, Ghost(mid));

        // Scanning is over: give the lockouts back.
        self.thaw(&ids, Ghost(mid), marked);

        self.sweep(Ghost(mid), marked);

        atomic_spinlock_guard.unwrap().release(&mut self.atomic_spinlock);
        proof {
            mid.lemma_swept(self, marked@);
        }
    }

    /// Runs a collection if the trigger says that one is due, and says
    /// whether it did.
    pub fn check_then_collect(&mut self) -> (collected: bool)
        requires
            old(self).wf(),
        ensures
            final(self).wf(),
            collected == old(self).trigger_view().collection_due(
                old(self).tracked_count() as int,
                old(self).live_handles() as int,
            ),
            collected ==> old(self).collected_from(final(self)),
            !collected ==> *final(self) == *old(self),
    {
        let current_data_count = self.tracked_data.estimate_len();
        let current_handle_count = self.live_handle_count;
        if self.trigger.should_collect(current_data_count, current_handle_count) {
            self.do_collect();
            true
        } else {
            false
        }
    }

    /// Runs a collection, whatever the trigger says.
    pub fn collect(&mut self)
        requires
            old(self).wf(),
        ensures
            final(self).wf(),
            old(self).collected_from(final(self)),
            final(self).size() == old(self).size(),
            forall|t: usize| #[trigger] final(self).is_tracked(t) ==> old(self).is_tracked(t),
    {
        self.do_collect();
    }
}

} // verus!
