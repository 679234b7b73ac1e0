use crate::concurrency::seg_queue::{
    slot_queue_items, slot_queue_new, slot_queue_pop, slot_queue_push,
};
use crossbeam::queue::SegQueue;
use vstd::prelude::*;

verus! {

/// The number of slots in one chunk.
pub const CHUNK_SIZE: usize = 1024;

/// A fixed run of slots, each empty or holding one item.
pub struct Chunk {
    pub(crate) values: Vec<Option<usize>>,
}

/// A list of chunks with a queue of the slots that are free.
///
/// A slot never moves: the pair of chunk number and slot number that `insert`
/// hands out stays the place of the item until it is removed. Chunks are
/// never given back.
pub struct ChunkedLinkedList {
    /// the slots that hold nothing and may be used again
    pub(crate) free_entries: SegQueue<(usize, usize)>,
    /// the chunks, oldest first
    pub(crate) chunks: Vec<Chunk>,
    /// how many slots hold an item
    pub(crate) estimated_len: usize,
}

/// An item of the list together with the slot that holds it.
#[derive(Debug)]
pub struct CLLItem {
    /// the item
    pub v: usize,
    /// the number of the chunk that holds it
    pub from: usize,
    /// the number of its slot in that chunk
    pub idx: usize,
}

impl CLLItem {
    /// The slot of the item: chunk number and slot number.
    pub open spec fn slot(&self) -> (usize, usize) {
        (self.from, self.idx)
    }
}

impl Clone for CLLItem {
    fn clone(&self) -> (c: Self)
        ensures
            c == *self,
    {
        Self { v: self.v, from: self.from, idx: self.idx }
    }
}

impl Chunk {
    /// A chunk of `CHUNK_SIZE` empty slots.
    fn new() -> (chunk: Self)
        ensures
            chunk.values.len() == CHUNK_SIZE,
            forall|i: int| 0 <= i < CHUNK_SIZE ==> (#[trigger] chunk.values[i]).is_none(),
    {
        Self { values: initialize_values() }
    }

    /// Appends to `out` every item of this chunk, which is chunk number
    /// `from`, in slot order.
    fn iter_this(&self, from: usize, out: &mut Vec<CLLItem>)
        requires
            self.values.len() == CHUNK_SIZE,
        ensures
            final(out)@.len() >= old(out)@.len(),
            final(out)@.subrange(0, old(out)@.len() as int) == old(out)@,
            forall|k: int|
                old(out)@.len() <= k < final(out)@.len() ==> {
                    &&& (#[trigger] final(out)@[k]).from == from
                    &&& final(out)@[k].idx < CHUNK_SIZE
                    &&& self.values[final(out)@[k].idx as int] == Some(final(out)@[k].v)
                },
            forall|i: int|
                0 <= i < CHUNK_SIZE && (#[trigger] self.values[i]).is_some() ==> exists|k: int|
                    old(out)@.len() <= k < final(out)@.len() && (#[trigger] final(out)@[k]).idx
                        == i,
            forall|j: int, k: int|
                old(out)@.len() <= j < k < final(out)@.len() ==> (#[trigger] final(out)@[j]).idx
                    < (#[trigger] final(out)@[k]).idx,
    {
        let ghost start = out@.len() as int;
        let mut i: usize = 0;
        while i < CHUNK_SIZE
            invariant
                0 <= i <= CHUNK_SIZE,
                self.values.len() == CHUNK_SIZE,
                start == old(out)@.len(),
                out@.len() >= start,
                out@.subrange(0, start) == old(out)@,
                forall|k: int|
                    start <= k < out@.len() ==> {
                        &&& (#[trigger] out@[k]).from == from
                        &&& out@[k].idx < i
                        &&& self.values[out@[k].idx as int] == Some(out@[k].v)
                    },
                forall|s: int|
                    0 <= s < i && (#[trigger] self.values[s]).is_some() ==> exists|k: int|
                        start <= k < out@.len() && (#[trigger] out@[k]).idx == s,
                forall|j: int, k: int|
                    start <= j < k < out@.len() ==> (#[trigger] out@[j]).idx < (
                    #[trigger] out@[k]).idx,
            decreases CHUNK_SIZE - i,
        {
            let ghost before = out@;
            match self.values[i] {
                Some(v) => {
                    out.push(CLLItem { v, from, idx: i });
                    assert(out@[before.len() as int].idx == i);
                    assert forall|s: int|
                        0 <= s < i + 1 && (#[trigger] self.values[s]).is_some() implies exists|
                        k: int,
                    |
                        start <= k < out@.len() && (#[trigger] out@[k]).idx == s by {
                        if s < i {
                            let k = choose|k: int|
                                start <= k < before.len() && (#[trigger] before[k]).idx == s;
                            assert(out@[k] == before[k]);
                        } else {
                            assert(out@[before.len() as int].idx == s);
                        }
                    }
                },
                None => {},
            }
            assert(out@.subrange(0, start) =~= old(out)@);
            i = i + 1;
        }
    }
}

/// A run of `CHUNK_SIZE` empty slots.
fn initialize_values() -> (values: Vec<Option<usize>>)
    ensures
        values.len() == CHUNK_SIZE,
        forall|i: int| 0 <= i < CHUNK_SIZE ==> (#[trigger] values[i]).is_none(),
{
    let mut data: Vec<Option<usize>> = Vec::new();
    let mut i: usize = 0;
    while i < CHUNK_SIZE
        invariant
            0 <= i <= CHUNK_SIZE,
            data.len() == i,
            forall|k: int| 0 <= k < i ==> (#[trigger] data[k]).is_none(),
        decreases CHUNK_SIZE - i,
    {
        data.push(None);
        i = i + 1;
    }
    data
}

impl ChunkedLinkedList {
    /// What the slot at chunk `p.0`, place `p.1` holds; nothing where the
    /// list has no such slot.
    pub open(crate) spec fn slot(&self, p: (usize, usize)) -> Option<usize> {
        if p.0 < self.chunks.len() && p.1 < self.chunks[p.0 as int].values.len() {
            self.chunks[p.0 as int].values[p.1 as int]
        } else {
            None
        }
    }

    /// The items of the list, each under the slot that holds it.
    pub open(crate) spec fn view(&self) -> Map<(usize, usize), usize> {
        Map::new(|p: (usize, usize)| self.slot(p).is_some(), |p: (usize,
            usize)| self.slot(p).unwrap())
    }

    /// The slots waiting in the free queue, oldest first.
    pub open(crate) spec fn free_slots(&self) -> Seq<(usize, usize)> {
        slot_queue_items(self.free_entries)
    }

    /// The number of chunks.
    pub open(crate) spec fn chunk_count(&self) -> nat {
        self.chunks.len() as nat
    }

    /// The slots of chunk number `chunk`, in order.
    pub open spec fn fresh_slots(chunk: usize) -> Seq<(usize, usize)> {
        Seq::new(CHUNK_SIZE as nat, |k: int| (chunk, k as usize))
    }

    /// The slot that the next `insert` uses: the one that has waited longest
    /// in the free queue, or the first slot of a new chunk if none waits.
    pub open spec fn next_slot(&self) -> (usize, usize) {
        if self.free_slots().len() > 0 {
            self.free_slots()[0]
        } else {
            (self.chunk_count() as usize, 0usize)
        }
    }

    /// The free queue after the next `insert`: without its head, or the rest
    /// of a new chunk if it was empty.
    pub open spec fn free_slots_after_insert(&self) -> Seq<(usize, usize)> {
        if self.free_slots().len() > 0 {
            self.free_slots().subrange(1, self.free_slots().len() as int)
        } else {
            Self::fresh_slots(self.chunk_count() as usize).subrange(1, CHUNK_SIZE as int)
        }
    }

    /// The number of chunks after the next `insert`.
    pub open spec fn chunk_count_after_insert(&self) -> nat {
        if self.free_slots().len() > 0 {
            self.chunk_count()
        } else {
            self.chunk_count() + 1
        }
    }

    /// Slot `a` comes before slot `b`: in an earlier chunk, or earlier in the
    /// same chunk.
    pub open spec fn slot_before(a: (usize, usize), b: (usize, usize)) -> bool {
        a.0 < b.0 || (a.0 == b.0 && a.1 < b.1)
    }

    /// The slots of `items`, in order.
    pub open spec fn slots_of(items: Seq<CLLItem>) -> Seq<(usize, usize)> {
        Seq::new(items.len(), |k: int| items[k].slot())
    }

    /// Every chunk is full size, the length counts the items, and the free
    /// queue names empty slots only, none of them twice.
    pub open(crate) spec fn wf(&self) -> bool {
        &&& self.chunks.len() >= 1
        &&& forall|c: int|
            0 <= c < self.chunks.len() ==> (#[trigger] self.chunks[c]).values.len() == CHUNK_SIZE
        &&& self@.dom().finite()
        &&& self.estimated_len == self@.dom().len()
        &&& forall|k: int|
            0 <= k < self.free_slots().len() ==> {
                &&& (#[trigger] self.free_slots()[k]).0 < self.chunks.len()
                &&& self.free_slots()[k].1 < CHUNK_SIZE
                &&& self.slot(self.free_slots()[k]).is_none()
            }
        &&& self.free_slots().no_duplicates()
    }

    /// Whether the list holds `v` in some slot.
    pub open spec fn holds(&self, v: usize) -> bool {
        exists|p: (usize, usize)| #[trigger] self@.contains_pair(p, v)
    }

    /// A list of one chunk that holds nothing.
    pub fn new() -> (list: Self)
        ensures
            list.wf(),
            list@ == Map::<(usize, usize), usize>::empty(),
            list.chunk_count() == 1,
            list.free_slots() == Self::fresh_slots(0),
    {
        let mut list = Self { free_entries: slot_queue_new(), chunks: Vec::new(),
            estimated_len: 0 };
        list.chunks.push(Chunk::new());
        assert(list@ =~= Map::<(usize, usize), usize>::empty());
        let mut i: usize = 0;
        while i < CHUNK_SIZE
            invariant
                0 <= i <= CHUNK_SIZE,
                list.chunks.len() == 1,
                list.chunks[0].values.len() == CHUNK_SIZE,
                forall|s: int| 0 <= s < CHUNK_SIZE
                    ==> (#[trigger] list.chunks[0].values[s]).is_none(),
                list.estimated_len == 0,
                list.free_slots().len() == i,
                forall|k: int| 0 <= k < i ==> (#[trigger] list.free_slots()[k]) == (0usize,
                    k as usize),
            decreases CHUNK_SIZE - i,
        {
            slot_queue_push(&mut list.free_entries, (0, i));
            i = i + 1;
        }
        assert(list@ =~= Map::<(usize, usize), usize>::empty());
        assert(list.free_slots() =~= Self::fresh_slots(0));
        list
    }

    /// Adds one empty chunk and queues its slots.
    fn expand(&mut self)
        requires
            old(self).wf(),
        ensures
            final(self).wf(),
            final(self)@ == old(self)@,
            final(self).chunk_count() == old(self).chunk_count() + 1,
            final(self).free_slots() == old(self).free_slots() + Self::fresh_slots(
                old(self).chunks.len(),
            ),
    {
        let new_head = self.chunks.len();
        self.chunks.push(Chunk::new());
        assert(self@ =~= old(self)@) by {
            assert forall|p: (usize, usize)| self.slot(p) == old(self).slot(p) by {
                if p.0 < new_head {
                    assert(self.chunks[p.0 as int] == old(self).chunks[p.0 as int]);
                }
            }
        }
        let ghost base = self.free_slots();
        let mut i: usize = 0;
        while i < CHUNK_SIZE
            invariant
                0 <= i <= CHUNK_SIZE,
                self.chunks.len() == new_head + 1,
                self.chunks@ == old(self).chunks@.push(self.chunks[new_head as int]),
                self.chunks[new_head as int].values.len() == CHUNK_SIZE,
                forall|s: int|
                    0 <= s < CHUNK_SIZE
                        ==> (#[trigger] self.chunks[new_head as int].values[s]).is_none(),
                self.estimated_len == old(self).estimated_len,
                base == old(self).free_slots(),
                self.free_slots().len() == base.len() + i,
                self.free_slots().subrange(0, base.len() as int) == base,
                forall|k: int|
                    0 <= k < i ==> (#[trigger] self.free_slots()[base.len() + k]) == (
                        new_head,
                        k as usize,
                    ),
            decreases CHUNK_SIZE - i,
        {
            let ghost before = self.free_slots();
            slot_queue_push(&mut self.free_entries, (new_head, i));
            assert(self.free_slots().subrange(0, base.len() as int) =~= base) by {
                assert(before.subrange(0, base.len() as int) == base);
            }
            assert forall|k: int| 0 <= k < i + 1
                implies (#[trigger] self.free_slots()[base.len() + k])
                == (new_head, k as usize) by {
                if k < i {
                    assert(self.free_slots()[base.len() + k] == before[base.len() + k]);
                }
            }
            i = i + 1;
        }
        assert(self@ =~= old(self)@) by {
            assert forall|p: (usize, usize)| self.slot(p) == old(self).slot(p) by {
                if p.0 < new_head {
                    assert(self.chunks[p.0 as int] == old(self).chunks[p.0 as int]);
                }
            }
        }
        assert(self.free_slots() =~= base + Self::fresh_slots(new_head)) by {
            assert forall|k: int| 0 <= k < self.free_slots().len() implies self.free_slots()[k]
                == (base + Self::fresh_slots(new_head))[k] by {
                if k < base.len() {
                    assert(self.free_slots()[k] == self.free_slots().subrange(
                        0,
                        base.len() as int,
                    )[k]);
                } else {
                    assert(self.free_slots()[base.len() + (k - base.len())] == (
                        new_head,
                        (k - base.len()) as usize,
                    ));
                }
            }
        }
        assert(self.wf()) by {
            let free = self.free_slots();
            assert forall|c: int| 0 <= c < self.chunks.len()
                implies (#[trigger] self.chunks[c]).values.len()
                == CHUNK_SIZE by {
                if c < new_head {
                    assert(self.chunks[c] == old(self).chunks[c]);
                }
            }
            assert forall|k: int| 0 <= k < free.len() implies {
                &&& (#[trigger] free[k]).0 < self.chunks.len()
                &&& free[k].1 < CHUNK_SIZE
                &&& self.slot(free[k]).is_none()
            } by {
                if k < base.len() {
                    assert(free[k] == free.subrange(0, base.len() as int)[k]);
                    assert(self.slot(free[k]) == old(self).slot(free[k]));
                } else {
                    assert(free[base.len() + (k - base.len())] == (
                        new_head,
                        (k - base.len()) as usize,
                    ));
                }
            }
            assert forall|j: int, k: int| 0 <= j < free.len() && 0 <= k < free.len()
                && j != k implies free[j]
                != free[k] by {
                if j < base.len() {
                    assert(free[j] == free.subrange(0, base.len() as int)[j]);
                } else {
                    assert(free[base.len() + (j - base.len())] == (
                        new_head,
                        (j - base.len()) as usize,
                    ));
                }
                if k < base.len() {
                    assert(free[k] == free.subrange(0, base.len() as int)[k]);
                } else {
                    assert(free[base.len() + (k - base.len())] == (
                        new_head,
                        (k - base.len()) as usize,
                    ));
                }
            }
        }
    }

    /// Puts `v` into a free slot, in a new chunk if none is free, and returns
    /// the slot with it.
    pub fn insert(&mut self, v: usize) -> (item: CLLItem)
        requires
            old(self).wf(),
            old(self)@.dom().len() < usize::MAX,
        ensures
            final(self).wf(),
            item.v == v,
            !old(self)@.dom().contains(item.slot()),
            final(self)@ == old(self)@.insert(item.slot(), v),
            item.slot() == old(self).next_slot(),
            final(self).free_slots() == old(self).free_slots_after_insert(),
            final(self).chunk_count() == old(self).chunk_count_after_insert(),
    {
        loop
            invariant
                self.wf(),
                self@ == old(self)@,
                self@.dom().len() < usize::MAX,
                (self.free_slots() == old(self).free_slots() && self.chunks.len()
                    == old(self).chunks.len()) || (old(self).free_slots().len() == 0
                    && self.free_slots()
                    == Self::fresh_slots(old(self).chunks.len()) && self.chunks.len()
                        == old(self).chunks.len() + 1),
            decreases (if self.free_slots().len() == 0 { 1int } else { 0int }),
        {
            let ghost free = self.free_slots();
            let ghost before = *self;
            match slot_queue_pop(&mut self.free_entries) {
                Some(idx) => {
                    assert(idx == free[0]);
                    self.chunks[idx.0].values[idx.1] = Some(v);
                    self.estimated_len = self.estimated_len + 1;
                    assert(self@ =~= old(self)@.insert(idx, v)) by {
                        assert forall|p: (usize, usize)| p != idx implies self.slot(p)
                            == before.slot(p) by {
                            if p.0 < self.chunks.len() && p.0 != idx.0 {
                                assert(self.chunks[p.0 as int] == before.chunks[p.0 as int]);
                            }
                        }
                        assert(self.slot(idx) == Some(v));
                    }
                    assert(self.wf()) by {
                        let now = self.free_slots();
                        assert forall|c: int| 0 <= c < self.chunks.len() implies (
                        #[trigger] self.chunks[c]).values.len() == CHUNK_SIZE by {
                            if c != idx.0 {
                                assert(self.chunks[c] == before.chunks[c]);
                            }
                        }
                        assert forall|k: int| 0 <= k < now.len() implies {
                            &&& (#[trigger] now[k]).0 < self.chunks.len()
                            &&& now[k].1 < CHUNK_SIZE
                            &&& self.slot(now[k]).is_none()
                        } by {
                            assert(now[k] == free[k + 1]);
                            assert(free[k + 1] != free[0]);
                        }
                        assert forall|j: int, k: int|
                            0 <= j < now.len() && 0 <= k < now.len() && j != k implies now[j]
                            != now[k] by {
                            assert(now[j] == free[j + 1]);
                            assert(now[k] == free[k + 1]);
                        }
                    }
                    return CLLItem { v, from: idx.0, idx: idx.1 };
                },
                None => {
                    assert(self@ =~= before@);
                    self.expand();
                    assert(self.free_slots() =~= Self::fresh_slots(old(self).chunks.len()));
                },
            }
        }
    }

    /// Empties the slot of `cll_item` if it still holds that item. A slot
    /// that holds something else, or nothing, is left alone.
    pub fn remove(&mut self, cll_item: &CLLItem)
        requires
            old(self).wf(),
        ensures
            final(self).wf(),
            final(self).chunk_count() == old(self).chunk_count(),
            final(self)@ == (if old(self)@.contains_pair(cll_item.slot(), cll_item.v) {
                old(self)@.remove(cll_item.slot())
            } else {
                old(self)@
            }),
            final(self).free_slots() == (if old(self)@.contains_pair(
                cll_item.slot(),
                cll_item.v,
            ) {
                old(self).free_slots().push(cll_item.slot())
            } else {
                old(self).free_slots()
            }),
    {
        if cll_item.from >= self.chunks.len() || cll_item.idx >= CHUNK_SIZE {
            assert(!self@.dom().contains(cll_item.slot()));
            return ;
        }
        self.clear_slot(cll_item.from, cll_item.idx, cll_item.v);
    }

    /// Empties the given slot if it holds `v`, and queues it for reuse.
    fn clear_slot(&mut self, from: usize, idx: usize, v: usize)
        requires
            old(self).wf(),
            from < old(self).chunks.len(),
            idx < CHUNK_SIZE,
        ensures
            final(self).wf(),
            final(self).chunks.len() == old(self).chunks.len(),
            final(self)@ == (if old(self)@.contains_pair((from, idx), v) {
                old(self)@.remove((from, idx))
            } else {
                old(self)@
            }),
            final(self).free_slots() == (if old(self)@.contains_pair((from, idx), v) {
                old(self).free_slots().push((from, idx))
            } else {
                old(self).free_slots()
            }),
    {
        let ghost before = *self;
        let ghost free = self.free_slots();
        let pos = (from, idx);
        match self.chunks[from].values[idx] {
            Some(prev_v) => {
                if prev_v == v {
                    assert(before@.dom().contains(pos));
                    self.chunks[from].values[idx] = None;
                    assert(self@ =~= before@.remove(pos)) by {
                        assert forall|p: (usize, usize)| p != pos implies self.slot(p)
                            == before.slot(p) by {
                            if p.0 < self.chunks.len() && p.0 != from {
                                assert(self.chunks[p.0 as int] == before.chunks[p.0 as int]);
                            }
                        }
                        assert(self.slot(pos).is_none());
                    }
                    self.estimated_len = self.estimated_len - 1;
                    let ghost emptied = *self;
                    slot_queue_push(&mut self.free_entries, pos);
                    assert(self@ =~= before@.remove(pos)) by {
                        assert forall|p: (usize, usize)| self.slot(p) == emptied.slot(p) by {}
                    }
                    assert(self.wf()) by {
                        let now = self.free_slots();
                        assert forall|c: int| 0 <= c < self.chunks.len() implies (
                        #[trigger] self.chunks[c]).values.len() == CHUNK_SIZE by {
                            if c != from {
                                assert(self.chunks[c] == before.chunks[c]);
                            }
                        }
                        assert forall|k: int| 0 <= k < now.len() implies {
                            &&& (#[trigger] now[k]).0 < self.chunks.len()
                            &&& now[k].1 < CHUNK_SIZE
                            &&& self.slot(now[k]).is_none()
                        } by {
                            if k < free.len() {
                                assert(now[k] == free[k]);
                                assert(before.slot(free[k]).is_none());
                                assert(free[k] != pos);
                            }
                        }
                        assert forall|j: int, k: int|
                            0 <= j < now.len() && 0 <= k < now.len() && j != k implies now[j]
                            != now[k] by {
                            if j < free.len() {
                                assert(now[j] == free[j]);
                                assert(before.slot(free[j]).is_none());
                            }
                            if k < free.len() {
                                assert(now[k] == free[k]);
                                assert(before.slot(free[k]).is_none());
                            }
                        }
                    }
                } else {
                    assert(!before@.contains_pair(pos, v));
                }
            },
            None => {
                assert(!before@.contains_pair(pos, v));
            },
        }
    }

    /// Runs `f` on every item of chunk `c` and empties the slots of those for
    /// which it says `false`, appending them to `removed`.
    fn retain_this<F: Fn(usize) -> bool>(&mut self, c: usize, f: &F, removed: &mut Vec<CLLItem>)
        requires
            old(self).wf(),
            c < old(self).chunks.len(),
            forall|p: (usize, usize)|
                old(self)@.dom().contains(p) ==> f.requires((#[trigger] old(self)@[p],)),
        ensures
            final(self).wf(),
            final(self).chunks.len() == old(self).chunks.len(),
            final(self).free_slots() == old(self).free_slots() + Self::slots_of(
                final(removed)@.subrange(old(removed)@.len() as int, final(removed)@.len() as int),
            ),
            forall|p: (usize, usize)| p.0 != c ==> final(self).slot(p) == old(self).slot(p),
            forall|p: (usize, usize)|
                p.0 == c ==> (match #[trigger] old(self).slot(p) {
                    Some(v) => (final(self).slot(p) == Some(v) && f.ensures((v,), true))
                        || (final(self).slot(p).is_none() && f.ensures((v,), false)
                        && exists|k: int|
                        old(removed)@.len() <= k < final(removed)@.len() && (
                        #[trigger] final(removed)@[k]).idx == p.1),
                    None => final(self).slot(p).is_none(),
                }),
            final(removed)@.len() >= old(removed)@.len(),
            final(removed)@.subrange(0, old(removed)@.len() as int) == old(removed)@,
            forall|k: int|
                old(removed)@.len() <= k < final(removed)@.len() ==> {
                    &&& (#[trigger] final(removed)@[k]).from == c
                    &&& old(self).slot(final(removed)@[k].slot()) == Some(final(removed)@[k].v)
                    &&& final(self).slot(final(removed)@[k].slot()).is_none()
                },
            forall|j: int, k: int|
                old(removed)@.len() <= j < k < final(removed)@.len() ==> (
                #[trigger] final(removed)@[j]).idx < (#[trigger] final(removed)@[k]).idx,
    {
        let ghost start = removed@.len() as int;
        let mut i: usize = 0;
        assert(self.free_slots() =~= old(self).free_slots() + Self::slots_of(
            removed@.subrange(start, removed@.len() as int),
        ));
        while i < CHUNK_SIZE
            invariant
                0 <= i <= CHUNK_SIZE,
                self.wf(),
                c < self.chunks.len(),
                self.chunks.len() == old(self).chunks.len(),
                forall|p: (usize, usize)|
                    old(self)@.dom().contains(p) ==> f.requires((#[trigger] old(self)@[p],)),
                forall|p: (usize, usize)|
                    p.0 != c || p.1 >= i ==> self.slot(p) == old(self).slot(p),
                forall|p: (usize, usize)|
                    p.0 == c && p.1 < i ==> (match #[trigger] old(self).slot(p) {
                        Some(v) => (self.slot(p) == Some(v) && f.ensures((v,), true)) || (self.slot(
                            p,
                        ).is_none() && f.ensures((v,), false) && exists|k: int|
                            start <= k < removed@.len() && (#[trigger] removed@[k]).idx == p.1),
                        None => self.slot(p).is_none(),
                    }),
                start == old(removed)@.len(),
                removed@.len() >= start,
                removed@.subrange(0, start) == old(removed)@,
                self.free_slots() == old(self).free_slots() + Self::slots_of(
                    removed@.subrange(start, removed@.len() as int),
                ),
                forall|k: int|
                    start <= k < removed@.len() ==> {
                        &&& (#[trigger] removed@[k]).from == c
                        &&& removed@[k].idx < i
                        &&& old(self).slot(removed@[k].slot()) == Some(removed@[k].v)
                        &&& self.slot(removed@[k].slot()).is_none()
                    },
                forall|j: int, k: int|
                    start <= j < k < removed@.len() ==> (#[trigger] removed@[j]).idx < (
                    #[trigger] removed@[k]).idx,
            decreases CHUNK_SIZE - i,
        {
            let ghost before = *self;
            let ghost taken = removed@;
            let pos = (c, i);
            assert(self.slot(pos) == old(self).slot(pos));
            let current = self.chunks[c].values[i];
            let should_retain = match current {
                Some(v) => {
                    assert(old(self)@.dom().contains(pos));
                    assert(old(self)@[pos] == v);
                    f(v)
                },
                None => true,
            };
            if !should_retain {
                let v = current.unwrap();
                assert(self@.contains_pair(pos, v));
                self.clear_slot(c, i, v);
                removed.push(CLLItem { v, from: c, idx: i });
                assert(self.slot(pos).is_none()) by {
                    assert(!self@.dom().contains(pos));
                }
                assert forall|p: (usize, usize)| p != pos implies self.slot(p) == before.slot(
                    p,
                ) by {
                    if before.slot(p).is_some() {
                        assert(before@.dom().contains(p));
                        assert(self@.dom().contains(p));
                        assert(self@[p] == before@[p]);
                    } else {
                        assert(!before@.dom().contains(p));
                        assert(!self@.dom().contains(p));
                    }
                }
                assert(removed@[taken.len() as int].idx == i);
                assert(self.free_slots() =~= old(self).free_slots() + Self::slots_of(
                    removed@.subrange(start, removed@.len() as int),
                )) by {
                    assert(before.free_slots() == old(self).free_slots() + Self::slots_of(
                        taken.subrange(start, taken.len() as int),
                    ));
                    assert(self.free_slots() == before.free_slots().push(pos));
                    assert(Self::slots_of(removed@.subrange(start, removed@.len() as int))
                        =~= Self::slots_of(taken.subrange(start, taken.len() as int)).push(pos));
                }
            }
            proof {
                assert(removed@.subrange(0, start) =~= old(removed)@);
                assert forall|p: (usize, usize)| p.0 == c && p.1 < i + 1 implies (
                match #[trigger] old(self).slot(p) {
                    Some(v) => (self.slot(p) == Some(v) && f.ensures((v,), true)) || (self.slot(
                        p,
                    ).is_none() && f.ensures((v,), false) && exists|k: int|
                        start <= k < removed@.len() && (#[trigger] removed@[k]).idx == p.1),
                    None => self.slot(p).is_none(),
                }) by {
                    if p.1 < i {
                        assert(self.slot(p) == before.slot(p));
                        if old(self).slot(p).is_some() && before.slot(p).is_none() {
                            let k = choose|k: int|
                                start <= k < taken.len() && (#[trigger] taken[k]).idx == p.1;
                            assert(removed@[k] == taken[k]);
                        }
                    } else {
                        assert(p == pos);
                        if !should_retain {
                            assert(removed@[taken.len() as int].idx == p.1);
                        }
                    }
                }
                assert forall|k: int| start <= k < removed@.len() implies {
                    &&& (#[trigger] removed@[k]).from == c
                    &&& removed@[k].idx < i + 1
                    &&& old(self).slot(removed@[k].slot()) == Some(removed@[k].v)
                    &&& self.slot(removed@[k].slot()).is_none()
                } by {
                    if k < taken.len() {
                        assert(removed@[k] == taken[k]);
                        assert(taken[k].slot() != pos);
                    }
                }
            }
            i = i + 1;
        }
    }

    /// Runs `f` on every item and keeps those for which it says `true`. The
    /// others leave the list and are returned, each with the slot it had, in
    /// the order of the slots.
    pub fn par_retain<F: Fn(usize) -> bool>(&mut self, f: F) -> (removed: Vec<CLLItem>)
        requires
            old(self).wf(),
            forall|p: (usize, usize)|
                old(self)@.dom().contains(p) ==> f.requires((#[trigger] old(self)@[p],)),
        ensures
            final(self).wf(),
            final(self).chunk_count() == old(self).chunk_count(),
            final(self).free_slots() == old(self).free_slots() + Self::slots_of(removed@),
            forall|p: (usize, usize)|
                final(self)@.dom().contains(p) ==> old(self)@.contains_pair(p, final(self)@[p])
                    && f.ensures((#[trigger] final(self)@[p],), true),
            forall|p: (usize, usize)|
                old(self)@.dom().contains(p) && !final(self)@.dom().contains(p) ==> f.ensures(
                    (#[trigger] old(self)@[p],),
                    false,
                ) && exists|k: int|
                    0 <= k < removed@.len() && (#[trigger] removed@[k]).slot() == p,
            forall|k: int|
                0 <= k < removed@.len() ==> old(self)@.contains_pair(
                    (#[trigger] removed@[k]).slot(),
                    removed@[k].v,
                ) && !final(self)@.dom().contains(removed@[k].slot()),
            forall|j: int, k: int|
                0 <= j < k < removed@.len() ==> Self::slot_before(
                    (#[trigger] removed@[j]).slot(),
                    (#[trigger] removed@[k]).slot(),
                ),
    {
        let mut removed: Vec<CLLItem> = Vec::new();
        let mut c: usize = 0;
        assert(self.free_slots() =~= old(self).free_slots() + Self::slots_of(removed@));
        while c < self.chunks.len()
            invariant
                self.wf(),
                0 <= c <= self.chunks.len(),
                self.chunks.len() == old(self).chunks.len(),
                self.free_slots() == old(self).free_slots() + Self::slots_of(removed@),
                forall|p: (usize, usize)|
                    old(self)@.dom().contains(p) ==> f.requires((#[trigger] old(self)@[p],)),
                forall|p: (usize, usize)| p.0 >= c ==> self.slot(p) == old(self).slot(p),
                forall|p: (usize, usize)|
                    p.0 < c ==> (match #[trigger] old(self).slot(p) {
                        Some(v) => (self.slot(p) == Some(v) && f.ensures((v,), true)) || (self.slot(
                            p,
                        ).is_none() && f.ensures((v,), false) && exists|k: int|
                            0 <= k < removed@.len() && (#[trigger] removed@[k]).slot() == p),
                        None => self.slot(p).is_none(),
                    }),
                forall|k: int|
                    0 <= k < removed@.len() ==> {
                        &&& (#[trigger] removed@[k]).from < c
                        &&& old(self).slot(removed@[k].slot()) == Some(removed@[k].v)
                        &&& self.slot(removed@[k].slot()).is_none()
                    },
                forall|j: int, k: int|
                    0 <= j < k < removed@.len() ==> Self::slot_before(
                        (#[trigger] removed@[j]).slot(),
                        (#[trigger] removed@[k]).slot(),
                    ),
            decreases self.chunks.len() - c,
        {
            let ghost before = *self;
            let ghost taken = removed@;
            assert forall|p: (usize, usize)| self@.dom().contains(p) implies f.requires(
                (#[trigger] self@[p],),
            ) by {
                assert(self.slot(p).is_some());
                if p.0 >= c {
                    assert(self.slot(p) == old(self).slot(p));
                } else {
                    assert(old(self).slot(p).is_some());
                }
                assert(old(self)@.dom().contains(p));
                assert(self@[p] == old(self)@[p]);
                assert(f.requires((old(self)@[p],)));
            }
            self.retain_this(c, &f, &mut removed);
            proof {
                assert(self.free_slots() =~= old(self).free_slots() + Self::slots_of(removed@)) by {
                    assert(removed@.subrange(0, taken.len() as int) == taken);
                    assert(Self::slots_of(removed@) =~= Self::slots_of(taken) + Self::slots_of(
                        removed@.subrange(taken.len() as int, removed@.len() as int),
                    ));
                }
                assert forall|p: (usize, usize)| p.0 < c + 1 implies (
                match #[trigger] old(self).slot(p) {
                    Some(v) => (self.slot(p) == Some(v) && f.ensures((v,), true)) || (self.slot(
                        p,
                    ).is_none() && f.ensures((v,), false) && exists|k: int|
                        0 <= k < removed@.len() && (#[trigger] removed@[k]).slot() == p),
                    None => self.slot(p).is_none(),
                }) by {
                    if p.0 < c {
                        assert(self.slot(p) == before.slot(p));
                        if old(self).slot(p).is_some() && before.slot(p).is_none() {
                            let k = choose|k: int|
                                0 <= k < taken.len() && (#[trigger] taken[k]).slot() == p;
                            assert(removed@[k] == removed@.subrange(0, taken.len() as int)[k]);
                        }
                    } else {
                        assert(before.slot(p) == old(self).slot(p));
                        if old(self).slot(p).is_some() && self.slot(p).is_none() {
                            let k = choose|k: int|
                                taken.len() <= k < removed@.len() && (#[trigger] removed@[k]).idx
                                    == p.1;
                            assert(removed@[k].slot() == p);
                        }
                    }
                }
                assert forall|k: int| 0 <= k < removed@.len() implies {
                    &&& (#[trigger] removed@[k]).from < c + 1
                    &&& old(self).slot(removed@[k].slot()) == Some(removed@[k].v)
                    &&& self.slot(removed@[k].slot()).is_none()
                } by {
                    if k < taken.len() {
                        assert(removed@[k] == removed@.subrange(0, taken.len() as int)[k]);
                        assert(self.slot(taken[k].slot()) == before.slot(taken[k].slot()));
                    } else {
                        assert(before.slot(removed@[k].slot()) == old(self).slot(
                            removed@[k].slot(),
                        ));
                    }
                }
                assert forall|j: int, k: int| 0 <= j < k < removed@.len() implies Self::slot_before(
                    (#[trigger] removed@[j]).slot(),
                    (#[trigger] removed@[k]).slot(),
                ) by {
                    if k < taken.len() {
                        assert(removed@[j] == removed@.subrange(0, taken.len() as int)[j]);
                        assert(removed@[k] == removed@.subrange(0, taken.len() as int)[k]);
                    } else if j < taken.len() {
                        assert(removed@[j] == removed@.subrange(0, taken.len() as int)[j]);
                        assert(taken[j].from < c);
                    }
                }
            }
            c = c + 1;
        }
        proof {
            assert forall|p: (usize, usize)| final(self)@.dom().contains(p)
                implies old(self)@.contains_pair(p, self@[p]) && f.ensures((#[trigger] self@[p],),
                true) by {
                assert(self.slot(p).is_some());
                assert(p.0 < c);
            }
            assert forall|p: (usize, usize)|
                old(self)@.dom().contains(p) && !self@.dom().contains(p) implies f.ensures(
                (#[trigger] old(self)@[p],),
                false,
            ) && exists|k: int|
                0 <= k < removed@.len() && (#[trigger] removed@[k]).slot() == p by {
                assert(old(self).slot(p).is_some());
                assert(p.0 < c);
            }
        }
        removed
    }

    /// Every item of the list with its slot, in the order of the slots.
    pub fn par_iter(&self) -> (items: Vec<CLLItem>)
        requires
            self.wf(),
        ensures
            forall|k: int|
                0 <= k < items@.len() ==> self@.contains_pair(
                    (#[trigger] items@[k]).slot(),
                    items@[k].v,
                ),
            forall|p: (usize, usize)|
                self@.dom().contains(p) ==> exists|k: int|
                    0 <= k < items@.len() && (#[trigger] items@[k]).slot() == p,
            forall|j: int, k: int|
                0 <= j < k < items@.len() ==> (#[trigger] items@[j]).slot() != (
                #[trigger] items@[k]).slot(),
            forall|j: int, k: int|
                0 <= j < k < items@.len() ==> Self::slot_before(
                    (#[trigger] items@[j]).slot(),
                    (#[trigger] items@[k]).slot(),
                ),
    {
        let mut items: Vec<CLLItem> = Vec::new();
        let mut c: usize = 0;
        while c < self.chunks.len()
            invariant
                self.wf(),
                0 <= c <= self.chunks.len(),
                forall|k: int|
                    0 <= k < items@.len() ==> {
                        &&& (#[trigger] items@[k]).from < c
                        &&& self@.contains_pair(items@[k].slot(), items@[k].v)
                    },
                forall|p: (usize, usize)|
                    self@.dom().contains(p) && p.0 < c ==> exists|k: int|
                        0 <= k < items@.len() && (#[trigger] items@[k]).slot() == p,
                forall|j: int, k: int|
                    0 <= j < k < items@.len() ==> (#[trigger] items@[j]).slot() != (
                    #[trigger] items@[k]).slot(),
                forall|j: int, k: int|
                    0 <= j < k < items@.len() ==> Self::slot_before(
                        (#[trigger] items@[j]).slot(),
                        (#[trigger] items@[k]).slot(),
                    ),
            decreases self.chunks.len() - c,
        {
            let ghost before = items@;
            self.chunks[c].iter_this(c, &mut items);
            proof {
                assert forall|j: int, k: int| 0 <= j < k < items@.len() implies Self::slot_before(
                    (#[trigger] items@[j]).slot(),
                    (#[trigger] items@[k]).slot(),
                ) by {
                    if k < before.len() {
                        assert(items@[j] == items@.subrange(0, before.len() as int)[j]);
                        assert(items@[k] == items@.subrange(0, before.len() as int)[k]);
                    } else if j < before.len() {
                        assert(items@[j] == items@.subrange(0, before.len() as int)[j]);
                        assert(before[j].from < c);
                    }
                }
                assert forall|k: int| 0 <= k < items@.len() implies {
                    &&& (#[trigger] items@[k]).from < c + 1
                    &&& self@.contains_pair(items@[k].slot(), items@[k].v)
                } by {
                    if k < before.len() {
                        assert(items@[k] == items@.subrange(0, before.len() as int)[k]);
                    } else {
                        assert(self.slot(items@[k].slot()) == Some(items@[k].v));
                    }
                }
                assert forall|p: (usize, usize)| self@.dom().contains(p) && p.0 < c + 1
                    implies exists|
                    k: int,
                |
                    0 <= k < items@.len() && (#[trigger] items@[k]).slot() == p by {
                    if p.0 < c {
                        let k = choose|k: int|
                            0 <= k < before.len() && (#[trigger] before[k]).slot() == p;
                        assert(items@[k] == items@.subrange(0, before.len() as int)[k]);
                    } else {
                        assert(self.chunks[c as int].values[p.1 as int].is_some());
                        let k = choose|k: int|
                            before.len() <= k < items@.len() && (#[trigger] items@[k]).idx == p.1;
                        assert(items@[k].slot() == p);
                    }
                }
                assert forall|j: int, k: int| 0 <= j < k < items@.len() implies (
                #[trigger] items@[j]).slot() != (#[trigger] items@[k]).slot() by {
                    if k < before.len() {
                        assert(items@[j] == items@.subrange(0, before.len() as int)[j]);
                        assert(items@[k] == items@.subrange(0, before.len() as int)[k]);
                    } else if j < before.len() {
                        assert(items@[j] == items@.subrange(0, before.len() as int)[j]);
                    }
                }
            }
            c = c + 1;
        }
        items
    }

    /// The number of items in the list.
    pub fn estimate_len(&self) -> (n: usize)
        requires
            self.wf(),
        ensures
            n == self@.dom().len(),
    {
        self.estimated_len
    }
}

} // verus!
