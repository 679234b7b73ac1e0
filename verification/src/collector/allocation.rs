use crate::atomic::AtomicGc;
use crate::collector::graph::{count_of, lemma_count_append, lemma_count_push};
use crate::collector::InternalGcRef;
use vstd::prelude::*;

verus! {

/// What is run on a payload before its storage is given back.
#[derive(Copy, Clone, Debug, Hash, PartialEq, Eq, Structural)]
pub enum DeallocationAction {
    /// the payload came in a box: drop the box, which frees the storage too
    BoxDrop,
    /// nothing
    DoNothing,
    /// the payload's destructor
    RunDrop,
    /// the payload's finalizer
    RunFinalizer,
}

/// The managed data of one allocation, as far as the collector is concerned
/// with it: the identity of its type, a plain value, the handles that the data
/// owns and the atomic slots that it owns.
#[derive(Debug)]
pub struct Payload {
    pub(crate) type_identity: u64,
    pub(crate) value: u64,
    pub(crate) handles: Vec<InternalGcRef>,
    pub(crate) atomics: Vec<AtomicGc>,
}

/// The referents of the handles among `handles` that are still live, in order.
pub open spec fn live_targets(handles: Seq<InternalGcRef>) -> Seq<usize>
    decreases handles.len(),
{
    if handles.len() == 0 {
        Seq::empty()
    } else if handles.last().live() {
        live_targets(handles.drop_last()).push(handles.last().target())
    } else {
        live_targets(handles.drop_last())
    }
}

impl Payload {
    /// The plain value.
    pub open(crate) spec fn data(&self) -> u64 {
        self.value
    }

    /// The identity of the type of the data.
    pub open(crate) spec fn stored_type(&self) -> u64 {
        self.type_identity
    }

    /// The owned handles, in order.
    pub open(crate) spec fn owned_handles(&self) -> Seq<InternalGcRef> {
        self.handles@
    }

    /// The owned atomic slots, in order.
    pub open(crate) spec fn owned_atomics(&self) -> Seq<AtomicGc> {
        self.atomics@
    }

    /// The referents of the owned handles, in order.
    pub open spec fn handle_targets(&self) -> Seq<usize> {
        Seq::new(self.owned_handles().len(), |i: int| self.owned_handles()[i].target())
    }

    /// The referents of the owned atomic slots, in order.
    pub open spec fn atomic_targets(&self) -> Seq<usize> {
        Seq::new(self.owned_atomics().len(), |i: int| self.owned_atomics()[i].referent())
    }

    /// Everything that the payload refers to: the referents of its handles,
    /// then those of its atomic slots.
    pub open spec fn targets(&self) -> Seq<usize> {
        self.handle_targets() + self.atomic_targets()
    }

    /// No owned handle has been invalidated.
    pub open spec fn all_live(&self) -> bool {
        forall|i: int|
            0 <= i < self.owned_handles().len() ==> (#[trigger] self.owned_handles()[i]).live()
    }

    /// Data of the type with identity zero that owns no handle and no slot.
    pub fn new(value: u64) -> (p: Self)
        ensures
            p.stored_type() == 0,
            p.data() == value,
            p.owned_handles() == Seq::<InternalGcRef>::empty(),
            p.owned_atomics() == Seq::<AtomicGc>::empty(),
    {
        Self { type_identity: 0, value, handles: Vec::new(), atomics: Vec::new() }
    }

    /// Data of the type with identity `type_identity` that owns no handle and
    /// no slot.
    pub fn with_type_identity(type_identity: u64, value: u64) -> (p: Self)
        ensures
            p.stored_type() == type_identity,
            p.data() == value,
            p.owned_handles() == Seq::<InternalGcRef>::empty(),
            p.owned_atomics() == Seq::<AtomicGc>::empty(),
    {
        Self { type_identity, value, handles: Vec::new(), atomics: Vec::new() }
    }

    /// The identity of the type of the data.
    pub fn type_identity(&self) -> (t: u64)
        ensures
            t == self.stored_type(),
    {
        self.type_identity
    }

    pub fn value(&self) -> (v: u64)
        ensures
            v == self.data(),
    {
        self.value
    }

    pub fn set_value(&mut self, value: u64)
        ensures
            final(self).data() == value,
            final(self).stored_type() == old(self).stored_type(),
            final(self).owned_handles() == old(self).owned_handles(),
            final(self).owned_atomics() == old(self).owned_atomics(),
    {
        self.value = value;
    }

    /// Moves a handle into the payload, behind those it owns.
    pub fn push_handle(&mut self, handle: InternalGcRef)
        ensures
            final(self).owned_handles() == old(self).owned_handles().push(handle),
            final(self).owned_atomics() == old(self).owned_atomics(),
            final(self).data() == old(self).data(),
            final(self).stored_type() == old(self).stored_type(),
    {
        self.handles.push(handle);
    }

    /// Takes the last handle out of the payload.
    pub fn pop_handle(&mut self) -> (handle: Option<InternalGcRef>)
        ensures
            final(self).owned_atomics() == old(self).owned_atomics(),
            final(self).data() == old(self).data(),
            final(self).stored_type() == old(self).stored_type(),
            match handle {
                Some(h) => old(self).owned_handles().len() > 0 && h
                    == old(self).owned_handles().last() && final(self).owned_handles()
                    == old(self).owned_handles().drop_last(),
                None => old(self).owned_handles().len() == 0 && final(self).owned_handles()
                    == old(self).owned_handles(),
            },
    {
        self.handles.pop()
    }

    /// Moves an atomic slot into the payload, behind those it owns.
    pub fn push_atomic(&mut self, slot: AtomicGc)
        ensures
            final(self).owned_atomics() == old(self).owned_atomics().push(slot),
            final(self).owned_handles() == old(self).owned_handles(),
            final(self).data() == old(self).data(),
            final(self).stored_type() == old(self).stored_type(),
    {
        self.atomics.push(slot);
    }

    /// Takes the last atomic slot out of the payload.
    pub fn pop_atomic(&mut self) -> (slot: Option<AtomicGc>)
        ensures
            final(self).owned_handles() == old(self).owned_handles(),
            final(self).data() == old(self).data(),
            final(self).stored_type() == old(self).stored_type(),
            match slot {
                Some(s) => old(self).owned_atomics().len() > 0 && s
                    == old(self).owned_atomics().last() && final(self).owned_atomics()
                    == old(self).owned_atomics().drop_last(),
                None => old(self).owned_atomics().len() == 0 && final(self).owned_atomics()
                    == old(self).owned_atomics(),
            },
    {
        self.atomics.pop()
    }

    /// The number of owned handles.
    pub fn handle_count(&self) -> (n: usize)
        ensures
            n == self.owned_handles().len(),
    {
        self.handles.len()
    }

    /// The number of owned atomic slots.
    pub fn atomic_count(&self) -> (n: usize)
        ensures
            n == self.owned_atomics().len(),
    {
        self.atomics.len()
    }

    /// The owned handle at place `i`.
    pub fn handle(&self, i: usize) -> (h: &InternalGcRef)
        requires
            i < self.owned_handles().len(),
        ensures
            *h == self.owned_handles()[i as int],
    {
        &self.handles[i]
    }

    /// The owned atomic slot at place `i`.
    pub fn atomic(&self, i: usize) -> (s: &AtomicGc)
        requires
            i < self.owned_atomics().len(),
        ensures
            *s == self.owned_atomics()[i as int],
    {
        &self.atomics[i]
    }
}

/// The managed data of one allocation together with the action that
/// releases it.
#[derive(Debug)]
pub struct GcAllocation {
    pub(crate) payload: Payload,
    pub(crate) deallocation_action: DeallocationAction,
    /// how often the release action has run
    pub(crate) releases: u64,
}

impl GcAllocation {
    /// The managed data.
    pub open(crate) spec fn contents(&self) -> Payload {
        self.payload
    }

    /// The release action.
    pub open(crate) spec fn action(&self) -> DeallocationAction {
        self.deallocation_action
    }

    /// How often the release action has run.
    pub open(crate) spec fn release_runs(&self) -> nat {
        self.releases as nat
    }

    /// The storage has been given back.
    pub open spec fn released(&self) -> bool {
        self.release_runs() > 0
    }

    /// The referents whose counts a release gives back: those of the live
    /// handles, and those of the atomic slots unless the action is to do
    /// nothing, which leaves the slots undropped.
    pub open spec fn release_targets(&self) -> Seq<usize> {
        live_targets(self.contents().owned_handles()) + if self.action()
            == DeallocationAction::DoNothing {
            Seq::<usize>::empty()
        } else {
            self.contents().atomic_targets()
        }
    }

    /// The release gives back every count that the data holds: the data owns
    /// no atomic slot that the release would leave undropped.
    pub open spec fn gives_back_all(&self) -> bool {
        self.action() != DeallocationAction::DoNothing || self.contents().owned_atomics().len() == 0
    }

    /// Puts the data under management; its destructor runs on release.
    pub fn allocate_with_drop(v: Payload) -> (a: Self)
        ensures
            a.contents() == v,
            a.action() == DeallocationAction::RunDrop,
            a.release_runs() == 0,
    {
        Self { payload: v, deallocation_action: DeallocationAction::RunDrop, releases: 0 }
    }

    /// Puts the data under management; nothing runs on release.
    pub fn allocate_no_drop(v: Payload) -> (a: Self)
        ensures
            a.contents() == v,
            a.action() == DeallocationAction::DoNothing,
            a.release_runs() == 0,
    {
        Self { payload: v, deallocation_action: DeallocationAction::DoNothing, releases: 0 }
    }

    /// Puts the data under management; its finalizer runs on release.
    pub fn allocate_with_finalization(v: Payload) -> (a: Self)
        ensures
            a.contents() == v,
            a.action() == DeallocationAction::RunFinalizer,
            a.release_runs() == 0,
    {
        Self { payload: v, deallocation_action: DeallocationAction::RunFinalizer, releases: 0 }
    }

    /// Storage for data that is written later, released by the destructor.
    /// Until `initialize` it refers to nothing.
    pub fn allocate_uninitialized_with_drop() -> (a: Self)
        ensures
            a.contents().owned_handles() == Seq::<InternalGcRef>::empty(),
            a.contents().owned_atomics() == Seq::<AtomicGc>::empty(),
            a.contents().data() == 0,
            a.contents().stored_type() == 0,
            a.action() == DeallocationAction::RunDrop,
            a.release_runs() == 0,
    {
        Self { payload: Payload::new(0), deallocation_action: DeallocationAction::RunDrop,
            releases: 0 }
    }

    /// Storage for data that is written later, released by the finalizer.
    /// Until `initialize` it refers to nothing.
    pub fn allocate_uninitialized_with_finalization() -> (a: Self)
        ensures
            a.contents().owned_handles() == Seq::<InternalGcRef>::empty(),
            a.contents().owned_atomics() == Seq::<AtomicGc>::empty(),
            a.contents().data() == 0,
            a.contents().stored_type() == 0,
            a.action() == DeallocationAction::RunFinalizer,
            a.release_runs() == 0,
    {
        Self {
            payload: Payload::new(0),
            deallocation_action: DeallocationAction::RunFinalizer,
            releases: 0,
        }
    }

    /// Puts boxed data under management; the box is dropped on release.
    pub fn from_box(v: Box<Payload>) -> (a: Self)
        ensures
            a.contents() == *v,
            a.action() == DeallocationAction::BoxDrop,
            a.release_runs() == 0,
    {
        Self { payload: *v, deallocation_action: DeallocationAction::BoxDrop, releases: 0 }
    }

    /// Writes the data into storage that was allocated uninitialized, and
    /// returns what the storage held.
    pub fn initialize(&mut self, v: Payload) -> (previous: Payload)
        ensures
            previous == old(self).contents(),
            final(self).contents() == v,
            final(self).action() == old(self).action(),
            final(self).release_runs() == old(self).release_runs(),
    {
        let mut v = v;
        std::mem::swap(&mut self.payload, &mut v);
        v
    }

    /// Releases the data: invalidates every handle that it owns, runs the
    /// release action, and gives the storage back. Returns the referents
    /// whose counts the release gives back, one entry per count.
    pub fn deallocate(&mut self) -> (dropped: Vec<usize>)
        requires
            old(self).release_runs() == 0,
        ensures
            dropped@ == old(self).release_targets(),
            final(self).release_runs() == 1,
            final(self).action() == old(self).action(),
            final(self).contents().data() == old(self).contents().data(),
            final(self).contents().stored_type() == old(self).contents().stored_type(),
            final(self).contents().owned_handles() == Seq::<InternalGcRef>::empty(),
            final(self).contents().owned_atomics() == Seq::<AtomicGc>::empty(),
    {
        let mut dropped: Vec<usize> = Vec::new();
        let mut i: usize = 0;
        while i < self.payload.handles.len()
            invariant
                0 <= i <= self.payload.handles.len(),
                *self == *old(self),
                dropped@ == live_targets(self.payload.handles@.take(i as int)),
            decreases self.payload.handles.len() - i,
        {
            assert(self.payload.handles@.take(i + 1).drop_last() =~= self.payload.handles@.take(
                i as int,
            ));
            if !self.payload.handles[i].invalidated {
                dropped.push(self.payload.handles[i].data_ref);
            }
            i = i + 1;
        }
        assert(self.payload.handles@.take(i as int) =~= self.payload.handles@);
        match self.deallocation_action {
            DeallocationAction::DoNothing => {
                assert(dropped@ + Seq::<usize>::empty() =~= dropped@);
            },
            _ => {
                let ghost invalidated = dropped@;
                let mut j: usize = 0;
                while j < self.payload.atomics.len()
                    invariant
                        0 <= j <= self.payload.atomics.len(),
                        *self == *old(self),
                        dropped@ == invalidated + self.payload.atomic_targets().take(j as int),
                    decreases self.payload.atomics.len() - j,
                {
                    dropped.push(self.payload.atomics[j].atomic_ptr);
                    assert(dropped@ =~= invalidated + self.payload.atomic_targets().take(j + 1));
                    j = j + 1;
                }
                assert(self.payload.atomic_targets().take(j as int)
                    =~= self.payload.atomic_targets());
            },
        }
        self.payload.handles.clear();
        self.payload.atomics.clear();
        self.releases = 1;
        dropped
    }

    /// One transient handle for each referent of the data, in the order of
    /// `targets`. A transient handle counts for nothing: it is born
    /// invalidated.
    pub fn scan(&self) -> (found: Vec<InternalGcRef>)
        ensures
            found@.len() == self.contents().targets().len(),
            forall|i: int|
                0 <= i < found@.len() ==> (#[trigger] found@[i]).target()
                    == self.contents().targets()[i]
                    && !found@[i].live(),
    {
        let mut found: Vec<InternalGcRef> = Vec::new();
        let mut i: usize = 0;
        while i < self.payload.handles.len()
            invariant
                0 <= i <= self.payload.handles.len(),
                found@.len() == i,
                forall|k: int|
                    0 <= k < i ==> (#[trigger] found@[k]).target() == self.payload.targets()[k]
                        && !found@[k].live(),
            decreases self.payload.handles.len() - i,
        {
            found.push(InternalGcRef { data_ref: self.payload.handles[i].data_ref,
                invalidated: true });
            i = i + 1;
        }
        let mut j: usize = 0;
        while j < self.payload.atomics.len()
            invariant
                0 <= j <= self.payload.atomics.len(),
                found@.len() == self.payload.handles.len() + j,
                forall|k: int|
                    0 <= k < found@.len() ==> (#[trigger] found@[k]).target()
                        == self.payload.targets()[k] && !found@[k].live(),
            decreases self.payload.atomics.len() - j,
        {
            found.push(InternalGcRef { data_ref: self.payload.atomics[j].atomic_ptr,
                invalidated: true });
            j = j + 1;
        }
        found
    }
}

/// Live handles are among the handles: a release never gives back more
/// counts of an allocation than the data refers to it.
pub proof fn lemma_release_targets_bounded(a: GcAllocation, t: usize)
    ensures
        count_of(a.release_targets(), t) <= count_of(a.contents().targets(), t),
{
    let p = a.contents();
    lemma_live_targets_bounded(p.owned_handles(), t);
    assert(p.handle_targets() =~= Seq::new(
        p.owned_handles().len(),
        |i: int| p.owned_handles()[i].target(),
    ));
    lemma_count_append(p.handle_targets(), p.atomic_targets(), t);
    if a.action() == DeallocationAction::DoNothing {
        lemma_count_append(live_targets(p.owned_handles()), Seq::<usize>::empty(), t);
    } else {
        lemma_count_append(live_targets(p.owned_handles()), p.atomic_targets(), t);
    }
}

pub proof fn lemma_live_targets_bounded(handles: Seq<InternalGcRef>, t: usize)
    ensures
        count_of(live_targets(handles), t) <= count_of(
            Seq::new(handles.len(), |i: int| handles[i].target()),
            t,
        ),
    decreases handles.len(),
{
    let all = Seq::new(handles.len(), |i: int| handles[i].target());
    if handles.len() > 0 {
        let rest = handles.drop_last();
        lemma_live_targets_bounded(rest, t);
        assert(all.drop_last() =~= Seq::new(rest.len(), |i: int| rest[i].target()));
        if handles.last().live() {
            lemma_count_push(live_targets(rest), handles.last().target(), t);
        }
    }
}

/// Where every handle is live, the live referents are the referents.
pub proof fn lemma_live_targets_exact(handles: Seq<InternalGcRef>)
    requires
        forall|i: int| 0 <= i < handles.len() ==> (#[trigger] handles[i]).live(),
    ensures
        live_targets(handles) == Seq::new(handles.len(), |i: int| handles[i].target()),
    decreases handles.len(),
{
    let all = Seq::new(handles.len(), |i: int| handles[i].target());
    if handles.len() > 0 {
        let rest = handles.drop_last();
        lemma_live_targets_exact(rest);
        assert(handles.last() == handles[handles.len() - 1]);
        assert(live_targets(handles) =~= all);
    } else {
        assert(live_targets(handles) =~= all);
    }
}

/// A release that gives back every count gives back exactly as many counts
/// of each allocation as the data refers to it.
pub proof fn lemma_release_targets_exact(a: GcAllocation, t: usize)
    requires
        a.contents().all_live(),
        a.gives_back_all(),
    ensures
        count_of(a.release_targets(), t) == count_of(a.contents().targets(), t),
{
    let p = a.contents();
    lemma_live_targets_exact(p.owned_handles());
    assert(p.handle_targets() =~= Seq::new(
        p.owned_handles().len(),
        |i: int| p.owned_handles()[i].target(),
    ));
    if a.action() == DeallocationAction::DoNothing {
        assert(p.atomic_targets() =~= Seq::<usize>::empty());
    }
}

} // verus!
