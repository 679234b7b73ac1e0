use vstd::prelude::*;

verus! {

/// The value written into the found-internally tally to force an allocation to
/// count as rooted: minus two to the sixtieth.
pub const ROOT_OVERRIDE_VALUE: i64 = -1152921504606846976i64;

/// The reference count of one allocation.
///
/// Handle creation only ever raises `count_positive` and handle destruction
/// only ever lowers `count_negative`, so the two paths never touch the same
/// counter. The number of handles is their sum; the collector folds the
/// negative counter into the positive one when it prepares a collection.
#[derive(Debug)]
pub struct GcRefCount {
    pub(crate) count_positive: i64,
    pub(crate) count_negative: i64,
    pub(crate) found_internally: i64,
}

impl GcRefCount {
    /// The positive counter: an upper bound on the number of handles.
    pub open(crate) spec fn positive(&self) -> int {
        self.count_positive as int
    }

    /// The negative counter: minus the number of handles destroyed since the
    /// counters were last folded.
    pub open(crate) spec fn negative(&self) -> int {
        self.count_negative as int
    }

    /// The tally of handles found inside managed payloads during a collection.
    pub open(crate) spec fn found(&self) -> int {
        self.found_internally as int
    }

    /// The number of handles: the sum of the two counters.
    pub open spec fn count(&self) -> int {
        self.positive() + self.negative()
    }

    /// Rooted means that more handles exist than were found inside payloads.
    pub open spec fn rooted(&self) -> bool {
        self.positive() > self.found()
    }

    /// The tally holds the override value.
    pub open spec fn overridden(&self) -> bool {
        self.found() == ROOT_OVERRIDE_VALUE
    }

    /// The counters of an allocation at rest: nothing destroyed more often than
    /// created, and the negative counter never above zero.
    pub open spec fn wf(&self) -> bool {
        &&& self.negative() <= 0
        &&& 0 <= self.count()
    }

    /// A count of `starting_count` handles, marked as rooted.
    pub fn new(starting_count: i64) -> (s: Self)
        ensures
            s.positive() == starting_count,
            s.negative() == 0,
            s.overridden(),
    {
        let mut s = Self { count_positive: starting_count, count_negative: 0, found_internally: 0 };
        s.override_mark_as_rooted();
        s
    }

    /// Folds the negative counter into the positive one and clears the tally.
    ///
    /// The fold takes two steps, emptying one counter and adding to the
    /// other. Here nothing can come between them, because whoever calls has
    /// the counters to itself. Where handles are cloned and dropped while a
    /// collection prepares, a drop that falls between the steps is merely
    /// counted late, which keeps the allocation longer; whether a clone that
    /// falls there is harmless too rests on the allocation still counting as
    /// rooted through the handle that was cloned, and has to be argued for
    /// the locking in use: the lock around atomic-slot operations does not
    /// cover plain clones.
    pub fn prepare_for_collection(&mut self)
        requires
            old(self).wf(),
        ensures
            final(self).positive() == old(self).count(),
            final(self).negative() == 0,
            final(self).found() == 0,
    {
        self.found_internally = 0;
        let negative = self.count_negative;
        self.count_negative = 0;
        self.count_positive = self.count_positive + negative;
    }

    /// Records one handle found inside a managed payload.
    pub fn found_once_internally(&mut self)
        requires
            old(self).found() < i64::MAX,
        ensures
            final(self).found() == old(self).found() + 1,
            final(self).positive() == old(self).positive(),
            final(self).negative() == old(self).negative(),
    {
        self.found_internally = self.found_internally + 1;
    }

    /// Whether some handle is held outside the managed payloads scanned so far.
    pub fn is_rooted(&self) -> (r: bool)
        ensures
            r == self.rooted(),
    {
        self.count_positive > self.found_internally
    }

    /// Forces the allocation to count as rooted.
    pub fn override_mark_as_rooted(&mut self)
        ensures
            final(self).overridden(),
            final(self).positive() == old(self).positive(),
            final(self).negative() == old(self).negative(),
    {
        self.found_internally = ROOT_OVERRIDE_VALUE;
    }

    /// Whether the allocation was forced to count as rooted.
    pub fn was_overriden_as_rooted(&self) -> (r: bool)
        ensures
            r == self.overridden(),
    {
        self.found_internally == ROOT_OVERRIDE_VALUE
    }

    /// Whether the positive counter has room for one more handle.
    pub fn has_room(&self) -> (room: bool)
        ensures
            room == (self.positive() < i64::MAX),
    {
        self.count_positive < i64::MAX
    }

    /// Counts one more handle.
    pub fn inc_count(&mut self)
        requires
            old(self).positive() < i64::MAX,
        ensures
            final(self).positive() == old(self).positive() + 1,
            final(self).negative() == old(self).negative(),
            final(self).found() == old(self).found(),
    {
        self.count_positive = self.count_positive + 1;
    }

    /// Counts one handle less.
    pub fn dec_count(&mut self)
        requires
            old(self).negative() > i64::MIN,
        ensures
            final(self).negative() == old(self).negative() - 1,
            final(self).positive() == old(self).positive(),
            final(self).found() == old(self).found(),
    {
        self.count_negative = self.count_negative - 1;
    }

    /// The number of handles at this moment.
    pub fn snapshot_ref_count(&self) -> (n: i64)
        requires
            i64::MIN <= self.count() <= i64::MAX,
        ensures
            n == self.count(),
    {
        self.count_positive + self.count_negative
    }
}

} // verus!
