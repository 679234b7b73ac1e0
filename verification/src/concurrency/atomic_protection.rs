use vstd::prelude::*;

verus! {

/// The tracker value that stands for the single exclusive holder: two to the
/// sixtieth.
pub const SENTINEL_VALUE: u64 = 1152921504606846976u64;

/// Who holds the spinlock.
pub enum SpinlockState {
    /// Nobody.
    Idle,
    /// This many inclusive holders, at least one.
    Inclusive(nat),
    /// The one exclusive holder.
    Exclusive,
}

/// The coarse lock that fences every atomic-slot operation against the
/// collector: any number of inclusive holders, or one exclusive holder.
///
/// The tracker is zero when nobody holds the lock, counts the inclusive
/// holders below the sentinel, and equals the sentinel while the exclusive
/// holder is in.
pub struct AtomicProtectingSpinlock {
    pub(crate) tracker: u64,
}

/// Proof of the exclusive hold; give it back with `release`.
pub struct APSExclusiveGuard {}

/// Proof of one inclusive hold; give it back with `release`.
pub struct APSInclusiveGuard {}

impl AtomicProtectingSpinlock {
    /// The tracker is zero, in the inclusive range, or the sentinel.
    pub open(crate) spec fn wf(&self) -> bool {
        self.tracker <= SENTINEL_VALUE
    }

    pub open(crate) spec fn view(&self) -> SpinlockState {
        if self.tracker == 0 {
            SpinlockState::Idle
        } else if self.tracker < SENTINEL_VALUE {
            SpinlockState::Inclusive(self.tracker as nat)
        } else {
            SpinlockState::Exclusive
        }
    }

    /// The number of inclusive holders.
    pub open spec fn inclusive_holders(&self) -> nat {
        match self@ {
            SpinlockState::Inclusive(n) => n,
            _ => 0,
        }
    }

    /// The most inclusive holders the tracker can count.
    pub open spec fn max_inclusive() -> nat {
        (SENTINEL_VALUE - 1) as nat
    }

    /// What an inclusive acquisition leaves behind.
    pub open spec fn after_lock_inclusive(&self) -> SpinlockState {
        SpinlockState::Inclusive(self.inclusive_holders() + 1)
    }

    /// An inclusive acquisition goes through unless the exclusive holder is in
    /// or the tracker is full.
    pub open spec fn admits_inclusive(&self) -> bool {
        self@ != SpinlockState::Exclusive && self.inclusive_holders() < Self::max_inclusive()
    }

    pub fn new() -> (s: Self)
        ensures
            s.wf(),
            s@ == SpinlockState::Idle,
    {
        Self { tracker: 0 }
    }

    /// One attempt at the exclusive hold: it succeeds exactly when nobody
    /// holds the lock. A caller that must have the lock tries again after
    /// yielding.
    pub fn lock_exclusive(&mut self) -> (guard: Option<APSExclusiveGuard>)
        requires
            old(self).wf(),
        ensures
            final(self).wf(),
            guard.is_some() <==> old(self)@ == SpinlockState::Idle,
            guard.is_some() ==> final(self)@ == SpinlockState::Exclusive,
            guard.is_none() ==> final(self)@ == old(self)@,
    {
        if self.tracker == 0 {
            self.tracker = SENTINEL_VALUE;
            Some(APSExclusiveGuard {  })
        } else {
            None
        }
    }

    /// One attempt at an inclusive hold: it fails, leaving the lock as it
    /// was, while the exclusive holder is in.
    pub fn lock_inclusive(&mut self) -> (guard: Option<APSInclusiveGuard>)
        requires
            old(self).wf(),
        ensures
            final(self).wf(),
            guard.is_some() <==> old(self).admits_inclusive(),
            guard.is_some() ==> final(self)@ == old(self).after_lock_inclusive(),
            guard.is_none() ==> final(self)@ == old(self)@,
    {
        let old_value = self.tracker;
        if old_value < SENTINEL_VALUE - 1 {
            self.tracker = old_value + 1;
            Some(APSInclusiveGuard {  })
        } else {
            None
        }
    }
}

impl Default for AtomicProtectingSpinlock {
    fn default() -> (s: Self)
        ensures
            s.wf(),
            s@ == SpinlockState::Idle,
    {
        Self::new()
    }
}

impl APSExclusiveGuard {
    /// Ends the exclusive hold: the lock is idle again.
    pub fn release(self, parent: &mut AtomicProtectingSpinlock)
        ensures
            final(parent).wf(),
            final(parent)@ == SpinlockState::Idle,
    {
        parent.tracker = 0;
    }
}

impl APSInclusiveGuard {
    /// Ends one inclusive hold.
    pub fn release(self, parent: &mut AtomicProtectingSpinlock)
        requires
            old(parent).wf(),
            old(parent).inclusive_holders() >= 1,
        ensures
            final(parent).wf(),
            final(parent)@ == (if old(parent).inclusive_holders() == 1 {
                SpinlockState::Idle
            } else {
                SpinlockState::Inclusive((old(parent).inclusive_holders() - 1) as nat)
            }),
    {
        parent.tracker = parent.tracker - 1;
    }
}

} // verus!
