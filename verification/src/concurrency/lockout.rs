use vstd::prelude::*;

verus! {

/// The count that stands for the collector's unguarded exclusive access.
pub const UNSAFE_EXCLUSIVE_SIGNPOST: u64 = 0xFFFF_FFFF_FFFF_FFFFu64;

/// The count that stands for an exclusive warrant.
pub const EXCLUSIVE_SIGNPOST: u64 = 0xFFFF_FFFF_FFFF_FFFEu64;

/// Who holds a lockout.
pub enum LockoutState {
    /// Nobody.
    Idle,
    /// This many shared warrants, at least one.
    Shared(nat),
    /// One exclusive warrant.
    Exclusive,
    /// The collector, through the unguarded take and release pair.
    CollectorExclusive,
}

/// The per-allocation lock: any number of shared warrants, or one exclusive
/// holder. Mutators take shared warrants to reach a payload; the collector
/// only ever tries for exclusive access and never waits.
#[derive(Debug)]
pub struct Lockout {
    pub(crate) count: u64,
}

/// Proof of one shared hold; give it back with `release`.
#[derive(Debug)]
pub struct Warrant {}

/// Proof of the exclusive hold; give it back with `release`.
#[derive(Debug)]
pub struct ExclusiveWarrant {}

impl Lockout {
    /// No count lies between the shared range and the two signposts.
    pub open(crate) spec fn wf(&self) -> bool {
        self.count < EXCLUSIVE_SIGNPOST - 1 || self.count >= EXCLUSIVE_SIGNPOST
    }

    pub open(crate) spec fn view(&self) -> LockoutState {
        if self.count == 0 {
            LockoutState::Idle
        } else if self.count == UNSAFE_EXCLUSIVE_SIGNPOST {
            LockoutState::CollectorExclusive
        } else if self.count == EXCLUSIVE_SIGNPOST {
            LockoutState::Exclusive
        } else {
            LockoutState::Shared(self.count as nat)
        }
    }

    /// The number of shared warrants out.
    pub open spec fn shared_holders(&self) -> nat {
        match self@ {
            LockoutState::Shared(n) => n,
            _ => 0,
        }
    }

    /// Whether either kind of exclusive access is held.
    pub open spec fn exclusively_held(&self) -> bool {
        self@ == LockoutState::Exclusive || self@ == LockoutState::CollectorExclusive
    }

    /// The most shared warrants the count can hold.
    pub open spec fn max_shared() -> nat {
        (EXCLUSIVE_SIGNPOST - 2) as nat
    }

    /// A shared warrant is granted unless an exclusive holder is in or the
    /// count is full.
    pub open spec fn admits_shared(&self) -> bool {
        !self.exclusively_held() && self.shared_holders() < Self::max_shared()
    }

    pub fn new() -> (s: Self)
        ensures
            s.wf(),
            s@ == LockoutState::Idle,
    {
        Self { count: 0 }
    }

    /// Whether `take_warrant` would grant a warrant now.
    pub fn is_free_for_shared(&self) -> (free: bool)
        requires
            self.wf(),
        ensures
            free == self.admits_shared(),
    {
        self.count < EXCLUSIVE_SIGNPOST - 2
    }

    /// One attempt at a shared warrant. `None` means that the caller has to
    /// wait for the exclusive holder to leave and try again.
    pub fn take_warrant(&mut self) -> (warrant: Option<Warrant>)
        requires
            old(self).wf(),
        ensures
            final(self).wf(),
            warrant.is_some() <==> old(self).admits_shared(),
            warrant.is_some() ==> final(self)@ == LockoutState::Shared(
                old(self).shared_holders() + 1,
            ),
            warrant.is_none() ==> final(self)@ == old(self)@,
    {
        let starting_count = self.count;
        if starting_count < EXCLUSIVE_SIGNPOST - 2 {
            self.count = starting_count + 1;
            Some(Warrant {  })
        } else {
            None
        }
    }

    /// Takes the exclusive warrant if nobody holds the lockout; never waits.
    pub fn try_take_exclusive_warrant(&mut self) -> (warrant: Option<ExclusiveWarrant>)
        requires
            old(self).wf(),
        ensures
            final(self).wf(),
            warrant.is_some() <==> old(self)@ == LockoutState::Idle,
            warrant.is_some() ==> final(self)@ == LockoutState::Exclusive,
            warrant.is_none() ==> final(self)@ == old(self)@,
    {
        if self.count == 0 {
            self.count = EXCLUSIVE_SIGNPOST;
            Some(ExclusiveWarrant {  })
        } else {
            None
        }
    }

    /// Takes exclusive access without a warrant if nobody holds the lockout.
    /// Whoever got `true` must call `try_release_exclusive_access_unsafe`
    /// later; only the collector uses this pair.
    pub fn try_take_exclusive_access_unsafe(&mut self) -> (taken: bool)
        requires
            old(self).wf(),
        ensures
            final(self).wf(),
            taken <==> old(self)@ == LockoutState::Idle,
            taken ==> final(self)@ == LockoutState::CollectorExclusive,
            !taken ==> final(self)@ == old(self)@,
    {
        if self.count == 0 {
            self.count = UNSAFE_EXCLUSIVE_SIGNPOST;
            true
        } else {
            false
        }
    }

    /// Gives up the collector's exclusive access if it is held, and changes
    /// nothing otherwise.
    pub fn try_release_exclusive_access_unsafe(&mut self)
        requires
            old(self).wf(),
        ensures
            final(self).wf(),
            final(self)@ == (if old(self)@ == LockoutState::CollectorExclusive {
                LockoutState::Idle
            } else {
                old(self)@
            }),
    {
        if self.count == UNSAFE_EXCLUSIVE_SIGNPOST {
            self.count = 0;
        }
    }

    /// Whether the collector holds exclusive access.
    pub fn unsafe_exclusive_access_taken(&self) -> (taken: bool)
        ensures
            taken <==> self@ == LockoutState::CollectorExclusive,
    {
        self.count == UNSAFE_EXCLUSIVE_SIGNPOST
    }
}

impl Warrant {
    /// Ends one shared hold.
    pub fn release(self, lockout: &mut Lockout)
        requires
            old(lockout).wf(),
            old(lockout).shared_holders() >= 1,
        ensures
            final(lockout).wf(),
            final(lockout)@ == (if old(lockout).shared_holders() == 1 {
                LockoutState::Idle
            } else {
                LockoutState::Shared((old(lockout).shared_holders() - 1) as nat)
            }),
    {
        lockout.count = lockout.count - 1;
    }
}

impl ExclusiveWarrant {
    /// Ends the exclusive hold.
    pub fn release(self, lockout: &mut Lockout)
        requires
            old(lockout)@ == LockoutState::Exclusive,
        ensures
            final(lockout).wf(),
            final(lockout)@ == LockoutState::Idle,
    {
        lockout.count = 0;
    }
}

} // verus!
