use vstd::prelude::*;

verus! {

/// Says that a lock was poisoned, and holds the guard all the same.
#[derive(Debug)]
pub struct GcPoisonError<T> {
    pub(crate) guard: T,
}

impl<T> GcPoisonError<T> {
    /// The guard that the error holds.
    pub open(crate) spec fn held_guard(&self) -> T {
        self.guard
    }

    /// An error that holds `guard`.
    pub fn new(guard: T) -> (e: Self)
        ensures
            e.held_guard() == guard,
    {
        Self { guard }
    }

    /// Recovers the guard from inside the error.
    pub fn into_inner(self) -> (guard: T)
        ensures
            guard == self.held_guard(),
    {
        self.guard
    }
}

/// Why a lock could not be taken without waiting.
#[derive(Debug)]
pub enum GcTryLockError<T> {
    /// the lock was poisoned
    Poisoned(GcPoisonError<T>),
    /// taking the lock would block
    WouldBlock,
}

} // verus!
