use crate::collector::allocation::GcAllocation;
use crate::collector::ref_cnt::GcRefCount;
use crate::concurrency::lockout::Lockout;
use vstd::prelude::*;

verus! {

/// The record that the collector keeps of one allocation.
#[derive(Debug)]
pub struct GcData {
    /// keeps the collector from scanning the data while a mutator may be
    /// changing it
    pub(crate) lockout: Lockout,
    /// whether the release of the data has begun
    pub(crate) deallocated: bool,
    /// the reference count
    pub(crate) ref_cnt: GcRefCount,
    /// the data and the action that releases it
    pub(crate) underlying_allocation: GcAllocation,
}

} // verus!
