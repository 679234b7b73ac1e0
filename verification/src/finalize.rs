use vstd::prelude::*;

verus! {

/// Cleanup that runs in place of a destructor, for data whose destructor the
/// collector may not run.
///
/// An implementation must not touch managed pointers or borrowed data that
/// the value holds: by the time it runs they may be gone.
pub trait Finalize {
    /// Cleans up; the value must not be used afterwards, not even dropped.
    fn finalize(&mut self);
}

/// Cleanup of the fields of a value, for use at the end of a `finalize`
/// written by hand.
pub trait FinalizeFields {
    /// Cleans up the fields; the value must not be used afterwards.
    fn finalize_fields(&mut self);
}

} // verus!
