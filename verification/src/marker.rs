use vstd::prelude::*;

verus! {

/// Marks data that the collector may scan and release from any thread.
pub trait GcSafe {

}

/// Marks data whose destructor the collector may run when it releases it.
pub trait GcDrop {

}

/// Marks data that can be reached through a managed pointer without a
/// warrant: nothing in it changes behind a shared reference.
pub trait GcDeref {

}

/// Wraps a value that can be sent between threads, to mark it as safe for
/// the collector.
pub struct GcSafeWrapper<T> {
    /// The wrapped value
    pub v: T,
}

impl<T> GcSafe for GcSafeWrapper<T> {

}

impl<T> GcSafeWrapper<T> {
    /// A wrapper that holds `v`.
    pub fn new(v: T) -> (w: Self) where T: Send + 'static
        ensures
            w.v == v,
    {
        Self { v }
    }

    /// The value out of the wrapper.
    pub fn take(self) -> (v: T)
        ensures
            v == self.v,
    {
        self.v
    }
}

} // verus!
