use crate::marker::{GcDeref, GcDrop, GcSafe};
use vstd::prelude::*;

verus! {

/// Accepts exactly the values that are `GcDeref`; does nothing.
#[inline(always)]
pub fn check_gc_deref<T: GcDeref>(_v: &T) {
}

/// Accepts exactly the values that are `GcDrop`; does nothing.
#[inline(always)]
pub fn check_gc_drop<T: GcDrop>(_v: &T) {
}

/// Accepts exactly the values that are `GcSafe`; does nothing.
#[inline(always)]
pub fn check_gc_safe<T: GcSafe>(_v: &T) {
}

} // verus!
