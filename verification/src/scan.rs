use vstd::prelude::*;

verus! {

/// Marks data that holds no managed pointer, so that scanning it finds
/// nothing.
pub trait EmptyScan: Send {

}

} // verus!
