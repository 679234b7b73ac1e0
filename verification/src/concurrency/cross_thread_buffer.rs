use vstd::prelude::*;

verus! {

/// A buffer that is filled item by item, walked, and cleared for reuse.
pub struct CrossThreadBuffer<T> {
    pub(crate) buffers: Vec<T>,
}

impl<T> CrossThreadBuffer<T> {
    /// The items of the buffer, in the order in which they were pushed.
    pub open(crate) spec fn view(&self) -> Seq<T> {
        self.buffers@
    }

    pub fn new() -> (s: Self)
        ensures
            s@ == Seq::<T>::empty(),
    {
        Self { buffers: Vec::new() }
    }

    pub fn push(&mut self, item: T)
        ensures
            final(self)@ == old(self)@.push(item),
    {
        self.buffers.push(item);
    }

    pub fn clear(&mut self)
        ensures
            final(self)@ == Seq::<T>::empty(),
    {
        self.buffers.clear();
    }

    /// The number of items.
    pub fn len(&self) -> (n: usize)
        ensures
            n == self@.len(),
    {
        self.buffers.len()
    }

    /// The item at place `i`.
    pub fn get(&self, i: usize) -> (item: &T)
        requires
            i < self@.len(),
        ensures
            *item == self@[i as int],
    {
        &self.buffers[i]
    }
}

impl<T> Default for CrossThreadBuffer<T> {
    fn default() -> (s: Self)
        ensures
            s@ == Seq::<T>::empty(),
    {
        Self::new()
    }
}

} // verus!
