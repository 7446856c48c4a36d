use vstd::prelude::*;

verus! {

/// An append-only, index-stable store for expression nodes.
///
/// Handles are plain indices: once a value has been allocated its handle
/// stays valid for the allocator's whole lifetime, no value is ever moved
/// out or dropped early, and everything is released together when the
/// allocator itself is dropped.
pub struct Z3Allocator<T> {
    items: Vec<T>,
}

impl<T> View for Z3Allocator<T> {
    type V = Seq<T>;

    closed spec fn view(&self) -> Seq<T> {
        self.items@
    }
}

impl<T> Z3Allocator<T> {
    /// Creates an empty allocator.
    pub fn new() -> (r: Self)
        ensures
            r@ == Seq::<T>::empty(),
    {
        Z3Allocator { items: Vec::new() }
    }

    /// Places a value in the store and hands back its permanent handle.
    pub fn allocate(&mut self, value: T) -> (r: usize)
        ensures
            final(self)@ == old(self)@.push(value),
            r == old(self)@.len(),
    {
        let r = self.items.len();
        self.items.push(value);
        r
    }

    /// Reads the value behind a handle.
    pub fn get(&self, i: usize) -> (r: &T)
        requires
            i < self@.len(),
        ensures
            *r == self@[i as int],
    {
        &self.items[i]
    }

    /// The number of values allocated so far.
    pub fn len(&self) -> (r: usize)
        ensures
            r == self@.len(),
    {
        self.items.len()
    }
}

} // verus!
