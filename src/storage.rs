//! Fixed-length backing storage of a ring buffer: one slot per place, each
//! either holding an item or vacant.

use vstd::prelude::*;

verus! {

/// A contiguous region of slots; its length is the capacity of a buffer built on it.
pub struct Storage<T> {
    pub container: Vec<Option<T>>,
}

impl<T> Storage<T> {
    /// Wraps a vector of slots.
    pub fn new(container: Vec<Option<T>>) -> (r: Self)
        ensures
            r.container@ == container@,
    {
        Storage { container }
    }

    /// Unwraps the vector of slots.
    pub fn into_inner(self) -> (r: Vec<Option<T>>)
        ensures
            r@ == self.container@,
    {
        self.container
    }

    /// Number of slots.
    pub fn len(&self) -> (r: usize)
        ensures
            r == self.container@.len(),
    {
        self.container.len()
    }

    /// A storage of `n` vacant slots.
    pub fn vacant(n: usize) -> (r: Self)
        ensures
            r.container@.len() == n,
            forall|i: int| 0 <= i < n ==> r.container@[i] is None,
    {
        let mut container: Vec<Option<T>> = Vec::new();
        let mut i: usize = 0;
        while i < n
            invariant
                i <= n,
                container@.len() == i,
                forall|j: int| 0 <= j < i ==> container@[j] is None,
            decreases n - i,
        {
            container.push(None);
            i = i + 1;
        }
        Storage { container }
    }
}

} // verus!
