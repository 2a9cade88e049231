//! Read-only queries shared by a ring buffer and its two endpoints.

use vstd::prelude::*;
use crate::consumer::Consumer;
use crate::counter::Counter;
use crate::local::Rb;
use crate::producer::Producer;

verus! {

/// What can be asked of a ring buffer from anywhere: its capacity and how
/// many places are occupied, as seen from this handle.
pub trait Observer {
    /// Whether the handle is in a state that can be observed.
    spec fn observable(&self) -> bool;

    /// The capacity.
    spec fn observed_cap(&self) -> nat;

    /// The number of items seen from this handle.
    spec fn observed_len(&self) -> nat;

    /// The capacity of the buffer; it does not change.
    fn capacity(&self) -> (r: usize)
        requires
            self.observable(),
        ensures
            r == self.observed_cap(),
    ;

    /// The number of items.
    fn occupied_len(&self) -> (r: usize)
        requires
            self.observable(),
        ensures
            r == self.observed_len(),
            r <= self.observed_cap(),
    ;

    /// The number of vacant places.
    fn vacant_len(&self) -> (r: usize)
        requires
            self.observable(),
        ensures
            r == self.observed_cap() - self.observed_len(),
    ;

    /// Whether there is no item.
    fn is_empty(&self) -> (r: bool)
        requires
            self.observable(),
        ensures
            r == (self.observed_len() == 0),
    ;

    /// Whether every place is occupied.
    fn is_full(&self) -> (r: bool)
        requires
            self.observable(),
        ensures
            r == (self.observed_len() == self.observed_cap()),
    ;
}

impl<T, C: Counter> Observer for Rb<T, C> {
    open spec fn observable(&self) -> bool {
        self.indices_ok()
    }

    open spec fn observed_cap(&self) -> nat {
        self.cap()
    }

    open spec fn observed_len(&self) -> nat {
        self.view().len()
    }

    fn capacity(&self) -> (r: usize) {
        Rb::capacity(self)
    }

    fn occupied_len(&self) -> (r: usize) {
        proof { self.lemma_wf(); }
        Rb::occupied_len(self)
    }

    fn vacant_len(&self) -> (r: usize) {
        Rb::vacant_len(self)
    }

    fn is_empty(&self) -> (r: bool) {
        Rb::is_empty(self)
    }

    fn is_full(&self) -> (r: bool) {
        Rb::is_full(self)
    }
}

impl<'a, T, C: Counter> Observer for Producer<'a, T, C> {
    open spec fn observable(&self) -> bool {
        self.wf()
    }

    open spec fn observed_cap(&self) -> nat {
        self.cap()
    }

    open spec fn observed_len(&self) -> nat {
        self.items().len()
    }

    fn capacity(&self) -> (r: usize) {
        Producer::capacity(self)
    }

    fn occupied_len(&self) -> (r: usize) {
        proof { self.lemma_producer(); }
        self.len()
    }

    fn vacant_len(&self) -> (r: usize) {
        self.remaining()
    }

    fn is_empty(&self) -> (r: bool) {
        Producer::is_empty(self)
    }

    fn is_full(&self) -> (r: bool) {
        Producer::is_full(self)
    }
}

impl<'a, T, C: Counter> Observer for Consumer<'a, T, C> {
    open spec fn observable(&self) -> bool {
        self.wf()
    }

    open spec fn observed_cap(&self) -> nat {
        self.cap()
    }

    open spec fn observed_len(&self) -> nat {
        self.items().len()
    }

    fn capacity(&self) -> (r: usize) {
        Consumer::capacity(self)
    }

    fn occupied_len(&self) -> (r: usize) {
        proof { self.lemma_consumer(); }
        self.len()
    }

    fn vacant_len(&self) -> (r: usize) {
        self.remaining()
    }

    fn is_empty(&self) -> (r: bool) {
        Consumer::is_empty(self)
    }

    fn is_full(&self) -> (r: bool) {
        Consumer::is_full(self)
    }
}

} // verus!
