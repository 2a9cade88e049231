//! The pair of indices of a ring buffer, kept either as plain fields or each
//! in a cache line of its own.

use vstd::prelude::*;
use crossbeam_utils::CachePadded;

verus! {

/// Holder of the read index and the write index of a ring buffer.
pub trait Counter: Sized {
    /// The read index.
    spec fn read_value(&self) -> usize;

    /// The write index.
    spec fn write_value(&self) -> usize;

    /// A pair holding the given indices.
    fn new(read: usize, write: usize) -> (r: Self)
        ensures
            r.read_value() == read,
            r.write_value() == write,
    ;

    /// Loads the read index.
    fn read_index(&self) -> (r: usize)
        ensures
            r == self.read_value(),
    ;

    /// Loads the write index.
    fn write_index(&self) -> (r: usize)
        ensures
            r == self.write_value(),
    ;

    /// Stores a new read index; the write index is kept.
    fn set_read_index(&mut self, value: usize)
        ensures
            final(self).read_value() == value,
            final(self).write_value() == old(self).write_value(),
    ;

    /// Stores a new write index; the read index is kept.
    fn set_write_index(&mut self, value: usize)
        ensures
            final(self).write_value() == value,
            final(self).read_value() == old(self).read_value(),
    ;
}

/// Indices as plain fields, for a buffer used from one thread.
pub struct LocalCounter {
    read: usize,
    write: usize,
}

impl Counter for LocalCounter {
    closed spec fn read_value(&self) -> usize {
        self.read
    }

    closed spec fn write_value(&self) -> usize {
        self.write
    }

    fn new(read: usize, write: usize) -> (r: Self) {
        LocalCounter { read, write }
    }

    fn read_index(&self) -> (r: usize) {
        self.read
    }

    fn write_index(&self) -> (r: usize) {
        self.write
    }

    fn set_read_index(&mut self, value: usize) {
        self.read = value;
    }

    fn set_write_index(&mut self, value: usize) {
        self.write = value;
    }
}

#[verifier::external_type_specification]
#[verifier::external_body]
#[verifier::reject_recursive_types(T)]
pub struct ExCachePadded<T>(CachePadded<T>);

/// The value held inside a cache-line padded cell.
pub uninterp spec fn padded_value(p: CachePadded<usize>) -> usize;

/// Relies on crossbeam_utils::CachePadded::new: the cell holds the value given.
#[verifier::external_body]
fn pad(value: usize) -> (r: CachePadded<usize>)
    ensures
        padded_value(r) == value,
{
    CachePadded::new(value)
}

/// Relies on the `Deref` impl of crossbeam_utils::CachePadded: it reads the value held.
#[verifier::external_body]
fn unpad(p: &CachePadded<usize>) -> (r: usize)
    ensures
        r == padded_value(*p),
{
    **p
}

/// Indices each padded and aligned to a cache line of its own. Here both
/// are written only through `&mut`, one endpoint at a time; the padding
/// keeps the layout of a buffer whose indices live apart in memory.
pub struct PaddedCounter {
    read: CachePadded<usize>,
    write: CachePadded<usize>,
}

impl Counter for PaddedCounter {
    closed spec fn read_value(&self) -> usize {
        padded_value(self.read)
    }

    closed spec fn write_value(&self) -> usize {
        padded_value(self.write)
    }

    fn new(read: usize, write: usize) -> (r: Self) {
        PaddedCounter { read: pad(read), write: pad(write) }
    }

    fn read_index(&self) -> (r: usize) {
        unpad(&self.read)
    }

    fn write_index(&self) -> (r: usize) {
        unpad(&self.write)
    }

    fn set_read_index(&mut self, value: usize) {
        self.read = pad(value);
    }

    fn set_write_index(&mut self, value: usize) {
        self.write = pad(value);
    }
}

} // verus!
