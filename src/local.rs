//! The core ring buffer: storage plus a read index and a write index.

use vstd::prelude::*;
use crate::index::{
    advanced, lemma_advance_read, lemma_advance_write, lemma_occupied,
    lemma_offset_advanced, lemma_offset_injective, lemma_offset_onto, lemma_offset_period, lemma_write_offset, occupied,
    offset, ranges,
};
use crate::storage::Storage;
use crate::counter::{Counter, LocalCounter, PaddedCounter};
use std::collections::VecDeque;

verus! {

/// Ring buffer. Items are kept in a fixed storage; the read index and the
/// write index, both in `[0, 2 * capacity)` and held by the counter `C`,
/// mark the occupied places. Equal indices mean empty; indices `capacity`
/// apart mean full.
pub struct Rb<T, C: Counter> {
    storage: Storage<T>,
    counter: C,
}

/// Ring buffer for use in one thread: indices are plain fields.
pub type LocalRb<T> = Rb<T, LocalCounter>;

/// Ring buffer whose indices sit each in a cache line of its own.
pub type SharedRb<T> = Rb<T, PaddedCounter>;

impl<T, C: Counter> Rb<T, C> {
    /// The number of slots.
    pub closed spec fn cap(&self) -> nat {
        self.storage.container@.len()
    }

    /// The read index.
    pub closed spec fn read_end(&self) -> nat {
        self.counter.read_value() as nat
    }

    /// The write index.
    pub closed spec fn write_end(&self) -> nat {
        self.counter.write_value() as nat
    }

    /// The slots of the storage.
    pub closed spec fn slots(&self) -> Seq<Option<T>> {
        self.storage.container@
    }

    /// The number of occupied places, from the two indices.
    pub open spec fn occupied_count(&self) -> int {
        occupied(self.read_end() as int, self.write_end() as int, self.cap() as int)
    }

    /// Indices in range and at most `capacity` items between them.
    pub open spec fn indices_ok(&self) -> bool {
        let cap = self.cap() as int;
        &&& 0 < cap
        &&& 2 * cap <= usize::MAX
        &&& self.read_end() < 2 * cap
        &&& self.write_end() < 2 * cap
        &&& self.occupied_count() <= cap
    }

    /// Exactly the slots of the occupied places and of the `p` places after
    /// them hold an item.
    pub closed spec fn slots_hold(&self, p: int) -> bool {
        let cap = self.cap() as int;
        forall|k: int|
            0 <= k < cap ==> (#[trigger] self.slots()[offset(self.read_end() as int, k, cap)] is Some
                <==> k < self.occupied_count() + p)
    }

    /// A buffer with `p` items staged past the write index and not yet
    /// published.
    pub open spec fn wf_pending(&self, p: nat) -> bool {
        &&& self.indices_ok()
        &&& self.occupied_count() + p <= self.cap()
        &&& self.slots_hold(p as int)
    }

    /// Indices in range, at most `capacity` items, and exactly the slots of
    /// the occupied places hold an item.
    pub open spec fn wf(&self) -> bool {
        self.wf_pending(0)
    }

    /// Exactly the slots of the occupied places from the `t`-th on hold an
    /// item: the first `t` were taken and the read index not yet moved.
    pub closed spec fn slots_taken(&self, t: int) -> bool {
        let cap = self.cap() as int;
        forall|k: int|
            0 <= k < cap ==> (#[trigger] self.slots()[offset(self.read_end() as int, k, cap)] is Some
                <==> t <= k < self.occupied_count())
    }

    /// A buffer whose first `t` items were taken out and not yet released.
    pub open spec fn wf_taken(&self, t: nat) -> bool {
        &&& self.indices_ok()
        &&& t <= self.occupied_count()
        &&& self.slots_taken(t as int)
    }

    /// The `p` items staged past the write index, in the order they were staged.
    pub closed spec fn staged(&self, p: nat) -> Seq<T> {
        Seq::new(p, |k: int| self.slots()[offset(self.read_end() as int, self.occupied_count() + k, self.cap() as int)]->Some_0)
    }

    /// The items in the buffer, oldest first.
    pub closed spec fn view(&self) -> Seq<T> {
        Seq::new(
            self.occupied_count() as nat,
            |k: int| self.slots()[offset(self.read_end() as int, k, self.cap() as int)]->Some_0,
        )
    }

    /// Facts every well-formed buffer has: the item count is the modular
    /// distance between the indices and never exceeds the capacity.
    pub proof fn lemma_wf(&self)
        requires
            self.indices_ok(),
        ensures
            0 < self.cap(),
            2 * self.cap() <= usize::MAX,
            self.read_end() < 2 * self.cap(),
            self.write_end() < 2 * self.cap(),
            self.view().len() == self.occupied_count(),
            self.view().len() <= self.cap(),
            (self.view().len() == 0) <==> (self.read_end() == self.write_end()),
            advanced(self.read_end() as int, self.view().len() as int, self.cap() as int) == self.write_end(),
    {
        lemma_occupied(self.read_end() as int, self.write_end() as int, self.cap() as int);
    }

    /// An empty buffer of `capacity` slots.
    pub fn new(capacity: usize) -> (r: Self)
        requires
            0 < capacity,
            capacity <= usize::MAX / 2,
        ensures
            r.wf(),
            r.cap() == capacity,
            r.view() == Seq::<T>::empty(),
            r.read_end() == 0,
            r.write_end() == 0,
    {
        let storage = Storage::vacant(capacity);
        let r = Rb { storage, counter: C::new(0, 0) };
        proof {
            lemma_occupied(0, 0, capacity as int);
            assert forall|k: int| 0 <= k < capacity implies !(#[trigger] r.slots()[offset(0, k, capacity as int)] is Some) by {
                vstd::arithmetic::div_mod::lemma_small_mod(k as nat, capacity as nat);
            }
        }
        assert(r.view() =~= Seq::<T>::empty());
        r
    }

    /// The number of slots.
    pub fn capacity(&self) -> (r: usize)
        requires
            self.indices_ok(),
        ensures
            r == self.cap(),
    {
        self.storage.len()
    }

    /// The read index.
    pub fn read_index(&self) -> (r: usize)
        ensures
            r == self.read_end(),
    {
        self.counter.read_index()
    }

    /// The write index.
    pub fn write_index(&self) -> (r: usize)
        ensures
            r == self.write_end(),
    {
        self.counter.write_index()
    }

    /// The number of items in the buffer.
    pub fn occupied_len(&self) -> (r: usize)
        requires
            self.indices_ok(),
        ensures
            r == self.view().len(),
            r == self.occupied_count(),
    {
        proof {
            self.lemma_wf();
            lemma_occupied(self.read_end() as int, self.write_end() as int, self.cap() as int);
        }
        let cap = self.storage.len();
        let read = self.counter.read_index();
        let write = self.counter.write_index();
        if write >= read {
            write - read
        } else {
            write + (2 * cap - read)
        }
    }

    /// The number of vacant places.
    pub fn vacant_len(&self) -> (r: usize)
        requires
            self.indices_ok(),
        ensures
            r == self.cap() - self.view().len(),
    {
        proof { self.lemma_wf(); }
        self.storage.len() - self.occupied_len()
    }

    /// Whether the buffer holds no item: both indices are equal.
    pub fn is_empty(&self) -> (r: bool)
        requires
            self.indices_ok(),
        ensures
            r == (self.view().len() == 0),
    {
        proof { self.lemma_wf(); }
        self.counter.read_index() == self.counter.write_index()
    }

    /// Whether every place is occupied.
    pub fn is_full(&self) -> (r: bool)
        requires
            self.indices_ok(),
        ensures
            r == (self.view().len() == self.cap()),
    {
        self.occupied_len() == self.storage.len()
    }

    /// Appends `item` unless the buffer is full; a full buffer hands the item
    /// back unchanged and stays as it was.
    pub fn try_push(&mut self, item: T) -> (r: Result<(), T>)
        requires
            old(self).wf(),
        ensures
            final(self).wf(),
            final(self).cap() == old(self).cap(),
            final(self).read_end() == old(self).read_end(),
            old(self).view().len() == old(self).cap() ==> r == Err::<(), T>(item) && *final(self) == *old(self),
            old(self).view().len() < old(self).cap() ==> r is Ok
                && final(self).view() == old(self).view().push(item)
                && final(self).write_end() == advanced(old(self).write_end() as int, 1, old(self).cap() as int),
            push_effect(*old(self), *final(self), item, r),
    {
        if self.is_full() {
            return Err(item);
        }
        let cap = self.storage.len();
        let write = self.counter.write_index();
        let off = write % cap;
        let ghost old_rb = *self;
        let ghost occ = self.occupied_count();
        proof {
            lemma_write_offset(self.read_end() as int, self.write_end() as int, cap as int);
            lemma_advance_write(self.read_end() as int, self.write_end() as int, 1, cap as int);
        }
        self.storage.container.set(off, Some(item));
        self.counter.set_write_index((write + 1) % (2 * cap));
        proof {
            assert(self.occupied_count() == occ + 1);
            assert forall|k: int| 0 <= k < cap implies (#[trigger] self.slots()[offset(self.read_end() as int, k, cap as int)] is Some
                <==> k < self.occupied_count()) by {
                if k != occ {
                    if offset(self.read_end() as int, k, cap as int) == off {
                        lemma_offset_injective(self.read_end() as int, k, occ, cap as int);
                    }
                }
            }
            assert forall|k: int| 0 <= k < occ implies #[trigger] self.slots()[offset(self.read_end() as int, k, cap as int)]
                == old_rb.slots()[offset(self.read_end() as int, k, cap as int)] by {
                if offset(self.read_end() as int, k, cap as int) == off {
                    lemma_offset_injective(self.read_end() as int, k, occ, cap as int);
                }
            }
            assert(self.view() =~= old_rb.view().push(item));
        }
        Ok(())
    }

    /// Removes and returns the oldest item; an empty buffer gives `None`
    /// and stays as it was.
    pub fn try_pop(&mut self) -> (r: Option<T>)
        requires
            old(self).wf(),
        ensures
            final(self).wf(),
            final(self).cap() == old(self).cap(),
            final(self).write_end() == old(self).write_end(),
            old(self).view().len() == 0 ==> r is None && *final(self) == *old(self),
            old(self).view().len() > 0 ==> r == Some(old(self).view()[0])
                && final(self).view() == old(self).view().drop_first()
                && final(self).read_end() == advanced(old(self).read_end() as int, 1, old(self).cap() as int),
            pop_effect(*old(self), *final(self), r),
    {
        if self.is_empty() {
            return None;
        }
        let cap = self.storage.len();
        let read = self.counter.read_index();
        let off = read % cap;
        let ghost old_rb = *self;
        let ghost occ = self.occupied_count();
        let ghost read0 = self.read_end() as int;
        proof {
            lemma_advance_read(self.read_end() as int, self.write_end() as int, 1, cap as int);
            assert(offset(read0, 0, cap as int) == off);
        }
        let mut taken: Option<T> = None;
        self.storage.container.set_and_swap(off, &mut taken);
        self.counter.set_read_index((read + 1) % (2 * cap));
        proof {
            assert(self.occupied_count() == occ - 1);
            assert forall|k: int| 0 <= k < cap implies #[trigger] self.slots()[offset(self.read_end() as int, k, cap as int)]
                == if k + 1 < cap { old_rb.slots()[offset(read0, k + 1, cap as int)] } else { None } by {
                lemma_offset_advanced(read0, 1, k, cap as int);
                if k + 1 < cap {
                    if offset(read0, k + 1, cap as int) == off {
                        lemma_offset_injective(read0, k + 1, 0, cap as int);
                    }
                } else {
                    lemma_offset_period(read0, 0, cap as int);
                }
            }
            assert forall|k: int| 0 <= k < cap implies (#[trigger] self.slots()[offset(self.read_end() as int, k, cap as int)] is Some
                <==> k < self.occupied_count()) by {
                assert(self.slots()[offset(self.read_end() as int, k, cap as int)]
                    == if k + 1 < cap { old_rb.slots()[offset(read0, k + 1, cap as int)] } else { None });
                if k + 1 < cap {
                    assert(old_rb.slots()[offset(read0, k + 1, cap as int)] is Some <==> k + 1 < occ);
                }
            }
            assert forall|k: int| 0 <= k < occ - 1 implies #[trigger] self.view()[k] == old_rb.view().drop_first()[k] by {
                assert(self.slots()[offset(self.read_end() as int, k, cap as int)]
                    == if k + 1 < cap { old_rb.slots()[offset(read0, k + 1, cap as int)] } else { None });
            }
            assert(self.view() =~= old_rb.view().drop_first());
        }
        taken
    }

    /// Removes and drops the `min(count, len)` oldest items; returns how many.
    pub fn skip(&mut self, count: usize) -> (r: usize)
        requires
            old(self).wf(),
        ensures
            final(self).wf(),
            final(self).cap() == old(self).cap(),
            r == min(count as int, old(self).view().len() as int),
            final(self).view() == old(self).view().subrange(r as int, old(self).view().len() as int),
    {
        let n = if count < self.occupied_len() { count } else { self.occupied_len() };
        let ghost old_view = self.view();
        let mut i: usize = 0;
        while i < n
            invariant
                self.wf(),
                self.cap() == old(self).cap(),
                old_view == old(self).view(),
                n == min(count as int, old_view.len() as int),
                i <= n,
                self.view() == old_view.subrange(i as int, old_view.len() as int),
            decreases n - i,
        {
            let _ = self.try_pop();
            i = i + 1;
            assert(self.view() =~= old_view.subrange(i as int, old_view.len() as int));
        }
        n
    }

    /// Removes and drops every item; returns how many there were.
    pub fn clear(&mut self) -> (r: usize)
        requires
            old(self).wf(),
        ensures
            final(self).wf(),
            final(self).cap() == old(self).cap(),
            r == old(self).view().len(),
            final(self).view() == Seq::<T>::empty(),
            clear_effect(*old(self), *final(self), r),
    {
        let n = self.occupied_len();
        let r = self.skip(n);
        assert(self.view() =~= Seq::<T>::empty());
        r
    }

    /// Moves items from the front of `items` into the buffer until the buffer
    /// is full or `items` is empty; returns how many moved.
    pub fn push_iter(&mut self, items: &mut VecDeque<T>) -> (r: usize)
        requires
            old(self).wf(),
        ensures
            final(self).wf(),
            final(self).cap() == old(self).cap(),
            r == min(old(items)@.len() as int, old(self).cap() - old(self).view().len()),
            final(self).view() == old(self).view() + old(items)@.subrange(0, r as int),
            final(items)@ == old(items)@.subrange(r as int, old(items)@.len() as int),
    {
        let vacant = self.vacant_len();
        let n = if items.len() < vacant { items.len() } else { vacant };
        let ghost old_view = self.view();
        let ghost old_items = items@;
        let mut i: usize = 0;
        while i < n
            invariant
                self.wf(),
                self.cap() == old(self).cap(),
                old_view == old(self).view(),
                old_items == old(items)@,
                n == min(old_items.len() as int, self.cap() - old_view.len()),
                i <= n,
                self.view() == old_view + old_items.subrange(0, i as int),
                items@ == old_items.subrange(i as int, old_items.len() as int),
            decreases n - i,
        {
            let item = items.pop_front();
            match item {
                Some(x) => {
                    let _ = self.try_push(x);
                },
                None => {},
            }
            i = i + 1;
            assert(self.view() =~= old_view + old_items.subrange(0, i as int));
            assert(items@ =~= old_items.subrange(i as int, old_items.len() as int));
        }
        n
    }

    /// Moves the items of `src` (at most `count`, when given) into the buffer
    /// until it is full or `src` is empty; returns how many moved.
    pub fn transfer_from<D: Counter>(&mut self, src: &mut Rb<T, D>, count: Option<usize>) -> (r: usize)
        requires
            old(self).wf(),
            old(src).wf(),
        ensures
            final(self).wf(),
            final(src).wf(),
            final(self).cap() == old(self).cap(),
            final(src).cap() == old(src).cap(),
            r == transfer_count(old(src).view().len() as int, old(self).cap() - old(self).view().len(), count),
            final(self).view() == old(self).view() + old(src).view().subrange(0, r as int),
            final(src).view() == old(src).view().subrange(r as int, old(src).view().len() as int),
    {
        let a = src.occupied_len();
        let b = self.vacant_len();
        let mut n = if a < b { a } else { b };
        match count {
            Some(c) => {
                if c < n {
                    n = c;
                }
            },
            None => {},
        }
        let ghost old_view = self.view();
        let ghost old_src = src.view();
        let mut i: usize = 0;
        while i < n
            invariant
                self.wf(),
                src.wf(),
                self.cap() == old(self).cap(),
                src.cap() == old(src).cap(),
                old_view == old(self).view(),
                old_src == old(src).view(),
                n == transfer_count(old_src.len() as int, self.cap() - old_view.len(), count),
                i <= n,
                self.view() == old_view + old_src.subrange(0, i as int),
                src.view() == old_src.subrange(i as int, old_src.len() as int),
            decreases n - i,
        {
            let item = src.try_pop();
            match item {
                Some(x) => {
                    let _ = self.try_push(x);
                },
                None => {},
            }
            i = i + 1;
            assert(self.view() =~= old_view + old_src.subrange(0, i as int));
            assert(src.view() =~= old_src.subrange(i as int, old_src.len() as int));
        }
        n
    }
}

impl<T, C: Counter> Rb<T, C> {
    /// The first storage offset of the vacant places is just past the
    /// occupied ones, and every vacant place is an empty slot.
    proof fn lemma_vacant_offsets(&self)
        requires
            self.wf(),
        ensures
            forall|k: int| 0 <= k < self.cap() - self.occupied_count() ==>
                #[trigger] offset(self.write_end() as int, k, self.cap() as int)
                    == offset(self.read_end() as int, self.occupied_count() + k, self.cap() as int),
            forall|k: int| 0 <= k < self.cap() - self.occupied_count() ==>
                self.slots()[#[trigger] offset(self.write_end() as int, k, self.cap() as int)] is None,
    {
        let cap = self.cap() as int;
        let occ = self.occupied_count();
        assert forall|k: int| 0 <= k < cap - occ implies
            #[trigger] offset(self.write_end() as int, k, cap) == offset(self.read_end() as int, occ + k, cap) by {
            lemma_write_offset(self.read_end() as int, self.write_end() as int, cap);
            vstd::arithmetic::div_mod::lemma_add_mod_noop(self.write_end() as int, k, cap);
            vstd::arithmetic::div_mod::lemma_add_mod_noop(self.read_end() as int + occ, k, cap);
            vstd::arithmetic::div_mod::lemma_small_mod(k as nat, cap as nat);
        }
        assert forall|k: int| 0 <= k < cap - occ implies
            self.slots()[#[trigger] offset(self.write_end() as int, k, cap)] is None by {
            assert(offset(self.write_end() as int, k, cap) == offset(self.read_end() as int, occ + k, cap));
            assert(self.slots()[offset(self.read_end() as int, occ + k, cap)] is Some <==> occ + k < occ);
        }
    }

    /// The occupied places as two runs of slots, oldest first; the second run
    /// is empty unless the items wrap past the end of storage.
    pub fn occupied_slices(&self) -> (r: (&[Option<T>], &[Option<T>]))
        requires
            self.wf(),
        ensures
            r.0@ + r.1@ == self.view().map_values(|x: T| Some(x)),
            r.0@.len() == min(self.view().len() as int, self.cap() - self.read_end() % self.cap()),
    {
        proof { self.lemma_wf(); }
        let cap = self.storage.len();
        let (a, b) = ranges(cap, self.counter.read_index(), self.counter.write_index());
        let s = self.storage.container.as_slice();
        let first = &s[a.0..a.1];
        let second = &s[b.0..b.1];
        proof {
            let occ = self.occupied_count();
            assert forall|k: int| 0 <= k < occ implies #[trigger] (first@ + second@)[k]
                == self.view().map_values(|x: T| Some(x))[k] by {
                assert(offset(self.read_end() as int, k, cap as int) == if k < a.1 - a.0 { a.0 + k } else { k - (a.1 - a.0) });
                assert(self.slots()[offset(self.read_end() as int, k, cap as int)] is Some);
            }
            assert(first@ + second@ =~= self.view().map_values(|x: T| Some(x)));
        }
        (first, second)
    }

    /// The vacant places as two runs of empty slots, in the order in which
    /// they will be filled.
    pub fn vacant_slices(&self) -> (r: (&[Option<T>], &[Option<T>]))
        requires
            self.wf(),
        ensures
            r.0@.len() + r.1@.len() == self.cap() - self.view().len(),
            r.0@.len() == min(self.cap() - self.view().len(), self.cap() - self.write_end() % self.cap()),
            forall|k: int| 0 <= k < r.0@.len() ==> r.0@[k] is None,
            forall|k: int| 0 <= k < r.1@.len() ==> r.1@[k] is None,
    {
        proof {
            self.lemma_wf();
            self.lemma_vacant_offsets();
        }
        let cap = self.storage.len();
        let ghost occ = self.occupied_count();
        let read = self.counter.read_index();
        let end = if read < cap { read + cap } else { read - cap };
        proof {
            vstd::arithmetic::div_mod::lemma_small_mod(end as nat, (2 * cap) as nat);
            if read >= cap {
                vstd::arithmetic::div_mod::lemma_mod_sub_multiples_vanish((read + cap) as int, (2 * cap) as int);
            }
            lemma_occupied(self.read_end() as int, self.write_end() as int, cap as int);
            lemma_occupied(self.write_end() as int, self.write_end() as int, cap as int);
            lemma_advance_write(self.write_end() as int, self.write_end() as int, cap - occ, cap as int);
            vstd::arithmetic::div_mod::lemma_add_mod_noop(self.read_end() as int + occ, cap - occ, 2 * cap);
            vstd::arithmetic::div_mod::lemma_small_mod((cap - occ) as nat, (2 * cap) as nat);
            vstd::arithmetic::div_mod::lemma_add_mod_noop(self.read_end() as int, occ, 2 * cap);
            assert(advanced(self.write_end() as int, cap - occ, cap as int) == end);
        }
        let (a, b) = ranges(cap, self.counter.write_index(), end);
        let s = self.storage.container.as_slice();
        let first = &s[a.0..a.1];
        let second = &s[b.0..b.1];
        proof {
            assert forall|k: int| 0 <= k < first@.len() implies first@[k] is None by {
                assert(offset(self.write_end() as int, k, cap as int) == a.0 + k);
            }
            assert forall|k: int| 0 <= k < second@.len() implies second@[k] is None by {
                let j = k + (a.1 - a.0);
                assert(offset(self.write_end() as int, j, cap as int) == k);
            }
        }
        (first, second)
    }
}

impl<T, C: Counter> Rb<T, C> {
    /// The storage offsets whose slots hold an item.
    pub open spec fn live_slots(&self) -> Set<int> {
        Set::new(|j: int| 0 <= j < self.cap() && self.slots()[j] is Some)
    }

    /// Items in storage are exactly the items in the buffer: the number of
    /// slots holding an item is the number of items, so nothing vacant is
    /// kept alive and dropping the storage drops each item once.
    pub proof fn lemma_live_items(&self)
        requires
            self.wf(),
        ensures
            self.live_slots().finite(),
            self.live_slots().len() == self.view().len(),
    {
        let cap = self.cap() as int;
        let occ = self.occupied_count();
        let places = vstd::set_lib::set_int_range(0, occ);
        let f = |k: int| offset(self.read_end() as int, k, cap);
        vstd::set_lib::lemma_int_range(0, occ);
        assert forall|j: int| #[trigger] self.live_slots().contains(j) implies places.map(f).contains(j) by {
            let k = lemma_offset_onto(self.read_end() as int, j, cap);
            assert(self.slots()[offset(self.read_end() as int, k, cap)] is Some);
            assert(places.contains(k) && f(k) == j);
        }
        assert forall|j: int| #[trigger] places.map(f).contains(j) implies self.live_slots().contains(j) by {
            let k = choose|k: int| places.contains(k) && f(k) == j;
            vstd::arithmetic::div_mod::lemma_mod_bound(self.read_end() as int + k, cap);
            assert(self.slots()[offset(self.read_end() as int, k, cap)] is Some);
        }
        assert(places.map(f) =~= self.live_slots());
        assert forall|a: int, b: int| places.contains(a) && places.contains(b) && #[trigger] f(a) == #[trigger] f(b)
            implies a == b by {
            lemma_offset_injective(self.read_end() as int, a, b, cap);
        }
        vstd::set_lib::lemma_map_size(places, self.live_slots(), f);
    }
}

impl<T, C: Counter> Rb<T, C> {
    /// What is staged has one item per staged place; nothing is staged at zero.
    pub proof fn lemma_staged(&self, p: nat)
        ensures
            self.staged(p).len() == p,
            p == 0 ==> self.staged(p) == Seq::<T>::empty(),
    {
        if p == 0 {
            assert(self.staged(p) =~= Seq::<T>::empty());
        }
    }

    /// With nothing taken, the two forms of the invariant agree.
    pub proof fn lemma_taken_none(&self)
        ensures
            self.wf_taken(0) <==> self.wf(),
    {
    }

    /// Takes out the oldest item not yet taken, without moving the read
    /// index: its place is not yet given back to the producer.
    pub fn take(&mut self, taken: usize) -> (r: Option<T>)
        requires
            old(self).wf_taken(taken as nat),
            taken < old(self).occupied_count(),
        ensures
            final(self).wf_taken(taken as nat + 1),
            final(self).cap() == old(self).cap(),
            final(self).read_end() == old(self).read_end(),
            final(self).write_end() == old(self).write_end(),
            r == Some(old(self).view()[taken as int]),
            final(self).view().subrange(taken + 1, final(self).view().len() as int)
                == old(self).view().subrange(taken + 1, old(self).view().len() as int),
    {
        proof { self.lemma_wf(); }
        let cap = self.storage.len();
        let read = self.counter.read_index();
        let off = (read % cap + taken) % cap;
        let ghost old_rb = *self;
        let ghost occ = self.occupied_count();
        proof {
            vstd::arithmetic::div_mod::lemma_add_mod_noop(read as int, taken as int, cap as int);
            vstd::arithmetic::div_mod::lemma_small_mod(taken as nat, cap as nat);
            assert(off == offset(read as int, taken as int, cap as int));
        }
        let mut slot: Option<T> = None;
        self.storage.container.set_and_swap(off, &mut slot);
        proof {
            assert forall|k: int| 0 <= k < cap implies (#[trigger] self.slots()[offset(read as int, k, cap as int)] is Some
                <==> taken + 1 <= k < self.occupied_count()) by {
                if k != taken && offset(read as int, k, cap as int) == off {
                    lemma_offset_injective(read as int, k, taken as int, cap as int);
                }
            }
            assert forall|k: int| taken + 1 <= k < occ implies #[trigger] self.view()[k] == old_rb.view()[k] by {
                if offset(read as int, k, cap as int) == off {
                    lemma_offset_injective(read as int, k, taken as int, cap as int);
                }
            }
            assert(self.view().subrange(taken + 1, occ) =~= old_rb.view().subrange(taken + 1, occ));
        }
        slot
    }

    /// The items after the first `taken` (already taken out) as two runs of
    /// slots, oldest first; the second run is empty unless they wrap past the
    /// end of storage.
    pub fn slices_after(&self, taken: usize) -> (r: (&[Option<T>], &[Option<T>]))
        requires
            self.wf_taken(taken as nat),
        ensures
            r.0@ + r.1@ == self.view().subrange(taken as int, self.view().len() as int).map_values(|x: T| Some(x)),
            r.0@.len() == min(
                self.view().len() - taken,
                self.cap() - (self.read_end() % self.cap() + taken as nat) % self.cap(),
            ),
    {
        proof { self.lemma_wf(); }
        let cap = self.storage.len();
        let read = self.counter.read_index();
        let write = self.counter.write_index();
        let ghost occ = self.occupied_count();
        let start = if taken >= 2 * cap - read { taken - (2 * cap - read) } else { read + taken };
        proof {
            lemma_advance_read(read as int, write as int, taken as int, cap as int);
            vstd::arithmetic::div_mod::lemma_small_mod(start as nat, (2 * cap) as nat);
            if taken >= 2 * cap - read {
                vstd::arithmetic::div_mod::lemma_mod_sub_multiples_vanish((read + taken) as int, (2 * cap) as int);
            }
            assert(start == advanced(read as int, taken as int, cap as int));
            lemma_offset_advanced(read as int, taken as int, 0, cap as int);
            vstd::arithmetic::div_mod::lemma_add_mod_noop(read as int, taken as int, cap as int);
            vstd::arithmetic::div_mod::lemma_add_mod_noop(read as int % cap as int, taken as int, cap as int);
            vstd::arithmetic::div_mod::lemma_mod_twice(read as int, cap as int);
        }
        let (a, b) = ranges(cap, start, write);
        let s = self.storage.container.as_slice();
        let first = &s[a.0..a.1];
        let second = &s[b.0..b.1];
        proof {
            let items = self.view().subrange(taken as int, occ);
            assert forall|k: int| 0 <= k < occ - taken implies #[trigger] (first@ + second@)[k]
                == items.map_values(|x: T| Some(x))[k] by {
                lemma_offset_advanced(read as int, taken as int, k, cap as int);
                assert(offset(start as int, k, cap as int) == if k < a.1 - a.0 { a.0 + k } else { k - (a.1 - a.0) });
                assert(self.slots()[offset(read as int, taken + k, cap as int)] is Some);
            }
            assert(first@ + second@ =~= items.map_values(|x: T| Some(x)));
        }
        (first, second)
    }

    /// Moves the read index past the `taken` items already taken out, giving
    /// their places back to the producer.
    pub fn release(&mut self, taken: usize)
        requires
            old(self).wf_taken(taken as nat),
        ensures
            final(self).wf(),
            final(self).cap() == old(self).cap(),
            final(self).write_end() == old(self).write_end(),
            final(self).read_end() == advanced(old(self).read_end() as int, taken as int, old(self).cap() as int),
            final(self).view() == old(self).view().subrange(taken as int, old(self).view().len() as int),
    {
        proof { self.lemma_wf(); }
        let cap = self.storage.len();
        let read = self.counter.read_index();
        let ghost old_rb = *self;
        let ghost occ = self.occupied_count();
        let next = if taken >= 2 * cap - read { taken - (2 * cap - read) } else { read + taken };
        proof {
            lemma_advance_read(read as int, self.write_end() as int, taken as int, cap as int);
            vstd::arithmetic::div_mod::lemma_small_mod(next as nat, (2 * cap) as nat);
            if taken >= 2 * cap - read {
                vstd::arithmetic::div_mod::lemma_mod_sub_multiples_vanish((read + taken) as int, (2 * cap) as int);
            }
            assert(next == advanced(read as int, taken as int, cap as int));
        }
        self.counter.set_read_index(next);
        proof {
            assert(self.occupied_count() == occ - taken);
            assert(self.slots() == old_rb.slots());
            assert forall|k: int| 0 <= k < cap implies #[trigger] self.slots()[offset(next as int, k, cap as int)]
                == old_rb.slots()[offset(read as int, taken + k, cap as int)] by {
                lemma_offset_advanced(read as int, taken as int, k, cap as int);
            }
            assert forall|k: int| 0 <= k < cap implies (#[trigger] self.slots()[offset(next as int, k, cap as int)] is Some
                <==> k < self.occupied_count() + 0) by {
                assert(self.slots()[offset(next as int, k, cap as int)]
                    == old_rb.slots()[offset(read as int, taken + k, cap as int)]);
                if taken + k >= cap {
                    lemma_offset_period(read as int, taken + k - cap, cap as int);
                    assert(old_rb.slots()[offset(read as int, taken + k - cap, cap as int)] is None);
                }
            }
            assert forall|k: int| 0 <= k < occ - taken implies #[trigger] self.view()[k]
                == old_rb.view().subrange(taken as int, occ)[k] by {
                assert(self.slots()[offset(next as int, k, cap as int)]
                    == old_rb.slots()[offset(read as int, taken + k, cap as int)]);
            }
            assert(self.view() =~= old_rb.view().subrange(taken as int, occ));
        }
    }

    /// Puts `item` in the vacant place just past the `pending` staged items,
    /// without moving the write index: the item is not yet published.
    pub fn stage(&mut self, pending: usize, item: T)
        requires
            old(self).wf_pending(pending as nat),
            old(self).occupied_count() + pending < old(self).cap(),
        ensures
            final(self).wf_pending(pending as nat + 1),
            final(self).cap() == old(self).cap(),
            final(self).read_end() == old(self).read_end(),
            final(self).write_end() == old(self).write_end(),
            final(self).view() == old(self).view(),
            final(self).staged(pending as nat + 1) == old(self).staged(pending as nat).push(item),
    {
        proof { self.lemma_wf(); }
        let cap = self.storage.len();
        let write = self.counter.write_index();
        let off = (write % cap + pending) % cap;
        let ghost old_rb = *self;
        let ghost occ = self.occupied_count();
        let ghost read = self.read_end() as int;
        proof {
            lemma_write_offset(read, write as int, cap as int);
            vstd::arithmetic::div_mod::lemma_add_mod_noop(read + occ, pending as int, cap as int);
            vstd::arithmetic::div_mod::lemma_small_mod(pending as nat, cap as nat);
            assert(off == offset(read, occ + pending, cap as int));
        }
        self.storage.container.set(off, Some(item));
        proof {
            assert forall|k: int| 0 <= k < cap implies (#[trigger] self.slots()[offset(read, k, cap as int)] is Some
                <==> k < self.occupied_count() + (pending + 1)) by {
                if k != occ + pending && offset(read, k, cap as int) == off {
                    lemma_offset_injective(read, k, occ + pending, cap as int);
                }
            }
            assert forall|k: int| 0 <= k < occ + pending implies #[trigger] self.slots()[offset(read, k, cap as int)]
                == old_rb.slots()[offset(read, k, cap as int)] by {
                if offset(read, k, cap as int) == off {
                    lemma_offset_injective(read, k, occ + pending, cap as int);
                }
            }
            assert forall|k: int| 0 <= k < pending implies #[trigger] self.slots()[offset(read, occ + k, cap as int)]
                == old_rb.slots()[offset(read, occ + k, cap as int)] by {
                assert(0 <= occ + k < occ + pending);
            }
            assert(self.view() =~= old_rb.view());
            assert(self.staged(pending as nat + 1) =~= old_rb.staged(pending as nat).push(item));
        }
    }

    /// Moves the write index past the `pending` staged items, which join the
    /// buffer's items.
    pub fn publish(&mut self, pending: usize)
        requires
            old(self).wf_pending(pending as nat),
        ensures
            final(self).wf(),
            final(self).cap() == old(self).cap(),
            final(self).read_end() == old(self).read_end(),
            final(self).write_end() == advanced(old(self).write_end() as int, pending as int, old(self).cap() as int),
            final(self).view() == old(self).view() + old(self).staged(pending as nat),
    {
        proof { self.lemma_wf(); }
        let cap = self.storage.len();
        let write = self.counter.write_index();
        let ghost old_rb = *self;
        let ghost occ = self.occupied_count();
        let ghost read = self.read_end() as int;
        let next = if pending >= 2 * cap - write { pending - (2 * cap - write) } else { write + pending };
        proof {
            lemma_advance_write(read, write as int, pending as int, cap as int);
            vstd::arithmetic::div_mod::lemma_small_mod(next as nat, (2 * cap) as nat);
            if pending >= 2 * cap - write {
                vstd::arithmetic::div_mod::lemma_mod_sub_multiples_vanish((write + pending) as int, (2 * cap) as int);
            }
            assert(next == advanced(write as int, pending as int, cap as int));
        }
        self.counter.set_write_index(next);
        proof {
            assert(self.occupied_count() == occ + pending);
            assert(self.slots() == old_rb.slots());
            assert forall|k: int| 0 <= k < occ + pending implies #[trigger] self.view()[k]
                == (old_rb.view() + old_rb.staged(pending as nat))[k] by {
                if k >= occ {
                    assert(old_rb.staged(pending as nat)[k - occ] == old_rb.slots()[offset(read, occ + (k - occ), cap as int)]->Some_0);
                }
            }
            assert(self.view() =~= old_rb.view() + old_rb.staged(pending as nat));
        }
    }
}

/// Whether `slots` with the indices `read` and `write` make a valid buffer:
/// indices in range and exactly the occupied places hold an item.
pub open spec fn raw_parts_valid<T>(slots: Seq<Option<T>>, read: int, write: int) -> bool {
    let cap = slots.len() as int;
    &&& 0 < cap
    &&& 2 * cap <= usize::MAX
    &&& 0 <= read < 2 * cap
    &&& 0 <= write < 2 * cap
    &&& occupied(read, write, cap) <= cap
    &&& forall|k: int| 0 <= k < cap ==> (#[trigger] slots[offset(read, k, cap)] is Some <==> k < occupied(read, write, cap))
}

impl<T, C: Counter> Rb<T, C> {
    /// Rebuilds a buffer from its storage and its two indices.
    pub fn from_raw_parts(storage: Storage<T>, read: usize, write: usize) -> (r: Self)
        requires
            raw_parts_valid(storage.container@, read as int, write as int),
        ensures
            r.wf(),
            r.slots() == storage.container@,
            r.read_end() == read,
            r.write_end() == write,
    {
        Rb { storage, counter: C::new(read, write) }
    }

    /// Takes the buffer apart into its storage and its two indices.
    pub fn into_raw_parts(self) -> (r: (Storage<T>, usize, usize))
        requires
            self.wf(),
        ensures
            r.0.container@ == self.slots(),
            r.1 == self.read_end(),
            r.2 == self.write_end(),
            raw_parts_valid(r.0.container@, r.1 as int, r.2 as int),
    {
        let read = self.counter.read_index();
        let write = self.counter.write_index();
        (self.storage, read, write)
    }

    /// Length of the first run of vacant places: what one contiguous write can fill.
    pub open spec fn vacant_run(&self) -> int {
        min(self.cap() - self.view().len(), self.cap() - self.write_end() % self.cap())
    }

    /// Length of the first run of occupied places: what one contiguous read can take.
    pub open spec fn occupied_run(&self) -> int {
        min(self.view().len() as int, self.cap() - self.read_end() % self.cap())
    }

    /// Computes the first run of vacant places.
    pub fn vacant_run_len(&self) -> (r: usize)
        requires
            self.wf(),
        ensures
            r == self.vacant_run(),
    {
        proof { self.lemma_wf(); }
        let cap = self.storage.len();
        let room = cap - self.counter.write_index() % cap;
        let vacant = self.vacant_len();
        if vacant < room { vacant } else { room }
    }

    /// Computes the first run of occupied places.
    pub fn occupied_run_len(&self) -> (r: usize)
        requires
            self.wf(),
        ensures
            r == self.occupied_run(),
    {
        proof { self.lemma_wf(); }
        let cap = self.storage.len();
        let room = cap - self.counter.read_index() % cap;
        let len = self.occupied_len();
        if len < room { len } else { room }
    }
}

/// The bound that an optional count sets on `n`.
pub open spec fn capped(n: int, count: Option<usize>) -> int {
    match count {
        Some(c) => min(n, c as int),
        None => n,
    }
}

impl<T: Copy, C: Counter> Rb<T, C> {
    /// Copies the longest prefix of `elems` that fits into the buffer;
    /// returns its length, `min(elems.len(), vacant_len)`.
    pub fn push_slice(&mut self, elems: &[T]) -> (r: usize)
        requires
            old(self).wf(),
        ensures
            final(self).wf(),
            final(self).cap() == old(self).cap(),
            r == min(elems@.len() as int, old(self).cap() - old(self).view().len()),
            final(self).view() == old(self).view() + elems@.subrange(0, r as int),
    {
        let vacant = self.vacant_len();
        let n = if elems.len() < vacant { elems.len() } else { vacant };
        let ghost old_view = self.view();
        let mut i: usize = 0;
        while i < n
            invariant
                self.wf(),
                self.cap() == old(self).cap(),
                old_view == old(self).view(),
                n == min(elems@.len() as int, self.cap() - old_view.len()),
                i <= n,
                self.view() == old_view + elems@.subrange(0, i as int),
            decreases n - i,
        {
            let _ = self.try_push(elems[i]);
            i = i + 1;
            assert(self.view() =~= old_view + elems@.subrange(0, i as int));
        }
        n
    }

    /// Moves the `min(elems.len(), len)` oldest items into the front of
    /// `elems`; returns how many.
    pub fn pop_slice(&mut self, elems: &mut [T]) -> (r: usize)
        requires
            old(self).wf(),
        ensures
            final(self).wf(),
            final(self).cap() == old(self).cap(),
            r == min(old(elems)@.len() as int, old(self).view().len() as int),
            final(elems)@ == old(self).view().subrange(0, r as int) + old(elems)@.subrange(r as int, old(elems)@.len() as int),
            final(self).view() == old(self).view().subrange(r as int, old(self).view().len() as int),
    {
        let len = self.occupied_len();
        let n = if elems.len() < len { elems.len() } else { len };
        let ghost old_view = self.view();
        let ghost old_elems = elems@;
        let mut i: usize = 0;
        while i < n
            invariant
                self.wf(),
                self.cap() == old(self).cap(),
                old_view == old(self).view(),
                old_elems == old(elems)@,
                elems@.len() == old_elems.len(),
                n == min(old_elems.len() as int, old_view.len() as int),
                i <= n,
                self.view() == old_view.subrange(i as int, old_view.len() as int),
                elems@ == old_view.subrange(0, i as int) + old_elems.subrange(i as int, old_elems.len() as int),
            decreases n - i,
        {
            let item = self.try_pop();
            match item {
                Some(x) => {
                    elems[i] = x;
                },
                None => {},
            }
            i = i + 1;
            assert(self.view() =~= old_view.subrange(i as int, old_view.len() as int));
            assert(elems@ =~= old_view.subrange(0, i as int) + old_elems.subrange(i as int, old_elems.len() as int));
        }
        n
    }
}

impl<T: Copy, C: Counter> Rb<T, C> {
    /// Takes from the front of `source` at most one contiguous run of vacant
    /// places (and at most `count` items, when given); returns how many.
    pub fn read_from(&mut self, source: &[T], count: Option<usize>) -> (r: usize)
        requires
            old(self).wf(),
        ensures
            final(self).wf(),
            final(self).cap() == old(self).cap(),
            r == capped(min(old(self).vacant_run(), source@.len() as int), count),
            final(self).view() == old(self).view() + source@.subrange(0, r as int),
    {
        let run = self.vacant_run_len();
        let mut n = if source.len() < run { source.len() } else { run };
        match count {
            Some(c) => {
                if c < n {
                    n = c;
                }
            },
            None => {},
        }
        let part = &source[0..n];
        let r = self.push_slice(part);
        assert(part@ =~= source@.subrange(0, n as int));
        r
    }

    /// Appends to `sink` the items of at most one contiguous run of occupied
    /// places (and at most `count` items, when given), removing them; returns
    /// how many.
    pub fn write_into(&mut self, sink: &mut Vec<T>, count: Option<usize>) -> (r: usize)
        requires
            old(self).wf(),
        ensures
            final(self).wf(),
            final(self).cap() == old(self).cap(),
            r == capped(old(self).occupied_run(), count),
            final(sink)@ == old(sink)@ + old(self).view().subrange(0, r as int),
            final(self).view() == old(self).view().subrange(r as int, old(self).view().len() as int),
    {
        let mut n = self.occupied_run_len();
        match count {
            Some(c) => {
                if c < n {
                    n = c;
                }
            },
            None => {},
        }
        let ghost old_view = self.view();
        let ghost old_sink = sink@;
        let mut i: usize = 0;
        while i < n
            invariant
                self.wf(),
                self.cap() == old(self).cap(),
                old_view == old(self).view(),
                old_sink == old(sink)@,
                n <= old_view.len(),
                i <= n,
                self.view() == old_view.subrange(i as int, old_view.len() as int),
                sink@ == old_sink + old_view.subrange(0, i as int),
            decreases n - i,
        {
            let item = self.try_pop();
            match item {
                Some(x) => {
                    sink.push(x);
                },
                None => {},
            }
            i = i + 1;
            assert(self.view() =~= old_view.subrange(i as int, old_view.len() as int));
            assert(sink@ =~= old_sink + old_view.subrange(0, i as int));
        }
        n
    }
}

impl<T: Copy, C: Counter> Rb<T, C> {
    /// Passes all of `source` through the buffer into `sink`, alternating one
    /// `read_from` and one `write_into`: `sink` receives the items the buffer
    /// held, then `source` unchanged, and the buffer ends empty.
    pub fn relay(&mut self, source: &[T], sink: &mut Vec<T>)
        requires
            old(self).wf(),
        ensures
            final(self).wf(),
            final(self).cap() == old(self).cap(),
            final(self).view() == Seq::<T>::empty(),
            final(sink)@ == old(sink)@ + old(self).view() + source@,
    {
        let ghost total = sink@ + self.view() + source@;
        let mut pos: usize = 0;
        while pos < source.len() || !self.is_empty()
            invariant
                self.wf(),
                self.cap() == old(self).cap(),
                total == old(sink)@ + old(self).view() + source@,
                pos <= source@.len(),
                sink@ + self.view() + source@.subrange(pos as int, source@.len() as int) == total,
            decreases 2 * (source@.len() - pos) + self.view().len(),
        {
            proof {
                self.lemma_wf();
                vstd::arithmetic::div_mod::lemma_mod_bound(self.write_end() as int, self.cap() as int);
            }
            let ghost len0 = self.view().len();
            let rest = &source[pos..source.len()];
            let ghost v0 = self.view();
            let n = self.read_from(rest, None);
            proof {
                assert(source@.subrange(pos as int, source@.len() as int) =~= rest@.subrange(0, n as int)
                    + source@.subrange(pos + n, source@.len() as int));
                assert(v0 + rest@.subrange(0, n as int) + source@.subrange(pos + n, source@.len() as int)
                    =~= v0 + (rest@.subrange(0, n as int) + source@.subrange(pos + n, source@.len() as int)));
                self.lemma_wf();
                vstd::arithmetic::div_mod::lemma_mod_bound(self.read_end() as int, self.cap() as int);
            }
            pos = pos + n;
            let ghost v1 = self.view();
            let ghost s1 = sink@;
            let w = self.write_into(sink, None);
            proof {
                assert(v1 =~= v1.subrange(0, w as int) + self.view());
                assert(s1 + v1 =~= sink@ + self.view());
                assert(len0 > 0 ==> w >= 1);
                assert(len0 == 0 ==> n >= 1);
            }
        }
        assert(source@.subrange(pos as int, source@.len() as int) =~= Seq::<T>::empty());
        assert(self.view() =~= Seq::<T>::empty());
        assert(sink@ =~= sink@ + self.view() + source@.subrange(pos as int, source@.len() as int));
    }
}

/// What `try_push(item)` does: a full buffer stays as it was and hands the
/// item back; any other gains the item at its end.
pub open spec fn push_effect<T, C: Counter>(before: Rb<T, C>, after: Rb<T, C>, item: T, r: Result<(), T>) -> bool {
    &&& after.wf()
    &&& after.cap() == before.cap()
    &&& if before.view().len() == before.cap() {
        r == Err::<(), T>(item) && after == before
    } else {
        r is Ok && after.view() == before.view().push(item)
    }
}

/// What `try_pop()` does: an empty buffer stays as it was and gives `None`;
/// any other gives up its oldest item.
pub open spec fn pop_effect<T, C: Counter>(before: Rb<T, C>, after: Rb<T, C>, r: Option<T>) -> bool {
    &&& after.wf()
    &&& after.cap() == before.cap()
    &&& if before.view().len() == 0 {
        r is None && after == before
    } else {
        r == Some(before.view()[0]) && after.view() == before.view().drop_first()
    }
}

/// What `clear()` does: every item goes, and their number is returned.
pub open spec fn clear_effect<T, C: Counter>(before: Rb<T, C>, after: Rb<T, C>, r: usize) -> bool {
    &&& after.wf()
    &&& after.cap() == before.cap()
    &&& r == before.view().len()
    &&& after.view() == Seq::<T>::empty()
}

/// The smaller of two integers.
pub open spec fn min(a: int, b: int) -> int {
    if a < b { a } else { b }
}

/// How many items a transfer moves: what the source holds, bounded by the
/// room in the destination and by the requested count, when there is one.
pub open spec fn transfer_count(available: int, room: int, count: Option<usize>) -> int {
    match count {
        Some(c) => min(min(available, room), c as int),
        None => min(available, room),
    }
}

} // verus!
