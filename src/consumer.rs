//! The consumer endpoint: the one holder of the right to advance the read
//! index. In immediate mode each operation gives the places of the items it
//! removed back at once; in postponed mode the read index moves only on
//! `sync`, on switching back to immediate mode, or when the borrow of the
//! buffer is given back.

use vstd::prelude::*;
use crate::counter::Counter;
use crate::index::{advanced, lemma_advanced_add, lemma_advanced_zero};
use crate::laws::consumer_pop_effect;
use crate::local::{capped, min, transfer_count, Rb};
use crate::producer::Producer;

verus! {

/// Consumer part of a ring buffer: it removes items and moves the read index.
pub struct Consumer<'a, T, C: Counter> {
    rb: &'a mut Rb<T, C>,
    taken: usize,
    postponed: bool,
}

impl<'a, T, C: Counter> Rb<T, C> {
    /// Borrows the buffer as its consumer, in immediate mode.
    pub fn consumer(&'a mut self) -> (r: Consumer<'a, T, C>)
        requires
            old(self).wf(),
        ensures
            r.wf(),
            r.buf() == *old(self),
            r.items() == old(self).view(),
            r.taken_count() == 0,
            !r.postponed_mode(),
    {
        proof { self.lemma_taken_none(); }
        let r = Consumer { rb: self, taken: 0, postponed: false };
        proof {
            assert(r.items() =~= r.buf().view());
        }
        r
    }
}

impl<'a, T, C: Counter> Consumer<'a, T, C> {
    /// The buffer, as it stands now: its read index has not moved past the
    /// items taken in postponed mode.
    pub closed spec fn buf(&self) -> Rb<T, C> {
        *self.rb
    }

    /// Number of items taken out whose places are not yet given back.
    pub closed spec fn taken_count(&self) -> nat {
        self.taken as nat
    }

    /// Whether giving places back waits for `sync`.
    pub closed spec fn postponed_mode(&self) -> bool {
        self.postponed
    }

    /// The buffer's first items were taken exactly as counted; in immediate
    /// mode nothing is held back.
    pub open spec fn wf(&self) -> bool {
        &&& self.buf().wf_taken(self.taken_count())
        &&& !self.postponed_mode() ==> self.taken_count() == 0
    }

    /// The items as this consumer sees them, oldest first.
    pub open spec fn items(&self) -> Seq<T> {
        self.buf().view().subrange(self.taken_count() as int, self.buf().view().len() as int)
    }

    /// The capacity of the buffer.
    pub open spec fn cap(&self) -> nat {
        self.buf().cap()
    }

    /// Length of the first run of occupied places this consumer can read
    /// with one contiguous read.
    pub open spec fn occupied_run(&self) -> int {
        min(
            self.items().len() as int,
            self.cap() - (self.buf().read_end() % self.cap() + self.taken_count()) % self.cap(),
        )
    }

    /// Facts of a well-formed consumer: the counts fit the capacity, and with
    /// nothing held back the buffer holds exactly what the consumer sees.
    pub proof fn lemma_consumer(&self)
        requires
            self.wf(),
        ensures
            self.items().len() == self.buf().view().len() - self.taken_count(),
            self.items().len() <= self.cap(),
            0 < self.cap(),
            self.taken_count() == 0 ==> self.items() == self.buf().view() && self.buf().wf(),
    {
        self.buf().lemma_wf();
        self.buf().lemma_taken_none();
        if self.taken_count() == 0 {
            assert(self.items() =~= self.buf().view());
        }
    }

    /// The underlying ring buffer.
    pub fn ring_buffer(&self) -> (r: &Rb<T, C>)
        ensures
            *r == self.buf(),
    {
        self.rb
    }

    /// The items this consumer sees as two runs of slots, oldest first; the
    /// second run is empty unless the items wrap past the end of storage.
    pub fn occupied_slices(&self) -> (r: (&[Option<T>], &[Option<T>]))
        requires
            self.wf(),
        ensures
            r.0@ + r.1@ == self.items().map_values(|x: T| Some(x)),
            r.0@.len() == min(
                self.items().len() as int,
                self.cap() - (self.buf().read_end() % self.cap() + self.taken_count()) % self.cap(),
            ),
    {
        proof { self.lemma_consumer(); }
        self.rb.slices_after(self.taken)
    }

    /// Gives back the places of the taken items and the borrow of the ring buffer.
    pub fn into_ring_buffer_ref(self) -> (r: &'a mut Rb<T, C>)
        requires
            self.wf(),
        ensures
            r.wf(),
            r.view() == self.items(),
            r.cap() == self.cap(),
            r.write_end() == self.buf().write_end(),
            r.read_end() == advanced(self.buf().read_end() as int, self.taken_count() as int, self.cap() as int),
    {
        let mut this = self;
        this.sync();
        proof { this.buf().lemma_taken_none(); }
        this.rb
    }

    /// Moves the read index past the taken items: the buffer then holds
    /// exactly the items this consumer sees.
    pub fn sync(&mut self)
        requires
            old(self).wf(),
        ensures
            final(self).wf(),
            final(self).cap() == old(self).cap(),
            final(self).items() == old(self).items(),
            final(self).taken_count() == 0,
            final(self).postponed_mode() == old(self).postponed_mode(),
            final(self).buf().view() == old(self).items(),
            final(self).buf().write_end() == old(self).buf().write_end(),
            final(self).buf().read_end() == advanced(
                old(self).buf().read_end() as int,
                old(self).taken_count() as int,
                old(self).cap() as int,
            ),
    {
        self.rb.release(self.taken);
        self.taken = 0;
        proof {
            self.buf().lemma_taken_none();
            assert(self.items() =~= self.buf().view());
        }
    }

    /// Switches to postponed mode: places are given back only by `sync`,
    /// `into_immediate` or `into_ring_buffer_ref`. A postponed consumer
    /// dropped without one of these leaves the places of its taken items
    /// held: the buffer then reads them as empty slots still to be popped.
    pub fn into_postponed(self) -> (r: Self)
        requires
            self.wf(),
        ensures
            r.wf(),
            r.postponed_mode(),
            r.buf() == self.buf(),
            r.items() == self.items(),
    {
        Consumer { rb: self.rb, taken: self.taken, postponed: true }
    }

    /// Gives back the places of the taken items and switches to immediate mode.
    pub fn into_immediate(self) -> (r: Self)
        requires
            self.wf(),
        ensures
            r.wf(),
            !r.postponed_mode(),
            r.items() == self.items(),
            r.buf().view() == self.items(),
    {
        let mut this = self;
        this.sync();
        Consumer { rb: this.rb, taken: 0, postponed: false }
    }

    /// Whether the consumer is in postponed mode.
    pub fn is_postponed(&self) -> (r: bool)
        ensures
            r == self.postponed_mode(),
    {
        self.postponed
    }

    /// The capacity of the buffer.
    pub fn capacity(&self) -> (r: usize)
        requires
            self.wf(),
        ensures
            r == self.cap(),
    {
        self.rb.capacity()
    }

    /// The number of items this consumer sees.
    pub fn len(&self) -> (r: usize)
        requires
            self.wf(),
        ensures
            r == self.items().len(),
    {
        proof { self.lemma_consumer(); }
        self.rb.occupied_len() - self.taken
    }

    /// The number of vacant places, counting the places of taken items as
    /// vacant.
    pub fn remaining(&self) -> (r: usize)
        requires
            self.wf(),
        ensures
            r == self.cap() - self.items().len(),
    {
        proof { self.lemma_consumer(); }
        self.rb.capacity() - self.len()
    }

    /// Whether this consumer sees no item.
    pub fn is_empty(&self) -> (r: bool)
        requires
            self.wf(),
        ensures
            r == (self.items().len() == 0),
    {
        self.len() == 0
    }

    /// Whether this consumer sees every place occupied.
    pub fn is_full(&self) -> (r: bool)
        requires
            self.wf(),
        ensures
            r == (self.items().len() == self.cap()),
    {
        self.len() == self.rb.capacity()
    }

    /// Removes and returns the oldest item, or `None` when there is none. In
    /// immediate mode its place is given back at once.
    pub fn pop(&mut self) -> (r: Option<T>)
        requires
            old(self).wf(),
        ensures
            final(self).wf(),
            final(self).cap() == old(self).cap(),
            final(self).postponed_mode() == old(self).postponed_mode(),
            old(self).items().len() == 0 ==> r is None && final(self).items() == old(self).items()
                && final(self).buf() == old(self).buf(),
            old(self).items().len() > 0 ==> r == Some(old(self).items()[0])
                && final(self).items() == old(self).items().drop_first(),
            final(self).buf().write_end() == old(self).buf().write_end(),
            !old(self).postponed_mode() ==> final(self).buf().read_end() == advanced(old(self).buf().read_end() as int, if r is Some { 1int } else { 0int }, old(self).cap() as int),
            old(self).postponed_mode() ==> final(self).buf().read_end() == old(self).buf().read_end(),
            final(self).taken_count() == old(self).taken_count() + if r is Some && old(self).postponed_mode() {
                1int
            } else {
                0int
            },
            consumer_pop_effect(*old(self), *final(self), r),
    {
        proof {
            self.lemma_consumer();
            self.buf().lemma_wf();
        }
        if self.is_empty() {
            return None;
        }
        let ghost items0 = self.items();
        let x = self.rb.take(self.taken);
        self.taken = self.taken + 1;
        proof {
            assert(self.items() =~= items0.drop_first());
        }
        if !self.postponed {
            self.rb.release(self.taken);
            self.taken = 0;
            proof {
                self.buf().lemma_taken_none();
                assert(self.items() =~= items0.drop_first());
            }
        }
        x
    }

    /// An iterator that removes the items present now, one by one. While it
    /// runs the read index stays where it is; `finish` moves it once, past
    /// the items taken, and hands the consumer back.
    pub fn pop_iter(&mut self) -> (r: PopIterator<'_, 'a, T, C>)
        requires
            old(self).wf(),
        ensures
            r.wf(),
            r.cons().buf() == old(self).buf(),
            r.cons().items() == old(self).items(),
            r.cons().taken_count() == old(self).taken_count(),
            r.was_postponed() == old(self).postponed_mode(),
            r.initial_len() == old(self).items().len(),
            r.taken() == 0,
    {
        proof { self.lemma_consumer(); }
        let initial = self.len();
        let was_postponed = self.postponed;
        self.postponed = true;
        PopIterator { consumer: self, initial, taken: 0, was_postponed }
    }

    /// Removes and drops the `min(count, len)` oldest items; returns how many.
    pub fn skip(&mut self, count: usize) -> (r: usize)
        requires
            old(self).wf(),
        ensures
            final(self).wf(),
            final(self).cap() == old(self).cap(),
            final(self).postponed_mode() == old(self).postponed_mode(),
            r == min(count as int, old(self).items().len() as int),
            final(self).items() == old(self).items().subrange(r as int, old(self).items().len() as int),
            final(self).buf().write_end() == old(self).buf().write_end(),
            !old(self).postponed_mode() ==> final(self).buf().read_end() == advanced(old(self).buf().read_end() as int, r as int, old(self).cap() as int),
            old(self).postponed_mode() ==> final(self).buf().read_end() == old(self).buf().read_end(),
            r == 0 ==> final(self).buf() == old(self).buf(),
    {
        let len = self.len();
        let n = if count < len { count } else { len };
        proof {
            self.buf().lemma_wf();
            lemma_advanced_zero(self.buf().read_end() as int, self.cap() as int);
        }
        if n == 0 {
            return 0;
        }
        let ghost items0 = self.items();
        proof {
            old(self).buf().lemma_wf();
            lemma_advanced_zero(old(self).buf().read_end() as int, old(self).cap() as int);
        }
        let mut i: usize = 0;
        while i < n
            invariant
                self.wf(),
                self.cap() == old(self).cap(),
                self.postponed_mode() == old(self).postponed_mode(),
                self.buf().write_end() == old(self).buf().write_end(),
                !self.postponed_mode() ==> self.buf().read_end() == advanced(
                    old(self).buf().read_end() as int,
                    i as int,
                    self.cap() as int,
                ),
                self.postponed_mode() ==> self.buf().read_end() == old(self).buf().read_end(),
                items0 == old(self).items(),
                n == min(count as int, items0.len() as int),
                i <= n,
                self.items() == items0.subrange(i as int, items0.len() as int),
            decreases n - i,
        {
            let _ = self.pop();
            i = i + 1;
            proof {
                lemma_advanced_add(old(self).buf().read_end() as int, i - 1, 1, self.cap() as int);
            }
            assert(self.items() =~= items0.subrange(i as int, items0.len() as int));
        }
        n
    }

    /// Removes and drops every item; returns how many there were.
    pub fn clear(&mut self) -> (r: usize)
        requires
            old(self).wf(),
        ensures
            final(self).wf(),
            final(self).cap() == old(self).cap(),
            final(self).postponed_mode() == old(self).postponed_mode(),
            r == old(self).items().len(),
            final(self).items() == Seq::<T>::empty(),
            final(self).buf().write_end() == old(self).buf().write_end(),
            !old(self).postponed_mode() ==> final(self).buf().read_end() == advanced(old(self).buf().read_end() as int, r as int, old(self).cap() as int),
            old(self).postponed_mode() ==> final(self).buf().read_end() == old(self).buf().read_end(),
            !old(self).postponed_mode() ==> final(self).buf().read_end() == old(self).buf().write_end(),
            r == 0 ==> final(self).buf() == old(self).buf(),
    {
        proof {
            self.lemma_consumer();
            self.buf().lemma_wf();
        }
        let n = self.len();
        let r = self.skip(n);
        assert(self.items() =~= Seq::<T>::empty());
        r
    }

    /// Moves the oldest items (at most `count`, when given) to `producer`,
    /// as far as it has room; returns how many moved.
    pub fn transfer_to<D: Counter>(&mut self, producer: &mut Producer<'_, T, D>, count: Option<usize>) -> (r: usize)
        requires
            old(self).wf(),
            old(producer).wf(),
        ensures
            final(self).wf(),
            final(producer).wf(),
            final(self).cap() == old(self).cap(),
            final(self).postponed_mode() == old(self).postponed_mode(),
            final(producer).cap() == old(producer).cap(),
            final(producer).postponed_mode() == old(producer).postponed_mode(),
            r == transfer_count(old(self).items().len() as int, old(producer).cap() - old(producer).items().len(), count),
            final(producer).items() == old(producer).items() + old(self).items().subrange(0, r as int),
            final(self).items() == old(self).items().subrange(r as int, old(self).items().len() as int),
            final(self).buf().write_end() == old(self).buf().write_end(),
            !old(self).postponed_mode() ==> final(self).buf().read_end() == advanced(old(self).buf().read_end() as int, r as int, old(self).cap() as int),
            old(self).postponed_mode() ==> final(self).buf().read_end() == old(self).buf().read_end(),
            final(producer).buf().read_end() == old(producer).buf().read_end(),
            !old(producer).postponed_mode() ==> final(producer).buf().write_end() == advanced(
                old(producer).buf().write_end() as int,
                r as int,
                old(producer).cap() as int,
            ),
            old(producer).postponed_mode() ==> final(producer).buf().write_end() == old(producer).buf().write_end(),
    {
        producer.transfer_from(self, count)
    }
}

impl<'a, T: Copy, C: Counter> Consumer<'a, T, C> {
    /// Moves the `min(elems.len(), len)` oldest items into the front of
    /// `elems`; returns how many.
    pub fn pop_slice(&mut self, elems: &mut [T]) -> (r: usize)
        requires
            old(self).wf(),
        ensures
            final(self).wf(),
            final(self).cap() == old(self).cap(),
            final(self).postponed_mode() == old(self).postponed_mode(),
            r == min(old(elems)@.len() as int, old(self).items().len() as int),
            final(elems)@ == old(self).items().subrange(0, r as int) + old(elems)@.subrange(
                r as int,
                old(elems)@.len() as int,
            ),
            final(self).items() == old(self).items().subrange(r as int, old(self).items().len() as int),
            final(self).buf().write_end() == old(self).buf().write_end(),
            !old(self).postponed_mode() ==> final(self).buf().read_end() == advanced(old(self).buf().read_end() as int, r as int, old(self).cap() as int),
            old(self).postponed_mode() ==> final(self).buf().read_end() == old(self).buf().read_end(),
    {
        let len = self.len();
        let n = if elems.len() < len { elems.len() } else { len };
        let ghost items0 = self.items();
        let ghost elems0 = elems@;
        proof {
            old(self).buf().lemma_wf();
            lemma_advanced_zero(old(self).buf().read_end() as int, old(self).cap() as int);
        }
        let mut i: usize = 0;
        while i < n
            invariant
                self.wf(),
                self.cap() == old(self).cap(),
                self.postponed_mode() == old(self).postponed_mode(),
                self.buf().write_end() == old(self).buf().write_end(),
                !self.postponed_mode() ==> self.buf().read_end() == advanced(
                    old(self).buf().read_end() as int,
                    i as int,
                    self.cap() as int,
                ),
                self.postponed_mode() ==> self.buf().read_end() == old(self).buf().read_end(),
                items0 == old(self).items(),
                elems0 == old(elems)@,
                elems@.len() == elems0.len(),
                n == min(elems0.len() as int, items0.len() as int),
                i <= n,
                self.items() == items0.subrange(i as int, items0.len() as int),
                elems@ == items0.subrange(0, i as int) + elems0.subrange(i as int, elems0.len() as int),
            decreases n - i,
        {
            let item = self.pop();
            match item {
                Some(x) => {
                    elems[i] = x;
                },
                None => {},
            }
            i = i + 1;
            proof {
                lemma_advanced_add(old(self).buf().read_end() as int, i - 1, 1, self.cap() as int);
            }
            assert(self.items() =~= items0.subrange(i as int, items0.len() as int));
            assert(elems@ =~= items0.subrange(0, i as int) + elems0.subrange(i as int, elems0.len() as int));
        }
        n
    }

    /// The largest number of items that one `write_into` can take now (at
    /// most `count`, when given): the first contiguous run of occupied places.
    pub fn write_limit(&self, count: Option<usize>) -> (r: usize)
        requires
            self.wf(),
        ensures
            r == capped(self.occupied_run(), count),
    {
        proof {
            self.lemma_consumer();
            vstd::arithmetic::div_mod::lemma_mod_bound(
                self.buf().read_end() as int % self.cap() as int + self.taken_count() as int,
                self.cap() as int,
            );
        }
        let cap = self.rb.capacity();
        let start = (self.rb.read_index() % cap + self.taken) % cap;
        let room = cap - start;
        let len = self.len();
        let run = if len < room { len } else { room };
        match count {
            Some(c) => if c < run { c } else { run },
            None => run,
        }
    }

    /// Appends to `sink` the items of at most one contiguous run of occupied
    /// places (at most `count`, when given), removing them; returns how many.
    pub fn write_into(&mut self, sink: &mut Vec<T>, count: Option<usize>) -> (r: usize)
        requires
            old(self).wf(),
        ensures
            final(self).wf(),
            final(self).cap() == old(self).cap(),
            final(self).postponed_mode() == old(self).postponed_mode(),
            r == capped(old(self).occupied_run(), count),
            final(sink)@ == old(sink)@ + old(self).items().subrange(0, r as int),
            final(self).items() == old(self).items().subrange(r as int, old(self).items().len() as int),
            final(self).buf().write_end() == old(self).buf().write_end(),
            !old(self).postponed_mode() ==> final(self).buf().read_end() == advanced(old(self).buf().read_end() as int, r as int, old(self).cap() as int),
            old(self).postponed_mode() ==> final(self).buf().read_end() == old(self).buf().read_end(),
    {
        let n = self.write_limit(count);
        let ghost items0 = self.items();
        let ghost sink0 = sink@;
        proof {
            old(self).buf().lemma_wf();
            lemma_advanced_zero(old(self).buf().read_end() as int, old(self).cap() as int);
        }
        let mut i: usize = 0;
        while i < n
            invariant
                self.wf(),
                self.cap() == old(self).cap(),
                self.postponed_mode() == old(self).postponed_mode(),
                self.buf().write_end() == old(self).buf().write_end(),
                !self.postponed_mode() ==> self.buf().read_end() == advanced(
                    old(self).buf().read_end() as int,
                    i as int,
                    self.cap() as int,
                ),
                self.postponed_mode() ==> self.buf().read_end() == old(self).buf().read_end(),
                items0 == old(self).items(),
                sink0 == old(sink)@,
                n <= items0.len(),
                i <= n,
                self.items() == items0.subrange(i as int, items0.len() as int),
                sink@ == sink0 + items0.subrange(0, i as int),
            decreases n - i,
        {
            let item = self.pop();
            match item {
                Some(x) => {
                    sink.push(x);
                },
                None => {},
            }
            i = i + 1;
            proof {
                lemma_advanced_add(old(self).buf().read_end() as int, i - 1, 1, self.cap() as int);
            }
            assert(self.items() =~= items0.subrange(i as int, items0.len() as int));
            assert(sink@ =~= sink0 + items0.subrange(0, i as int));
        }
        n
    }
}

/// Iterator that removes items through a consumer as it goes; it yields at
/// most the items present when it was made. The places of the items it
/// takes are given back by `finish`, all at once.
pub struct PopIterator<'b, 'a, T, C: Counter> {
    consumer: &'b mut Consumer<'a, T, C>,
    initial: usize,
    taken: usize,
    was_postponed: bool,
}

impl<'b, 'a, T, C: Counter> PopIterator<'b, 'a, T, C> {
    /// The consumer, as it stands now.
    pub closed spec fn cons(&self) -> Consumer<'a, T, C> {
        *self.consumer
    }

    /// The number of items present when the iterator was made.
    pub closed spec fn initial_len(&self) -> nat {
        self.initial as nat
    }

    /// The number of items taken so far.
    pub closed spec fn taken(&self) -> nat {
        self.taken as nat
    }

    /// Whether the consumer was in postponed mode before the iteration.
    pub closed spec fn was_postponed(&self) -> bool {
        self.was_postponed
    }

    /// The consumer holds back the places of what was taken; when it was in
    /// immediate mode, those are exactly the items this iterator took.
    pub open spec fn wf(&self) -> bool {
        &&& self.cons().wf()
        &&& self.cons().postponed_mode()
        &&& self.taken() <= self.initial_len()
        &&& !self.was_postponed() ==> self.cons().taken_count() == self.taken()
    }

    /// How many items the iterator may still yield.
    pub fn len(&self) -> (r: usize)
        requires
            self.wf(),
        ensures
            r == self.initial_len() - self.taken(),
    {
        self.initial - self.taken
    }

    /// Removes and returns the oldest item, unless all the items present at
    /// creation have been taken or none is left. Neither index moves.
    pub fn next(&mut self) -> (r: Option<T>)
        requires
            old(self).wf(),
        ensures
            final(self).wf(),
            final(self).cons().cap() == old(self).cons().cap(),
            final(self).initial_len() == old(self).initial_len(),
            final(self).was_postponed() == old(self).was_postponed(),
            final(self).cons().buf().read_end() == old(self).cons().buf().read_end(),
            final(self).cons().buf().write_end() == old(self).cons().buf().write_end(),
            old(self).taken() == old(self).initial_len() || old(self).cons().items().len() == 0 ==> r is None
                && final(self).cons().items() == old(self).cons().items() && final(self).taken() == old(self).taken(),
            old(self).taken() < old(self).initial_len() && old(self).cons().items().len() > 0 ==> r == Some(
                old(self).cons().items()[0],
            ) && final(self).cons().items() == old(self).cons().items().drop_first() && final(self).taken()
                == old(self).taken() + 1,
    {
        if self.taken == self.initial {
            return None;
        }
        let r = self.consumer.pop();
        if r.is_some() {
            self.taken = self.taken + 1;
        }
        r
    }

    /// Ends the iteration and hands the consumer back in its former mode. In
    /// immediate mode the read index moves now, once, past the items taken.
    pub fn finish(self) -> (r: &'b mut Consumer<'a, T, C>)
        requires
            self.wf(),
        ensures
            r.wf(),
            r.cap() == self.cons().cap(),
            r.postponed_mode() == self.was_postponed(),
            r.items() == self.cons().items(),
            r.buf().write_end() == self.cons().buf().write_end(),
            self.was_postponed() ==> r.buf() == self.cons().buf(),
            !self.was_postponed() ==> r.taken_count() == 0 && r.buf().read_end() == advanced(
                self.cons().buf().read_end() as int,
                self.taken() as int,
                self.cons().cap() as int,
            ),
    {
        let consumer = self.consumer;
        if !self.was_postponed {
            consumer.sync();
            consumer.postponed = false;
        }
        consumer
    }
}

} // verus!
