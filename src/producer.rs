//! The producer endpoint: the one holder of the right to advance the write
//! index. In immediate mode each operation publishes its items at once; in
//! postponed mode items are staged in the buffer's storage and published
//! only by `sync`, by switching back to immediate mode, or when the borrow of
//! the buffer is given back.

use vstd::prelude::*;
use crate::consumer::Consumer;
use crate::counter::Counter;
use crate::index::{advanced, lemma_advanced_add, lemma_advanced_zero};
use crate::laws::producer_push_effect;
use crate::local::{capped, min, transfer_count, Rb};
use std::collections::VecDeque;

verus! {

/// Producer part of a ring buffer: it appends items and moves the write index.
pub struct Producer<'a, T, C: Counter> {
    rb: &'a mut Rb<T, C>,
    pending: usize,
    postponed: bool,
}

impl<'a, T, C: Counter> Rb<T, C> {
    /// Borrows the buffer as its producer, in immediate mode.
    pub fn producer(&'a mut self) -> (r: Producer<'a, T, C>)
        requires
            old(self).wf(),
        ensures
            r.wf(),
            r.buf() == *old(self),
            r.items() == old(self).view(),
            r.pending_count() == 0,
            !r.postponed_mode(),
    {
        proof { self.lemma_staged(0); }
        let r = Producer { rb: self, pending: 0, postponed: false };
        proof {
            assert(r.items() =~= r.buf().view());
        }
        r
    }
}

impl<'a, T, C: Counter> Producer<'a, T, C> {
    /// The buffer, as it stands now: published items only.
    pub closed spec fn buf(&self) -> Rb<T, C> {
        *self.rb
    }

    /// Number of items staged and not yet published.
    pub closed spec fn pending_count(&self) -> nat {
        self.pending as nat
    }

    /// Whether publishing waits for `sync`.
    pub closed spec fn postponed_mode(&self) -> bool {
        self.postponed
    }

    /// The buffer holds the staged items past its write index; in immediate
    /// mode nothing is staged.
    pub open spec fn wf(&self) -> bool {
        &&& self.buf().wf_pending(self.pending_count())
        &&& !self.postponed_mode() ==> self.pending_count() == 0
    }

    /// The items as this producer sees them: published ones, then staged ones.
    pub open spec fn items(&self) -> Seq<T> {
        self.buf().view() + self.buf().staged(self.pending_count())
    }

    /// The capacity of the buffer.
    pub open spec fn cap(&self) -> nat {
        self.buf().cap()
    }

    /// Length of the first run of places this producer can fill with one
    /// contiguous write.
    pub open spec fn vacant_run(&self) -> int {
        min(
            self.cap() - self.items().len(),
            self.cap() - (self.buf().write_end() % self.cap() + self.pending_count()) % self.cap(),
        )
    }

    /// Facts of a well-formed producer: the counts fit the capacity, and in
    /// immediate mode the buffer holds exactly what the producer sees.
    pub proof fn lemma_producer(&self)
        requires
            self.wf(),
        ensures
            self.items().len() == self.buf().view().len() + self.pending_count(),
            self.items().len() <= self.cap(),
            0 < self.cap(),
            self.pending_count() == 0 ==> self.items() == self.buf().view(),
    {
        self.buf().lemma_wf();
        self.buf().lemma_staged(self.pending_count());
        if self.pending_count() == 0 {
            assert(self.items() =~= self.buf().view());
        }
    }

    /// The underlying ring buffer, with the published items only.
    pub fn ring_buffer(&self) -> (r: &Rb<T, C>)
        ensures
            *r == self.buf(),
    {
        self.rb
    }

    /// Publishes what is staged and gives back the borrow of the ring buffer.
    pub fn into_ring_buffer_ref(self) -> (r: &'a mut Rb<T, C>)
        requires
            self.wf(),
        ensures
            r.wf(),
            r.view() == self.items(),
            r.cap() == self.cap(),
            r.read_end() == self.buf().read_end(),
            r.write_end() == advanced(self.buf().write_end() as int, self.pending_count() as int, self.cap() as int),
    {
        let mut this = self;
        this.sync();
        this.rb
    }

    /// Publishes the staged items: the buffer then holds all the items this
    /// producer sees.
    pub fn sync(&mut self)
        requires
            old(self).wf(),
        ensures
            final(self).wf(),
            final(self).cap() == old(self).cap(),
            final(self).items() == old(self).items(),
            final(self).pending_count() == 0,
            final(self).postponed_mode() == old(self).postponed_mode(),
            final(self).buf().view() == old(self).items(),
            final(self).buf().read_end() == old(self).buf().read_end(),
            final(self).buf().write_end() == advanced(
                old(self).buf().write_end() as int,
                old(self).pending_count() as int,
                old(self).cap() as int,
            ),
    {
        self.rb.publish(self.pending);
        self.pending = 0;
        proof {
            self.buf().lemma_staged(0);
            assert(self.items() =~= self.buf().view());
        }
    }

    /// Switches to postponed mode: items are published only by `sync`,
    /// `into_immediate` or `into_ring_buffer_ref`. A postponed producer
    /// dropped without one of these leaves its staged items unpublished; each
    /// is dropped when its slot is filled again or the buffer is dropped.
    pub fn into_postponed(self) -> (r: Self)
        requires
            self.wf(),
        ensures
            r.wf(),
            r.postponed_mode(),
            r.buf() == self.buf(),
            r.items() == self.items(),
    {
        Producer { rb: self.rb, pending: self.pending, postponed: true }
    }

    /// Publishes what is staged and switches to immediate mode.
    pub fn into_immediate(self) -> (r: Self)
        requires
            self.wf(),
        ensures
            r.wf(),
            !r.postponed_mode(),
            r.items() == self.items(),
            r.buf().view() == self.items(),
    {
        let mut this = self;
        this.sync();
        Producer { rb: this.rb, pending: 0, postponed: false }
    }

    /// Whether the producer is in postponed mode.
    pub fn is_postponed(&self) -> (r: bool)
        ensures
            r == self.postponed_mode(),
    {
        self.postponed
    }

    /// The capacity of the buffer.
    pub fn capacity(&self) -> (r: usize)
        requires
            self.wf(),
        ensures
            r == self.cap(),
    {
        self.rb.capacity()
    }

    /// The number of items this producer sees in the buffer.
    pub fn len(&self) -> (r: usize)
        requires
            self.wf(),
        ensures
            r == self.items().len(),
    {
        proof { self.lemma_producer(); }
        self.rb.occupied_len() + self.pending
    }

    /// The number of places this producer can still fill.
    pub fn remaining(&self) -> (r: usize)
        requires
            self.wf(),
        ensures
            r == self.cap() - self.items().len(),
    {
        proof { self.lemma_producer(); }
        self.rb.capacity() - self.len()
    }

    /// Whether this producer sees no item.
    pub fn is_empty(&self) -> (r: bool)
        requires
            self.wf(),
        ensures
            r == (self.items().len() == 0),
    {
        self.len() == 0
    }

    /// Whether this producer sees every place occupied.
    pub fn is_full(&self) -> (r: bool)
        requires
            self.wf(),
        ensures
            r == (self.items().len() == self.cap()),
    {
        self.len() == self.rb.capacity()
    }

    /// Appends `elem`; when the buffer is full, hands it back unchanged. In
    /// immediate mode the item is published at once.
    pub fn push(&mut self, elem: T) -> (r: Result<(), T>)
        requires
            old(self).wf(),
        ensures
            final(self).wf(),
            final(self).cap() == old(self).cap(),
            final(self).postponed_mode() == old(self).postponed_mode(),
            old(self).items().len() == old(self).cap() ==> r == Err::<(), T>(elem)
                && final(self).items() == old(self).items() && final(self).buf() == old(self).buf(),
            old(self).items().len() < old(self).cap() ==> r is Ok
                && final(self).items() == old(self).items().push(elem),
            final(self).buf().read_end() == old(self).buf().read_end(),
            !old(self).postponed_mode() ==> final(self).buf().write_end() == advanced(old(self).buf().write_end() as int, if r is Ok { 1int } else { 0int }, old(self).cap() as int),
            old(self).postponed_mode() ==> final(self).buf().write_end() == old(self).buf().write_end(),
            producer_push_effect(*old(self), *final(self), elem, r),
    {
        proof {
            self.lemma_producer();
            self.buf().lemma_wf();
            lemma_advanced_zero(self.buf().write_end() as int, self.cap() as int);
        }
        if self.is_full() {
            return Err(elem);
        }
        let ghost items0 = self.items();
        self.rb.stage(self.pending, elem);
        self.pending = self.pending + 1;
        proof {
            assert(self.items() =~= items0.push(elem));
        }
        if !self.postponed {
            self.rb.publish(self.pending);
            self.pending = 0;
            proof {
                self.buf().lemma_staged(0);
                assert(self.items() =~= items0.push(elem));
            }
        }
        Ok(())
    }

    /// Moves items from the front of `iter` into the buffer until it is full
    /// or `iter` is empty; returns how many moved.
    pub fn push_iter(&mut self, iter: &mut VecDeque<T>) -> (r: usize)
        requires
            old(self).wf(),
        ensures
            final(self).wf(),
            final(self).cap() == old(self).cap(),
            final(self).postponed_mode() == old(self).postponed_mode(),
            r == min(old(iter)@.len() as int, old(self).cap() - old(self).items().len()),
            final(self).items() == old(self).items() + old(iter)@.subrange(0, r as int),
            final(iter)@ == old(iter)@.subrange(r as int, old(iter)@.len() as int),
            final(self).buf().read_end() == old(self).buf().read_end(),
            !old(self).postponed_mode() ==> final(self).buf().write_end() == advanced(old(self).buf().write_end() as int, r as int, old(self).cap() as int),
            old(self).postponed_mode() ==> final(self).buf().write_end() == old(self).buf().write_end(),
    {
        proof { self.lemma_producer(); }
        let room = self.remaining();
        let n = if iter.len() < room { iter.len() } else { room };
        let ghost items0 = self.items();
        let ghost iter0 = iter@;
        proof {
            old(self).buf().lemma_wf();
            lemma_advanced_zero(old(self).buf().write_end() as int, old(self).cap() as int);
        }
        let mut i: usize = 0;
        while i < n
            invariant
                self.wf(),
                self.cap() == old(self).cap(),
                self.postponed_mode() == old(self).postponed_mode(),
                self.buf().read_end() == old(self).buf().read_end(),
                !self.postponed_mode() ==> self.buf().write_end() == advanced(
                    old(self).buf().write_end() as int,
                    i as int,
                    self.cap() as int,
                ),
                self.postponed_mode() ==> self.buf().write_end() == old(self).buf().write_end(),
                items0 == old(self).items(),
                iter0 == old(iter)@,
                n == min(iter0.len() as int, self.cap() - items0.len()),
                i <= n,
                self.items() == items0 + iter0.subrange(0, i as int),
                iter@ == iter0.subrange(i as int, iter0.len() as int),
            decreases n - i,
        {
            let item = iter.pop_front();
            match item {
                Some(x) => {
                    let _ = self.push(x);
                },
                None => {},
            }
            i = i + 1;
            proof {
                lemma_advanced_add(old(self).buf().write_end() as int, i - 1, 1, self.cap() as int);
            }
            assert(self.items() =~= items0 + iter0.subrange(0, i as int));
            assert(iter@ =~= iter0.subrange(i as int, iter0.len() as int));
        }
        n
    }

    /// Moves the oldest items of `consumer`'s buffer (at most `count`, when
    /// given) into this buffer; returns how many moved.
    pub fn transfer_from<D: Counter>(&mut self, consumer: &mut Consumer<'_, T, D>, count: Option<usize>) -> (r: usize)
        requires
            old(self).wf(),
            old(consumer).wf(),
        ensures
            final(self).wf(),
            final(consumer).wf(),
            final(self).cap() == old(self).cap(),
            final(self).postponed_mode() == old(self).postponed_mode(),
            final(consumer).cap() == old(consumer).cap(),
            final(consumer).postponed_mode() == old(consumer).postponed_mode(),
            r == transfer_count(old(consumer).items().len() as int, old(self).cap() - old(self).items().len(), count),
            final(self).items() == old(self).items() + old(consumer).items().subrange(0, r as int),
            final(consumer).items() == old(consumer).items().subrange(r as int, old(consumer).items().len() as int),
            final(self).buf().read_end() == old(self).buf().read_end(),
            !old(self).postponed_mode() ==> final(self).buf().write_end() == advanced(old(self).buf().write_end() as int, r as int, old(self).cap() as int),
            old(self).postponed_mode() ==> final(self).buf().write_end() == old(self).buf().write_end(),
            final(consumer).buf().write_end() == old(consumer).buf().write_end(),
            !old(consumer).postponed_mode() ==> final(consumer).buf().read_end() == advanced(
                old(consumer).buf().read_end() as int,
                r as int,
                old(consumer).cap() as int,
            ),
            old(consumer).postponed_mode() ==> final(consumer).buf().read_end() == old(consumer).buf().read_end(),
    {
        proof { self.lemma_producer(); }
        let a = consumer.len();
        let b = self.remaining();
        let mut n = if a < b { a } else { b };
        match count {
            Some(c) => {
                if c < n {
                    n = c;
                }
            },
            None => {},
        }
        let ghost items0 = self.items();
        let ghost src0 = consumer.items();
        proof {
            old(consumer).buf().lemma_wf();
            lemma_advanced_zero(old(consumer).buf().read_end() as int, old(consumer).cap() as int);
        }
        proof {
            old(self).buf().lemma_wf();
            lemma_advanced_zero(old(self).buf().write_end() as int, old(self).cap() as int);
        }
        let mut i: usize = 0;
        while i < n
            invariant
                self.wf(),
                consumer.wf(),
                self.cap() == old(self).cap(),
                self.postponed_mode() == old(self).postponed_mode(),
                self.buf().read_end() == old(self).buf().read_end(),
                !self.postponed_mode() ==> self.buf().write_end() == advanced(
                    old(self).buf().write_end() as int,
                    i as int,
                    self.cap() as int,
                ),
                self.postponed_mode() ==> self.buf().write_end() == old(self).buf().write_end(),
                consumer.buf().write_end() == old(consumer).buf().write_end(),
                !consumer.postponed_mode() ==> consumer.buf().read_end() == advanced(
                    old(consumer).buf().read_end() as int,
                    i as int,
                    consumer.cap() as int,
                ),
                consumer.postponed_mode() ==> consumer.buf().read_end() == old(consumer).buf().read_end(),
                consumer.cap() == old(consumer).cap(),
                consumer.postponed_mode() == old(consumer).postponed_mode(),
                items0 == old(self).items(),
                src0 == old(consumer).items(),
                n == transfer_count(src0.len() as int, self.cap() - items0.len(), count),
                i <= n,
                self.items() == items0 + src0.subrange(0, i as int),
                consumer.items() == src0.subrange(i as int, src0.len() as int),
            decreases n - i,
        {
            let item = consumer.pop();
            match item {
                Some(x) => {
                    let _ = self.push(x);
                },
                None => {},
            }
            i = i + 1;
            proof {
                lemma_advanced_add(old(consumer).buf().read_end() as int, i - 1, 1, consumer.cap() as int);
                lemma_advanced_add(old(self).buf().write_end() as int, i - 1, 1, self.cap() as int);
            }
            assert(self.items() =~= items0 + src0.subrange(0, i as int));
            assert(consumer.items() =~= src0.subrange(i as int, src0.len() as int));
        }
        n
    }
}

impl<'a, T: Copy, C: Counter> Producer<'a, T, C> {
    /// Copies the longest prefix of `elems` that fits; returns its length.
    pub fn push_slice(&mut self, elems: &[T]) -> (r: usize)
        requires
            old(self).wf(),
        ensures
            final(self).wf(),
            final(self).cap() == old(self).cap(),
            final(self).postponed_mode() == old(self).postponed_mode(),
            r == min(elems@.len() as int, old(self).cap() - old(self).items().len()),
            final(self).items() == old(self).items() + elems@.subrange(0, r as int),
            final(self).buf().read_end() == old(self).buf().read_end(),
            !old(self).postponed_mode() ==> final(self).buf().write_end() == advanced(old(self).buf().write_end() as int, r as int, old(self).cap() as int),
            old(self).postponed_mode() ==> final(self).buf().write_end() == old(self).buf().write_end(),
    {
        proof { self.lemma_producer(); }
        let room = self.remaining();
        let n = if elems.len() < room { elems.len() } else { room };
        let ghost items0 = self.items();
        proof {
            old(self).buf().lemma_wf();
            lemma_advanced_zero(old(self).buf().write_end() as int, old(self).cap() as int);
        }
        let mut i: usize = 0;
        while i < n
            invariant
                self.wf(),
                self.cap() == old(self).cap(),
                self.postponed_mode() == old(self).postponed_mode(),
                self.buf().read_end() == old(self).buf().read_end(),
                !self.postponed_mode() ==> self.buf().write_end() == advanced(
                    old(self).buf().write_end() as int,
                    i as int,
                    self.cap() as int,
                ),
                self.postponed_mode() ==> self.buf().write_end() == old(self).buf().write_end(),
                items0 == old(self).items(),
                n == min(elems@.len() as int, self.cap() - items0.len()),
                i <= n,
                self.items() == items0 + elems@.subrange(0, i as int),
            decreases n - i,
        {
            let _ = self.push(elems[i]);
            i = i + 1;
            proof {
                lemma_advanced_add(old(self).buf().write_end() as int, i - 1, 1, self.cap() as int);
            }
            assert(self.items() =~= items0 + elems@.subrange(0, i as int));
        }
        n
    }

    /// The largest number of items that one `read_from` can take now (at most
    /// `count`, when given): the first contiguous run of vacant places.
    pub fn read_limit(&self, count: Option<usize>) -> (r: usize)
        requires
            self.wf(),
        ensures
            r == capped(self.vacant_run(), count),
    {
        proof {
            self.lemma_producer();
            vstd::arithmetic::div_mod::lemma_mod_bound(
                self.buf().write_end() as int % self.cap() as int + self.pending_count() as int,
                self.cap() as int,
            );
        }
        let cap = self.rb.capacity();
        let start = (self.rb.write_index() % cap + self.pending) % cap;
        let room = cap - start;
        let vacant = self.remaining();
        let run = if vacant < room { vacant } else { room };
        match count {
            Some(c) => if c < run { c } else { run },
            None => run,
        }
    }

    /// Takes from the front of `source` at most one contiguous run of vacant
    /// places (and at most `count` items, when given); returns how many.
    pub fn read_from(&mut self, source: &[T], count: Option<usize>) -> (r: usize)
        requires
            old(self).wf(),
        ensures
            final(self).wf(),
            final(self).cap() == old(self).cap(),
            final(self).postponed_mode() == old(self).postponed_mode(),
            r == min(capped(old(self).vacant_run(), count), source@.len() as int),
            final(self).items() == old(self).items() + source@.subrange(0, r as int),
            final(self).buf().read_end() == old(self).buf().read_end(),
            !old(self).postponed_mode() ==> final(self).buf().write_end() == advanced(old(self).buf().write_end() as int, r as int, old(self).cap() as int),
            old(self).postponed_mode() ==> final(self).buf().write_end() == old(self).buf().write_end(),
    {
        let limit = self.read_limit(count);
        let n = if source.len() < limit { source.len() } else { limit };
        let part = &source[0..n];
        proof { self.lemma_producer(); }
        let r = self.push_slice(part);
        assert(part@ =~= source@.subrange(0, n as int));
        r
    }
}

} // verus!
