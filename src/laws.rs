//! Properties that hold over every sequence of operations on a buffer.

use vstd::prelude::*;
use crate::index::{advanced, offset, occupied};
use crate::local::{clear_effect, pop_effect, push_effect, Rb};
use crate::counter::Counter;
use crate::consumer::Consumer;
use crate::producer::Producer;

verus! {

/// The record of a run of operations: every item accepted by a push, in
/// order, is either popped already or still in the buffer, oldest first.
pub open spec fn history_holds<T, C: Counter>(rb: Rb<T, C>, pushed: Seq<T>, popped: Seq<T>) -> bool {
    pushed == popped + rb.view()
}

/// A fresh buffer starts a valid record: nothing pushed, nothing popped.
pub proof fn lemma_history_start<T, C: Counter>(rb: Rb<T, C>)
    requires
        rb.view() == Seq::<T>::empty(),
    ensures
        history_holds(rb, Seq::<T>::empty(), Seq::<T>::empty()),
{
    assert(Seq::<T>::empty() + rb.view() =~= Seq::<T>::empty());
}

/// A push keeps the record: an accepted item joins the pushed items, a
/// refused one changes nothing.
pub proof fn lemma_history_push<T, C: Counter>(
    before: Rb<T, C>,
    after: Rb<T, C>,
    item: T,
    r: Result<(), T>,
    pushed: Seq<T>,
    popped: Seq<T>,
)
    requires
        history_holds(before, pushed, popped),
        push_effect(before, after, item, r),
    ensures
        r is Ok ==> history_holds(after, pushed.push(item), popped),
        r is Err ==> history_holds(after, pushed, popped),
{
    if r is Ok {
        assert(pushed.push(item) =~= popped + after.view());
    }
}

/// A pop keeps the record: the item it gives joins the popped items.
pub proof fn lemma_history_pop<T, C: Counter>(before: Rb<T, C>, after: Rb<T, C>, r: Option<T>, pushed: Seq<T>, popped: Seq<T>)
    requires
        history_holds(before, pushed, popped),
        pop_effect(before, after, r),
    ensures
        r is Some ==> history_holds(after, pushed, popped.push(r->Some_0)),
        r is None ==> history_holds(after, pushed, popped),
{
    if r is Some {
        assert(before.view() =~= seq![before.view()[0]] + before.view().drop_first());
        assert(pushed =~= popped.push(r->Some_0) + after.view());
    }
}

/// First in, first out: under a valid record the popped items are the first
/// items pushed, in the same order, and the count of pushed items minus the
/// count of popped ones is the number of items in the buffer, which lies
/// between zero and the capacity.
pub proof fn lemma_fifo<T, C: Counter>(rb: Rb<T, C>, pushed: Seq<T>, popped: Seq<T>)
    requires
        rb.wf(),
        history_holds(rb, pushed, popped),
    ensures
        popped == pushed.subrange(0, popped.len() as int),
        pushed.len() - popped.len() == rb.view().len(),
        0 <= rb.view().len() <= rb.cap(),
{
    rb.lemma_wf();
    assert(popped =~= pushed.subrange(0, popped.len() as int));
}

/// Clearing twice: the first clear leaves the buffer empty and the second
/// one removes nothing.
pub proof fn lemma_clear_twice<T, C: Counter>(rb0: Rb<T, C>, rb1: Rb<T, C>, rb2: Rb<T, C>, first: usize, second: usize)
    requires
        clear_effect(rb0, rb1, first),
        clear_effect(rb1, rb2, second),
    ensures
        rb1.view().len() == 0,
        second == 0,
        rb2.view() == rb1.view(),
{
}

/// Indices wrap from `2 * capacity - 1` to zero, and the index zero and the
/// index `2 * capacity` name the same storage offsets, so wrapping changes
/// no place.
pub proof fn lemma_index_wraps(cap: int, k: int)
    requires
        0 < cap,
        0 <= k,
    ensures
        advanced(2 * cap - 1, 1, cap) == 0,
        offset(2 * cap, k, cap) == offset(0, k, cap),
        forall|r: int| 0 <= r < 2 * cap ==> #[trigger] occupied(r, r, cap) == 0,
{
    vstd::arithmetic::div_mod::lemma_mod_self_0(2 * cap);
    vstd::arithmetic::div_mod::lemma_mod_add_multiples_vanish(k, cap);
    vstd::arithmetic::div_mod::lemma_mod_add_multiples_vanish(cap + k, cap);
    assert forall|r: int| 0 <= r < 2 * cap implies #[trigger] occupied(r, r, cap) == 0 by {
        vstd::arithmetic::div_mod::lemma_mod_self_0(2 * cap);
    }
}

/// What `Producer::push(item)` does to what the producer sees.
pub open spec fn producer_push_effect<T, C: Counter>(
    before: Producer<'_, T, C>,
    after: Producer<'_, T, C>,
    item: T,
    r: Result<(), T>,
) -> bool {
    &&& after.wf()
    &&& if before.items().len() == before.cap() {
        r == Err::<(), T>(item) && after.items() == before.items()
    } else {
        r is Ok && after.items() == before.items().push(item)
    }
}

/// What `Consumer::pop()` does to what the consumer sees.
pub open spec fn consumer_pop_effect<T, C: Counter>(before: Consumer<'_, T, C>, after: Consumer<'_, T, C>, r: Option<T>) -> bool {
    &&& after.wf()
    &&& if before.items().len() == 0 {
        r is None && after.items() == before.items()
    } else {
        r == Some(before.items()[0]) && after.items() == before.items().drop_first()
    }
}

/// A push through the producer keeps the record over what it sees.
pub proof fn lemma_history_producer_push<T, C: Counter>(
    before: Producer<'_, T, C>,
    after: Producer<'_, T, C>,
    item: T,
    r: Result<(), T>,
    pushed: Seq<T>,
    popped: Seq<T>,
)
    requires
        pushed == popped + before.items(),
        producer_push_effect(before, after, item, r),
    ensures
        r is Ok ==> pushed.push(item) == popped + after.items(),
        r is Err ==> pushed == popped + after.items(),
{
    if r is Ok {
        assert(pushed.push(item) =~= popped + after.items());
    }
}

/// First in, first out at the consumer: under a record of what was pushed
/// and popped, each pop gives the next pushed item, so the popped items stay
/// a prefix of the pushed ones.
pub proof fn lemma_history_consumer_pop<T, C: Counter>(
    before: Consumer<'_, T, C>,
    after: Consumer<'_, T, C>,
    r: Option<T>,
    pushed: Seq<T>,
    popped: Seq<T>,
)
    requires
        pushed == popped + before.items(),
        consumer_pop_effect(before, after, r),
    ensures
        r is Some ==> pushed == popped.push(r->Some_0) + after.items(),
        r is None ==> pushed == popped + after.items(),
        r is Some ==> popped.push(r->Some_0) == pushed.subrange(0, popped.len() + 1int),
        r is None ==> popped == pushed.subrange(0, popped.len() as int),
{
    if r is Some {
        assert(before.items() =~= seq![before.items()[0]] + before.items().drop_first());
        assert(pushed =~= popped.push(r->Some_0) + after.items());
        assert(popped.push(r->Some_0) =~= pushed.subrange(0, popped.len() + 1int));
    } else {
        assert(popped =~= pushed.subrange(0, popped.len() as int));
    }
}

} // verus!
