use ringbuf::local::{LocalRb, SharedRb};
use ringbuf::observer::Observer;
use ringbuf::storage::Storage;
use std::cell::Cell;
use std::collections::VecDeque;
use std::rc::Rc;

fn contents<T: Copy>(rb: &LocalRb<T>) -> Vec<T> {
    let (a, b) = rb.occupied_slices();
    a.iter().chain(b.iter()).map(|x| x.unwrap()).collect()
}

#[test]
fn capacity_one_push_pop_push() {
    let mut rb = LocalRb::<i32>::new(1);
    assert_eq!(rb.try_push(7), Ok(()));
    assert_eq!(rb.try_push(8), Err(8));
    assert_eq!(rb.try_pop(), Some(7));
    assert_eq!(rb.try_push(9), Ok(()));
    assert_eq!(rb.try_pop(), Some(9));
    assert!(rb.is_empty());
}

#[test]
fn single_threaded_cycle() {
    let mut rb = LocalRb::<i32>::new(4);
    {
        let mut prod = rb.producer();
        assert_eq!(prod.push_slice(&[1, 2, 3]), 3);
        assert_eq!(prod.len(), 3);
        assert_eq!(prod.remaining(), 1);
    }
    assert_eq!(rb.occupied_len(), 3);
    assert_eq!(rb.vacant_len(), 1);
    assert_eq!(rb.consumer().pop(), Some(1));
    {
        let mut prod = rb.producer();
        assert_eq!(prod.push(4), Ok(()));
        assert_eq!(prod.push(5), Ok(()));
        assert_eq!(prod.push(6), Err(6));
    }
    let mut out = Vec::new();
    {
        let mut cons = rb.consumer();
        while let Some(x) = cons.pop() {
            out.push(x);
        }
        assert!(cons.is_empty());
    }
    assert_eq!(out, vec![2, 3, 4, 5]);
    assert!(rb.is_empty());
}

#[test]
fn wrap_around_slice() {
    let mut rb = LocalRb::<char>::new(4);
    assert_eq!(rb.push_slice(&['a', 'b', 'c']), 3);
    assert_eq!(rb.try_pop(), Some('a'));
    assert_eq!(rb.try_pop(), Some('b'));
    assert_eq!(rb.push_slice(&['d', 'e']), 2);
    let (first, second) = rb.occupied_slices();
    assert_eq!(first, &[Some('c'), Some('d')][..]);
    assert_eq!(second, &[Some('e')][..]);
    assert_eq!(contents(&rb), vec!['c', 'd', 'e']);
}

#[test]
fn wrap_at_capacity_splits_views() {
    let mut rb = LocalRb::<u32>::new(3);
    assert_eq!(rb.push_slice(&[1, 2]), 2);
    assert_eq!(rb.skip(2), 2);
    assert_eq!(rb.push_slice(&[3, 4, 5]), 3);
    let (first, second) = rb.occupied_slices();
    assert_eq!(first, &[Some(3)][..]);
    assert_eq!(second, &[Some(4), Some(5)][..]);
    assert_eq!(rb.try_pop(), Some(3));
    let (vf, vs) = rb.vacant_slices();
    assert_eq!(vf.len() + vs.len(), 1);
    assert!(vf.iter().chain(vs.iter()).all(|s| s.is_none()));
}

#[test]
fn byte_stream_round_trip() {
    let unit = b"The quick brown fox jumps over the lazy dog";
    let size = 44 * 1024 * 1024;
    let source: Vec<u8> = unit.iter().cycle().take(size).copied().collect();
    let mut rb = LocalRb::<u8>::new(64);
    let mut sink: Vec<u8> = Vec::with_capacity(source.len());
    let mut pos = 0usize;
    while pos < source.len() || !rb.is_empty() {
        pos += rb.producer().read_from(&source[pos..], None);
        rb.consumer().write_into(&mut sink, None);
    }
    assert_eq!(sink.len(), source.len());
    assert!(sink == source);
}

#[test]
fn relay_passes_bytes_unchanged() {
    let mut rb = LocalRb::<u8>::new(5);
    assert_eq!(rb.push_slice(&[9, 8]), 2);
    let source: Vec<u8> = (0..=255u8).collect();
    let mut sink = vec![1u8];
    rb.relay(&source, &mut sink);
    let mut expected = vec![1u8, 9, 8];
    expected.extend_from_slice(&source);
    assert_eq!(sink, expected);
    assert!(rb.is_empty());
}

struct Counted {
    live: Rc<Cell<i64>>,
    drops: Rc<Cell<i64>>,
}

impl Counted {
    fn new(live: &Rc<Cell<i64>>, drops: &Rc<Cell<i64>>) -> Self {
        live.set(live.get() + 1);
        Counted { live: live.clone(), drops: drops.clone() }
    }
}

impl Drop for Counted {
    fn drop(&mut self) {
        self.live.set(self.live.get() - 1);
        self.drops.set(self.drops.get() + 1);
    }
}

#[test]
fn drop_safety() {
    let live = Rc::new(Cell::new(0));
    let drops = Rc::new(Cell::new(0));
    {
        let mut rb = LocalRb::<Counted>::new(1000);
        for _ in 0..1000 {
            assert!(rb.try_push(Counted::new(&live, &drops)).is_ok());
        }
        assert_eq!(live.get(), 1000);
        for _ in 0..400 {
            drop(rb.try_pop().unwrap());
        }
        assert_eq!(live.get(), 600);
        assert_eq!(live.get(), rb.occupied_len() as i64);
    }
    assert_eq!(live.get(), 0);
    assert_eq!(drops.get(), 1000);
}

#[test]
fn live_count_matches_length_after_skip_and_clear() {
    let live = Rc::new(Cell::new(0));
    let drops = Rc::new(Cell::new(0));
    let mut rb = LocalRb::<Counted>::new(8);
    for _ in 0..6 {
        assert!(rb.try_push(Counted::new(&live, &drops)).is_ok());
    }
    assert_eq!(rb.skip(2), 2);
    assert_eq!(live.get(), 4);
    assert_eq!(live.get(), rb.occupied_len() as i64);
    assert_eq!(rb.clear(), 4);
    assert_eq!(live.get(), 0);
    assert_eq!(drops.get(), 6);
}

#[test]
fn full_empty_distinction() {
    let mut rb = LocalRb::<u8>::new(8);
    assert_eq!(rb.push_slice(&[0, 1, 2, 3, 4, 5, 6, 7]), 8);
    assert!(rb.is_full());
    assert!(!rb.is_empty());
    assert_ne!(rb.read_index(), rb.write_index());
    let mut out = [0u8; 8];
    assert_eq!(rb.pop_slice(&mut out), 8);
    assert_eq!(out, [0, 1, 2, 3, 4, 5, 6, 7]);
    assert!(!rb.is_full());
    assert!(rb.is_empty());
    assert_eq!(rb.read_index(), rb.write_index());
}

#[test]
fn pop_on_empty_and_push_on_full() {
    let mut rb = LocalRb::<String>::new(2);
    assert_eq!(rb.try_pop(), None);
    assert!(rb.try_push("x".to_string()).is_ok());
    assert!(rb.try_push("y".to_string()).is_ok());
    assert_eq!(rb.try_push("z".to_string()), Err("z".to_string()));
    assert_eq!(rb.occupied_len(), 2);
}

#[test]
fn indices_wrap_at_modulus() {
    let mut rb = LocalRb::<u32>::new(2);
    assert_eq!(rb.try_push(0), Ok(()));
    for i in 1..4u32 {
        assert_eq!(rb.try_push(i), Ok(()));
        assert_eq!(rb.try_pop(), Some(i - 1));
        assert_eq!(rb.occupied_len(), 1);
    }
    assert_eq!(rb.write_index(), 0);
    assert_eq!(rb.read_index(), 3);
    assert_eq!(rb.try_pop(), Some(3));
    assert_eq!(rb.read_index(), 0);
    assert!(rb.is_empty());
    assert_eq!(rb.try_push(10), Ok(()));
    assert_eq!(rb.occupied_len(), 1);
}

#[test]
fn pop_iter_prefix_keeps_rest() {
    let mut rb = LocalRb::<i32>::new(6);
    assert_eq!(rb.push_slice(&[1, 2, 3, 4, 5]), 5);
    let read_before = rb.read_index();
    {
        let mut cons = rb.consumer();
        let mut it = cons.pop_iter();
        assert_eq!(it.len(), 5);
        assert_eq!(it.next(), Some(1));
        assert_eq!(it.next(), Some(2));
        assert_eq!(it.len(), 3);
        let cons = it.finish();
        assert_eq!(cons.ring_buffer().read_index(), (read_before + 2) % 12);
        assert_eq!(cons.len(), 3);
    }
    assert_eq!(rb.read_index(), (read_before + 2) % 12);
    assert_eq!(contents(&rb), vec![3, 4, 5]);
}

#[test]
fn pop_iter_stops_at_initial_length() {
    let mut rb = LocalRb::<i32>::new(4);
    assert_eq!(rb.push_slice(&[1, 2]), 2);
    let mut cons = rb.consumer();
    let mut it = cons.pop_iter();
    assert_eq!(it.next(), Some(1));
    assert_eq!(it.next(), Some(2));
    assert_eq!(it.next(), None);
    let cons = it.finish();
    assert!(cons.is_empty());
    assert!(!cons.is_postponed());
}

#[test]
fn pop_iter_moves_read_index_once_at_finish() {
    let mut rb = LocalRb::<i32>::new(4);
    assert_eq!(rb.push_slice(&[1, 2, 3]), 3);
    assert_eq!(rb.try_pop(), Some(1));
    assert_eq!(rb.push_slice(&[4, 5]), 2);
    let mut cons = rb.consumer();
    let mut out = Vec::new();
    let mut it = cons.pop_iter();
    while let Some(x) = it.next() {
        out.push(x);
        assert_eq!(it.len() + out.len(), 4);
    }
    let cons = it.finish();
    assert_eq!(out, vec![2, 3, 4, 5]);
    assert!(cons.is_empty());
    assert_eq!(cons.ring_buffer().read_index(), 5);
    assert_eq!(cons.ring_buffer().write_index(), 5);
}

#[test]
fn pop_iter_keeps_read_index_until_finish() {
    let mut rb = LocalRb::<i32>::new(3);
    assert_eq!(rb.push_slice(&[7, 8, 9]), 3);
    let mut cons = rb.consumer();
    let mut it = cons.pop_iter();
    assert_eq!(it.next(), Some(7));
    assert_eq!(it.next(), Some(8));
    let cons = it.finish();
    assert_eq!(cons.ring_buffer().read_index(), 2);
    assert_eq!(cons.pop(), Some(9));
    assert_eq!(cons.ring_buffer().read_index(), 3);
}

#[test]
fn endpoint_index_moves() {
    let mut rb = LocalRb::<i32>::new(4);
    {
        let mut prod = rb.producer();
        assert_eq!(prod.push(1), Ok(()));
        assert_eq!(prod.ring_buffer().write_index(), 1);
        assert_eq!(prod.push_slice(&[2, 3]), 2);
        assert_eq!(prod.ring_buffer().write_index(), 3);
        assert_eq!(prod.ring_buffer().read_index(), 0);
        let back = prod.into_ring_buffer_ref();
        assert_eq!(back.capacity(), 4);
    }
    {
        let mut cons = rb.consumer();
        assert_eq!(cons.skip(1), 1);
        assert_eq!(cons.ring_buffer().read_index(), 1);
        assert_eq!(cons.clear(), 2);
        assert_eq!(cons.ring_buffer().read_index(), 3);
        assert_eq!(cons.ring_buffer().write_index(), 3);
        assert_eq!(cons.clear(), 0);
        assert_eq!(cons.ring_buffer().read_index(), 3);
    }
}

#[test]
fn clear_twice() {
    let mut rb = LocalRb::<i32>::new(4);
    assert_eq!(rb.push_slice(&[1, 2, 3]), 3);
    assert_eq!(rb.consumer().clear(), 3);
    assert_eq!(rb.occupied_len(), 0);
    assert_eq!(rb.consumer().clear(), 0);
}

#[test]
fn skip_counts() {
    let mut rb = LocalRb::<i32>::new(8);
    let mut items: VecDeque<i32> = (0..8).collect();
    assert_eq!(rb.producer().push_iter(&mut items), 8);
    let mut cons = rb.consumer();
    assert_eq!(cons.skip(4), 4);
    assert_eq!(cons.skip(8), 4);
    assert_eq!(cons.skip(8), 0);
}

#[test]
fn push_iter_leaves_rest() {
    let mut rb = LocalRb::<i32>::new(3);
    let mut items: VecDeque<i32> = (10..15).collect();
    assert_eq!(rb.producer().push_iter(&mut items), 3);
    assert_eq!(items, VecDeque::from(vec![13, 14]));
    assert_eq!(contents(&rb), vec![10, 11, 12]);
}

#[test]
fn fifo_and_conservation_over_interleaving() {
    let mut rb = LocalRb::<u32>::new(3);
    let mut pushed = Vec::new();
    let mut popped = Vec::new();
    let mut next = 0u32;
    for step in 0..50u32 {
        if step % 3 != 2 {
            if rb.try_push(next).is_ok() {
                pushed.push(next);
            }
            next += 1;
        } else if let Some(x) = rb.try_pop() {
            popped.push(x);
        }
        assert!(rb.occupied_len() <= rb.capacity());
        assert_eq!(pushed.len() - popped.len(), rb.occupied_len());
        assert_eq!(&pushed[..popped.len()], &popped[..]);
    }
}

#[test]
fn transfer_between_buffers() {
    let mut a = LocalRb::<i32>::new(5);
    let mut b = LocalRb::<i32>::new(3);
    assert_eq!(a.push_slice(&[1, 2, 3, 4, 5]), 5);
    assert_eq!(b.try_push(0), Ok(()));
    {
        let mut cons = a.consumer();
        let mut prod = b.producer();
        assert_eq!(cons.transfer_to(&mut prod, None), 2);
    }
    assert_eq!(contents(&b), vec![0, 1, 2]);
    assert_eq!(contents(&a), vec![3, 4, 5]);
    assert_eq!(b.clear(), 3);
    {
        let mut cons = a.consumer();
        let mut prod = b.producer();
        assert_eq!(prod.transfer_from(&mut cons, Some(1)), 1);
    }
    assert_eq!(contents(&b), vec![3]);
    assert_eq!(contents(&a), vec![4, 5]);
}

#[test]
fn read_from_takes_one_contiguous_run() {
    let mut rb = LocalRb::<u8>::new(4);
    assert_eq!(rb.push_slice(&[1, 2, 3]), 3);
    assert_eq!(rb.skip(3), 3);
    let mut prod = rb.producer();
    assert_eq!(prod.read_limit(None), 1);
    assert_eq!(prod.read_from(&[7, 8, 9, 10], None), 1);
    assert_eq!(prod.read_from(&[8, 9, 10, 11], Some(2)), 2);
    assert_eq!(prod.read_from(&[9, 10], None), 1);
    assert_eq!(prod.read_from(&[11], None), 0);
    assert_eq!(contents(&rb), vec![7, 8, 9, 9]);
}

#[test]
fn write_into_takes_one_contiguous_run() {
    let mut rb = LocalRb::<u8>::new(4);
    assert_eq!(rb.push_slice(&[1, 2, 3]), 3);
    assert_eq!(rb.skip(2), 2);
    assert_eq!(rb.push_slice(&[4, 5, 6]), 3);
    let mut sink = Vec::new();
    let mut cons = rb.consumer();
    assert_eq!(cons.write_limit(None), 2);
    assert_eq!(cons.write_into(&mut sink, Some(1)), 1);
    assert_eq!(cons.write_into(&mut sink, None), 1);
    assert_eq!(cons.write_into(&mut sink, None), 2);
    assert_eq!(cons.write_into(&mut sink, None), 0);
    assert_eq!(sink, vec![3, 4, 5, 6]);
}

#[test]
fn pop_slice_partial() {
    let mut rb = LocalRb::<i32>::new(4);
    assert_eq!(rb.push_slice(&[1, 2]), 2);
    let mut out = [0; 3];
    assert_eq!(rb.consumer().pop_slice(&mut out), 2);
    assert_eq!(out, [1, 2, 0]);
}

#[test]
fn push_slice_partial() {
    let mut rb = LocalRb::<i32>::new(3);
    assert_eq!(rb.producer().push_slice(&[1, 2, 3, 4]), 3);
    assert!(rb.is_full());
    assert_eq!(rb.push_slice(&[5]), 0);
}

#[test]
fn endpoint_queries() {
    let mut rb = LocalRb::<i32>::new(5);
    assert_eq!(rb.push_slice(&[1, 2]), 2);
    let cons = rb.consumer();
    assert_eq!(cons.capacity(), 5);
    assert_eq!(cons.len(), 2);
    assert_eq!(cons.remaining(), 3);
    assert!(!cons.is_full());
    assert!(!cons.is_empty());
    assert_eq!(cons.ring_buffer().occupied_len(), 2);
    let back = cons.into_ring_buffer_ref();
    assert_eq!(back.try_pop(), Some(1));
    let prod = rb.producer();
    assert_eq!(prod.capacity(), 5);
    assert!(!prod.is_full());
    assert!(!prod.is_empty());
    assert_eq!(prod.ring_buffer().vacant_len(), 4);
    assert_eq!(prod.into_ring_buffer_ref().try_pop(), Some(2));
}

#[test]
fn raw_parts_round_trip() {
    let mut rb = LocalRb::<i32>::new(3);
    assert_eq!(rb.push_slice(&[1, 2, 3]), 3);
    assert_eq!(rb.try_pop(), Some(1));
    let (storage, read, write) = rb.into_raw_parts();
    assert_eq!(storage.len(), 3);
    assert_eq!((read, write), (1, 3));
    let slots = storage.into_inner();
    assert_eq!(slots, vec![None, Some(2), Some(3)]);
    let mut rb = LocalRb::from_raw_parts(Storage::new(slots), read, write);
    assert_eq!(rb.try_pop(), Some(2));
    assert_eq!(rb.try_pop(), Some(3));
    assert_eq!(rb.try_pop(), None);
}

#[test]
fn storage_basics() {
    let s = Storage::<u8>::vacant(4);
    assert_eq!(s.len(), 4);
    assert!(s.into_inner().iter().all(|x| x.is_none()));
    let s = Storage::new(vec![Some(1u8), None]);
    assert_eq!(s.len(), 2);
}

#[test]
fn padded_indices_behave_like_plain_ones() {
    let mut rb = SharedRb::<u64>::new(4);
    assert_eq!(rb.push_slice(&[1, 2, 3]), 3);
    assert_eq!(rb.try_pop(), Some(1));
    assert_eq!(rb.push_slice(&[4, 5, 6]), 2);
    assert!(rb.is_full());
    assert_eq!(rb.read_index(), 1);
    assert_eq!(rb.write_index(), 5);
    let mut out = [0u64; 4];
    assert_eq!(rb.consumer().pop_slice(&mut out), 4);
    assert_eq!(out, [2, 3, 4, 5]);
    assert!(rb.is_empty());
    assert_eq!(rb.read_index(), 5);
}

#[test]
fn postponed_producer_batches() {
    let mut rb = LocalRb::<u32>::new(128);
    {
        let mut prod = rb.producer().into_postponed();
        assert!(prod.is_postponed());
        for i in 0..100u32 {
            assert!(prod.push(i).is_ok());
        }
        let seen = prod.ring_buffer().occupied_len();
        assert!(seen <= 100);
        assert_eq!(seen, 0);
        assert_eq!(prod.len(), 100);
        prod.sync();
        assert_eq!(prod.ring_buffer().occupied_len(), 100);
    }
    let mut cons = rb.consumer();
    assert_eq!(cons.len(), 100);
    for i in 0..100u32 {
        assert_eq!(cons.pop(), Some(i));
    }
    assert!(cons.is_empty());
}

#[test]
fn postponed_items_published_when_borrow_returns() {
    let mut rb = LocalRb::<i32>::new(4);
    assert_eq!(rb.try_push(1), Ok(()));
    assert_eq!(rb.try_pop(), Some(1));
    let mut prod = rb.producer().into_postponed();
    assert_eq!(prod.push_slice(&[2, 3, 4]), 3);
    assert_eq!(prod.read_limit(None), 1);
    assert_eq!(prod.read_from(&[5, 6], None), 1);
    assert!(prod.is_full());
    assert_eq!(prod.push(7), Err(7));
    assert_eq!(prod.ring_buffer().occupied_len(), 0);
    let back = prod.into_ring_buffer_ref();
    assert_eq!(back.occupied_len(), 4);
    assert_eq!(contents(&rb), vec![2, 3, 4, 5]);
}

#[test]
fn into_immediate_publishes() {
    let mut rb = LocalRb::<i32>::new(3);
    let mut prod = rb.producer().into_postponed();
    assert_eq!(prod.push(1), Ok(()));
    assert_eq!(prod.ring_buffer().occupied_len(), 0);
    let mut prod = prod.into_immediate();
    assert!(!prod.is_postponed());
    assert_eq!(prod.ring_buffer().occupied_len(), 1);
    assert_eq!(prod.push(2), Ok(()));
    assert_eq!(prod.ring_buffer().occupied_len(), 2);
}

#[test]
fn postponed_consumer_gives_places_back_on_sync() {
    let mut rb = LocalRb::<i32>::new(4);
    assert_eq!(rb.push_slice(&[1, 2, 3, 4]), 4);
    {
        let mut cons = rb.consumer().into_postponed();
        assert!(cons.is_postponed());
        assert_eq!(cons.pop(), Some(1));
        assert_eq!(cons.pop(), Some(2));
        assert_eq!(cons.len(), 2);
        assert_eq!(cons.ring_buffer().occupied_len(), 4);
        assert_eq!(cons.ring_buffer().vacant_len(), 0);
        let (first, second) = cons.occupied_slices();
        assert_eq!(first, &[Some(3), Some(4)][..]);
        assert!(second.is_empty());
        cons.sync();
        assert_eq!(cons.ring_buffer().occupied_len(), 2);
        assert_eq!(cons.ring_buffer().vacant_len(), 2);
    }
    assert_eq!(contents(&rb), vec![3, 4]);
}

#[test]
fn postponed_consumer_releases_when_borrow_returns() {
    let mut rb = LocalRb::<i32>::new(3);
    assert_eq!(rb.push_slice(&[1, 2, 3]), 3);
    let mut cons = rb.consumer().into_postponed();
    assert_eq!(cons.skip(2), 2);
    let mut sink = Vec::new();
    assert_eq!(cons.write_limit(None), 1);
    assert_eq!(cons.write_into(&mut sink, None), 1);
    assert_eq!(sink, vec![3]);
    assert!(cons.is_empty());
    assert_eq!(cons.ring_buffer().occupied_len(), 3);
    let back = cons.into_ring_buffer_ref();
    assert!(back.is_empty());
    assert_eq!(back.push_slice(&[7, 8, 9]), 3);
}

#[test]
fn consumer_into_immediate_releases() {
    let mut rb = LocalRb::<i32>::new(2);
    assert_eq!(rb.push_slice(&[5, 6]), 2);
    let mut cons = rb.consumer().into_postponed();
    assert_eq!(cons.pop(), Some(5));
    assert!(cons.ring_buffer().is_full());
    let mut cons = cons.into_immediate();
    assert!(!cons.ring_buffer().is_full());
    assert_eq!(cons.pop(), Some(6));
    assert!(cons.ring_buffer().is_empty());
}

fn observe<O: Observer>(o: &O) -> (usize, usize, usize, bool, bool) {
    (o.capacity(), o.occupied_len(), o.vacant_len(), o.is_empty(), o.is_full())
}

#[test]
fn observer_from_every_handle() {
    let mut rb = LocalRb::<i32>::new(3);
    assert_eq!(observe(&rb), (3, 0, 3, true, false));
    assert_eq!(rb.push_slice(&[1, 2]), 2);
    assert_eq!(observe(&rb), (3, 2, 1, false, false));
    {
        let mut prod = rb.producer().into_postponed();
        assert_eq!(prod.push(3), Ok(()));
        assert_eq!(observe(&prod), (3, 3, 0, false, true));
        assert_eq!(observe(prod.ring_buffer()), (3, 2, 1, false, false));
        prod.sync();
        assert_eq!(observe(prod.ring_buffer()), (3, 3, 0, false, true));
    }
    let mut cons = rb.consumer().into_postponed();
    assert_eq!(cons.pop(), Some(1));
    assert_eq!(observe(&cons), (3, 2, 1, false, false));
    assert_eq!(observe(cons.ring_buffer()), (3, 3, 0, false, true));
}
