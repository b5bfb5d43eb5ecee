//! The single-producer, single-consumer ring buffer.
//!
//! A `RingBuffer` owns the slots and the two published positions; a
//! `Producer` and a `Consumer` each keep their own position and a cached copy
//! of the other side's, refreshed from the buffer only when the cached value
//! makes the ring look full (producer) or empty (consumer).
//!
//! Positions are free-running counters that wrap around at `usize::MAX + 1`;
//! an item's slot is its position masked with `capacity - 1`.
use crate::arith::{
    distance, is_next_power_of_two, is_power_of_two, lemma_advanced_slot, lemma_distance_after_advance,
    lemma_distance_from_advanced, lemma_distinct_slots, lemma_exponent_fits, lemma_mask_is_slot,
    lemma_offset_from_advanced, lemma_offset_of_slot, lemma_offset_shift,
    lemma_position_slot, lemma_slot_of_offset, next_power_of_two, position_modulus,
};
use crate::model::{lemma_operations_keep_valid, RingState};
use vstd::arithmetic::div_mod::lemma_add_mod_noop;
use std::marker::PhantomData;
use vstd::arithmetic::power2::{lemma_pow2_pos, pow2};
use vstd::prelude::*;

verus! {

/// The shared part of a channel: the slots and the published positions.
pub struct RingBuffer<T> {
    buffer: Vec<Option<T>>,
    capacity: usize,
    mask: usize,
    write_pos: usize,
    read_pos: usize,
    capacity_log2: Ghost<nat>,
}

/// The sending end of a channel. It owns the write position and keeps a
/// cached copy of the read position.
pub struct Producer<T> {
    cached_read: usize,
    cached_write: usize,
    _marker: PhantomData<T>,
}

/// The receiving end of a channel. It owns the read position and keeps a
/// cached copy of the write position.
pub struct Consumer<T> {
    cached_write: usize,
    cached_read: usize,
    _marker: PhantomData<T>,
}

impl<T> RingBuffer<T> {
    /// Number of queued items.
    closed spec fn queued(self) -> nat {
        distance(self.read_pos, self.write_pos)
    }

    /// Index in `buffer` of the item `i` places after the oldest one.
    closed spec fn slot_of(self, i: int) -> int {
        (self.read_pos + i) % (self.capacity as int)
    }

    /// The slot content of the item `i` places after the oldest one.
    closed spec fn stored(self, i: int) -> Option<T> {
        self.buffer@[self.slot_of(i)]
    }

    /// How many places after the oldest item the slot `j` lies.
    closed spec fn offset_of(self, j: int) -> int {
        (j - self.read_pos) % (self.capacity as int)
    }

    /// The buffer is well formed: the capacity is a power of two that the
    /// mask matches, the ring never holds more than `capacity - 1` items,
    /// every queued item is present in its slot, and no other slot holds a
    /// value.
    pub closed spec fn wf(self) -> bool {
        &&& self.capacity as int == pow2(self.capacity_log2@)
        &&& self.capacity_log2@ < usize::BITS
        &&& self.mask == self.capacity - 1
        &&& self.buffer@.len() == self.capacity
        &&& self.queued() < self.capacity
        &&& forall|i: int| 0 <= i < self.queued() ==> (#[trigger] self.stored(i)) is Some
        &&& forall|j: int|
            0 <= j < self.capacity && (#[trigger] self.buffer@[j]) is Some ==> self.offset_of(j)
                < self.queued()
    }

    /// Creates a buffer with the given capacity rounded up to a power of two,
    /// together with its producer and consumer.
    pub fn new(capacity: usize) -> (result: (Producer<T>, Consumer<T>, Self))
        requires
            1 <= capacity,
            2 * capacity <= position_modulus(),
        ensures
            result.0.is_producer_of(result.2),
            result.1.is_consumer_of(result.2),
            result.2@.items.len() == 0,
            result.2@.valid(),
            is_next_power_of_two(capacity as int, result.2@.capacity as int),
    {
        let cap = next_power_of_two(capacity);
        let ghost log2 = choose|k: nat| pow2(k) == cap;
        proof {
            lemma_exponent_fits(log2);
        }
        let mut buffer: Vec<Option<T>> = Vec::with_capacity(cap);
        while buffer.len() < cap
            invariant
                buffer.len() <= cap,
                forall|j: int| 0 <= j < buffer.len() ==> (#[trigger] buffer@[j]) is None,
            decreases cap - buffer.len(),
        {
            buffer.push(None);
        }
        let rb = RingBuffer {
            buffer,
            capacity: cap,
            mask: cap - 1,
            write_pos: 0,
            read_pos: 0,
            capacity_log2: Ghost(log2),
        };
        let producer = Producer { cached_read: 0, cached_write: 0, _marker: PhantomData };
        let consumer = Consumer { cached_write: 0, cached_read: 0, _marker: PhantomData };
        assert(rb@.items =~= Seq::<T>::empty());
        proof {
            rb.lemma_state_valid();
        }
        (producer, consumer, rb)
    }

    /// The number of slots (a power of two); one of them always stays free.
    pub fn capacity(&self) -> (c: usize)
        ensures
            c == self@.capacity,
    {
        self.capacity
    }

    /// Every well-formed buffer stands for a valid ring: its capacity is a
    /// power of two and it holds at most `capacity - 1` items.
    pub proof fn lemma_state_valid(self)
        requires
            self.wf(),
        ensures
            self@.valid(),
            is_power_of_two(self@.capacity as int),
    {
        assert(pow2(self.capacity_log2@) == self.capacity);
    }

    /// Facts about the slot layout of a well-formed buffer.
    proof fn lemma_layout(self)
        requires
            self.wf(),
        ensures
            self.capacity > 0,
            (self.write_pos as int) % (self.capacity as int) == self.slot_of(self.queued() as int),
            self.write_pos & self.mask == self.slot_of(self.queued() as int),
            self.read_pos & self.mask == self.slot_of(0),
    {
        let k = self.capacity_log2@;
        lemma_pow2_pos(k);
        lemma_mask_is_slot(self.write_pos, k);
        lemma_mask_is_slot(self.read_pos, k);
        lemma_position_slot(self.read_pos, self.write_pos, k);
    }
}

impl<T> View for RingBuffer<T> {
    type V = RingState<T>;

    closed spec fn view(&self) -> RingState<T> {
        RingState {
            items: Seq::new(self.queued(), |i: int| self.stored(i)->0),
            capacity: self.capacity as nat,
        }
    }
}

impl<T> Producer<T> {
    /// This producer belongs to `rb`: its write position is the published
    /// one, and its cached read position trails the published one by no more
    /// than a ring's worth.
    pub closed spec fn is_producer_of(self, rb: RingBuffer<T>) -> bool {
        &&& rb.wf()
        &&& self.cached_write == rb.write_pos
        &&& rb.queued() <= distance(self.cached_read, rb.write_pos)
        &&& distance(self.cached_read, rb.write_pos) < rb.capacity
    }

    /// A buffer with a producer is well formed.
    pub proof fn lemma_buffer_wf(self, rb: RingBuffer<T>)
        requires
            self.is_producer_of(rb),
        ensures
            rb.wf(),
    {
    }

    /// Pushes `value`, and reports whether there was room for it. The ring
    /// is full when it holds `capacity - 1` items; a value that does not fit
    /// is dropped.
    pub fn push(&mut self, rb: &mut RingBuffer<T>, value: T) -> (pushed: bool)
        requires
            old(self).is_producer_of(*old(rb)),
        ensures
            final(self).is_producer_of(*final(rb)),
            pushed == !old(rb)@.is_full(),
            final(rb)@ == old(rb)@.pushed(value),
            final(rb)@.valid(),
            forall|c: Consumer<T>|
                c.is_consumer_of(*old(rb)) ==> #[trigger] c.is_consumer_of(*final(rb)),
    {
        let write = self.cached_write;
        let next_write = write.wrapping_add(1);
        proof {
            rb.lemma_state_valid();
            lemma_operations_keep_valid(rb@, value, Seq::empty(), 0);
            lemma_distance_after_advance(self.cached_read, write, 1);
            lemma_distance_after_advance(rb.read_pos, write, 1);
        }
        if next_write.wrapping_sub(self.cached_read) > rb.capacity - 1 {
            // The cached read position makes the ring look full: look again.
            let fresh_read = rb.read_pos;
            self.cached_read = fresh_read;
            if next_write.wrapping_sub(fresh_read) > rb.capacity - 1 {
                return false;
            }
        }
        let ghost before = *rb;
        let ghost len = before.queued() as int;
        proof {
            before.lemma_layout();
        }
        let slot = write & rb.mask;
        rb.buffer[slot] = Some(value);
        self.cached_write = next_write;
        rb.write_pos = next_write;
        proof {
            assert forall|i: int| 0 <= i < len implies #[trigger] rb.stored(i) == before.stored(i) by {
                lemma_distinct_slots(before.read_pos as int, i, len, before.capacity as int);
            }
            assert(rb.stored(len) == Some(value));
            assert(rb@.items =~= before@.items.push(value));
            assert forall|j: int| 0 <= j < rb.capacity && (#[trigger] rb.buffer@[j]) is Some implies rb.offset_of(j) < rb.queued() by {
                if j == before.slot_of(len) {
                    lemma_offset_of_slot(before.read_pos as int, len, before.capacity as int);
                } else {
                    assert(before.buffer@[j] is Some);
                }
            }
        }
        true
    }

    /// Pushes as many of `values` as fit, in order, and returns how many.
    pub fn push_slice(&mut self, rb: &mut RingBuffer<T>, values: &[T]) -> (count: usize) where
        T: Copy,
        requires
            old(self).is_producer_of(*old(rb)),
        ensures
            final(self).is_producer_of(*final(rb)),
            count == old(rb)@.push_count(values@.len()),
            final(rb)@ == old(rb)@.pushed_all(values@),
            final(rb)@.valid(),
            forall|c: Consumer<T>|
                c.is_consumer_of(*old(rb)) ==> #[trigger] c.is_consumer_of(*final(rb)),
    {
        proof {
            rb.lemma_state_valid();
            lemma_operations_keep_valid(rb@, arbitrary(), values@, 0);
        }
        if values.len() == 0 {
            assert(rb@.pushed_all(values@).items =~= rb@.items);
            return 0;
        }
        let write = self.cached_write;
        let read = rb.read_pos;
        self.cached_read = read;
        let available = (rb.capacity - 1) - write.wrapping_sub(read);
        let to_write = if values.len() < available {
            values.len()
        } else {
            available
        };
        if to_write == 0 {
            assert(rb@.pushed_all(values@).items =~= rb@.items);
            return 0;
        }
        let ghost before = *rb;
        let ghost len = before.queued() as int;
        proof {
            before.lemma_layout();
        }
        let mut i: usize = 0;
        while i < to_write
            invariant
                before.wf(),
                len == before.queued(),
                to_write + len < before.capacity,
                to_write <= values@.len(),
                i <= to_write,
                write == before.write_pos,
                (write as int) % (before.capacity as int) == before.slot_of(len),
                rb.capacity == before.capacity,
                rb.mask == before.mask,
                rb.read_pos == before.read_pos,
                rb.write_pos == before.write_pos,
                rb.capacity_log2 == before.capacity_log2,
                rb.buffer@.len() == before.buffer@.len(),
                forall|t: int| 0 <= t < len ==> #[trigger] rb.stored(t) == before.stored(t),
                forall|t: int| len <= t < len + i ==> #[trigger] rb.stored(t) == Some(values@[t - len]),
                forall|j: int|
                    0 <= j < rb.capacity && (#[trigger] rb.buffer@[j]) is Some ==> rb.offset_of(j) < len
                        + i,
            decreases to_write - i,
        {
            let pos = write.wrapping_add(i);
            proof {
                let k = before.capacity_log2@;
                lemma_mask_is_slot(pos, k);
                lemma_advanced_slot(write, i, 0, k);
                lemma_add_mod_noop(write as int, i as int, before.capacity as int);
                lemma_add_mod_noop(before.read_pos + len, i as int, before.capacity as int);
                assert(pos & rb.mask == before.slot_of(len + i));
            }
            let slot = pos & rb.mask;
            let ghost mid = *rb;
            rb.buffer[slot] = Some(values[i]);
            proof {
                assert forall|t: int| 0 <= t < len + i implies #[trigger] rb.stored(t) == mid.stored(t) by {
                    lemma_distinct_slots(before.read_pos as int, t, len + i, before.capacity as int);
                }
                assert forall|j: int| 0 <= j < rb.capacity && (#[trigger] rb.buffer@[j]) is Some implies rb.offset_of(j) < len + i + 1 by {
                    if j == before.slot_of(len + i) {
                        lemma_offset_of_slot(before.read_pos as int, len + i, before.capacity as int);
                    } else {
                        assert(mid.buffer@[j] is Some);
                    }
                }
            }
            i = i + 1;
        }
        let ghost filled = *rb;
        let new_write = write.wrapping_add(to_write);
        self.cached_write = new_write;
        rb.write_pos = new_write;
        proof {
            lemma_distance_after_advance(read, write, to_write);
            assert(rb.queued() == len + to_write);
            let expected = before@.items + values@.take(to_write as int);
            assert forall|t: int| 0 <= t < len + to_write implies #[trigger] rb.stored(t) == Some(expected[t]) by {
                if t < len {
                    assert(filled.stored(t) == before.stored(t));
                    assert(before@.items[t] == before.stored(t)->0);
                } else {
                    assert(filled.stored(t) == Some(values@[t - len]));
                }
            }
            assert(rb@.items =~= expected);
            assert forall|j: int| 0 <= j < rb.capacity && (#[trigger] rb.buffer@[j]) is Some implies rb.offset_of(j) < rb.queued() by {
                assert(filled.buffer@[j] is Some);
            }
        }
        to_write
    }

    /// Number of items that can be pushed right now (`capacity - 1` minus the
    /// queued items); refreshes the cached read position.
    pub fn available_capacity(&mut self, rb: &RingBuffer<T>) -> (room: usize)
        requires
            old(self).is_producer_of(*rb),
        ensures
            final(self).is_producer_of(*rb),
            room == rb@.free_slots(),
            rb@.valid(),
    {
        proof {
            rb.lemma_state_valid();
        }
        let write = self.cached_write;
        let read = rb.read_pos;
        self.cached_read = read;
        (rb.capacity - 1).saturating_sub(write.wrapping_sub(read))
    }
}

impl<T> Consumer<T> {
    /// This consumer belongs to `rb`: its read position is the published
    /// one, and its cached write position lies between the published read and
    /// write positions.
    pub closed spec fn is_consumer_of(self, rb: RingBuffer<T>) -> bool {
        &&& rb.wf()
        &&& self.cached_read == rb.read_pos
        &&& distance(rb.read_pos, self.cached_write) <= rb.queued()
    }

    /// A buffer with a consumer is well formed.
    pub proof fn lemma_buffer_wf(self, rb: RingBuffer<T>)
        requires
            self.is_consumer_of(rb),
        ensures
            rb.wf(),
    {
    }

    /// Pops the oldest item, or returns `None` when the ring is empty.
    pub fn pop(&mut self, rb: &mut RingBuffer<T>) -> (value: Option<T>)
        requires
            old(self).is_consumer_of(*old(rb)),
        ensures
            final(self).is_consumer_of(*final(rb)),
            value == old(rb)@.front(),
            final(rb)@ == old(rb)@.popped(),
            final(rb)@.valid(),
            forall|p: Producer<T>|
                p.is_producer_of(*old(rb)) ==> #[trigger] p.is_producer_of(*final(rb)),
    {
        proof {
            rb.lemma_state_valid();
            lemma_operations_keep_valid(rb@, arbitrary(), Seq::empty(), 0);
        }
        let read = self.cached_read;
        if read == self.cached_write {
            // The cached write position makes the ring look empty: look again.
            let fresh_write = rb.write_pos;
            self.cached_write = fresh_write;
            if read == fresh_write {
                return None;
            }
        }
        let ghost before = *rb;
        let ghost len = before.queued() as int;
        proof {
            before.lemma_layout();
            assert(before.stored(0) is Some);
        }
        let slot = read & rb.mask;
        let value = rb.buffer[slot].take();
        let next_read = read.wrapping_add(1);
        proof {
            lemma_distance_from_advanced(read, self.cached_write, 1);
            lemma_distance_from_advanced(read, rb.write_pos, 1);
        }
        self.cached_read = next_read;
        rb.read_pos = next_read;
        proof {
            let k = before.capacity_log2@;
            assert forall|t: int| 0 <= t < len - 1 implies #[trigger] rb.stored(t) == before.stored(t + 1) by {
                lemma_advanced_slot(read, 1, t, k);
                lemma_distinct_slots(read as int, 0, t + 1, before.capacity as int);
            }
            assert(rb@.items =~= before@.items.drop_first());
            assert forall|j: int| 0 <= j < rb.capacity && (#[trigger] rb.buffer@[j]) is Some implies rb.offset_of(j) < rb.queued() by {
                let cap = before.capacity as int;
                assert(j != before.slot_of(0));
                assert(before.buffer@[j] is Some);
                lemma_slot_of_offset(read as int, j, cap);
                lemma_offset_from_advanced(read, 1, j, k);
                lemma_offset_shift(read as int, 1, j, cap);
            }
        }
        value
    }

    /// Pops up to `out.len()` items into the front of `out`, oldest first,
    /// and returns how many; the rest of `out` is left as it was.
    pub fn pop_slice(&mut self, rb: &mut RingBuffer<T>, out: &mut [T]) -> (count: usize) where
        T: Copy,
        requires
            old(self).is_consumer_of(*old(rb)),
        ensures
            final(self).is_consumer_of(*final(rb)),
            count == old(rb)@.pop_count(old(out)@.len()),
            final(out)@ == old(rb)@.items.take(count as int) + old(out)@.skip(count as int),
            final(rb)@ == old(rb)@.popped_up_to(old(out)@.len()),
            final(rb)@.valid(),
            forall|p: Producer<T>|
                p.is_producer_of(*old(rb)) ==> #[trigger] p.is_producer_of(*final(rb)),
    {
        proof {
            rb.lemma_state_valid();
            lemma_operations_keep_valid(rb@, arbitrary(), Seq::empty(), out@.len());
        }
        if out.len() == 0 {
            assert(rb@.popped_up_to(0).items =~= rb@.items);
            assert(out@ =~= rb@.items.take(0) + out@.skip(0));
            return 0;
        }
        let read = self.cached_read;
        let write = rb.write_pos;
        self.cached_write = write;
        let available = write.wrapping_sub(read);
        let to_read = if out.len() < available {
            out.len()
        } else {
            available
        };
        if to_read == 0 {
            assert(rb@.popped_up_to(out@.len()).items =~= rb@.items);
            assert(out@ =~= rb@.items.take(0) + out@.skip(0));
            return 0;
        }
        let ghost before = *rb;
        let ghost out_before = out@;
        let ghost len = before.queued() as int;
        proof {
            before.lemma_layout();
        }
        let mut i: usize = 0;
        while i < to_read
            invariant
                before.wf(),
                len == before.queued(),
                to_read <= len,
                to_read <= out_before.len(),
                i <= to_read,
                read == before.read_pos,
                rb.capacity == before.capacity,
                rb.mask == before.mask,
                rb.read_pos == before.read_pos,
                rb.write_pos == before.write_pos,
                rb.capacity_log2 == before.capacity_log2,
                rb.buffer@.len() == before.buffer@.len(),
                forall|t: int| i <= t < len ==> #[trigger] rb.stored(t) == before.stored(t),
                forall|j: int|
                    0 <= j < rb.capacity && (#[trigger] rb.buffer@[j]) is Some ==> i <= rb.offset_of(j)
                        < len,
                out@.len() == out_before.len(),
                forall|t: int| 0 <= t < i ==> #[trigger] out@[t] == before@.items[t],
                forall|t: int| i <= t < out@.len() ==> #[trigger] out@[t] == out_before[t],
            decreases to_read - i,
        {
            let pos = read.wrapping_add(i);
            proof {
                let k = before.capacity_log2@;
                lemma_mask_is_slot(pos, k);
                lemma_advanced_slot(read, i, 0, k);
                assert(before.stored(i as int) is Some);
            }
            let slot = pos & rb.mask;
            let ghost mid = *rb;
            assert(mid.stored(i as int) == before.stored(i as int));
            assert(before@.items[i as int] == before.stored(i as int)->0);
            if let Some(v) = rb.buffer[slot].take() {
                out[i] = v;
            }
            proof {
                let cap = before.capacity as int;
                assert forall|t: int| i + 1 <= t < len implies #[trigger] rb.stored(t) == mid.stored(t) by {
                    lemma_distinct_slots(read as int, i as int, t, cap);
                }
                assert forall|j: int| 0 <= j < rb.capacity && (#[trigger] rb.buffer@[j]) is Some implies i + 1 <= rb.offset_of(j) < len by {
                    assert(mid.buffer@[j] is Some);
                    if rb.offset_of(j) == i {
                        lemma_slot_of_offset(read as int, j, cap);
                    }
                }
            }
            i = i + 1;
        }
        let ghost drained = *rb;
        let new_read = read.wrapping_add(to_read);
        self.cached_read = new_read;
        rb.read_pos = new_read;
        proof {
            let k = before.capacity_log2@;
            lemma_distance_from_advanced(read, write, to_read);
            assert forall|t: int| 0 <= t < len - to_read implies #[trigger] rb.stored(t) == before.stored(t + to_read) by {
                lemma_advanced_slot(read, to_read, t, k);
                assert(drained.stored(t + to_read) == before.stored(t + to_read));
            }
            assert(rb@.items =~= before@.items.skip(to_read as int));
            assert(out@ =~= before@.items.take(to_read as int) + out_before.skip(to_read as int));
            assert forall|j: int| 0 <= j < rb.capacity && (#[trigger] rb.buffer@[j]) is Some implies rb.offset_of(j) < rb.queued() by {
                let cap = before.capacity as int;
                assert(drained.buffer@[j] is Some);
                lemma_offset_from_advanced(read, to_read, j, k);
                lemma_offset_shift(read as int, to_read as int, j, cap);
            }
        }
        to_read
    }

    /// Number of items queued right now; refreshes the cached write position.
    pub fn available(&mut self, rb: &RingBuffer<T>) -> (count: usize)
        requires
            old(self).is_consumer_of(*rb),
        ensures
            final(self).is_consumer_of(*rb),
            count == rb@.len(),
            rb@.valid(),
    {
        proof {
            rb.lemma_state_valid();
        }
        let read = self.cached_read;
        let write = rb.write_pos;
        self.cached_write = write;
        write.wrapping_sub(read)
    }

    /// The oldest item, left in place, or `None` when the ring is empty;
    /// refreshes the cached write position.
    pub fn peek<'a>(&mut self, rb: &'a RingBuffer<T>) -> (front: Option<&'a T>)
        requires
            old(self).is_consumer_of(*rb),
        ensures
            final(self).is_consumer_of(*rb),
            match front {
                Some(v) => rb@.front() == Some(*v),
                None => rb@.front() is None,
            },
            rb@.valid(),
    {
        proof {
            rb.lemma_state_valid();
        }
        let read = self.cached_read;
        let write = rb.write_pos;
        self.cached_write = write;
        if read == write {
            return None;
        }
        proof {
            rb.lemma_layout();
            assert(rb.stored(0) is Some);
        }
        let slot = read & rb.mask;
        rb.buffer[slot].as_ref()
    }
}

} // verus!
