//! The abstract queue that a ring buffer stands for, and its laws.
//!
//! A ring of `capacity` slots holds at most `capacity - 1` items: one slot
//! always stays free so that a full ring can be told apart from an empty one.
use vstd::prelude::*;

verus! {

/// The contents of a ring buffer, oldest item first, and its slot count.
pub struct RingState<T> {
    pub items: Seq<T>,
    pub capacity: nat,
}

/// The smaller of two naturals.
pub open spec fn min_nat(a: nat, b: nat) -> nat {
    if a <= b {
        a
    } else {
        b
    }
}

impl<T> RingState<T> {
    /// Items the ring can hold at once.
    pub open spec fn usable(self) -> nat {
        if self.capacity == 0 {
            0
        } else {
            (self.capacity - 1) as nat
        }
    }

    /// At least one slot exists and the items fit in the usable slots.
    pub open spec fn valid(self) -> bool {
        &&& self.capacity >= 1
        &&& self.items.len() <= self.usable()
    }

    /// Number of queued items.
    pub open spec fn len(self) -> nat {
        self.items.len()
    }

    /// Number of items that can still be pushed.
    pub open spec fn free_slots(self) -> nat {
        if self.items.len() <= self.usable() {
            (self.usable() - self.items.len()) as nat
        } else {
            0
        }
    }

    pub open spec fn is_full(self) -> bool {
        self.items.len() >= self.usable()
    }

    pub open spec fn is_empty(self) -> bool {
        self.items.len() == 0
    }

    /// The oldest item, which the next pop hands out.
    pub open spec fn front(self) -> Option<T> {
        if self.is_empty() {
            None
        } else {
            Some(self.items[0])
        }
    }

    /// The ring after one push: unchanged when full, else `value` joins at
    /// the back.
    pub open spec fn pushed(self, value: T) -> Self {
        if self.is_full() {
            self
        } else {
            RingState { items: self.items.push(value), capacity: self.capacity }
        }
    }

    /// The ring after one pop: unchanged when empty, else without its oldest
    /// item.
    pub open spec fn popped(self) -> Self {
        if self.is_empty() {
            self
        } else {
            RingState { items: self.items.drop_first(), capacity: self.capacity }
        }
    }

    /// How many of `n` offered items a batch push takes.
    pub open spec fn push_count(self, n: nat) -> nat {
        min_nat(n, self.free_slots())
    }

    /// How many items a batch pop into room for `n` hands out.
    pub open spec fn pop_count(self, n: nat) -> nat {
        min_nat(n, self.items.len())
    }

    /// The ring after a batch push of `values`: as many as fit, in order.
    pub open spec fn pushed_all(self, values: Seq<T>) -> Self {
        RingState {
            items: self.items + values.take(self.push_count(values.len()) as int),
            capacity: self.capacity,
        }
    }

    /// The ring after a batch pop into room for `n` items.
    pub open spec fn popped_up_to(self, n: nat) -> Self {
        RingState {
            items: self.items.skip(self.pop_count(n) as int),
            capacity: self.capacity,
        }
    }
}

/// The ring after pushing `values` one at a time.
pub open spec fn push_each<T>(state: RingState<T>, values: Seq<T>) -> RingState<T>
    decreases values.len(),
{
    if values.len() == 0 {
        state
    } else {
        push_each(state.pushed(values[0]), values.drop_first())
    }
}

/// How many of `values`, pushed one at a time, are accepted.
pub open spec fn push_successes<T>(state: RingState<T>, values: Seq<T>) -> nat
    decreases values.len(),
{
    if values.len() == 0 {
        0
    } else {
        (if state.is_full() {
            0nat
        } else {
            1nat
        }) + push_successes(state.pushed(values[0]), values.drop_first())
    }
}

/// The ring after `n` single pops.
pub open spec fn pop_each<T>(state: RingState<T>, n: nat) -> RingState<T>
    decreases n,
{
    if n == 0 {
        state
    } else {
        pop_each(state.popped(), (n - 1) as nat)
    }
}

/// What `n` single pops hand out, in order (empty pops hand out nothing).
pub open spec fn drained<T>(state: RingState<T>, n: nat) -> Seq<T>
    decreases n,
{
    if n == 0 || state.is_empty() {
        Seq::empty()
    } else {
        seq![state.items[0]].add(drained(state.popped(), (n - 1) as nat))
    }
}

/// Every operation keeps a ring valid: it never holds more than
/// `capacity - 1` items and its capacity never changes.
pub proof fn lemma_operations_keep_valid<T>(state: RingState<T>, value: T, values: Seq<T>, n: nat)
    requires
        state.valid(),
    ensures
        state.pushed(value).valid(),
        state.popped().valid(),
        state.pushed_all(values).valid(),
        state.popped_up_to(n).valid(),
        state.pushed(value).capacity == state.capacity,
        state.popped().capacity == state.capacity,
        state.pushed_all(values).capacity == state.capacity,
        state.popped_up_to(n).capacity == state.capacity,
{
}

/// The queued items and the free room always add up to `capacity - 1`:
/// what `available` and `available_capacity` report sums to the usable size.
pub proof fn lemma_len_plus_free<T>(state: RingState<T>)
    requires
        state.valid(),
    ensures
        state.len() + state.free_slots() == state.capacity - 1,
{
}

/// A push fails exactly when the ring holds `capacity - 1` items.
pub proof fn lemma_full_iff_no_room<T>(state: RingState<T>)
    requires
        state.valid(),
    ensures
        state.is_full() <==> state.free_slots() == 0,
        state.is_full() <==> state.len() == state.capacity - 1,
{
}

/// First in, first out: on a ring with room, a push and a pop commute when
/// the ring is not empty (the pop takes the older item), and a pop right
/// after a push into an empty ring hands back the pushed value and leaves
/// the ring as it was.
pub proof fn lemma_push_pop_fifo<T>(state: RingState<T>, value: T)
    requires
        state.valid(),
        !state.is_full(),
    ensures
        state.pushed(value).front() == (if state.is_empty() {
            Some(value)
        } else {
            state.front()
        }),
        !state.is_empty() ==> state.pushed(value).popped() == state.popped().pushed(value),
        state.is_empty() ==> state.pushed(value).popped() == state,
{
    if state.is_empty() {
        assert(state.pushed(value).items.drop_first() =~= state.items);
    } else {
        assert(state.pushed(value).items.drop_first() =~= state.items.drop_first().push(value));
    }
}

/// Peeking shows what the next pop hands out: a single pop hands out exactly
/// the front item, or nothing on an empty ring.
pub proof fn lemma_peek_is_next_pop<T>(state: RingState<T>)
    requires
        state.valid(),
    ensures
        drained(state, 1) == (match state.front() {
            Some(v) => seq![v],
            None => Seq::<T>::empty(),
        }),
{
    reveal_with_fuel(drained, 2);
    if !state.is_empty() {
        assert(drained(state.popped(), 0) =~= Seq::<T>::empty());
        assert(seq![state.items[0]].add(Seq::<T>::empty()) =~= seq![state.items[0]]);
    }
}

/// A batch push is the same as pushing the values one at a time: it leaves
/// the same ring, and it reports as many items taken as single pushes would
/// have succeeded.
pub proof fn lemma_batch_push_is_repeated_push<T>(state: RingState<T>, values: Seq<T>)
    requires
        state.valid(),
    ensures
        state.pushed_all(values) == push_each(state, values),
        state.push_count(values.len()) == push_successes(state, values),
    decreases values.len(),
{
    if values.len() == 0 {
        assert(state.pushed_all(values).items =~= state.items);
    } else {
        let next = state.pushed(values[0]);
        let rest = values.drop_first();
        lemma_operations_keep_valid(state, values[0], values, 0);
        lemma_batch_push_is_repeated_push(next, rest);
        if state.is_full() {
            assert(state.pushed_all(values).items =~= state.items);
            assert(next == state);
            lemma_full_absorbs_batch(state, rest);
        } else {
            let k = state.push_count(values.len());
            assert(next.push_count(rest.len()) == k - 1);
            assert(next.pushed_all(rest).items =~= state.pushed_all(values).items);
        }
    }
}

/// A full ring takes no item of a batch.
proof fn lemma_full_absorbs_batch<T>(state: RingState<T>, values: Seq<T>)
    requires
        state.valid(),
        state.is_full(),
    ensures
        state.pushed_all(values) == state,
        push_each(state, values) == state,
        push_successes(state, values) == 0,
    decreases values.len(),
{
    assert(state.pushed_all(values).items =~= state.items);
    if values.len() > 0 {
        lemma_full_absorbs_batch(state, values.drop_first());
    }
}

/// A batch pop is the same as popping one at a time, and it hands out the
/// oldest items in order.
pub proof fn lemma_batch_pop_is_repeated_pop<T>(state: RingState<T>, n: nat)
    requires
        state.valid(),
    ensures
        state.popped_up_to(n) == pop_each(state, n),
        drained(state, n) == state.items.take(state.pop_count(n) as int),
    decreases n,
{
    if n == 0 {
        assert(state.popped_up_to(n).items =~= state.items);
        assert(state.items.take(0) =~= Seq::<T>::empty());
    } else if state.is_empty() {
        lemma_empty_absorbs_pops(state, n);
        assert(state.popped_up_to(n).items =~= state.items);
        assert(state.items.take(0) =~= Seq::<T>::empty());
    } else {
        let next = state.popped();
        lemma_operations_keep_valid(state, state.items[0], Seq::empty(), 0);
        lemma_batch_pop_is_repeated_pop(next, (n - 1) as nat);
        assert(next.popped_up_to((n - 1) as nat).items =~= state.popped_up_to(n).items);
        assert(seq![state.items[0]].add(next.items.take(next.pop_count((n - 1) as nat) as int))
            =~= state.items.take(state.pop_count(n) as int));
    }
}

/// Pops on an empty ring change nothing and hand out nothing.
proof fn lemma_empty_absorbs_pops<T>(state: RingState<T>, n: nat)
    requires
        state.is_empty(),
    ensures
        pop_each(state, n) == state,
        drained(state, n) == Seq::<T>::empty(),
    decreases n,
{
    if n > 0 {
        lemma_empty_absorbs_pops(state, (n - 1) as nat);
    }
}

/// First in, first out over whole batches: after pushing `values` into a
/// ring with room for all of them, popping everything hands out the items
/// that were already queued, then `values`, in order.
pub proof fn lemma_fifo_order<T>(state: RingState<T>, values: Seq<T>)
    requires
        state.valid(),
        values.len() <= state.free_slots(),
    ensures
        state.pushed_all(values).items == state.items + values,
        drained(state.pushed_all(values), state.len() + values.len()) == state.items + values,
{
    assert(values.take(values.len() as int) =~= values);
    let after = state.pushed_all(values);
    lemma_operations_keep_valid(state, arbitrary(), values, 0);
    lemma_batch_pop_is_repeated_pop(after, state.len() + values.len());
    assert(after.items.take(after.len() as int) =~= after.items);
}

/// The free room a ring reports is exactly what single pushes can fill: with
/// no pop in between, each of the next `free_slots()` pushes succeeds, adding
/// its value at the back, and the ring is then full, so one more push fails.
pub proof fn lemma_free_room_admits_pushes<T>(state: RingState<T>, values: Seq<T>)
    requires
        state.valid(),
        values.len() <= state.free_slots(),
    ensures
        push_successes(state, values) == values.len(),
        push_each(state, values).items == state.items + values,
        values.len() == state.free_slots() ==> push_each(state, values).is_full(),
{
    lemma_batch_push_is_repeated_push(state, values);
    assert(values.take(values.len() as int) =~= values);
}

/// A pop never takes room away: pops between pushes only add room.
pub proof fn lemma_pop_adds_room<T>(state: RingState<T>)
    requires
        state.valid(),
    ensures
        state.popped().free_slots() >= state.free_slots(),
        !state.is_empty() ==> state.popped().free_slots() == state.free_slots() + 1,
{
}

/// Pushes leave the front of a non-empty ring alone: two peeks with only
/// pushes between them show the same item, which is what the next pop hands
/// out.
pub proof fn lemma_pushes_keep_front<T>(state: RingState<T>, values: Seq<T>)
    requires
        state.valid(),
        !state.is_empty(),
    ensures
        push_each(state, values).front() == state.front(),
        !push_each(state, values).is_empty(),
        push_each(state, values).valid(),
    decreases values.len(),
{
    if values.len() > 0 {
        let next = state.pushed(values[0]);
        lemma_operations_keep_valid(state, values[0], values, 0);
        assert(next.front() == state.front());
        lemma_pushes_keep_front(next, values.drop_first());
    }
}

} // verus!
