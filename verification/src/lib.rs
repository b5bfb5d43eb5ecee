//! A single-producer, single-consumer ring buffer with verified contracts.
//!
//! [`channel`] (or [`RingBuffer::new`]) creates a buffer whose capacity is
//! rounded up to a power of two, together with its one [`Producer`] and one
//! [`Consumer`]. The buffer holds at most `capacity - 1` items, hands them out
//! in the order they were pushed, and every operation's contract is stated
//! over the abstract queue in [`model::RingState`].
pub mod arith;
pub mod model;
pub mod ring;
pub mod unsafe_cache_line;

pub use ring::{Consumer, Producer, RingBuffer};

use crate::arith::{is_next_power_of_two, position_modulus};
use vstd::prelude::*;

verus! {

/// Creates a channel whose capacity is `capacity` rounded up to the next
/// power of two, and returns its producer, its consumer and the buffer they
/// share. The buffer starts empty.
pub fn channel<T>(capacity: usize) -> (result: (Producer<T>, Consumer<T>, RingBuffer<T>))
    requires
        1 <= capacity,
        2 * capacity <= position_modulus(),
    ensures
        result.0.is_producer_of(result.2),
        result.1.is_consumer_of(result.2),
        result.2@.items.len() == 0,
        result.2@.valid(),
        is_next_power_of_two(capacity as int, result.2@.capacity as int),
{
    RingBuffer::new(capacity)
}

} // verus!
