//! The channel whose buffer is never torn down: [`channel`] hands out the
//! buffer wrapped in `ManuallyDrop`, so whatever is still queued when the
//! channel goes away is leaked rather than dropped, which suits channels that
//! live as long as the program. [`RingBuffer::new`] gives an owning buffer
//! that drops its remaining items instead.
pub use crate::ring::{Consumer, Producer, RingBuffer};

use crate::arith::{is_next_power_of_two, position_modulus};
use std::mem::ManuallyDrop;
use vstd::prelude::*;

verus! {

/// Creates a channel whose capacity is `capacity` rounded up to the next
/// power of two. The buffer is never dropped: items left in it are leaked.
pub fn channel<T>(capacity: usize) -> (result: (
    Producer<T>,
    Consumer<T>,
    ManuallyDrop<RingBuffer<T>>,
))
    requires
        1 <= capacity,
        2 * capacity <= position_modulus(),
    ensures
        result.0.is_producer_of(result.2@),
        result.1.is_consumer_of(result.2@),
        result.2@@.items.len() == 0,
        result.2@@.valid(),
        is_next_power_of_two(capacity as int, result.2@@.capacity as int),
{
    let (producer, consumer, rb) = RingBuffer::new(capacity);
    (producer, consumer, ManuallyDrop::new(rb))
}

} // verus!
