use ringbuffbrr::unsafe_cache_line::{channel, RingBuffer};
use std::sync::atomic::{AtomicUsize, Ordering};

#[test]
fn test_basic_push_pop() {
    let (mut producer, mut consumer, mut rb) = RingBuffer::new(4);

    // Test push and pop
    assert!(producer.push(&mut rb, 1));
    assert!(producer.push(&mut rb, 2));
    assert!(producer.push(&mut rb, 3));

    assert_eq!(consumer.pop(&mut rb), Some(1));
    assert_eq!(consumer.pop(&mut rb), Some(2));
    assert_eq!(consumer.pop(&mut rb), Some(3));
    assert_eq!(consumer.pop(&mut rb), None);
}

#[test]
fn test_buffer_full() {
    let (mut producer, mut consumer, mut rb) = RingBuffer::new(4); // Actual capacity is 4

    // Fill buffer (can only use capacity-1 slots)
    assert!(producer.push(&mut rb, 1));
    assert!(producer.push(&mut rb, 2));
    assert!(producer.push(&mut rb, 3));
    assert!(!producer.push(&mut rb, 4)); // Should fail - buffer full

    // Pop one and try again
    assert_eq!(consumer.pop(&mut rb), Some(1));
    assert!(producer.push(&mut rb, 4)); // Should succeed now
    assert!(!producer.push(&mut rb, 5)); // Should fail again
}

#[test]
fn test_power_of_two_rounding() {
    let (mut producer, mut consumer, mut rb) = RingBuffer::new(5); // Should round up to 8
    assert_eq!(rb.capacity(), 8);

    // Should be able to push 7 items (capacity-1)
    for i in 1..=7 {
        assert!(producer.push(&mut rb, i), "Failed to push {}", i);
    }
    assert!(!producer.push(&mut rb, 8)); // Should fail

    // Verify all items
    for i in 1..=7 {
        assert_eq!(consumer.pop(&mut rb), Some(i));
    }
}

#[test]
fn unsafe_cache_line_test_batch_operations() {
    let (mut producer, mut consumer, mut rb) = RingBuffer::new(16);

    // Test push_slice
    let data = [1, 2, 3, 4, 5];
    assert_eq!(producer.push_slice(&mut rb, &data), 5);

    // Test pop_slice
    let mut out = [0; 3];
    assert_eq!(consumer.pop_slice(&mut rb, &mut out), 3);
    assert_eq!(out, [1, 2, 3]);

    // Pop remaining
    let mut out = [0; 5];
    assert_eq!(consumer.pop_slice(&mut rb, &mut out), 2);
    assert_eq!(&out[..2], &[4, 5]);
}

#[test]
fn test_available_capacity() {
    let (mut producer, mut consumer, mut rb) = RingBuffer::new(8);

    assert_eq!(producer.available_capacity(&rb), 7); // capacity-1

    producer.push(&mut rb, 1);
    producer.push(&mut rb, 2);
    assert_eq!(producer.available_capacity(&rb), 5);

    consumer.pop(&mut rb);
    assert_eq!(producer.available_capacity(&rb), 6);
}

#[test]
fn test_available_items() {
    let (mut producer, mut consumer, mut rb) = RingBuffer::new(8);

    assert_eq!(consumer.available(&rb), 0);

    producer.push(&mut rb, 1);
    producer.push(&mut rb, 2);
    producer.push(&mut rb, 3);
    assert_eq!(consumer.available(&rb), 3);

    consumer.pop(&mut rb);
    assert_eq!(consumer.available(&rb), 2);
}

#[test]
fn unsafe_cache_line_test_peek() {
    let (mut producer, mut consumer, mut rb) = RingBuffer::new(4);

    assert_eq!(consumer.peek(&rb), None);

    producer.push(&mut rb, 42);
    producer.push(&mut rb, 43);

    // Peek shouldn't consume
    assert_eq!(consumer.peek(&rb), Some(&42));
    assert_eq!(consumer.peek(&rb), Some(&42));

    // Pop and peek next
    assert_eq!(consumer.pop(&mut rb), Some(42));
    assert_eq!(consumer.peek(&rb), Some(&43));
}

static DROP_COUNT: AtomicUsize = AtomicUsize::new(0);

struct DropCounter(#[allow(dead_code)] usize);

impl Drop for DropCounter {
    fn drop(&mut self) {
        DROP_COUNT.fetch_add(1, Ordering::SeqCst);
    }
}

#[test]
fn unsafe_cache_line_test_drop_cleanup() {
    // Test that items are properly dropped
    DROP_COUNT.store(0, Ordering::SeqCst);

    {
        let (mut producer, mut consumer, mut rb) = RingBuffer::new(8);

        producer.push(&mut rb, DropCounter(1));
        producer.push(&mut rb, DropCounter(2));
        producer.push(&mut rb, DropCounter(3));

        // Pop one item
        let _ = consumer.pop(&mut rb);
        assert_eq!(DROP_COUNT.load(Ordering::SeqCst), 1);

        // Remaining items should be dropped when the buffer is dropped
    }

    assert_eq!(DROP_COUNT.load(Ordering::SeqCst), 3);
}

#[test]
fn test_channel_convenience() {
    // Test the convenience channel function
    let (mut producer, mut consumer, mut rb) = channel::<i32>(8);

    producer.push(&mut rb, 1);
    producer.push(&mut rb, 2);

    assert_eq!(consumer.pop(&mut rb), Some(1));
    assert_eq!(consumer.pop(&mut rb), Some(2));
    assert_eq!(consumer.pop(&mut rb), None);
}

#[test]
fn test_wrap_around() {
    let (mut producer, mut consumer, mut rb) = RingBuffer::new(4);

    // Fill and drain multiple times to test wrap-around
    for cycle in 0..10 {
        for i in 0..3 {
            assert!(producer.push(&mut rb, cycle * 10 + i));
        }
        for i in 0..3 {
            assert_eq!(consumer.pop(&mut rb), Some(cycle * 10 + i));
        }
    }
}

#[test]
fn test_zero_sized_types() {
    #[derive(Debug, PartialEq)]
    struct ZeroSized;

    let (mut producer, mut consumer, mut rb) = RingBuffer::new(4);

    producer.push(&mut rb, ZeroSized);
    producer.push(&mut rb, ZeroSized);

    assert_eq!(consumer.pop(&mut rb), Some(ZeroSized));
    assert_eq!(consumer.pop(&mut rb), Some(ZeroSized));
    assert_eq!(consumer.pop(&mut rb), None);
}

static LEAK_DROP_COUNT: AtomicUsize = AtomicUsize::new(0);

struct LeakCounter(#[allow(dead_code)] usize);

impl Drop for LeakCounter {
    fn drop(&mut self) {
        LEAK_DROP_COUNT.fetch_add(1, Ordering::SeqCst);
    }
}

#[test]
fn channel_leaks_items_left_behind() {
    LEAK_DROP_COUNT.store(0, Ordering::SeqCst);
    {
        let (mut producer, mut consumer, mut rb) = channel(8);
        producer.push(&mut rb, LeakCounter(1));
        producer.push(&mut rb, LeakCounter(2));
        producer.push(&mut rb, LeakCounter(3));
        let _ = consumer.pop(&mut rb);
        assert_eq!(LEAK_DROP_COUNT.load(Ordering::SeqCst), 1);
    }
    // The channel's buffer is never torn down: the two queued items stay.
    assert_eq!(LEAK_DROP_COUNT.load(Ordering::SeqCst), 1);
}
