use ringbuffbrr::arith::next_power_of_two;
use ringbuffbrr::{channel, RingBuffer};

#[test]
fn rounds_capacity_to_next_power_of_two() {
    assert_eq!(next_power_of_two(1), 1);
    assert_eq!(next_power_of_two(2), 2);
    assert_eq!(next_power_of_two(3), 4);
    assert_eq!(next_power_of_two(5), 8);
    assert_eq!(next_power_of_two(1024), 1024);
    assert_eq!(next_power_of_two(1025), 2048);
    assert_eq!(next_power_of_two(usize::MAX / 2 + 1), usize::MAX / 2 + 1);
    assert_eq!(next_power_of_two(usize::MAX / 4 + 2), usize::MAX / 2 + 1);
}

#[test]
fn capacity_reported_after_rounding() {
    let (_p, _c, rb) = channel::<u8>(1);
    assert_eq!(rb.capacity(), 1);
    let (_p, _c, rb) = channel::<u8>(3);
    assert_eq!(rb.capacity(), 4);
    let (_p, _c, rb) = RingBuffer::<u8>::new(1000);
    assert_eq!(rb.capacity(), 1024);
}

#[test]
fn single_slot_ring_never_accepts() {
    let (mut producer, mut consumer, mut rb) = channel::<u32>(1);
    assert_eq!(producer.available_capacity(&rb), 0);
    assert!(!producer.push(&mut rb, 7));
    assert_eq!(producer.push_slice(&mut rb, &[1, 2, 3]), 0);
    assert_eq!(consumer.pop(&mut rb), None);
    assert_eq!(consumer.available(&rb), 0);
}

#[test]
fn counts_always_sum_to_usable_capacity() {
    let (mut producer, mut consumer, mut rb) = channel::<u64>(16);
    for round in 0..40u64 {
        if round % 3 == 0 {
            consumer.pop(&mut rb);
        } else {
            producer.push(&mut rb, round);
        }
        let queued = consumer.available(&rb);
        let room = producer.available_capacity(&rb);
        assert_eq!(queued + room, 15);
    }
}

#[test]
fn push_slice_takes_only_what_fits() {
    let (mut producer, mut consumer, mut rb) = channel(4);
    assert_eq!(producer.push_slice(&mut rb, &[10, 20, 30, 40, 50]), 3);
    assert!(!producer.push(&mut rb, 60));
    let mut out = [0; 8];
    assert_eq!(consumer.pop_slice(&mut rb, &mut out), 3);
    assert_eq!(out, [10, 20, 30, 0, 0, 0, 0, 0]);
}

#[test]
fn empty_batches_change_nothing() {
    let (mut producer, mut consumer, mut rb) = channel(8);
    assert!(producer.push(&mut rb, 5));
    let nothing: [i32; 0] = [];
    assert_eq!(producer.push_slice(&mut rb, &nothing), 0);
    let mut no_room: [i32; 0] = [];
    assert_eq!(consumer.pop_slice(&mut rb, &mut no_room), 0);
    assert_eq!(consumer.available(&rb), 1);
    assert_eq!(consumer.pop(&mut rb), Some(5));
}

#[test]
fn batch_push_matches_single_pushes() {
    let (mut p1, mut c1, mut rb1) = channel(8);
    let (mut p2, mut c2, mut rb2) = channel(8);
    assert!(p1.push(&mut rb1, 100));
    assert!(p2.push(&mut rb2, 100));
    let values = [1, 2, 3, 4, 5, 6, 7, 8, 9];
    let taken = p1.push_slice(&mut rb1, &values);
    let mut singles = 0;
    for v in values.iter() {
        if p2.push(&mut rb2, *v) {
            singles += 1;
        }
    }
    assert_eq!(taken, 6);
    assert_eq!(taken, singles);
    for _ in 0..8 {
        assert_eq!(c1.pop(&mut rb1), c2.pop(&mut rb2));
    }
}

#[test]
fn fifo_across_batches_and_wrap() {
    let (mut producer, mut consumer, mut rb) = channel(8);
    let mut next_in: u32 = 0;
    let mut next_out: u32 = 0;
    for round in 0..50 {
        let batch: Vec<u32> = (next_in..next_in + (round % 6)).collect();
        let pushed = producer.push_slice(&mut rb, &batch);
        next_in += pushed as u32;
        let mut out = [0u32; 4];
        let popped = consumer.pop_slice(&mut rb, &mut out);
        for v in out.iter().take(popped) {
            assert_eq!(*v, next_out);
            next_out += 1;
        }
    }
    while let Some(v) = consumer.pop(&mut rb) {
        assert_eq!(v, next_out);
        next_out += 1;
    }
    assert_eq!(next_in, next_out);
}

#[test]
fn peek_shows_next_pop() {
    let (mut producer, mut consumer, mut rb) = channel(4);
    producer.push(&mut rb, String::from("first"));
    producer.push(&mut rb, String::from("second"));
    assert_eq!(consumer.peek(&rb).cloned(), Some(String::from("first")));
    assert_eq!(consumer.pop(&mut rb), Some(String::from("first")));
    assert_eq!(consumer.peek(&rb).cloned(), Some(String::from("second")));
    assert_eq!(consumer.pop(&mut rb), Some(String::from("second")));
    assert_eq!(consumer.peek(&rb), None);
}

#[test]
fn push_then_pop_round_trip() {
    let (mut producer, mut consumer, mut rb) = channel(2);
    for v in 0..100u16 {
        assert!(producer.push(&mut rb, v));
        assert!(!producer.push(&mut rb, v + 1));
        assert_eq!(consumer.pop(&mut rb), Some(v));
        assert_eq!(consumer.pop(&mut rb), None);
    }
}

#[test]
fn reported_room_is_exactly_fillable() {
    let (mut producer, mut consumer, mut rb) = channel(8);
    producer.push(&mut rb, 0u8);
    producer.push(&mut rb, 1u8);
    let room = producer.available_capacity(&rb);
    assert_eq!(room, 5);
    for v in 0..room {
        assert!(producer.push(&mut rb, v as u8));
    }
    assert!(!producer.push(&mut rb, 99));
    consumer.pop(&mut rb);
    assert_eq!(producer.available_capacity(&rb), 1);
    assert!(producer.push(&mut rb, 100));
}

#[test]
fn peek_stable_across_pushes() {
    let (mut producer, mut consumer, mut rb) = channel(16);
    producer.push(&mut rb, 7);
    let first = *consumer.peek(&rb).unwrap();
    for v in 0..10 {
        producer.push(&mut rb, v);
        assert_eq!(consumer.peek(&rb), Some(&first));
    }
    assert_eq!(consumer.pop(&mut rb), Some(first));
}
