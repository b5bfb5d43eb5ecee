# ringbuffbrr

A single-producer, single-consumer ring buffer, verified with Verus.

A `RingBuffer` owns the slots and the published read and write positions; a
`Producer` and a `Consumer` each own one position and cache the other, and
every operation takes the buffer explicitly. The capacity is rounded up to a
power of two and one slot always stays free, so at most `capacity - 1` items
are queued. Positions are wrapping `usize` counters masked into slots.

Layout:

- `src/model.rs` — the abstract queue (`RingState`) that every contract is
  stated over, and its laws (first in first out, batch operations equal
  repeated single ones, queued + free = capacity - 1, the reported room is
  exactly what pushes can fill, pushes keep the front, validity is kept).
- `src/arith.rs` — wrapping position arithmetic, the mask-equals-modulo
  facts, and a verified `next_power_of_two`.
- `src/ring.rs` — `RingBuffer`, `Producer`, `Consumer` and their operations.
- `src/lib.rs` — `channel`, which returns an owning buffer that drops
  whatever is still queued when it goes away.
- `src/unsafe_cache_line.rs` — `channel` for long-lived channels: the buffer
  comes wrapped in `ManuallyDrop`, so items left in it are leaked.
- `app/lib.rs` — a mutex-based wrapper that lets the two ends live on two
  threads.
