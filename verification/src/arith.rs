//! Arithmetic on the ring's position counters.
//!
//! Read and write positions are free-running `usize` counters that wrap
//! around at `usize::MAX + 1`; the slot a position lands in is found by
//! masking with `capacity - 1`, which is only correct because the capacity is
//! a power of two (and so divides the counter's modulus).
use vstd::arithmetic::div_mod::{
    lemma_fundamental_div_mod, lemma_mod_bound, lemma_mod_multiples_vanish,
};
use vstd::arithmetic::power2::{
    lemma2_to64, lemma_pow2_adds, lemma_pow2_pos, lemma_pow2_strictly_increases,
    lemma_pow2_unfold, pow2,
};
use vstd::bits::lemma_usize_low_bits_mask_is_mod;
use vstd::prelude::*;

verus! {

/// Number of distinct values a position counter takes before it wraps.
pub open spec fn position_modulus() -> int {
    usize::MAX as int + 1
}

/// How far the counter `to` is ahead of the counter `from`, counted modulo
/// the counter's range.
pub open spec fn distance(from: usize, to: usize) -> nat {
    if from <= to {
        (to - from) as nat
    } else {
        (to - from + position_modulus()) as nat
    }
}

/// The counter `p` moved forward by `n`, wrapping around at the top.
pub open spec fn advance(p: usize, n: usize) -> usize {
    if p + n > usize::MAX {
        (p + n - position_modulus()) as usize
    } else {
        (p + n) as usize
    }
}

/// `n` is a power of two.
pub open spec fn is_power_of_two(n: int) -> bool {
    exists|k: nat| pow2(k) == n
}

/// `p` is the smallest power of two that is at least `n`.
pub open spec fn is_next_power_of_two(n: int, p: int) -> bool {
    &&& is_power_of_two(p)
    &&& n <= p
    &&& p < 2 * n
}

/// The counter's modulus is two to the number of bits of a `usize`.
pub proof fn lemma_modulus_is_pow2()
    ensures
        usize::BITS == 32 || usize::BITS == 64,
        position_modulus() == pow2(usize::BITS as nat),
{
    lemma2_to64();
}

/// A power of two that fits in a `usize` has an exponent below the word size.
pub proof fn lemma_exponent_fits(k: nat)
    requires
        pow2(k) <= usize::MAX,
    ensures
        k < usize::BITS,
{
    lemma_modulus_is_pow2();
    if k >= usize::BITS {
        if k > usize::BITS {
            lemma_pow2_strictly_increases(usize::BITS as nat, k);
        }
    }
}

/// Moving a value by one full turn of the counter does not change its slot.
pub proof fn lemma_turn_keeps_slot(x: int, k: nat)
    requires
        k < usize::BITS,
    ensures
        (x - position_modulus()) % (pow2(k) as int) == x % (pow2(k) as int),
        (x + position_modulus()) % (pow2(k) as int) == x % (pow2(k) as int),
{
    lemma_modulus_is_pow2();
    let cap = pow2(k) as int;
    let turns = pow2((usize::BITS - k) as nat) as int;
    lemma_pow2_adds(k, (usize::BITS - k) as nat);
    lemma_pow2_pos(k);
    assert(position_modulus() == cap * turns);
    lemma_mod_multiples_vanish(-turns, x, cap);
    lemma_mod_multiples_vanish(turns, x, cap);
    assert(cap * (-turns) == -(cap * turns)) by (nonlinear_arith);
}

/// The slot of a counter equals the slot of the position it is ahead of
/// `from` by, counted without wrap.
pub proof fn lemma_position_slot(from: usize, p: usize, k: nat)
    requires
        k < usize::BITS,
    ensures
        (p as int) % (pow2(k) as int) == (from + distance(from, p)) % (pow2(k) as int),
{
    if from > p {
        lemma_turn_keeps_slot(p + position_modulus(), k);
    }
}

/// Slot `i` places after the counter `advance(p, n)` is slot `n + i` places
/// after `p`.
pub proof fn lemma_advanced_slot(p: usize, n: usize, i: int, k: nat)
    requires
        k < usize::BITS,
    ensures
        (advance(p, n) + i) % (pow2(k) as int) == (p + n + i) % (pow2(k) as int),
{
    if p + n > usize::MAX {
        lemma_turn_keeps_slot(p + n + i, k);
    }
}

/// Masking a counter with `2^k - 1` gives its slot.
pub proof fn lemma_mask_is_slot(p: usize, k: nat)
    requires
        k < usize::BITS,
    ensures
        p & ((pow2(k) - 1) as usize) == p % (pow2(k) as usize),
        p % (pow2(k) as usize) == (p as int) % (pow2(k) as int),
{
    lemma_usize_low_bits_mask_is_mod(p, k);
    lemma_pow2_pos(k);
    lemma_modulus_is_pow2();
    if k < usize::BITS {
        lemma_pow2_strictly_increases(k, usize::BITS as nat);
    }
}

/// Distinct offsets below the capacity from one base land in distinct slots.
pub proof fn lemma_distinct_slots(base: int, a: int, b: int, cap: int)
    requires
        0 < cap,
        0 <= a < cap,
        0 <= b < cap,
        a != b,
    ensures
        (base + a) % cap != (base + b) % cap,
{
    lemma_fundamental_div_mod(base + a, cap);
    lemma_fundamental_div_mod(base + b, cap);
    lemma_mod_bound(base + a, cap);
    lemma_mod_bound(base + b, cap);
    if (base + a) % cap == (base + b) % cap {
        let qa = (base + a) / cap;
        let qb = (base + b) / cap;
        assert(a - b == cap * (qa - qb)) by (nonlinear_arith)
            requires
                base + a == cap * qa + (base + a) % cap,
                base + b == cap * qb + (base + b) % cap,
                (base + a) % cap == (base + b) % cap,
        ;
        assert(false) by (nonlinear_arith)
            requires
                a - b == cap * (qa - qb),
                -cap < a - b < cap,
                a != b,
                cap > 0,
        ;
    }
}

/// Moving a counter forward by `n` puts it `n` further ahead of any
/// counter it was less than a full turn ahead of.
pub proof fn lemma_distance_after_advance(from: usize, to: usize, n: usize)
    requires
        distance(from, to) + n < position_modulus(),
    ensures
        distance(from, advance(to, n)) == distance(from, to) + n,
{
}

/// Moving the trailing counter forward by `n` shortens the distance by `n`.
pub proof fn lemma_distance_from_advanced(from: usize, to: usize, n: usize)
    requires
        n <= distance(from, to),
    ensures
        distance(advance(from, n), to) == distance(from, to) - n,
{
}

/// Two powers of two with the same lower bound `n` and below `2n` are equal:
/// rounding up to a power of two has exactly one answer.
pub proof fn lemma_next_power_of_two_unique(n: int, p: int, q: int)
    requires
        is_next_power_of_two(n, p),
        is_next_power_of_two(n, q),
    ensures
        p == q,
{
    let a = choose|k: nat| pow2(k) == p;
    let b = choose|k: nat| pow2(k) == q;
    if a < b {
        lemma_pow2_at_least_double(a, b);
    } else if b < a {
        lemma_pow2_at_least_double(b, a);
    }
}

/// A strictly larger power of two is at least twice as large.
proof fn lemma_pow2_at_least_double(a: nat, b: nat)
    requires
        a < b,
    ensures
        pow2(b) >= 2 * pow2(a),
{
    lemma_pow2_unfold(a + 1);
    if a + 1 < b {
        lemma_pow2_strictly_increases(a + 1, b);
    }
}

/// The smallest power of two that is at least `n`, the value that
/// `usize::next_power_of_two` computes.
pub fn next_power_of_two(n: usize) -> (p: usize)
    requires
        1 <= n,
        2 * n <= position_modulus(),
    ensures
        is_next_power_of_two(n as int, p as int),
{
    let mut p: usize = 1;
    let ghost mut k: nat = 0;
    assert(pow2(0) == 1) by {
        lemma2_to64();
    }
    while p < n
        invariant
            1 <= n,
            2 * n <= position_modulus(),
            p == pow2(k),
            1 <= p < 2 * n,
        decreases 2 * n - p,
    {
        proof {
            lemma_pow2_unfold(k + 1);
        }
        p = p * 2;
        proof {
            k = k + 1;
        }
    }
    assert(pow2(k) == p);
    p
}

/// The offset from `base` of the slot that lies `i` places after it is `i`.
pub proof fn lemma_offset_of_slot(base: int, i: int, cap: int)
    requires
        0 < cap,
        0 <= i < cap,
    ensures
        (((base + i) % cap) - base) % cap == i,
{
    lemma_fundamental_div_mod(base + i, cap);
    let q = (base + i) / cap;
    assert(((base + i) % cap) - base == cap * (-q) + i) by (nonlinear_arith)
        requires
            base + i == cap * q + (base + i) % cap,
    ;
    lemma_mod_multiples_vanish(-q, i, cap);
    vstd::arithmetic::div_mod::lemma_small_mod(i as nat, cap as nat);
}

/// Every slot lies its offset from `base` places after `base`.
pub proof fn lemma_slot_of_offset(base: int, j: int, cap: int)
    requires
        0 < cap,
        0 <= j < cap,
    ensures
        (base + (j - base) % cap) % cap == j,
{
    lemma_fundamental_div_mod(j - base, cap);
    let q = (j - base) / cap;
    assert(base + (j - base) % cap == cap * (-q) + j) by (nonlinear_arith)
        requires
            j - base == cap * q + (j - base) % cap,
    ;
    lemma_mod_multiples_vanish(-q, j, cap);
    vstd::arithmetic::div_mod::lemma_small_mod(j as nat, cap as nat);
}

/// Moving the base `n` places forward shortens every offset of at least `n`
/// by `n`.
pub proof fn lemma_offset_shift(base: int, n: int, j: int, cap: int)
    requires
        0 < cap,
        0 <= n <= (j - base) % cap,
    ensures
        (j - (base + n)) % cap == (j - base) % cap - n,
{
    lemma_fundamental_div_mod(j - base, cap);
    lemma_mod_bound(j - base, cap);
    let q = (j - base) / cap;
    let o = (j - base) % cap;
    assert(j - (base + n) == q * cap + (o - n)) by (nonlinear_arith)
        requires
            j - base == cap * q + o,
    ;
    vstd::arithmetic::div_mod::lemma_fundamental_div_mod_converse(j - (base + n), cap, q, o - n);
}

/// Offsets from a counter that wrapped are the offsets from the unwrapped sum.
pub proof fn lemma_offset_from_advanced(p: usize, n: usize, j: int, k: nat)
    requires
        k < usize::BITS,
    ensures
        (j - advance(p, n)) % (pow2(k) as int) == (j - (p + n)) % (pow2(k) as int),
{
    if p + n > usize::MAX {
        lemma_turn_keeps_slot(j - (p + n), k);
        assert(j - advance(p, n) == j - (p + n) + position_modulus());
    }
}

} // verus!
