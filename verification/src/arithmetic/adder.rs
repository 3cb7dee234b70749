use vstd::prelude::*;

use crate::gates::{and, or, xor};

verus! {

/// A bit as the number 0 or 1.
pub open spec fn bit_value(b: bool) -> int {
    if b {
        1
    } else {
        0
    }
}

/// Half adder: adds two bits; the result is `(sum, carry)`.
///
/// The pair denotes the two-bit number `sum + 2 * carry`, which equals `a + b`.
pub fn half_adder(a: bool, b: bool) -> (r: (bool, bool))
    ensures
        bit_value(r.0) + 2 * bit_value(r.1) == bit_value(a) + bit_value(b),
{
    (xor(a, b), and(a, b))
}

/// Full adder: adds three bits (two operands and a carry-in) with two half adders;
/// the result is `(sum, carry)` with `sum + 2 * carry == a + b + c`.
pub fn full_adder(a: bool, b: bool, c: bool) -> (r: (bool, bool))
    ensures
        bit_value(r.0) + 2 * bit_value(r.1) == bit_value(a) + bit_value(b) + bit_value(c),
{
    let (sum1, carry1) = half_adder(a, b);
    let (sum2, carry2) = half_adder(sum1, c);
    (sum2, or(carry1, carry2))
}

/// The low `i` bits set (`i <= 16`).
pub open spec fn mask32(i: u32) -> u32 {
    ((1u32 << i) - 1) as u32
}

/// One stage of the ripple-carry adder: after bit `i` has been added, the partial
/// result and the outgoing carry together equal the sum of the low `i + 1` bits.
proof fn lemma_ripple_step(a: u32, b: u32, r: u32, c: u32, s: u32, c2: u32, i: u32)
    by (bit_vector)
    requires
        i < 16,
        a < 0x10000,
        b < 0x10000,
        c <= 1,
        s <= 1,
        c2 <= 1,
        r < (1u32 << i),
        r + (c << i) == (a & mask32(i)) + (b & mask32(i)),
        s + 2 * c2 == ((a >> i) & 1) + ((b >> i) & 1) + c,
    ensures
        (r | (s << i)) < (1u32 << (i + 1)),
        (r | (s << i)) + (c2 << (i + 1)) == (a & mask32((i + 1) as u32)) + (b & mask32((i + 1) as u32)),
{
}

proof fn lemma_ripple_bounds(a: u32, b: u32)
    by (bit_vector)
    ensures
        0u32 + (0u32 << 0u32) == (a & mask32(0u32)) + (b & mask32(0u32)),
        0u32 < (1u32 << 0u32),
{
}

proof fn lemma_ripple_done(a: u16, b: u16, r: u32, c: u32)
    by (bit_vector)
    requires
        c <= 1,
        r < (1u32 << 16u32),
        r + (c << 16u32) == ((a as u32) & mask32(16u32)) + ((b as u32) & mask32(16u32)),
    ensures
        r as u16 == (a + b) as u16,
        r == r as u16,
{
}

proof fn lemma_word_bits(a: u16, b: u16, r: u16, s: bool, i: u16)
    by (bit_vector)
    requires
        i < 16,
    ensures
        ((a as u32 >> i as u32) & 1) == (if (a >> i) & 1 == 1 {
            1u32
        } else {
            0u32
        }),
        ((b as u32 >> i as u32) & 1) == (if (b >> i) & 1 == 1 {
            1u32
        } else {
            0u32
        }),
        (if s {
            (r | (1u16 << i)) as u32
        } else {
            r as u32
        }) == (r as u32) | ((if s {
            1u32
        } else {
            0u32
        }) << i as u32),
{
}

/// 16-bit ripple-carry adder: sixteen full adders chained from bit 0 to bit 15.
///
/// The final carry-out is discarded, so the result is the sum modulo 2^16; in
/// two's complement the same circuit adds signed numbers.
pub fn add16(a: u16, b: u16) -> (r: u16)
    ensures
        r == (a + b) as u16,
{
    let mut result: u16 = 0;
    let mut carry = false;
    proof {
        lemma_ripple_bounds(a as u32, b as u32);
    }
    for i in 0..16u16
        invariant
            (result as u32) < (1u32 << i as u32),
            (result as u32) + ((bit_value(carry) as u32) << (i as u32)) == ((a as u32) & mask32(i as u32)) + ((b as u32) & mask32(i as u32)),
    {
        let bit_a = (a >> i) & 1 == 1;
        let bit_b = (b >> i) & 1 == 1;
        let (sum, next_carry) = full_adder(bit_a, bit_b, carry);
        proof {
            lemma_word_bits(a, b, result, sum, i);
            lemma_ripple_step(
                a as u32,
                b as u32,
                result as u32,
                bit_value(carry) as u32,
                bit_value(sum) as u32,
                bit_value(next_carry) as u32,
                i as u32,
            );
        }
        if sum {
            result |= 1 << i;
        }
        carry = next_carry;
    }
    proof {
        lemma_ripple_done(a, b, result as u32, bit_value(carry) as u32);
    }
    result
}

/// Increment: `a + 1` modulo 2^16, so `0xFFFF` wraps to 0.
pub fn inc16(a: u16) -> (r: u16)
    ensures
        r == (a + 1) as u16,
{
    add16(a, 1)
}

} // verus!
