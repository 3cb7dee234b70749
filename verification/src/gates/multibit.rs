use vstd::prelude::*;

use super::basic::{and, not, or};
use super::mux::{dmux, mux};

verus! {

/// Bit `i` of a 16-bit word.
pub open spec fn bit_of(x: u16, i: u16) -> bool {
    (x >> i) & 1 == 1
}

/// The low `i` bits of a 16-bit word (`i <= 16`), all higher bits cleared.
pub open spec fn low_bits(x: u16, i: u16) -> u16 {
    x & (((1u32 << i) - 1) as u16)
}

/// Setting bit `i` of the accumulator exactly when bit `i` of the target is set
/// extends "the accumulator holds the low `i` bits of the target" by one bit.
pub(crate) proof fn lemma_accumulate_bit(acc: u16, target: u16, i: u16)
    requires
        i < 16,
        acc == low_bits(target, i),
    ensures
        bit_of(target, i) ==> (acc | (1u16 << i)) == low_bits(target, (i + 1) as u16),
        !bit_of(target, i) ==> acc == low_bits(target, (i + 1) as u16),
{
    assert(i < 16 && acc == target & (((1u32 << i) - 1) as u16) ==> {
        &&& ((target >> i) & 1 == 1) ==> (acc | (1u16 << i)) == target & (((1u32 << ((i
            + 1) as u16)) - 1) as u16)
        &&& ((target >> i) & 1 != 1) ==> acc == target & (((1u32 << ((i + 1) as u16)) - 1) as u16)
    }) by (bit_vector);
}

pub(crate) proof fn lemma_low_bits_ends(x: u16)
    ensures
        low_bits(x, 0) == 0,
        low_bits(x, 16) == x,
{
    assert(x & (((1u32 << 0u16) - 1) as u16) == 0) by (bit_vector);
    assert(x & (((1u32 << 16u16) - 1) as u16) == x) by (bit_vector);
}

/// Per-bit facts about the bitwise operators, used to show that the bit-serial
/// loops below compute exactly the word-level operation.
proof fn lemma_bitwise_bits(a: u16, b: u16, i: u16)
    requires
        i < 16,
    ensures
        bit_of(!a, i) == !bit_of(a, i),
        bit_of(a & b, i) == (bit_of(a, i) && bit_of(b, i)),
        bit_of(a | b, i) == (bit_of(a, i) || bit_of(b, i)),
{
    assert(i < 16 ==> {
        &&& (((!a) >> i) & 1 == 1) == !((a >> i) & 1 == 1)
        &&& (((a & b) >> i) & 1 == 1) == (((a >> i) & 1 == 1) && ((b >> i) & 1 == 1))
        &&& (((a | b) >> i) & 1 == 1) == (((a >> i) & 1 == 1) || ((b >> i) & 1 == 1))
    }) by (bit_vector);
}

/// 16-bit NOT: every bit inverted.
pub fn not16(a: u16) -> (r: u16)
    ensures
        r == !a,
{
    let mut result: u16 = 0;
    proof {
        lemma_low_bits_ends(!a);
    }
    for i in 0..16u16
        invariant
            result == low_bits(!a, i),
    {
        let bit = (a >> i) & 1 == 1;
        proof {
            lemma_bitwise_bits(a, a, i);
            lemma_accumulate_bit(result, !a, i);
        }
        if not(bit) {
            result |= 1 << i;
        }
    }
    proof {
        lemma_low_bits_ends(!a);
    }
    result
}

/// 16-bit AND, bit by bit.
pub fn and16(a: u16, b: u16) -> (r: u16)
    ensures
        r == a & b,
{
    let mut result: u16 = 0;
    proof {
        lemma_low_bits_ends(a & b);
    }
    for i in 0..16u16
        invariant
            result == low_bits(a & b, i),
    {
        let bit_a = (a >> i) & 1 == 1;
        let bit_b = (b >> i) & 1 == 1;
        proof {
            lemma_bitwise_bits(a, b, i);
            lemma_accumulate_bit(result, a & b, i);
        }
        if and(bit_a, bit_b) {
            result |= 1 << i;
        }
    }
    proof {
        lemma_low_bits_ends(a & b);
    }
    result
}

/// 16-bit OR, bit by bit.
pub fn or16(a: u16, b: u16) -> (r: u16)
    ensures
        r == a | b,
{
    let mut result: u16 = 0;
    proof {
        lemma_low_bits_ends(a | b);
    }
    for i in 0..16u16
        invariant
            result == low_bits(a | b, i),
    {
        let bit_a = (a >> i) & 1 == 1;
        let bit_b = (b >> i) & 1 == 1;
        proof {
            lemma_bitwise_bits(a, b, i);
            lemma_accumulate_bit(result, a | b, i);
        }
        if or(bit_a, bit_b) {
            result |= 1 << i;
        }
    }
    proof {
        lemma_low_bits_ends(a | b);
    }
    result
}

/// 16-bit MUX: the whole word `a` when `sel` is false, `b` when it is true.
pub fn mux16(a: u16, b: u16, sel: bool) -> (r: u16)
    ensures
        r == (if sel { b } else { a }),
{
    let ghost target: u16 = if sel { b } else { a };
    let mut result: u16 = 0;
    proof {
        lemma_low_bits_ends(target);
    }
    for i in 0..16u16
        invariant
            target == (if sel { b } else { a }),
            result == low_bits(target, i),
    {
        let bit_a = (a >> i) & 1 == 1;
        let bit_b = (b >> i) & 1 == 1;
        proof {
            lemma_accumulate_bit(result, target, i);
        }
        if mux(bit_a, bit_b, sel) {
            result |= 1 << i;
        }
    }
    proof {
        lemma_low_bits_ends(target);
    }
    result
}

/// 8-way OR: true when any bit of the byte is set.
pub fn or8way(input: u8) -> (r: bool)
    ensures
        r == (input != 0),
{
    let b0 = (input >> 0) & 1 == 1;
    let b1 = (input >> 1) & 1 == 1;
    let b2 = (input >> 2) & 1 == 1;
    let b3 = (input >> 3) & 1 == 1;
    let b4 = (input >> 4) & 1 == 1;
    let b5 = (input >> 5) & 1 == 1;
    let b6 = (input >> 6) & 1 == 1;
    let b7 = (input >> 7) & 1 == 1;
    assert((input != 0) == ((input >> 0u8) & 1 == 1 || (input >> 1u8) & 1 == 1 || (input >> 2u8)
        & 1 == 1 || (input >> 3u8) & 1 == 1 || (input >> 4u8) & 1 == 1 || (input >> 5u8) & 1 == 1
        || (input >> 6u8) & 1 == 1 || (input >> 7u8) & 1 == 1)) by (bit_vector);
    or(or(or(b0, b1), or(b2, b3)), or(or(b4, b5), or(b6, b7)))
}

/// 4-way 16-bit MUX. `sel[0]` is the high selector bit, `sel[1]` the low one:
/// selector 00 picks `a`, 01 `b`, 10 `c`, 11 `d`.
pub fn mux4way16(a: u16, b: u16, c: u16, d: u16, sel: [bool; 2]) -> (r: u16)
    ensures
        r == (if sel[0] {
            if sel[1] {
                d
            } else {
                c
            }
        } else {
            if sel[1] {
                b
            } else {
                a
            }
        }),
{
    let ab = mux16(a, b, sel[1]);
    let cd = mux16(c, d, sel[1]);
    mux16(ab, cd, sel[0])
}

/// 8-way 16-bit MUX. `sel[0]` is the high selector bit, `sel[2]` the low one;
/// the selector read as a 3-bit number picks the input of that index.
pub fn mux8way16(
    a: u16,
    b: u16,
    c: u16,
    d: u16,
    e: u16,
    f: u16,
    g: u16,
    h: u16,
    sel: [bool; 3],
) -> (r: u16)
    ensures
        r == seq![a, b, c, d, e, f, g, h][selector3(sel)],
{
    let abcd = mux4way16(a, b, c, d, [sel[1], sel[2]]);
    let efgh = mux4way16(e, f, g, h, [sel[1], sel[2]]);
    mux16(abcd, efgh, sel[0])
}

/// The number 0..8 that a 3-bit selector denotes, `sel[0]` being the high bit.
pub open spec fn selector3(sel: [bool; 3]) -> int {
    (if sel[0] { 4int } else { 0int }) + (if sel[1] { 2int } else { 0int }) + (if sel[2] {
        1int
    } else {
        0int
    })
}

/// The number 0..4 that a 2-bit selector denotes, `sel[0]` being the high bit.
pub open spec fn selector2(sel: [bool; 2]) -> int {
    (if sel[0] { 2int } else { 0int }) + (if sel[1] { 1int } else { 0int })
}

/// 4-way DMUX: `input` appears on the output whose index the selector denotes;
/// every other output is false.
pub fn dmux4way(input: bool, sel: [bool; 2]) -> (r: (bool, bool, bool, bool))
    ensures
        r.0 == (input && selector2(sel) == 0),
        r.1 == (input && selector2(sel) == 1),
        r.2 == (input && selector2(sel) == 2),
        r.3 == (input && selector2(sel) == 3),
{
    let (top, bottom) = dmux(input, sel[0]);
    let (a, b) = dmux(top, sel[1]);
    let (c, d) = dmux(bottom, sel[1]);
    (a, b, c, d)
}

/// 8-way DMUX: `input` appears on the output whose index the selector denotes;
/// every other output is false.
pub fn dmux8way(input: bool, sel: [bool; 3]) -> (r: (bool, bool, bool, bool, bool, bool, bool, bool))
    ensures
        r.0 == (input && selector3(sel) == 0),
        r.1 == (input && selector3(sel) == 1),
        r.2 == (input && selector3(sel) == 2),
        r.3 == (input && selector3(sel) == 3),
        r.4 == (input && selector3(sel) == 4),
        r.5 == (input && selector3(sel) == 5),
        r.6 == (input && selector3(sel) == 6),
        r.7 == (input && selector3(sel) == 7),
{
    let (top, bottom) = dmux(input, sel[0]);
    let (a, b, c, d) = dmux4way(top, [sel[1], sel[2]]);
    let (e, f, g, h) = dmux4way(bottom, [sel[1], sel[2]]);
    (a, b, c, d, e, f, g, h)
}

} // verus!
