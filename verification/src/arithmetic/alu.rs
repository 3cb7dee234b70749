use vstd::prelude::*;

use super::adder::add16;
use crate::gates::{and16, mux16, not, not16, or, or8way};

verus! {

/// ALU output with its status flags.
#[derive(Debug, Clone, Copy, PartialEq, Eq, Structural)]
pub struct AluOutput {
    /// The 16-bit result.
    pub out: u16,
    /// Zero flag: true when `out == 0`.
    pub zr: bool,
    /// Negative flag: true when `out` is negative in two's complement (bit 15 set).
    pub ng: bool,
}

/// The ALU pipeline: optionally zero then negate each input, add (`f`) or AND them,
/// then optionally negate the output.
pub open spec fn alu_out(x: u16, y: u16, zx: bool, nx: bool, zy: bool, ny: bool, f: bool, no: bool) -> u16 {
    let x1: u16 = if zx { 0 } else { x };
    let x2: u16 = if nx { !x1 } else { x1 };
    let y1: u16 = if zy { 0 } else { y };
    let y2: u16 = if ny { !y1 } else { y1 };
    let o: u16 = if f { (x2 + y2) as u16 } else { x2 & y2 };
    if no { !o } else { o }
}

proof fn lemma_flags(out: u16)
    by (bit_vector)
    ensures
        (out as u8 != 0 || (out >> 8u16) as u8 != 0) == (out != 0),
        ((out >> 15u16) & 1 == 1) == (out >= 0x8000),
{
}

/// The Hack ALU. The six control bits select one of its functions: zero `x` (`zx`),
/// negate `x` (`nx`), the same for `y`, `f` chooses `x + y` over `x & y`, and `no`
/// negates the output. The flags report whether the output is zero and negative.
pub fn alu(x: u16, y: u16, zx: bool, nx: bool, zy: bool, ny: bool, f: bool, no: bool) -> (r: AluOutput)
    ensures
        r.out == alu_out(x, y, zx, nx, zy, ny, f, no),
        r.zr == (r.out == 0),
        r.ng == (r.out >= 0x8000),
{
    let x1 = mux16(x, 0, zx);
    let x2 = mux16(x1, not16(x1), nx);
    let y1 = mux16(y, 0, zy);
    let y2 = mux16(y1, not16(y1), ny);
    let sum = add16(x2, y2);
    let conj = and16(x2, y2);
    let o = mux16(conj, sum, f);
    let out = mux16(o, not16(o), no);
    let low = out as u8;
    let high = (out >> 8) as u8;
    let zr = not(or(or8way(low), or8way(high)));
    let ng = (out >> 15) & 1 == 1;
    proof {
        lemma_flags(out);
    }
    AluOutput { out, zr, ng }
}

/// The eighteen functions of the ALU's control table: for all inputs `x` and `y`,
/// each listed setting of `zx nx zy ny f no` computes the stated function, with
/// `+` and `-` taken modulo 2^16 (two's complement).
pub proof fn alu_operation_table(x: u16, y: u16)
    ensures
        alu_out(x, y, true, false, true, false, true, false) == 0,
        alu_out(x, y, true, true, true, true, true, true) == 1,
        alu_out(x, y, true, true, true, false, true, false) == 0xFFFF,
        alu_out(x, y, false, false, true, true, false, false) == x,
        alu_out(x, y, true, true, false, false, false, false) == y,
        alu_out(x, y, false, false, true, true, false, true) == !x,
        alu_out(x, y, true, true, false, false, false, true) == !y,
        alu_out(x, y, false, false, true, true, true, true) == (0 - x) as u16,
        alu_out(x, y, true, true, false, false, true, true) == (0 - y) as u16,
        alu_out(x, y, false, true, true, true, true, true) == (x + 1) as u16,
        alu_out(x, y, true, true, false, true, true, true) == (y + 1) as u16,
        alu_out(x, y, false, false, true, true, true, false) == (x - 1) as u16,
        alu_out(x, y, true, true, false, false, true, false) == (y - 1) as u16,
        alu_out(x, y, false, false, false, false, true, false) == (x + y) as u16,
        alu_out(x, y, false, true, false, false, true, true) == (x - y) as u16,
        alu_out(x, y, false, false, false, true, true, true) == (y - x) as u16,
        alu_out(x, y, false, false, false, false, false, false) == x & y,
        alu_out(x, y, false, true, false, true, false, true) == x | y,
{
    assert({
        &&& ((0u16 + 0u16) as u16) == 0
        &&& !((!0u16 + !0u16) as u16) == 1
        &&& ((!0u16 + 0u16) as u16) == 0xFFFF
        &&& (x & !0u16) == x
        &&& (!0u16 & y) == y
        &&& !(x & !0u16) == !x
        &&& !(!0u16 & y) == !y
        &&& !((x + !0u16) as u16) == (0 - x) as u16
        &&& !((!0u16 + y) as u16) == (0 - y) as u16
        &&& !((!x + !0u16) as u16) == (x + 1) as u16
        &&& !((!0u16 + !y) as u16) == (y + 1) as u16
        &&& ((x + !0u16) as u16) == (x - 1) as u16
        &&& ((!0u16 + y) as u16) == (y - 1) as u16
        &&& !((!x + y) as u16) == (x - y) as u16
        &&& !((x + !y) as u16) == (y - x) as u16
        &&& !(!x & !y) == x | y
    }) by (bit_vector);
}

} // verus!
