use vstd::prelude::*;

verus! {

/// NAND: false exactly when both inputs are true. Every other gate is built from it.
pub fn nand(a: bool, b: bool) -> (r: bool)
    ensures
        r == !(a && b),
{
    !(a && b)
}

/// NOT, as NAND of an input with itself.
pub fn not(a: bool) -> (r: bool)
    ensures
        r == !a,
{
    nand(a, a)
}

/// AND, as the negation of NAND.
pub fn and(a: bool, b: bool) -> (r: bool)
    ensures
        r == (a && b),
{
    not(nand(a, b))
}

/// OR, by De Morgan: NAND of the negated inputs.
pub fn or(a: bool, b: bool) -> (r: bool)
    ensures
        r == (a || b),
{
    nand(not(a), not(b))
}

/// XOR: true when exactly one input is true.
pub fn xor(a: bool, b: bool) -> (r: bool)
    ensures
        r == (a != b),
{
    and(or(a, b), nand(a, b))
}

} // verus!
