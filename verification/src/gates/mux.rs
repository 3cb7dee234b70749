use vstd::prelude::*;

use super::basic::{and, not, or};

verus! {

/// MUX: selects `a` when `sel` is false and `b` when `sel` is true.
pub fn mux(a: bool, b: bool, sel: bool) -> (r: bool)
    ensures
        r == (if sel { b } else { a }),
{
    or(and(a, not(sel)), and(b, sel))
}

/// DMUX: routes `input` to the first output when `sel` is false, to the second otherwise.
pub fn dmux(input: bool, sel: bool) -> (r: (bool, bool))
    ensures
        r.0 == (input && !sel),
        r.1 == (input && sel),
{
    (and(input, not(sel)), and(input, sel))
}

} // verus!
