use vstd::prelude::*;

use vstd::arithmetic::div_mod::{lemma_fundamental_div_mod, lemma_fundamental_div_mod_converse, lemma_mod_breakdown};

verus! {

/// The values a memory of `cells.len()` words holds after one clock cycle in which
/// `input` was offered at `address` with the given `load` signal.
pub open spec fn write_cell(cells: Seq<u16>, input: u16, address: int, load: bool) -> Seq<u16> {
    if load {
        cells.update(address, input)
    } else {
        cells
    }
}

/// Read after write: once a loaded value has been committed by a tick, reading the
/// same address gives it back, every other address keeps its old value, and a cycle
/// without load changes nothing. Addresses are taken modulo the memory's size.
pub proof fn memory_read_after_write(cells: Seq<u16>, input: u16, address: int, probe: int)
    requires
        cells.len() > 0,
    ensures
        write_cell(cells, input, address % cells.len() as int, true)[probe % cells.len() as int]
            == if probe % cells.len() as int == address % cells.len() as int {
            input
        } else {
            cells[probe % cells.len() as int]
        },
        write_cell(cells, input, address % cells.len() as int, false) == cells,
        write_cell(cells, input, address % cells.len() as int, true).len() == cells.len(),
{
}

/// Address decoding of a memory made of `k` blocks of `b` words: the word at
/// `a % (b * k)` is word `a % b` of block `(a / b) % k`.
pub(crate) proof fn lemma_block_address(a: int, b: int, k: int)
    requires
        0 <= a,
        0 < b,
        0 < k,
    ensures
        0 < b * k,
        (a % (b * k)) / b == (a / b) % k,
        (a % (b * k)) % b == a % b,
        forall|i: int|
            #![trigger i / b, i % b]
            0 <= i < b * k ==> ((i / b == (a / b) % k && i % b == a % b) <==> i == a % (b * k)),
{
    lemma_mod_breakdown(a, b, k);
    let q = (a / b) % k;
    let r = a % b;
    assert(q * b == b * q) by (nonlinear_arith);
    lemma_fundamental_div_mod_converse(a % (b * k), b, q, r);
    assert forall|i: int|
        #![trigger i / b, i % b]
        0 <= i < b * k implies ((i / b == (a / b) % k && i % b == a % b) <==> i == a % (b * k)) by {
        lemma_fundamental_div_mod(i, b);
    }
}

} // verus!
