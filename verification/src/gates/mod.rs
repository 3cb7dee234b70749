//! Combinational logic, every gate derived from NAND.
mod basic;
mod multibit;
mod mux;

pub use basic::{and, nand, not, or, xor};
pub use multibit::{
    and16, bit_of, dmux4way, dmux8way, low_bits, mux16, mux4way16, mux8way16, not16, or16, or8way,
    selector2, selector3,
};
pub(crate) use multibit::{lemma_accumulate_bit, lemma_low_bits_ends};
pub use mux::{dmux, mux};
