//! Arithmetic chips built from gates: adders and the ALU.
mod adder;
mod alu;

pub use adder::{add16, full_adder, half_adder, inc16, bit_value};
pub use alu::{alu, alu_out, alu_operation_table, AluOutput};
