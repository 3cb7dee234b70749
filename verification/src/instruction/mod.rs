//! Hack machine language: decoding and encoding of 16-bit instruction words.
mod parser;

pub use parser::{
    comp_code, comp_from_code, encode_instruction, encode_word, parse_instruction, parse_word,
    AInstruction, CInstruction, Comp, Dest, Instruction, Jump, comp_code_roundtrip,
    dest_bits_roundtrip, jump_bits_roundtrip, parse_then_encode, encode_then_parse,
    jump_code, jump_from_code,
};
