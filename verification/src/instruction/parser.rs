use vstd::prelude::*;

verus! {

/// A-instruction: loads a 15-bit value (0..=32767) into the A register.
#[derive(Debug, Clone, Copy, PartialEq, Eq, Structural)]
pub struct AInstruction {
    /// The value to load.
    pub value: u16,
}

/// Destination of a C-instruction: which of A, D and M receive the result.
#[derive(Debug, Clone, Copy, PartialEq, Eq, Structural)]
pub struct Dest {
    /// Store in the A register.
    pub a: bool,
    /// Store in the D register.
    pub d: bool,
    /// Store in M (RAM[A]).
    pub m: bool,
}

impl Default for Dest {
    /// No destination.
    fn default() -> (r: Self)
        ensures
            r == (Dest { a: false, d: false, m: false }),
    {
        Dest { a: false, d: false, m: false }
    }
}

impl Dest {
    /// The 3-bit `ddd` field this destination encodes to.
    pub open spec fn code(self) -> int {
        (if self.a { 4int } else { 0int }) + (if self.d { 2int } else { 0int }) + (if self.m {
            1int
        } else {
            0int
        })
    }

    /// Decodes the 3-bit `ddd` field: bit 2 is A, bit 1 is D, bit 0 is M.
    /// Bits above the field are ignored.
    pub fn from_bits(bits: u8) -> (r: Self)
        ensures
            r.a == ((bits / 4) % 2 == 1),
            r.d == ((bits / 2) % 2 == 1),
            r.m == (bits % 2 == 1),
            r.code() == bits % 8,
    {
        let a = (bits / 4) % 2 == 1;
        let d = (bits / 2) % 2 == 1;
        let m = bits % 2 == 1;
        Dest { a, d, m }
    }

    /// Encodes to the 3-bit `ddd` field.
    pub fn to_bits(&self) -> (r: u8)
        ensures
            r == self.code(),
    {
        let mut r: u8 = 0;
        if self.a {
            r += 4;
        }
        if self.d {
            r += 2;
        }
        if self.m {
            r += 1;
        }
        r
    }
}

/// Computation of a C-instruction.
#[derive(Debug, Clone, Copy, PartialEq, Eq, Structural)]
pub enum Comp {
    Zero,
    One,
    MinusOne,
    D,
    NotD,
    MinusD,
    DPlusOne,
    DMinusOne,
    A,
    NotA,
    MinusA,
    APlusOne,
    AMinusOne,
    M,
    NotM,
    MinusM,
    MPlusOne,
    MMinusOne,
    DPlusA,
    DMinusA,
    AMinusD,
    DAndA,
    DOrA,
    DPlusM,
    DMinusM,
    MMinusD,
    DAndM,
    DOrM,
}

/// The 7-bit `a cccccc` code of each computation (the Hack comp table).
pub open spec fn comp_code(c: Comp) -> u8 {
    match c {
        Comp::Zero => 0b0101010,
        Comp::One => 0b0111111,
        Comp::MinusOne => 0b0111010,
        Comp::D => 0b0001100,
        Comp::NotD => 0b0001101,
        Comp::MinusD => 0b0001111,
        Comp::DPlusOne => 0b0011111,
        Comp::DMinusOne => 0b0001110,
        Comp::A => 0b0110000,
        Comp::NotA => 0b0110001,
        Comp::MinusA => 0b0110011,
        Comp::APlusOne => 0b0110111,
        Comp::AMinusOne => 0b0110010,
        Comp::M => 0b1110000,
        Comp::NotM => 0b1110001,
        Comp::MinusM => 0b1110011,
        Comp::MPlusOne => 0b1110111,
        Comp::MMinusOne => 0b1110010,
        Comp::DPlusA => 0b0000010,
        Comp::DMinusA => 0b0010011,
        Comp::AMinusD => 0b0000111,
        Comp::DAndA => 0b0000000,
        Comp::DOrA => 0b0010101,
        Comp::DPlusM => 0b1000010,
        Comp::DMinusM => 0b1010011,
        Comp::MMinusD => 0b1000111,
        Comp::DAndM => 0b1000000,
        Comp::DOrM => 0b1010101,
    }
}

/// The computation a 7-bit code denotes, if any.
pub open spec fn comp_from_code(bits: u8) -> Option<Comp> {
    if bits == 0b0101010 {
        Some(Comp::Zero)
    } else if bits == 0b0111111 {
        Some(Comp::One)
    } else if bits == 0b0111010 {
        Some(Comp::MinusOne)
    } else if bits == 0b0001100 {
        Some(Comp::D)
    } else if bits == 0b0001101 {
        Some(Comp::NotD)
    } else if bits == 0b0001111 {
        Some(Comp::MinusD)
    } else if bits == 0b0011111 {
        Some(Comp::DPlusOne)
    } else if bits == 0b0001110 {
        Some(Comp::DMinusOne)
    } else if bits == 0b0110000 {
        Some(Comp::A)
    } else if bits == 0b0110001 {
        Some(Comp::NotA)
    } else if bits == 0b0110011 {
        Some(Comp::MinusA)
    } else if bits == 0b0110111 {
        Some(Comp::APlusOne)
    } else if bits == 0b0110010 {
        Some(Comp::AMinusOne)
    } else if bits == 0b1110000 {
        Some(Comp::M)
    } else if bits == 0b1110001 {
        Some(Comp::NotM)
    } else if bits == 0b1110011 {
        Some(Comp::MinusM)
    } else if bits == 0b1110111 {
        Some(Comp::MPlusOne)
    } else if bits == 0b1110010 {
        Some(Comp::MMinusOne)
    } else if bits == 0b0000010 {
        Some(Comp::DPlusA)
    } else if bits == 0b0010011 {
        Some(Comp::DMinusA)
    } else if bits == 0b0000111 {
        Some(Comp::AMinusD)
    } else if bits == 0b0000000 {
        Some(Comp::DAndA)
    } else if bits == 0b0010101 {
        Some(Comp::DOrA)
    } else if bits == 0b1000010 {
        Some(Comp::DPlusM)
    } else if bits == 0b1010011 {
        Some(Comp::DMinusM)
    } else if bits == 0b1000111 {
        Some(Comp::MMinusD)
    } else if bits == 0b1000000 {
        Some(Comp::DAndM)
    } else if bits == 0b1010101 {
        Some(Comp::DOrM)
    } else {
        None
    }
}

impl Comp {
    /// Decodes the 7-bit `a cccccc` field; `None` for a code outside the table.
    pub fn from_bits(bits: u8) -> (r: Option<Self>)
        ensures
            r == comp_from_code(bits),
    {
        match bits {
            0b0101010 => Some(Comp::Zero),
            0b0111111 => Some(Comp::One),
            0b0111010 => Some(Comp::MinusOne),
            0b0001100 => Some(Comp::D),
            0b0001101 => Some(Comp::NotD),
            0b0001111 => Some(Comp::MinusD),
            0b0011111 => Some(Comp::DPlusOne),
            0b0001110 => Some(Comp::DMinusOne),
            0b0110000 => Some(Comp::A),
            0b0110001 => Some(Comp::NotA),
            0b0110011 => Some(Comp::MinusA),
            0b0110111 => Some(Comp::APlusOne),
            0b0110010 => Some(Comp::AMinusOne),
            0b1110000 => Some(Comp::M),
            0b1110001 => Some(Comp::NotM),
            0b1110011 => Some(Comp::MinusM),
            0b1110111 => Some(Comp::MPlusOne),
            0b1110010 => Some(Comp::MMinusOne),
            0b0000010 => Some(Comp::DPlusA),
            0b0010011 => Some(Comp::DMinusA),
            0b0000111 => Some(Comp::AMinusD),
            0b0000000 => Some(Comp::DAndA),
            0b0010101 => Some(Comp::DOrA),
            0b1000010 => Some(Comp::DPlusM),
            0b1010011 => Some(Comp::DMinusM),
            0b1000111 => Some(Comp::MMinusD),
            0b1000000 => Some(Comp::DAndM),
            0b1010101 => Some(Comp::DOrM),
            _ => None,
        }
    }

    /// Encodes to the 7-bit `a cccccc` field.
    pub fn to_bits(&self) -> (r: u8)
        ensures
            r == comp_code(*self),
    {
        match self {
            Comp::Zero => 0b0101010,
            Comp::One => 0b0111111,
            Comp::MinusOne => 0b0111010,
            Comp::D => 0b0001100,
            Comp::NotD => 0b0001101,
            Comp::MinusD => 0b0001111,
            Comp::DPlusOne => 0b0011111,
            Comp::DMinusOne => 0b0001110,
            Comp::A => 0b0110000,
            Comp::NotA => 0b0110001,
            Comp::MinusA => 0b0110011,
            Comp::APlusOne => 0b0110111,
            Comp::AMinusOne => 0b0110010,
            Comp::M => 0b1110000,
            Comp::NotM => 0b1110001,
            Comp::MinusM => 0b1110011,
            Comp::MPlusOne => 0b1110111,
            Comp::MMinusOne => 0b1110010,
            Comp::DPlusA => 0b0000010,
            Comp::DMinusA => 0b0010011,
            Comp::AMinusD => 0b0000111,
            Comp::DAndA => 0b0000000,
            Comp::DOrA => 0b0010101,
            Comp::DPlusM => 0b1000010,
            Comp::DMinusM => 0b1010011,
            Comp::MMinusD => 0b1000111,
            Comp::DAndM => 0b1000000,
            Comp::DOrM => 0b1010101,
        }
    }

    /// True when the computation reads M (RAM[A]) instead of A, which is exactly
    /// when the `a` bit of its code is set.
    pub fn uses_memory(&self) -> (r: bool)
        ensures
            r == (comp_code(*self) >= 64),
            r == (*self is M || *self is NotM || *self is MinusM || *self is MPlusOne
                || *self is MMinusOne || *self is DPlusM || *self is DMinusM || *self is MMinusD
                || *self is DAndM || *self is DOrM),
    {
        match self {
            Comp::M | Comp::NotM | Comp::MinusM | Comp::MPlusOne | Comp::MMinusOne | Comp::DPlusM
            | Comp::DMinusM | Comp::MMinusD | Comp::DAndM | Comp::DOrM => true,
            _ => false,
        }
    }
}

/// Jump condition of a C-instruction.
#[derive(Debug, Clone, Copy, PartialEq, Eq, Structural)]
pub enum Jump {
    /// No jump (000).
    Null,
    /// Jump if out > 0 (001).
    JGT,
    /// Jump if out = 0 (010).
    JEQ,
    /// Jump if out >= 0 (011).
    JGE,
    /// Jump if out < 0 (100).
    JLT,
    /// Jump if out != 0 (101).
    JNE,
    /// Jump if out <= 0 (110).
    JLE,
    /// Unconditional jump (111).
    JMP,
}

impl Default for Jump {
    /// No jump.
    fn default() -> (r: Self)
        ensures
            r == Jump::Null,
    {
        Jump::Null
    }
}

/// The 3-bit `jjj` code of each jump condition.
pub open spec fn jump_code(j: Jump) -> u8 {
    match j {
        Jump::Null => 0,
        Jump::JGT => 1,
        Jump::JEQ => 2,
        Jump::JGE => 3,
        Jump::JLT => 4,
        Jump::JNE => 5,
        Jump::JLE => 6,
        Jump::JMP => 7,
    }
}

/// The jump condition a 3-bit code denotes (every code 0..8 denotes one).
pub open spec fn jump_from_code(bits: u8) -> Jump {
    if bits == 0 {
        Jump::Null
    } else if bits == 1 {
        Jump::JGT
    } else if bits == 2 {
        Jump::JEQ
    } else if bits == 3 {
        Jump::JGE
    } else if bits == 4 {
        Jump::JLT
    } else if bits == 5 {
        Jump::JNE
    } else if bits == 6 {
        Jump::JLE
    } else {
        Jump::JMP
    }
}

impl Jump {
    /// Decodes the 3-bit `jjj` field; bits above the field are ignored.
    pub fn from_bits(bits: u8) -> (r: Self)
        ensures
            r == jump_from_code(bits % 8),
    {
        match bits % 8 {
            0 => Jump::Null,
            1 => Jump::JGT,
            2 => Jump::JEQ,
            3 => Jump::JGE,
            4 => Jump::JLT,
            5 => Jump::JNE,
            6 => Jump::JLE,
            _ => Jump::JMP,
        }
    }

    /// Encodes to the 3-bit `jjj` field.
    pub fn to_bits(&self) -> (r: u8)
        ensures
            r == jump_code(*self),
    {
        match self {
            Jump::Null => 0,
            Jump::JGT => 1,
            Jump::JEQ => 2,
            Jump::JGE => 3,
            Jump::JLT => 4,
            Jump::JNE => 5,
            Jump::JLE => 6,
            Jump::JMP => 7,
        }
    }
}

/// C-instruction: compute, optionally store, optionally jump.
#[derive(Debug, Clone, Copy, PartialEq, Eq, Structural)]
pub struct CInstruction {
    /// What to compute.
    pub comp: Comp,
    /// Where to store the result.
    pub dest: Dest,
    /// When to jump.
    pub jump: Jump,
}

/// A Hack instruction: an A- or a C-instruction.
#[derive(Debug, Clone, Copy, PartialEq, Eq, Structural)]
pub enum Instruction {
    A(AInstruction),
    C(CInstruction),
}

/// The instruction a 16-bit word denotes: `0vvv vvvv vvvv vvvv` is an A-instruction
/// with the 15-bit value `v`; `111a cccc ccdd djjj` is a C-instruction whose comp
/// field must be one of the table's codes. Every other word is malformed.
pub open spec fn parse_word(word: u16) -> Option<Instruction> {
    if word < 0x8000 {
        Some(Instruction::A(AInstruction { value: word }))
    } else if word < 0xE000 {
        None
    } else {
        match comp_from_code(((word / 64) % 128) as u8) {
            Some(comp) => Some(
                Instruction::C(
                    CInstruction {
                        comp,
                        dest: Dest {
                            a: (word / 32) % 2 == 1,
                            d: (word / 16) % 2 == 1,
                            m: (word / 8) % 2 == 1,
                        },
                        jump: jump_from_code((word % 8) as u8),
                    },
                ),
            ),
            None => None,
        }
    }
}

/// The 16-bit word of an instruction: the value itself for an A-instruction,
/// `111` followed by the comp, dest and jump fields for a C-instruction.
pub open spec fn encode_word(inst: Instruction) -> int {
    match inst {
        Instruction::A(a) => a.value as int,
        Instruction::C(c) => 0xE000 + 64 * comp_code(c.comp) + 8 * c.dest.code() + jump_code(
            c.jump,
        ),
    }
}

proof fn lemma_fields(word: u16)
    by (bit_vector)
    ensures
        ((word >> 15u16) & 1u16 == 0u16) == (word < 0x8000u16),
        ((word >> 13u16) & 7u16 == 7u16) == (word >= 0xE000u16),
        (word >> 6u16) & 0x7Fu16 == (word / 64u16) % 128u16,
        (word >> 3u16) & 7u16 == (word / 8u16) % 8u16,
        word & 7u16 == word % 8u16,
        word < 0x8000u16 ==> word & 0x7FFFu16 == word,
{
}

proof fn lemma_assemble(c: u16, d: u16, j: u16)
    by (bit_vector)
    requires
        c < 128u16,
        d < 8u16,
        j < 8u16,
    ensures
        0xE000u16 | (c << 6u16) | (d << 3u16) | j == 0xE000u16 + 64u16 * c + 8u16 * d + j,
{
}

/// Decodes a 16-bit instruction word; `None` when it is malformed.
pub fn parse_instruction(word: u16) -> (r: Option<Instruction>)
    ensures
        r == parse_word(word),
{
    proof {
        lemma_fields(word);
    }
    if (word >> 15) & 1 == 0 {
        return Some(Instruction::A(AInstruction { value: word & 0x7FFF }));
    }
    if (word >> 13) & 7 != 7 {
        return None;
    }
    let comp_bits = ((word >> 6) & 0x7F) as u8;
    let dest_bits = ((word >> 3) & 7) as u8;
    let jump_bits = (word & 7) as u8;
    match Comp::from_bits(comp_bits) {
        Some(comp) => {
            let dest = Dest::from_bits(dest_bits);
            let jump = Jump::from_bits(jump_bits);
            Some(Instruction::C(CInstruction { comp, dest, jump }))
        },
        None => None,
    }
}

/// Encodes an instruction as its 16-bit word. An A-instruction's value is returned
/// unchanged, so it encodes an A-instruction only when it is at most 32767.
pub fn encode_instruction(inst: &Instruction) -> (r: u16)
    ensures
        r == encode_word(*inst),
{
    match inst {
        Instruction::A(a) => a.value,
        Instruction::C(c) => {
            let comp = c.comp.to_bits() as u16;
            let dest = c.dest.to_bits() as u16;
            let jump = c.jump.to_bits() as u16;
            proof {
                lemma_assemble(comp, dest, jump);
            }
            0xE000 | (comp << 6) | (dest << 3) | jump
        },
    }
}

/// Decoding a comp code and encoding the computation again are inverse.
pub proof fn comp_code_roundtrip(c: Comp, bits: u8)
    ensures
        comp_from_code(comp_code(c)) == Some(c),
        comp_from_code(bits) == Some(c) ==> comp_code(c) == bits,
{
}

/// Decoding a dest field and encoding it again are inverse.
pub proof fn dest_bits_roundtrip(d: Dest)
    ensures
        d.code() < 8,
        ({
            let b = d.code();
            d == Dest { a: (b / 4) % 2 == 1, d: (b / 2) % 2 == 1, m: b % 2 == 1 }
        }),
{
}

/// Decoding a jump field and encoding it again are inverse.
pub proof fn jump_bits_roundtrip(j: Jump, bits: u8)
    ensures
        jump_from_code(jump_code(j)) == j,
        bits < 8 ==> jump_code(jump_from_code(bits)) == bits,
{
}

proof fn lemma_word_split(word: u16)
    by (bit_vector)
    requires
        word >= 0xE000u16,
    ensures
        word == 0xE000u16 + 64u16 * ((word / 64u16) % 128u16) + 8u16 * ((word / 8u16) % 8u16) + word
            % 8u16,
        (word / 8u16) % 8u16 == 4u16 * ((word / 32u16) % 2u16) + 2u16 * ((word / 16u16) % 2u16) + (word
            / 8u16) % 2u16,
{
}

/// Every word that decodes encodes back to itself.
pub proof fn parse_then_encode(word: u16)
    ensures
        parse_word(word) matches Some(inst) ==> encode_word(inst) == word,
{
    if word >= 0xE000 {
        let c = ((word / 64) % 128) as u8;
        if let Some(comp) = comp_from_code(c) {
            comp_code_roundtrip(comp, c);
            jump_bits_roundtrip(Jump::Null, (word % 8) as u8);
            lemma_word_split(word);
        }
    }
}

/// Every instruction whose A-value fits in 15 bits encodes to a word that decodes
/// back to it.
pub proof fn encode_then_parse(inst: Instruction)
    requires
        inst matches Instruction::A(a) ==> a.value < 0x8000,
    ensures
        0 <= encode_word(inst) < 0x10000,
        parse_word(encode_word(inst) as u16) == Some(inst),
{
    if let Instruction::C(c) = inst {
        comp_code_roundtrip(c.comp, 0);
        jump_bits_roundtrip(c.jump, 0);
        let w = encode_word(inst);
        assert(comp_code(c.comp) < 128);
        assert(c.dest.code() < 8);
        assert(jump_code(c.jump) < 8);
        assert((w / 64) % 128 == comp_code(c.comp));
        assert((w / 8) % 8 == c.dest.code());
        assert(w % 8 == jump_code(c.jump));
    }
}

} // verus!
