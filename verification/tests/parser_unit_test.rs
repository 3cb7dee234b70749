use hack_rs::instruction::{
    encode_instruction, parse_instruction, AInstruction, CInstruction, Comp, Dest, Instruction, Jump,
};

// A-instruction tests
#[test]
fn test_parse_a_instruction() {
    // @0
    let inst = parse_instruction(0b0000_0000_0000_0000).unwrap();
    assert_eq!(inst, Instruction::A(AInstruction { value: 0 }));

    // @100
    let inst = parse_instruction(0b0000_0000_0110_0100).unwrap();
    assert_eq!(inst, Instruction::A(AInstruction { value: 100 }));

    // @32767 (max value)
    let inst = parse_instruction(0b0111_1111_1111_1111).unwrap();
    assert_eq!(inst, Instruction::A(AInstruction { value: 32767 }));
}

#[test]
fn parser_test_encode_a_instruction() {
    let inst = Instruction::A(AInstruction { value: 100 });
    assert_eq!(encode_instruction(&inst), 0b0000_0000_0110_0100);

    let inst = Instruction::A(AInstruction { value: 0 });
    assert_eq!(encode_instruction(&inst), 0);
}

// Dest tests
#[test]
fn parser_test_dest_from_bits() {
    assert_eq!(Dest::from_bits(0b000), Dest { a: false, d: false, m: false });
    assert_eq!(Dest::from_bits(0b001), Dest { a: false, d: false, m: true });
    assert_eq!(Dest::from_bits(0b010), Dest { a: false, d: true, m: false });
    assert_eq!(Dest::from_bits(0b011), Dest { a: false, d: true, m: true });
    assert_eq!(Dest::from_bits(0b100), Dest { a: true, d: false, m: false });
    assert_eq!(Dest::from_bits(0b111), Dest { a: true, d: true, m: true });
}

#[test]
fn parser_test_dest_to_bits() {
    assert_eq!(Dest { a: false, d: false, m: false }.to_bits(), 0b000);
    assert_eq!(Dest { a: false, d: false, m: true }.to_bits(), 0b001);
    assert_eq!(Dest { a: false, d: true, m: false }.to_bits(), 0b010);
    assert_eq!(Dest { a: true, d: true, m: true }.to_bits(), 0b111);
}

// Jump tests
#[test]
fn parser_test_jump_from_bits() {
    assert_eq!(Jump::from_bits(0b000), Jump::Null);
    assert_eq!(Jump::from_bits(0b001), Jump::JGT);
    assert_eq!(Jump::from_bits(0b010), Jump::JEQ);
    assert_eq!(Jump::from_bits(0b011), Jump::JGE);
    assert_eq!(Jump::from_bits(0b100), Jump::JLT);
    assert_eq!(Jump::from_bits(0b101), Jump::JNE);
    assert_eq!(Jump::from_bits(0b110), Jump::JLE);
    assert_eq!(Jump::from_bits(0b111), Jump::JMP);
}

#[test]
fn parser_test_jump_to_bits() {
    assert_eq!(Jump::Null.to_bits(), 0b000);
    assert_eq!(Jump::JGT.to_bits(), 0b001);
    assert_eq!(Jump::JMP.to_bits(), 0b111);
}

// Comp tests
#[test]
fn test_comp_from_bits() {
    // a=0 computations
    assert_eq!(Comp::from_bits(0b0_101010), Some(Comp::Zero));
    assert_eq!(Comp::from_bits(0b0_111111), Some(Comp::One));
    assert_eq!(Comp::from_bits(0b0_111010), Some(Comp::MinusOne));
    assert_eq!(Comp::from_bits(0b0_001100), Some(Comp::D));
    assert_eq!(Comp::from_bits(0b0_110000), Some(Comp::A));
    assert_eq!(Comp::from_bits(0b0_000010), Some(Comp::DPlusA));

    // a=1 computations (use M instead of A)
    assert_eq!(Comp::from_bits(0b1_110000), Some(Comp::M));
    assert_eq!(Comp::from_bits(0b1_000010), Some(Comp::DPlusM));
}

#[test]
fn parser_test_comp_to_bits() {
    assert_eq!(Comp::Zero.to_bits(), 0b0_101010);
    assert_eq!(Comp::One.to_bits(), 0b0_111111);
    assert_eq!(Comp::D.to_bits(), 0b0_001100);
    assert_eq!(Comp::M.to_bits(), 0b1_110000);
    assert_eq!(Comp::DPlusM.to_bits(), 0b1_000010);
}

// C-instruction tests
#[test]
fn test_parse_c_instruction() {
    // D=A (comp=A, dest=D, jump=null)
    // 111 0 110000 010 000
    let word = 0b1110_1100_0001_0000;
    let inst = parse_instruction(word).unwrap();
    if let Instruction::C(c) = inst {
        assert_eq!(c.comp, Comp::A);
        assert_eq!(c.dest, Dest { a: false, d: true, m: false });
        assert_eq!(c.jump, Jump::Null);
    } else {
        panic!("Expected C-instruction");
    }
}

#[test]
fn test_parse_c_instruction_with_jump() {
    // 0;JMP (comp=0, dest=null, jump=JMP)
    // 111 0 101010 000 111
    let word = 0b1110_1010_1000_0111;
    let inst = parse_instruction(word).unwrap();
    if let Instruction::C(c) = inst {
        assert_eq!(c.comp, Comp::Zero);
        assert_eq!(c.dest, Dest { a: false, d: false, m: false });
        assert_eq!(c.jump, Jump::JMP);
    } else {
        panic!("Expected C-instruction");
    }
}

#[test]
fn test_encode_c_instruction() {
    let inst = Instruction::C(CInstruction {
        comp: Comp::DPlusOne,
        dest: Dest { a: false, d: true, m: false },
        jump: Jump::Null,
    });
    // D=D+1: 111 0 011111 010 000
    assert_eq!(encode_instruction(&inst), 0b1110_0111_1101_0000);
}

#[test]
fn test_roundtrip() {
    // Test that parse -> encode -> parse gives same result
    let words = [
        0b0000_0000_0110_0100, // @100
        0b0111_1111_1111_1111, // @32767
        0b1110_1100_0001_0000, // D=A
        0b1110_0111_1101_0000, // D=D+1
        0b1110_1010_1000_0111, // 0;JMP
        0b1111_1100_0001_0000, // D=M
    ];

    for word in words {
        let inst = parse_instruction(word).unwrap();
        let encoded = encode_instruction(&inst);
        assert_eq!(word, encoded, "Roundtrip failed for {:#018b}", word);
    }
}

#[test]
fn parser_test_comp_uses_memory() {
    assert!(!Comp::A.uses_memory());
    assert!(!Comp::D.uses_memory());
    assert!(!Comp::DPlusA.uses_memory());

    assert!(Comp::M.uses_memory());
    assert!(Comp::DPlusM.uses_memory());
    assert!(Comp::MMinusD.uses_memory());
}
