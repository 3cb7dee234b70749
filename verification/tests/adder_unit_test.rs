use hack_rs::arithmetic::{add16, alu, full_adder, half_adder, inc16, AluOutput};

#[test]
fn test_half_adder() {
    assert_eq!(half_adder(false, false), (false, false));
    assert_eq!(half_adder(false, true), (true, false));
    assert_eq!(half_adder(true, false), (true, false));
    assert_eq!(half_adder(true, true), (false, true));
}

#[test]
fn test_full_adder() {
    assert_eq!(full_adder(false, false, false), (false, false));
    assert_eq!(full_adder(false, false, true), (true, false));
    assert_eq!(full_adder(false, true, false), (true, false));
    assert_eq!(full_adder(false, true, true), (false, true));
    assert_eq!(full_adder(true, false, false), (true, false));
    assert_eq!(full_adder(true, false, true), (false, true));
    assert_eq!(full_adder(true, true, false), (false, true));
    assert_eq!(full_adder(true, true, true), (true, true));
}

#[test]
fn test_add16() {
    assert_eq!(add16(0, 0), 0);
    assert_eq!(add16(1, 1), 2);
    assert_eq!(add16(0x00FF, 0x0001), 0x0100);
    assert_eq!(add16(0x1234, 0x5678), 0x68AC);

    // Test overflow (wraps around)
    assert_eq!(add16(0xFFFF, 0x0001), 0x0000);
    assert_eq!(add16(0x8000, 0x8000), 0x0000);
}

#[test]
fn test_add16_negative() {
    // In two's complement, 0xFFFF = -1
    // -1 + 1 = 0
    assert_eq!(add16(0xFFFF, 0x0001), 0x0000);

    // -1 + -1 = -2 (0xFFFE)
    assert_eq!(add16(0xFFFF, 0xFFFF), 0xFFFE);
}

#[test]
fn test_inc16() {
    assert_eq!(inc16(0), 1);
    assert_eq!(inc16(1), 2);
    assert_eq!(inc16(0x00FF), 0x0100);
    assert_eq!(inc16(0xFFFE), 0xFFFF);
    assert_eq!(inc16(0xFFFF), 0x0000); // Overflow wraps
}
