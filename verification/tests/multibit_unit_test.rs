use hack_rs::gates::{
    and, and16, dmux, dmux4way, dmux8way, mux, mux16, mux4way16, mux8way16, nand, not, not16, or,
    or16, or8way, xor,
};

#[test]
fn test_not16() {
    assert_eq!(not16(0x0000), 0xFFFF);
    assert_eq!(not16(0xFFFF), 0x0000);
    assert_eq!(not16(0x00FF), 0xFF00);
    assert_eq!(not16(0xAAAA), 0x5555);
}

#[test]
fn test_and16() {
    assert_eq!(and16(0xFFFF, 0xFFFF), 0xFFFF);
    assert_eq!(and16(0x0000, 0xFFFF), 0x0000);
    assert_eq!(and16(0xCCCC, 0xAAAA), 0x8888);
}

#[test]
fn test_or16() {
    assert_eq!(or16(0x0000, 0x0000), 0x0000);
    assert_eq!(or16(0xFFFF, 0x0000), 0xFFFF);
    assert_eq!(or16(0xCCCC, 0xAAAA), 0xEEEE);
}

#[test]
fn test_mux16() {
    assert_eq!(mux16(0x1234, 0x5678, false), 0x1234);
    assert_eq!(mux16(0x1234, 0x5678, true), 0x5678);
}

#[test]
fn test_or8way() {
    assert_eq!(or8way(0b00000000), false);
    assert_eq!(or8way(0b00000001), true);
    assert_eq!(or8way(0b10000000), true);
    assert_eq!(or8way(0b11111111), true);
    assert_eq!(or8way(0b00010000), true);
}

#[test]
fn test_mux4way16() {
    let (a, b, c, d) = (0x1111, 0x2222, 0x3333, 0x4444);
    assert_eq!(mux4way16(a, b, c, d, [false, false]), a);
    assert_eq!(mux4way16(a, b, c, d, [false, true]), b);
    assert_eq!(mux4way16(a, b, c, d, [true, false]), c);
    assert_eq!(mux4way16(a, b, c, d, [true, true]), d);
}

#[test]
fn test_mux8way16() {
    let v = [0x1111, 0x2222, 0x3333, 0x4444, 0x5555, 0x6666, 0x7777, 0x8888];
    assert_eq!(mux8way16(v[0], v[1], v[2], v[3], v[4], v[5], v[6], v[7], [false, false, false]), v[0]);
    assert_eq!(mux8way16(v[0], v[1], v[2], v[3], v[4], v[5], v[6], v[7], [false, false, true]), v[1]);
    assert_eq!(mux8way16(v[0], v[1], v[2], v[3], v[4], v[5], v[6], v[7], [false, true, false]), v[2]);
    assert_eq!(mux8way16(v[0], v[1], v[2], v[3], v[4], v[5], v[6], v[7], [false, true, true]), v[3]);
    assert_eq!(mux8way16(v[0], v[1], v[2], v[3], v[4], v[5], v[6], v[7], [true, false, false]), v[4]);
    assert_eq!(mux8way16(v[0], v[1], v[2], v[3], v[4], v[5], v[6], v[7], [true, false, true]), v[5]);
    assert_eq!(mux8way16(v[0], v[1], v[2], v[3], v[4], v[5], v[6], v[7], [true, true, false]), v[6]);
    assert_eq!(mux8way16(v[0], v[1], v[2], v[3], v[4], v[5], v[6], v[7], [true, true, true]), v[7]);
}

#[test]
fn test_dmux4way() {
    assert_eq!(dmux4way(true, [false, false]), (true, false, false, false));
    assert_eq!(dmux4way(true, [false, true]), (false, true, false, false));
    assert_eq!(dmux4way(true, [true, false]), (false, false, true, false));
    assert_eq!(dmux4way(true, [true, true]), (false, false, false, true));
    assert_eq!(dmux4way(false, [true, true]), (false, false, false, false));
}

#[test]
fn test_dmux8way() {
    assert_eq!(dmux8way(true, [false, false, false]), (true, false, false, false, false, false, false, false));
    assert_eq!(dmux8way(true, [false, false, true]), (false, true, false, false, false, false, false, false));
    assert_eq!(dmux8way(true, [false, true, false]), (false, false, true, false, false, false, false, false));
    assert_eq!(dmux8way(true, [false, true, true]), (false, false, false, true, false, false, false, false));
    assert_eq!(dmux8way(true, [true, false, false]), (false, false, false, false, true, false, false, false));
    assert_eq!(dmux8way(true, [true, false, true]), (false, false, false, false, false, true, false, false));
    assert_eq!(dmux8way(true, [true, true, false]), (false, false, false, false, false, false, true, false));
    assert_eq!(dmux8way(true, [true, true, true]), (false, false, false, false, false, false, false, true));
}
