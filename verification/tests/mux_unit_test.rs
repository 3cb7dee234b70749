use hack_rs::gates::{
    and, and16, dmux, dmux4way, dmux8way, mux, mux16, mux4way16, mux8way16, nand, not, not16, or,
    or16, or8way, xor,
};

#[test]
fn test_mux() {
    assert_eq!(mux(false, false, false), false);
    assert_eq!(mux(false, true, false), false);
    assert_eq!(mux(true, false, false), true);
    assert_eq!(mux(true, true, false), true);
    assert_eq!(mux(false, false, true), false);
    assert_eq!(mux(false, true, true), true);
    assert_eq!(mux(true, false, true), false);
    assert_eq!(mux(true, true, true), true);
}

#[test]
fn test_dmux() {
    assert_eq!(dmux(false, false), (false, false));
    assert_eq!(dmux(true, false), (true, false));
    assert_eq!(dmux(false, true), (false, false));
    assert_eq!(dmux(true, true), (false, true));
}
