use hack_rs::memory::{Bit, Register, DFF, PC, RAM16K, RAM4K, RAM512, RAM64, RAM8};

// Bit tests
#[test]
fn register_test_bit_initial_state() {
    let bit = Bit::new();
    assert_eq!(bit.get(), false);
}

#[test]
fn test_bit_load_false_keeps_value() {
    let mut bit = Bit::new();
    bit.set(true, false);
    bit.tick();
    assert_eq!(bit.get(), false); // Unchanged because load=false
}

#[test]
fn test_bit_load_true_stores_value() {
    let mut bit = Bit::new();
    bit.set(true, true);
    bit.tick();
    assert_eq!(bit.get(), true);
}

#[test]
fn test_bit_holds_value() {
    let mut bit = Bit::new();

    // Store true
    bit.set(true, true);
    bit.tick();
    assert_eq!(bit.get(), true);

    // Try to overwrite with false, but load=false
    bit.set(false, false);
    bit.tick();
    assert_eq!(bit.get(), true); // Still true

    // Now actually overwrite
    bit.set(false, true);
    bit.tick();
    assert_eq!(bit.get(), false);
}

// Register tests
#[test]
fn register_test_register_initial_state() {
    let reg = Register::new();
    assert_eq!(reg.get(), 0);
}

#[test]
fn test_register_load() {
    let mut reg = Register::new();

    // Load a value
    reg.set(0x1234, true);
    reg.tick();
    assert_eq!(reg.get(), 0x1234);

    // Try to overwrite without load
    reg.set(0xFFFF, false);
    reg.tick();
    assert_eq!(reg.get(), 0x1234); // Unchanged

    // Overwrite with load
    reg.set(0x5678, true);
    reg.tick();
    assert_eq!(reg.get(), 0x5678);
}

#[test]
fn test_register_all_bits() {
    let mut reg = Register::new();

    // Test all 1s
    reg.set(0xFFFF, true);
    reg.tick();
    assert_eq!(reg.get(), 0xFFFF);

    // Test all 0s
    reg.set(0x0000, true);
    reg.tick();
    assert_eq!(reg.get(), 0x0000);

    // Test pattern
    reg.set(0xAAAA, true);
    reg.tick();
    assert_eq!(reg.get(), 0xAAAA);
}
