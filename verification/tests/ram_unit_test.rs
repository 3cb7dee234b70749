use hack_rs::memory::{Bit, Register, DFF, PC, RAM16K, RAM4K, RAM512, RAM64, RAM8};

// RAM8 tests
#[test]
fn ram_test_ram8_initial_state() {
    let ram = RAM8::new();
    for addr in 0..8 {
        assert_eq!(ram.get(addr), 0);
    }
}

#[test]
fn test_ram8_write_read() {
    let mut ram = RAM8::new();

    // Write to address 3
    ram.set(0x1234, 3, true);
    ram.tick();
    assert_eq!(ram.get(3), 0x1234);

    // Other addresses unchanged
    assert_eq!(ram.get(0), 0);
    assert_eq!(ram.get(7), 0);
}

#[test]
fn ram_test_ram8_all_addresses() {
    let mut ram = RAM8::new();

    // Write different values to all addresses
    for addr in 0..8 {
        ram.set(addr * 0x1000, addr, true);
        ram.tick();
    }

    // Verify all values
    for addr in 0..8 {
        assert_eq!(ram.get(addr), addr * 0x1000);
    }
}

// RAM64 tests
#[test]
fn test_ram64_write_read() {
    let mut ram = RAM64::new();

    ram.set(0xABCD, 42, true);
    ram.tick();
    assert_eq!(ram.get(42), 0xABCD);
    assert_eq!(ram.get(0), 0);
    assert_eq!(ram.get(63), 0);
}

#[test]
fn ram_test_ram64_boundaries() {
    let mut ram = RAM64::new();

    // First address
    ram.set(0x1111, 0, true);
    ram.tick();

    // Last address
    ram.set(0x2222, 63, true);
    ram.tick();

    assert_eq!(ram.get(0), 0x1111);
    assert_eq!(ram.get(63), 0x2222);
}

// RAM512 tests
#[test]
fn test_ram512_write_read() {
    let mut ram = RAM512::new();

    ram.set(0x5678, 256, true);
    ram.tick();
    assert_eq!(ram.get(256), 0x5678);
    assert_eq!(ram.get(0), 0);
}

// RAM4K tests
#[test]
fn test_ram4k_write_read() {
    let mut ram = RAM4K::new();

    ram.set(0x9ABC, 2048, true);
    ram.tick();
    assert_eq!(ram.get(2048), 0x9ABC);
    assert_eq!(ram.get(0), 0);
}

// RAM16K tests
#[test]
fn test_ram16k_write_read() {
    let mut ram = RAM16K::new();

    ram.set(0xDEF0, 8192, true);
    ram.tick();
    assert_eq!(ram.get(8192), 0xDEF0);
    assert_eq!(ram.get(0), 0);
}

#[test]
fn test_ram16k_boundaries() {
    let mut ram = RAM16K::new();

    // First address
    ram.set(0x1111, 0, true);
    ram.tick();

    // Last address (16383 = 0x3FFF)
    ram.set(0x2222, 16383, true);
    ram.tick();

    // Middle
    ram.set(0x3333, 8000, true);
    ram.tick();

    assert_eq!(ram.get(0), 0x1111);
    assert_eq!(ram.get(16383), 0x2222);
    assert_eq!(ram.get(8000), 0x3333);
}

#[test]
fn test_ram_no_load_no_change() {
    let mut ram = RAM8::new();

    // Write initial value
    ram.set(0x1234, 5, true);
    ram.tick();

    // Try to overwrite without load
    ram.set(0xFFFF, 5, false);
    ram.tick();

    // Value unchanged
    assert_eq!(ram.get(5), 0x1234);
}
