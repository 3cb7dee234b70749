use hack_rs::memory::{Bit, Register, DFF, PC, RAM16K, RAM4K, RAM512, RAM64, RAM8};

#[test]
fn pc_test_pc_initial_state() {
    let pc = PC::new();
    assert_eq!(pc.get(), 0);
}

#[test]
fn pc_test_pc_increment() {
    let mut pc = PC::new();

    // Increment several times
    for expected in 1..=5 {
        pc.set(0, true, false, false); // inc=1
        pc.tick();
        assert_eq!(pc.get(), expected);
    }
}

#[test]
fn pc_test_pc_load() {
    let mut pc = PC::new();

    pc.set(100, false, true, false); // load=1
    pc.tick();
    assert_eq!(pc.get(), 100);

    pc.set(200, false, true, false);
    pc.tick();
    assert_eq!(pc.get(), 200);
}

#[test]
fn pc_test_pc_reset() {
    let mut pc = PC::new();

    // First get to a non-zero value
    pc.set(500, false, true, false);
    pc.tick();
    assert_eq!(pc.get(), 500);

    // Reset
    pc.set(0, false, false, true); // reset=1
    pc.tick();
    assert_eq!(pc.get(), 0);
}

#[test]
fn test_pc_priority_reset_over_load() {
    let mut pc = PC::new();

    // Both reset and load are true - reset should win
    pc.set(100, false, true, true);
    pc.tick();
    assert_eq!(pc.get(), 0); // reset wins
}

#[test]
fn test_pc_priority_load_over_inc() {
    let mut pc = PC::new();

    // Both load and inc are true - load should win
    pc.set(100, true, true, false);
    pc.tick();
    assert_eq!(pc.get(), 100); // load wins, not 1 (inc)
}

#[test]
fn test_pc_priority_reset_over_all() {
    let mut pc = PC::new();

    // All signals true - reset should win
    pc.set(100, true, true, true);
    pc.tick();
    assert_eq!(pc.get(), 0); // reset wins
}

#[test]
fn pc_test_pc_no_change_when_all_false() {
    let mut pc = PC::new();

    // Set initial value
    pc.set(50, false, true, false);
    pc.tick();
    assert_eq!(pc.get(), 50);

    // All signals false - value unchanged
    pc.set(999, false, false, false);
    pc.tick();
    assert_eq!(pc.get(), 50); // Still 50
}

#[test]
fn pc_test_pc_overflow() {
    let mut pc = PC::new();

    // Set to max value
    pc.set(0xFFFF, false, true, false);
    pc.tick();
    assert_eq!(pc.get(), 0xFFFF);

    // Increment should wrap to 0
    pc.set(0, true, false, false);
    pc.tick();
    assert_eq!(pc.get(), 0);
}

#[test]
fn test_pc_typical_usage() {
    let mut pc = PC::new();

    // Simulate normal execution with a jump
    // Start at 0, increment to 3
    for _ in 0..3 {
        pc.set(0, true, false, false);
        pc.tick();
    }
    assert_eq!(pc.get(), 3);

    // Jump to address 100
    pc.set(100, false, true, false);
    pc.tick();
    assert_eq!(pc.get(), 100);

    // Continue from there
    pc.set(0, true, false, false);
    pc.tick();
    assert_eq!(pc.get(), 101);
}
