use vstd::prelude::*;

use super::register::Register;
use crate::arithmetic::inc16;
use crate::gates::{mux16, or};

verus! {

/// The value a program counter holding `value` takes at the next tick:
/// reset wins over load, load wins over inc; with no signal it keeps its value.
pub open spec fn pc_next(value: u16, input: u16, inc: bool, load: bool, reset: bool) -> u16 {
    if reset {
        0
    } else if load {
        input
    } else if inc {
        (value + 1) as u16
    } else {
        value
    }
}

/// The program counter's priority rules: reset gives 0 whatever else is set, load
/// takes the input over an increment, an increment of 0xFFFF wraps to 0, and with
/// no signal the value stays.
pub proof fn pc_priority(value: u16, input: u16, inc: bool, load: bool)
    ensures
        pc_next(value, input, inc, load, true) == 0,
        pc_next(value, input, inc, true, false) == input,
        pc_next(value, input, true, false, false) == (value + 1) as u16,
        pc_next(0xFFFF, input, true, false, false) == 0,
        pc_next(value, input, false, false, false) == value,
{
    let top: u16 = 0xFFFF;
    assert(top == 0xFFFFu16 ==> (top + 1) as u16 == 0u16) by (bit_vector);
}

/// Program counter: the address of the next instruction.
#[derive(Debug, Clone, Copy)]
pub struct PC {
    register: Register,
}

impl PC {
    /// The current address.
    pub closed spec fn value(&self) -> u16 {
        self.register.value()
    }

    /// The address the next tick commits.
    pub closed spec fn pending(&self) -> u16 {
        self.register.pending()
    }

    /// A program counter at 0.
    pub fn new() -> (r: Self)
        ensures
            r.value() == 0,
            r.pending() == 0,
    {
        PC { register: Register::new() }
    }

    /// Sets the control signals: `reset` (to 0) beats `load` (to `input`), which
    /// beats `inc` (to the current value plus one, wrapping).
    pub fn set(&mut self, input: u16, inc: bool, load: bool, reset: bool)
        ensures
            final(self).value() == old(self).value(),
            final(self).pending() == pc_next(old(self).value(), input, inc, load, reset),
    {
        let current = self.register.get();
        let incremented = inc16(current);
        let next = mux16(current, incremented, inc);
        let next = mux16(next, input, load);
        let next = mux16(next, 0, reset);
        self.register.set(next, or(or(inc, load), reset));
    }

    /// The current address.
    pub fn get(&self) -> (r: u16)
        ensures
            r == self.value(),
    {
        self.register.get()
    }

    /// Advances the clock.
    pub fn tick(&mut self)
        ensures
            final(self).value() == old(self).pending(),
            final(self).pending() == old(self).pending(),
    {
        self.register.tick();
    }
}

impl Default for PC {
    /// Same as `PC::new`.
    fn default() -> (r: Self)
        ensures
            r.value() == 0,
            r.pending() == 0,
    {
        PC::new()
    }
}

} // verus!
