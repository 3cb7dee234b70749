//! A tiny RAM of addressed bytes and a CPU with three registers.
use vstd::prelude::*;

use crate::memory_lab::format::{dump_bytes, dump_text};

verus! {

#[derive(Debug, Clone, PartialEq, Eq)]
pub struct TinyRam {
    pub cells: Vec<u8>,
}

impl TinyRam {
    /// `size` cells holding 0.
    pub fn new(size: usize) -> (ram: Self)
        ensures
            ram.cells@ == Seq::new(size as nat, |i: int| 0u8),
    {
        let ram = TinyRam { cells: vec![0u8; size] };
        assert(ram.cells@ =~= Seq::new(size as nat, |i: int| 0u8));
        ram
    }

    /// Cells holding `bytes`.
    pub fn from_bytes(bytes: &[u8]) -> (ram: Self)
        ensures
            ram.cells@ == bytes@,
    {
        TinyRam { cells: vstd::slice::slice_to_vec(bytes) }
    }

    /// The byte at `address`, or `None` past the last cell.
    pub fn load(&self, address: usize) -> (r: Option<u8>)
        ensures
            address < self.cells@.len() ==> r == Some(self.cells@[address as int]),
            address >= self.cells@.len() ==> r is None,
    {
        if address < self.cells.len() {
            Some(self.cells[address])
        } else {
            None
        }
    }

    /// Stores `value` at `address`; `None` and no change past the last cell.
    pub fn store(&mut self, address: usize, value: u8) -> (r: Option<()>)
        ensures
            address < old(self).cells@.len() ==> r == Some(()) && final(self).cells@ == old(
                self,
            ).cells@.update(address as int, value),
            address >= old(self).cells@.len() ==> r is None && final(self).cells@ == old(
                self,
            ).cells@,
    {
        if address < self.cells.len() {
            self.cells.set(address, value);
            Some(())
        } else {
            None
        }
    }

    /// A table of every cell: address, hex value and bits.
    pub fn dump(&self) -> (r: String)
        ensures
            r@ == dump_text(self.cells@),
    {
        dump_bytes(self.cells.as_slice())
    }
}

/// Store then load: a byte stored at an address in range is what loading that
/// address gives, and every other address loads as before.
pub proof fn ram_load_after_store(cells: Seq<u8>, address: int, value: u8, other: int)
    requires
        0 <= address < cells.len(),
        0 <= other < cells.len(),
    ensures
        cells.update(address, value)[address] == value,
        other != address ==> cells.update(address, value)[other] == cells[other],
        cells.update(address, value).len() == cells.len(),
{
}

#[derive(Debug, Clone, PartialEq, Eq)]
pub struct TinyCpu {
    pub registers: [u8; 3],
    pub ram: TinyRam,
}

impl TinyCpu {
    /// A CPU with registers at 0 over `ram`.
    pub fn new(ram: TinyRam) -> (cpu: Self)
        ensures
            cpu.registers@ == seq![0u8, 0u8, 0u8],
            cpu.ram == ram,
    {
        let cpu = TinyCpu { registers: [0, 0, 0], ram };
        assert(cpu.registers@ =~= seq![0u8, 0u8, 0u8]);
        cpu
    }

    /// LOAD: copies the byte at `address` into `register`. `None` with no
    /// change when the address is past the RAM or the register does not exist.
    pub fn load(&mut self, register: usize, address: usize) -> (r: Option<()>)
        ensures
            final(self).ram == old(self).ram,
            address < old(self).ram.cells@.len() && register < 3 ==> r == Some(())
                && final(self).registers@ == old(self).registers@.update(
                register as int,
                old(self).ram.cells@[address as int],
            ),
            !(address < old(self).ram.cells@.len() && register < 3) ==> r is None
                && final(self).registers@ == old(self).registers@,
    {
        let value = match self.ram.load(address) {
            Some(value) => value,
            None => {
                return None;
            },
        };
        if register >= 3 {
            return None;
        }
        self.registers[register] = value;
        Some(())
    }

    /// ADD: `dest = left + right`, wrapping.
    pub fn add(&mut self, dest: usize, left: usize, right: usize)
        requires
            dest < 3,
            left < 3,
            right < 3,
        ensures
            final(self).ram == old(self).ram,
            final(self).registers@ == old(self).registers@.update(
                dest as int,
                ((old(self).registers@[left as int] + old(self).registers@[right as int]) % 256) as u8,
            ),
    {
        let sum = self.registers[left].wrapping_add(self.registers[right]);
        self.registers[dest] = sum;
    }

    /// STORE: writes `register` to `address`; `None` with no change past the RAM.
    pub fn store(&mut self, register: usize, address: usize) -> (r: Option<()>)
        requires
            register < 3,
        ensures
            final(self).registers@ == old(self).registers@,
            address < old(self).ram.cells@.len() ==> r == Some(()) && final(self).ram.cells@
                == old(self).ram.cells@.update(address as int, old(self).registers@[register as int]),
            address >= old(self).ram.cells@.len() ==> r is None && final(self).ram.cells@ == old(
                self,
            ).ram.cells@,
    {
        let value = self.registers[register];
        self.ram.store(address, value)
    }
}

} // verus!
