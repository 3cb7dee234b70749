use vstd::prelude::*;

use super::model::{lemma_block_address, write_cell};
use super::register::Register;
use crate::gates::{dmux4way, dmux8way, mux4way16, mux8way16, selector2, selector3};

verus! {

proof fn lemma_address_bits(addr: u16)
    by (bit_vector)
    ensures
        ((addr & 4u16) != 0u16) == ((addr / 4u16) % 2u16 == 1u16),
        ((addr & 2u16) != 0u16) == ((addr / 2u16) % 2u16 == 1u16),
        ((addr & 1u16) != 0u16) == (addr % 2u16 == 1u16),
        addr % 8u16 == 4u16 * ((addr / 4u16) % 2u16) + 2u16 * ((addr / 2u16) % 2u16) + addr % 2u16,
        addr % 4u16 == 2u16 * ((addr / 2u16) % 2u16) + addr % 2u16,
        addr >> 3u16 == addr / 8u16,
        addr >> 6u16 == addr / 64u16,
        addr >> 9u16 == addr / 512u16,
        addr >> 12u16 == addr / 4096u16,
{
}

/// The selector bits of the low three address bits, high bit first.
fn addr_bits_3(addr: u16) -> (r: [bool; 3])
    ensures
        selector3(r) == addr % 8,
{
    proof {
        lemma_address_bits(addr);
    }
    [(addr & 0b100) != 0, (addr & 0b010) != 0, (addr & 0b001) != 0]
}

/// The selector bits of the low two address bits, high bit first.
fn addr_bits_2(addr: u16) -> (r: [bool; 2])
    ensures
        selector2(r) == addr % 4,
{
    proof {
        lemma_address_bits(addr);
    }
    [(addr & 0b10) != 0, (addr & 0b01) != 0]
}

/// RAM8: 8 registers; the address is taken modulo 8.
#[derive(Debug, Clone)]
pub struct RAM8 {
    registers: [Register; 8],
}

impl RAM8 {
    /// Always true: the registers are held in a fixed-size array.
    pub closed spec fn wf(&self) -> bool {
        true
    }

    /// The stored words, by address.
    pub closed spec fn cells(&self) -> Seq<u16> {
        Seq::new(8, |i: int| self.registers[i].value())
    }

    /// The words the next tick commits, by address.
    pub closed spec fn pending(&self) -> Seq<u16> {
        Seq::new(8, |i: int| self.registers[i].pending())
    }

    /// The memory holds 8 words, and 8 words are pending.
    pub proof fn lemma_len(&self)
        ensures
            self.cells().len() == 8,
            self.pending().len() == 8,
    {
    }

    /// Eight registers holding 0.
    pub fn new() -> (r: Self)
        ensures
            r.wf(),
            r.cells() == Seq::new(8, |i: int| 0u16),
            r.pending() == Seq::new(8, |i: int| 0u16),
    {
        let r = RAM8 {
            registers: [
                Register::new(),
                Register::new(),
                Register::new(),
                Register::new(),
                Register::new(),
                Register::new(),
                Register::new(),
                Register::new(),
            ],
        };
        assert(r.cells() =~= Seq::new(8, |i: int| 0u16));
        assert(r.pending() =~= Seq::new(8, |i: int| 0u16));
        r
    }

    /// Offers `input` at `address`: with `load` it is stored there at the next tick;
    /// every other register (and, without `load`, this one too) keeps its value.
    pub fn set(&mut self, input: u16, address: u16, load: bool)
        requires
            old(self).wf(),
        ensures
            final(self).wf(),
            final(self).cells() == old(self).cells(),
            final(self).pending() == write_cell(old(self).cells(), input, address as int % 8, load),
    {
        let sel = addr_bits_3(address);
        let (l0, l1, l2, l3, l4, l5, l6, l7) = dmux8way(load, sel);
        self.registers[0].set(input, l0);
        self.registers[1].set(input, l1);
        self.registers[2].set(input, l2);
        self.registers[3].set(input, l3);
        self.registers[4].set(input, l4);
        self.registers[5].set(input, l5);
        self.registers[6].set(input, l6);
        self.registers[7].set(input, l7);
        assert(self.cells() =~= old(self).cells());
        assert(self.pending() =~= write_cell(old(self).cells(), input, address as int % 8, load));
    }

    /// The word stored at `address` (modulo 8).
    pub fn get(&self, address: u16) -> (r: u16)
        requires
            self.wf(),
        ensures
            r == self.cells()[address as int % 8],
    {
        mux8way16(
            self.registers[0].get(),
            self.registers[1].get(),
            self.registers[2].get(),
            self.registers[3].get(),
            self.registers[4].get(),
            self.registers[5].get(),
            self.registers[6].get(),
            self.registers[7].get(),
            addr_bits_3(address),
        )
    }

    /// Advances the clock for all 8 registers.
    pub fn tick(&mut self)
        requires
            old(self).wf(),
        ensures
            final(self).wf(),
            final(self).cells() == old(self).pending(),
            final(self).pending() == old(self).pending(),
    {
        self.registers[0].tick();
        self.registers[1].tick();
        self.registers[2].tick();
        self.registers[3].tick();
        self.registers[4].tick();
        self.registers[5].tick();
        self.registers[6].tick();
        self.registers[7].tick();
        assert(self.cells() =~= old(self).pending());
        assert(self.pending() =~= old(self).pending());
    }
}

impl Default for RAM8 {
    /// Same as `RAM8::new`.
    fn default() -> (r: Self)
        ensures
            r.wf(),
            r.cells() == Seq::new(8, |i: int| 0u16),
            r.pending() == Seq::new(8, |i: int| 0u16),
    {
        RAM8::new()
    }
}

/// RAM64: 64 registers, built from 8 RAM8s: address bits 5..3 pick the RAM8, bits 2..0 the register within it.
/// The address is taken modulo 64.
#[derive(Debug, Clone)]
pub struct RAM64 {
    rams: Vec<RAM8>,
}

impl RAM64 {
    /// There are exactly 8 well-formed sub-memories.
    pub closed spec fn wf(&self) -> bool {
        &&& self.rams.len() == 8
        &&& forall|k: int| 0 <= k < 8 ==> #[trigger] self.rams[k].wf()
    }

    /// The stored words, by address.
    pub closed spec fn cells(&self) -> Seq<u16> {
        Seq::new(64, |i: int| self.rams[i / 8].cells()[i % 8])
    }

    /// The words the next tick commits, by address.
    pub closed spec fn pending(&self) -> Seq<u16> {
        Seq::new(64, |i: int| self.rams[i / 8].pending()[i % 8])
    }

    /// The memory holds 64 words, and 64 words are pending.
    pub proof fn lemma_len(&self)
        ensures
            self.cells().len() == 64,
            self.pending().len() == 64,
    {
    }

    /// A memory of 64 words holding 0.
    pub fn new() -> (r: Self)
        ensures
            r.wf(),
            r.cells() == Seq::new(64, |i: int| 0u16),
            r.pending() == Seq::new(64, |i: int| 0u16),
    {
        let mut rams: Vec<RAM8> = Vec::new();
        rams.push(RAM8::new());
        rams.push(RAM8::new());
        rams.push(RAM8::new());
        rams.push(RAM8::new());
        rams.push(RAM8::new());
        rams.push(RAM8::new());
        rams.push(RAM8::new());
        rams.push(RAM8::new());
        let r = RAM64 { rams };
        assert(r.cells() =~= Seq::new(64, |i: int| 0u16));
        assert(r.pending() =~= Seq::new(64, |i: int| 0u16));
        r
    }

    /// Offers `input` at `address`: with `load` it is stored there at the next tick;
    /// every other word (and, without `load`, this one too) keeps its value.
    pub fn set(&mut self, input: u16, address: u16, load: bool)
        requires
            old(self).wf(),
        ensures
            final(self).wf(),
            final(self).cells() == old(self).cells(),
            final(self).pending() == write_cell(old(self).cells(), input, address as int % 64, load),
    {
        proof {
            lemma_address_bits(address);
            lemma_block_address(address as int, 8, 8);
        }
        let sel = addr_bits_3(address >> 3);
        let (l0, l1, l2, l3, l4, l5, l6, l7) = dmux8way(load, sel);
        self.rams[0].set(input, address, l0);
        self.rams[1].set(input, address, l1);
        self.rams[2].set(input, address, l2);
        self.rams[3].set(input, address, l3);
        self.rams[4].set(input, address, l4);
        self.rams[5].set(input, address, l5);
        self.rams[6].set(input, address, l6);
        self.rams[7].set(input, address, l7);
        assert(self.cells() =~= old(self).cells());
        assert(self.pending() =~= write_cell(old(self).cells(), input, address as int % 64, load));
    }

    /// The word stored at `address` (modulo 64).
    pub fn get(&self, address: u16) -> (r: u16)
        requires
            self.wf(),
        ensures
            r == self.cells()[address as int % 64],
    {
        proof {
            lemma_address_bits(address);
            lemma_block_address(address as int, 8, 8);
        }
        mux8way16(
            self.rams[0].get(address),
            self.rams[1].get(address),
            self.rams[2].get(address),
            self.rams[3].get(address),
            self.rams[4].get(address),
            self.rams[5].get(address),
            self.rams[6].get(address),
            self.rams[7].get(address),
            addr_bits_3(address >> 3),
        )
    }

    /// Advances the clock for every word.
    pub fn tick(&mut self)
        requires
            old(self).wf(),
        ensures
            final(self).wf(),
            final(self).cells() == old(self).pending(),
            final(self).pending() == old(self).pending(),
    {
        self.rams[0].tick();
        self.rams[1].tick();
        self.rams[2].tick();
        self.rams[3].tick();
        self.rams[4].tick();
        self.rams[5].tick();
        self.rams[6].tick();
        self.rams[7].tick();
        assert(self.cells() =~= old(self).pending());
        assert(self.pending() =~= old(self).pending());
    }
}

impl Default for RAM64 {
    /// Same as `RAM64::new`.
    fn default() -> (r: Self)
        ensures
            r.wf(),
            r.cells() == Seq::new(64, |i: int| 0u16),
            r.pending() == Seq::new(64, |i: int| 0u16),
    {
        RAM64::new()
    }
}

/// RAM512: 512 registers, built from 8 RAM64s: address bits 8..6 pick the RAM64.
/// The address is taken modulo 512.
#[derive(Debug, Clone)]
pub struct RAM512 {
    rams: Vec<RAM64>,
}

impl RAM512 {
    /// There are exactly 8 well-formed sub-memories.
    pub closed spec fn wf(&self) -> bool {
        &&& self.rams.len() == 8
        &&& forall|k: int| 0 <= k < 8 ==> #[trigger] self.rams[k].wf()
    }

    /// The stored words, by address.
    pub closed spec fn cells(&self) -> Seq<u16> {
        Seq::new(512, |i: int| self.rams[i / 64].cells()[i % 64])
    }

    /// The words the next tick commits, by address.
    pub closed spec fn pending(&self) -> Seq<u16> {
        Seq::new(512, |i: int| self.rams[i / 64].pending()[i % 64])
    }

    /// The memory holds 512 words, and 512 words are pending.
    pub proof fn lemma_len(&self)
        ensures
            self.cells().len() == 512,
            self.pending().len() == 512,
    {
    }

    /// A memory of 512 words holding 0.
    pub fn new() -> (r: Self)
        ensures
            r.wf(),
            r.cells() == Seq::new(512, |i: int| 0u16),
            r.pending() == Seq::new(512, |i: int| 0u16),
    {
        let mut rams: Vec<RAM64> = Vec::new();
        rams.push(RAM64::new());
        rams.push(RAM64::new());
        rams.push(RAM64::new());
        rams.push(RAM64::new());
        rams.push(RAM64::new());
        rams.push(RAM64::new());
        rams.push(RAM64::new());
        rams.push(RAM64::new());
        let r = RAM512 { rams };
        assert(r.cells() =~= Seq::new(512, |i: int| 0u16));
        assert(r.pending() =~= Seq::new(512, |i: int| 0u16));
        r
    }

    /// Offers `input` at `address`: with `load` it is stored there at the next tick;
    /// every other word (and, without `load`, this one too) keeps its value.
    pub fn set(&mut self, input: u16, address: u16, load: bool)
        requires
            old(self).wf(),
        ensures
            final(self).wf(),
            final(self).cells() == old(self).cells(),
            final(self).pending() == write_cell(old(self).cells(), input, address as int % 512, load),
    {
        proof {
            lemma_address_bits(address);
            lemma_block_address(address as int, 64, 8);
        }
        let sel = addr_bits_3(address >> 6);
        let (l0, l1, l2, l3, l4, l5, l6, l7) = dmux8way(load, sel);
        self.rams[0].set(input, address, l0);
        self.rams[1].set(input, address, l1);
        self.rams[2].set(input, address, l2);
        self.rams[3].set(input, address, l3);
        self.rams[4].set(input, address, l4);
        self.rams[5].set(input, address, l5);
        self.rams[6].set(input, address, l6);
        self.rams[7].set(input, address, l7);
        assert(self.cells() =~= old(self).cells());
        assert(self.pending() =~= write_cell(old(self).cells(), input, address as int % 512, load));
    }

    /// The word stored at `address` (modulo 512).
    pub fn get(&self, address: u16) -> (r: u16)
        requires
            self.wf(),
        ensures
            r == self.cells()[address as int % 512],
    {
        proof {
            lemma_address_bits(address);
            lemma_block_address(address as int, 64, 8);
        }
        mux8way16(
            self.rams[0].get(address),
            self.rams[1].get(address),
            self.rams[2].get(address),
            self.rams[3].get(address),
            self.rams[4].get(address),
            self.rams[5].get(address),
            self.rams[6].get(address),
            self.rams[7].get(address),
            addr_bits_3(address >> 6),
        )
    }

    /// Advances the clock for every word.
    pub fn tick(&mut self)
        requires
            old(self).wf(),
        ensures
            final(self).wf(),
            final(self).cells() == old(self).pending(),
            final(self).pending() == old(self).pending(),
    {
        self.rams[0].tick();
        self.rams[1].tick();
        self.rams[2].tick();
        self.rams[3].tick();
        self.rams[4].tick();
        self.rams[5].tick();
        self.rams[6].tick();
        self.rams[7].tick();
        assert(self.cells() =~= old(self).pending());
        assert(self.pending() =~= old(self).pending());
    }
}

impl Default for RAM512 {
    /// Same as `RAM512::new`.
    fn default() -> (r: Self)
        ensures
            r.wf(),
            r.cells() == Seq::new(512, |i: int| 0u16),
            r.pending() == Seq::new(512, |i: int| 0u16),
    {
        RAM512::new()
    }
}

/// RAM4K: 4096 registers, built from 8 RAM512s: address bits 11..9 pick the RAM512.
/// The address is taken modulo 4096.
#[derive(Debug, Clone)]
pub struct RAM4K {
    rams: Vec<RAM512>,
}

impl RAM4K {
    /// There are exactly 8 well-formed sub-memories.
    pub closed spec fn wf(&self) -> bool {
        &&& self.rams.len() == 8
        &&& forall|k: int| 0 <= k < 8 ==> #[trigger] self.rams[k].wf()
    }

    /// The stored words, by address.
    pub closed spec fn cells(&self) -> Seq<u16> {
        Seq::new(4096, |i: int| self.rams[i / 512].cells()[i % 512])
    }

    /// The words the next tick commits, by address.
    pub closed spec fn pending(&self) -> Seq<u16> {
        Seq::new(4096, |i: int| self.rams[i / 512].pending()[i % 512])
    }

    /// The memory holds 4096 words, and 4096 words are pending.
    pub proof fn lemma_len(&self)
        ensures
            self.cells().len() == 4096,
            self.pending().len() == 4096,
    {
    }

    /// A memory of 4096 words holding 0.
    pub fn new() -> (r: Self)
        ensures
            r.wf(),
            r.cells() == Seq::new(4096, |i: int| 0u16),
            r.pending() == Seq::new(4096, |i: int| 0u16),
    {
        let mut rams: Vec<RAM512> = Vec::new();
        rams.push(RAM512::new());
        rams.push(RAM512::new());
        rams.push(RAM512::new());
        rams.push(RAM512::new());
        rams.push(RAM512::new());
        rams.push(RAM512::new());
        rams.push(RAM512::new());
        rams.push(RAM512::new());
        let r = RAM4K { rams };
        assert(r.cells() =~= Seq::new(4096, |i: int| 0u16));
        assert(r.pending() =~= Seq::new(4096, |i: int| 0u16));
        r
    }

    /// Offers `input` at `address`: with `load` it is stored there at the next tick;
    /// every other word (and, without `load`, this one too) keeps its value.
    pub fn set(&mut self, input: u16, address: u16, load: bool)
        requires
            old(self).wf(),
        ensures
            final(self).wf(),
            final(self).cells() == old(self).cells(),
            final(self).pending() == write_cell(old(self).cells(), input, address as int % 4096, load),
    {
        proof {
            lemma_address_bits(address);
            lemma_block_address(address as int, 512, 8);
        }
        let sel = addr_bits_3(address >> 9);
        let (l0, l1, l2, l3, l4, l5, l6, l7) = dmux8way(load, sel);
        self.rams[0].set(input, address, l0);
        self.rams[1].set(input, address, l1);
        self.rams[2].set(input, address, l2);
        self.rams[3].set(input, address, l3);
        self.rams[4].set(input, address, l4);
        self.rams[5].set(input, address, l5);
        self.rams[6].set(input, address, l6);
        self.rams[7].set(input, address, l7);
        assert(self.cells() =~= old(self).cells());
        assert(self.pending() =~= write_cell(old(self).cells(), input, address as int % 4096, load));
    }

    /// The word stored at `address` (modulo 4096).
    pub fn get(&self, address: u16) -> (r: u16)
        requires
            self.wf(),
        ensures
            r == self.cells()[address as int % 4096],
    {
        proof {
            lemma_address_bits(address);
            lemma_block_address(address as int, 512, 8);
        }
        mux8way16(
            self.rams[0].get(address),
            self.rams[1].get(address),
            self.rams[2].get(address),
            self.rams[3].get(address),
            self.rams[4].get(address),
            self.rams[5].get(address),
            self.rams[6].get(address),
            self.rams[7].get(address),
            addr_bits_3(address >> 9),
        )
    }

    /// Advances the clock for every word.
    pub fn tick(&mut self)
        requires
            old(self).wf(),
        ensures
            final(self).wf(),
            final(self).cells() == old(self).pending(),
            final(self).pending() == old(self).pending(),
    {
        self.rams[0].tick();
        self.rams[1].tick();
        self.rams[2].tick();
        self.rams[3].tick();
        self.rams[4].tick();
        self.rams[5].tick();
        self.rams[6].tick();
        self.rams[7].tick();
        assert(self.cells() =~= old(self).pending());
        assert(self.pending() =~= old(self).pending());
    }
}

impl Default for RAM4K {
    /// Same as `RAM4K::new`.
    fn default() -> (r: Self)
        ensures
            r.wf(),
            r.cells() == Seq::new(4096, |i: int| 0u16),
            r.pending() == Seq::new(4096, |i: int| 0u16),
    {
        RAM4K::new()
    }
}

/// RAM16K: 16384 registers, built from 4 RAM4Ks: address bits 13..12 pick the RAM4K.
/// The address is taken modulo 16384.
#[derive(Debug, Clone)]
pub struct RAM16K {
    rams: Vec<RAM4K>,
}

impl RAM16K {
    /// There are exactly 4 well-formed sub-memories.
    pub closed spec fn wf(&self) -> bool {
        &&& self.rams.len() == 4
        &&& forall|k: int| 0 <= k < 4 ==> #[trigger] self.rams[k].wf()
    }

    /// The stored words, by address.
    pub closed spec fn cells(&self) -> Seq<u16> {
        Seq::new(16384, |i: int| self.rams[i / 4096].cells()[i % 4096])
    }

    /// The words the next tick commits, by address.
    pub closed spec fn pending(&self) -> Seq<u16> {
        Seq::new(16384, |i: int| self.rams[i / 4096].pending()[i % 4096])
    }

    /// The memory holds 16384 words, and 16384 words are pending.
    pub proof fn lemma_len(&self)
        ensures
            self.cells().len() == 16384,
            self.pending().len() == 16384,
    {
    }

    /// A memory of 16384 words holding 0.
    pub fn new() -> (r: Self)
        ensures
            r.wf(),
            r.cells() == Seq::new(16384, |i: int| 0u16),
            r.pending() == Seq::new(16384, |i: int| 0u16),
    {
        let mut rams: Vec<RAM4K> = Vec::new();
        rams.push(RAM4K::new());
        rams.push(RAM4K::new());
        rams.push(RAM4K::new());
        rams.push(RAM4K::new());
        let r = RAM16K { rams };
        assert(r.cells() =~= Seq::new(16384, |i: int| 0u16));
        assert(r.pending() =~= Seq::new(16384, |i: int| 0u16));
        r
    }

    /// Offers `input` at `address`: with `load` it is stored there at the next tick;
    /// every other word (and, without `load`, this one too) keeps its value.
    pub fn set(&mut self, input: u16, address: u16, load: bool)
        requires
            old(self).wf(),
        ensures
            final(self).wf(),
            final(self).cells() == old(self).cells(),
            final(self).pending() == write_cell(old(self).cells(), input, address as int % 16384, load),
    {
        proof {
            lemma_address_bits(address);
            lemma_block_address(address as int, 4096, 4);
        }
        let sel = addr_bits_2(address >> 12);
        let (l0, l1, l2, l3) = dmux4way(load, sel);
        self.rams[0].set(input, address, l0);
        self.rams[1].set(input, address, l1);
        self.rams[2].set(input, address, l2);
        self.rams[3].set(input, address, l3);
        assert(self.cells() =~= old(self).cells());
        assert(self.pending() =~= write_cell(old(self).cells(), input, address as int % 16384, load));
    }

    /// The word stored at `address` (modulo 16384).
    pub fn get(&self, address: u16) -> (r: u16)
        requires
            self.wf(),
        ensures
            r == self.cells()[address as int % 16384],
    {
        proof {
            lemma_address_bits(address);
            lemma_block_address(address as int, 4096, 4);
        }
        mux4way16(
            self.rams[0].get(address),
            self.rams[1].get(address),
            self.rams[2].get(address),
            self.rams[3].get(address),
            addr_bits_2(address >> 12),
        )
    }

    /// Advances the clock for every word.
    pub fn tick(&mut self)
        requires
            old(self).wf(),
        ensures
            final(self).wf(),
            final(self).cells() == old(self).pending(),
            final(self).pending() == old(self).pending(),
    {
        self.rams[0].tick();
        self.rams[1].tick();
        self.rams[2].tick();
        self.rams[3].tick();
        assert(self.cells() =~= old(self).pending());
        assert(self.pending() =~= old(self).pending());
    }
}

impl Default for RAM16K {
    /// Same as `RAM16K::new`.
    fn default() -> (r: Self)
        ensures
            r.wf(),
            r.cells() == Seq::new(16384, |i: int| 0u16),
            r.pending() == Seq::new(16384, |i: int| 0u16),
    {
        RAM16K::new()
    }
}

} // verus!
