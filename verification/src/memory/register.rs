use vstd::prelude::*;

use super::dff::DFF;
use crate::gates::{bit_of, lemma_accumulate_bit, lemma_low_bits_ends, low_bits, mux};

verus! {

/// A 1-bit register: a flip-flop that takes a new value only when `load` is set.
#[derive(Debug, Clone, Copy)]
pub struct Bit {
    dff: DFF,
}

impl Bit {
    /// The stored value.
    pub closed spec fn out(&self) -> bool {
        self.dff.out()
    }

    /// The value the next tick commits.
    pub closed spec fn pending(&self) -> bool {
        self.dff.pending()
    }

    /// A bit holding false.
    pub fn new() -> (r: Self)
        ensures
            r.out() == false,
            r.pending() == false,
    {
        Bit { dff: DFF::new() }
    }

    /// Offers `input`: with `load` it is stored at the next tick, without `load`
    /// the current value is kept.
    pub fn set(&mut self, input: bool, load: bool)
        ensures
            final(self).out() == old(self).out(),
            final(self).pending() == (if load {
                input
            } else {
                old(self).out()
            }),
    {
        let current = self.dff.get();
        self.dff.set(mux(current, input, load));
    }

    /// The stored value.
    pub fn get(&self) -> (r: bool)
        ensures
            r == self.out(),
    {
        self.dff.get()
    }

    /// Advances the clock.
    pub fn tick(&mut self)
        ensures
            final(self).out() == old(self).pending(),
            final(self).pending() == old(self).pending(),
    {
        self.dff.tick();
    }
}

impl Default for Bit {
    /// Same as `Bit::new`.
    fn default() -> (r: Self)
        ensures
            r.out() == false,
            r.pending() == false,
    {
        Bit::new()
    }
}

/// The word whose bit `j` is `bits[j]`, for the first `n` bits (`n <= 16`).
pub open spec fn pack_bits(bits: Seq<bool>, n: int) -> u16
    decreases n,
{
    if n <= 0 {
        0
    } else {
        let p = pack_bits(bits, n - 1);
        if bits[n - 1] {
            p | (1u16 << ((n - 1) as u16))
        } else {
            p
        }
    }
}

proof fn lemma_pack_word(bits: Seq<bool>, x: u16, n: int)
    requires
        0 <= n <= 16,
        forall|j: int| 0 <= j < n ==> bits[j] == bit_of(x, j as u16),
    ensures
        pack_bits(bits, n) == low_bits(x, n as u16),
    decreases n,
{
    if n == 0 {
        lemma_low_bits_ends(x);
    } else {
        lemma_pack_word(bits, x, n - 1);
        lemma_accumulate_bit(pack_bits(bits, n - 1), x, (n - 1) as u16);
    }
}

proof fn lemma_pack_extensional(a: Seq<bool>, b: Seq<bool>, n: int)
    requires
        0 <= n,
        forall|j: int| 0 <= j < n ==> a[j] == b[j],
    ensures
        pack_bits(a, n) == pack_bits(b, n),
    decreases n,
{
    if n > 0 {
        lemma_pack_extensional(a, b, n - 1);
    }
}

/// A 16-bit register: sixteen bits sharing one load signal.
#[derive(Debug, Clone, Copy)]
pub struct Register {
    bits: [Bit; 16],
}

impl Register {
    /// The stored bits, least significant first.
    pub closed spec fn out_bits(&self) -> Seq<bool> {
        Seq::new(16, |i: int| self.bits[i].out())
    }

    /// The bits the next tick commits.
    pub closed spec fn pending_bits(&self) -> Seq<bool> {
        Seq::new(16, |i: int| self.bits[i].pending())
    }

    /// The stored word.
    pub closed spec fn value(&self) -> u16 {
        pack_bits(self.out_bits(), 16)
    }

    /// The word the next tick commits.
    pub closed spec fn pending(&self) -> u16 {
        pack_bits(self.pending_bits(), 16)
    }

    /// A register holding 0.
    pub fn new() -> (r: Self)
        ensures
            r.value() == 0,
            r.pending() == 0,
    {
        let r = Register {
            bits: [
                Bit::new(),
                Bit::new(),
                Bit::new(),
                Bit::new(),
                Bit::new(),
                Bit::new(),
                Bit::new(),
                Bit::new(),
                Bit::new(),
                Bit::new(),
                Bit::new(),
                Bit::new(),
                Bit::new(),
                Bit::new(),
                Bit::new(),
                Bit::new(),
            ],
        };
        proof {
            assert forall|j: int| 0 <= j < 16 implies r.out_bits()[j] == #[trigger] bit_of(0, j as u16)
                && r.pending_bits()[j] == bit_of(0, j as u16) by {
                let k = j as u16;
                assert((0u16 >> k) & 1 == 0) by (bit_vector);
            }
            lemma_pack_word(r.out_bits(), 0, 16);
            lemma_pack_word(r.pending_bits(), 0, 16);
            lemma_low_bits_ends(0);
        }
        r
    }

    /// Offers a 16-bit `input`: with `load` it is stored at the next tick, without
    /// `load` the current value is kept.
    pub fn set(&mut self, input: u16, load: bool)
        ensures
            final(self).value() == old(self).value(),
            final(self).pending() == (if load {
                input
            } else {
                old(self).value()
            }),
    {
        let ghost old_bits = self.bits;
        for i in 0..16usize
            invariant
                forall|j: int|
                    0 <= j < i ==> #[trigger] self.bits[j].pending() == (if load {
                        bit_of(input, j as u16)
                    } else {
                        old_bits[j].out()
                    }),
                forall|j: int| 0 <= j < 16 ==> #[trigger] self.bits[j].out() == old_bits[j].out(),
                forall|j: int| i <= j < 16 ==> #[trigger] self.bits[j] == old_bits[j],
        {
            let b = (input >> (i as u16)) & 1 == 1;
            self.bits[i].set(b, load);
        }
        proof {
            lemma_pack_extensional(self.out_bits(), old(self).out_bits(), 16);
            if load {
                lemma_pack_word(self.pending_bits(), input, 16);
                lemma_low_bits_ends(input);
            } else {
                lemma_pack_extensional(self.pending_bits(), old(self).out_bits(), 16);
            }
        }
    }

    /// The stored word.
    pub fn get(&self) -> (r: u16)
        ensures
            r == self.value(),
    {
        let mut result: u16 = 0;
        for i in 0..16usize
            invariant
                result == pack_bits(self.out_bits(), i as int),
        {
            if self.bits[i].get() {
                result |= 1 << (i as u16);
            }
        }
        result
    }

    /// Advances the clock for all sixteen bits.
    pub fn tick(&mut self)
        ensures
            final(self).value() == old(self).pending(),
            final(self).pending() == old(self).pending(),
    {
        let ghost old_bits = self.bits;
        for i in 0..16usize
            invariant
                forall|j: int|
                    0 <= j < i ==> #[trigger] self.bits[j].out() == old_bits[j].pending()
                        && self.bits[j].pending() == old_bits[j].pending(),
                forall|j: int| i <= j < 16 ==> #[trigger] self.bits[j] == old_bits[j],
        {
            self.bits[i].tick();
        }
        proof {
            lemma_pack_extensional(self.out_bits(), old(self).pending_bits(), 16);
            lemma_pack_extensional(self.pending_bits(), old(self).pending_bits(), 16);
        }
    }
}

impl Default for Register {
    /// Same as `Register::new`.
    fn default() -> (r: Self)
        ensures
            r.value() == 0,
            r.pending() == 0,
    {
        Register::new()
    }
}

} // verus!
