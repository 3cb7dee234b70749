//! A bump arena: allocation moves a cursor forward, reset moves it back.
use vstd::prelude::*;

verus! {

/// The smallest multiple of `max(align, 1)` that is at least `value`.
pub open spec fn align_up_spec(value: int, align: int) -> int {
    let a = if align < 1 {
        1
    } else {
        align
    };
    if value % a == 0 {
        value
    } else {
        value + (a - value % a)
    }
}

/// Rounds `value` up to a multiple of `align` (an alignment of 0 counts as 1).
pub fn align_up(value: usize, align: usize) -> (r: usize)
    requires
        align_up_spec(value as int, align as int) <= usize::MAX,
    ensures
        r == align_up_spec(value as int, align as int),
        r >= value,
        r % (if align < 1 {
            1
        } else {
            align
        }) == 0,
        r - value < (if align < 1 {
            1
        } else {
            align
        }),
{
    let align = if align > 1 {
        align
    } else {
        1
    };
    let rem = value % align;
    if rem == 0 {
        value
    } else {
        proof {
            vstd::arithmetic::div_mod::lemma_fundamental_div_mod(value as int, align as int);
            assert((value + (align - rem)) % (align as int) == 0) by {
                vstd::arithmetic::div_mod::lemma_mod_multiples_basic(value as int / align as int + 1, align as int);
                assert(value + (align - rem) == (value as int / align as int + 1) * align) by (nonlinear_arith)
                    requires
                        value == align * (value as int / align as int) + rem,
                ;
            }
        }
        value + (align - rem)
    }
}

/// Bump allocation: a block starts at a multiple of its alignment no earlier
/// than the cursor, and the next block starts no earlier than where it ends,
/// so blocks handed out between resets never overlap.
pub proof fn arena_blocks_are_aligned_and_disjoint(cursor: nat, align1: nat, size1: nat, align2: nat)
    ensures
        align_up_spec(cursor as int, align1 as int) >= cursor,
        align_up_spec(cursor as int, align1 as int) % (if align1 < 1 {
            1
        } else {
            align1 as int
        }) == 0,
        align_up_spec(align_up_spec(cursor as int, align1 as int) + size1, align2 as int)
            >= align_up_spec(cursor as int, align1 as int) + size1,
{
    lemma_align_up(cursor as int, align1 as int);
    lemma_align_up(align_up_spec(cursor as int, align1 as int) + size1, align2 as int);
}

/// `align_up_spec` rounds up to a multiple of the alignment.
proof fn lemma_align_up(value: int, align: int)
    requires
        value >= 0,
    ensures
        align_up_spec(value, align) >= value,
        align_up_spec(value, align) % (if align < 1 {
            1
        } else {
            align
        }) == 0,
{
    let a = if align < 1 {
        1
    } else {
        align
    };
    let rem = value % a;
    if rem != 0 {
        vstd::arithmetic::div_mod::lemma_fundamental_div_mod(value, a);
        vstd::arithmetic::div_mod::lemma_mod_multiples_basic(value / a + 1, a);
        assert(value + (a - rem) == (value / a + 1) * a) by (nonlinear_arith)
            requires
                value == a * (value / a) + rem,
        ;
    }
}

/// A block handed out by an arena: its offset and size inside the arena.
#[derive(Debug, Clone, Copy, PartialEq, Eq, Structural)]
pub struct ArenaBlock {
    pub offset: usize,
    pub size: usize,
}

#[derive(Debug)]
pub struct BumpArena {
    bytes: Vec<u8>,
    cursor: usize,
}

impl BumpArena {
    /// The bytes in use so far.
    pub closed spec fn used_spec(&self) -> nat {
        self.cursor as nat
    }

    /// The arena's size in bytes.
    pub closed spec fn capacity_spec(&self) -> nat {
        self.bytes@.len()
    }

    /// The cursor never passes the end of the arena.
    pub closed spec fn wf(&self) -> bool {
        self.cursor <= self.bytes@.len()
    }

    /// An arena of `capacity` zeroed bytes with nothing allocated.
    pub fn new(capacity: usize) -> (arena: Self)
        ensures
            arena.wf(),
            arena.used_spec() == 0,
            arena.capacity_spec() == capacity,
    {
        BumpArena { bytes: vec![0u8; capacity], cursor: 0 }
    }

    /// Allocates `size` bytes at the next multiple of `align` (0 counts as 1)
    /// from the cursor: `None` with no change when they would pass the end.
    pub fn allocate(&mut self, size: usize, align: usize) -> (r: Option<ArenaBlock>)
        requires
            old(self).wf(),
            align_up_spec(old(self).used_spec() as int, align as int) <= usize::MAX,
        ensures
            final(self).wf(),
            final(self).capacity_spec() == old(self).capacity_spec(),
            ({
                let start = align_up_spec(old(self).used_spec() as int, align as int);
                if start + size <= old(self).capacity_spec() {
                    &&& r == Some(ArenaBlock { offset: start as usize, size })
                    &&& final(self).used_spec() == start + size
                } else {
                    &&& r is None
                    &&& final(self).used_spec() == old(self).used_spec()
                }
            }),
    {
        let align = if align > 1 {
            align
        } else {
            1
        };
        let start = align_up(self.cursor, align);
        let capacity = self.bytes.len();
        let end = match start.checked_add(size) {
            Some(end) => end,
            None => {
                return None;
            },
        };
        if end > capacity {
            return None;
        }
        self.cursor = end;
        Some(ArenaBlock { offset: start, size })
    }

    /// Frees everything at once.
    pub fn reset(&mut self)
        requires
            old(self).wf(),
        ensures
            final(self).wf(),
            final(self).used_spec() == 0,
            final(self).capacity_spec() == old(self).capacity_spec(),
    {
        self.cursor = 0;
    }

    /// The bytes in use.
    pub fn used(&self) -> (r: usize)
        ensures
            r == self.used_spec(),
    {
        self.cursor
    }

    /// The arena's size in bytes.
    pub fn capacity(&self) -> (r: usize)
        ensures
            r == self.capacity_spec(),
    {
        self.bytes.len()
    }

    /// The arena's bytes.
    pub fn bytes(&self) -> (r: &[u8])
        ensures
            r@.len() == self.capacity_spec(),
    {
        self.bytes.as_slice()
    }
}

} // verus!
