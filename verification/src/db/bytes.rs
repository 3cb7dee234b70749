//! Little-endian integer fields inside byte buffers.
use vstd::prelude::*;

use vstd::bytes::{
    lemma_auto_spec_u16_to_from_le_bytes, lemma_auto_spec_u64_to_from_le_bytes,
    spec_u16_from_le_bytes, spec_u16_to_le_bytes, spec_u64_from_le_bytes, u16_from_le_bytes,
    u16_to_le_bytes, u64_from_le_bytes,
};
use vstd::slice::slice_subrange;

verus! {

/// The `u16` stored little-endian at bytes `at..at + 2`.
pub open spec fn u16_at(data: Seq<u8>, at: int) -> u16 {
    spec_u16_from_le_bytes(data.subrange(at, at + 2))
}

/// The `u64` stored little-endian at bytes `at..at + 8`.
pub open spec fn u64_at(data: Seq<u8>, at: int) -> u64 {
    spec_u64_from_le_bytes(data.subrange(at, at + 8))
}

/// `new` equals `old` at every index outside `lo..hi`, and both have the same length.
pub open spec fn same_outside(old: Seq<u8>, new: Seq<u8>, lo: int, hi: int) -> bool {
    &&& new.len() == old.len()
    &&& forall|j: int| 0 <= j < old.len() && !(lo <= j < hi) ==> #[trigger] new[j] == old[j]
}

/// `data` with `src` copied over it at `at`.
pub open spec fn overwrite(data: Seq<u8>, at: int, src: Seq<u8>) -> Seq<u8> {
    data.take(at) + src + data.skip(at + src.len())
}

/// An overwrite changes only the bytes it covers, and holds `src` there.
pub proof fn lemma_overwrite(data: Seq<u8>, at: int, src: Seq<u8>)
    requires
        0 <= at,
        at + src.len() <= data.len(),
    ensures
        same_outside(data, overwrite(data, at, src), at, at + src.len()),
        overwrite(data, at, src).subrange(at, at + src.len()) == src,
{
    let new = overwrite(data, at, src);
    assert(new.subrange(at, at + src.len()) =~= src);
    assert forall|j: int| 0 <= j < data.len() && !(at <= j < at + src.len()) implies #[trigger] new[j]
        == data[j] by {
        if j >= at + src.len() {
            assert(new[j] == data.skip(at + src.len())[j - at - src.len()]);
        }
    }
}

/// Two buffers that agree outside `lo..hi` agree on every range disjoint from it.
pub proof fn lemma_same_outside_subrange(old: Seq<u8>, new: Seq<u8>, lo: int, hi: int, a: int, b: int)
    requires
        same_outside(old, new, lo, hi),
        0 <= a <= b <= old.len(),
        b <= lo || hi <= a,
    ensures
        new.subrange(a, b) == old.subrange(a, b),
{
    assert(new.subrange(a, b) =~= old.subrange(a, b));
}

/// Reads the little-endian `u16` at `at`.
pub fn read_u16(data: &[u8], at: usize) -> (r: u16)
    requires
        at + 2 <= data.len(),
    ensures
        r == u16_at(data@, at as int),
{
    u16_from_le_bytes(slice_subrange(data, at, at + 2))
}

/// Reads the little-endian `u64` at `at`.
pub fn read_u64(data: &[u8], at: usize) -> (r: u64)
    requires
        at + 8 <= data.len(),
    ensures
        r == u64_at(data@, at as int),
{
    u64_from_le_bytes(slice_subrange(data, at, at + 8))
}

/// Copies `src` into `data` at `at`, leaving every other byte as it was.
pub fn write_bytes(data: &mut Vec<u8>, at: usize, src: &[u8])
    requires
        at + src@.len() <= old(data).len(),
    ensures
        final(data)@.subrange(at as int, at + src@.len()) == src@,
        same_outside(old(data)@, final(data)@, at as int, at + src@.len()),
        final(data)@ == overwrite(old(data)@, at as int, src@),
{
    let n = src.len();
    let mut k: usize = 0;
    while k < n
        invariant
            k <= n,
            n == src@.len(),
            at + n <= data.len(),
            forall|j: int| 0 <= j < k ==> #[trigger] data@[at + j] == src@[j],
            same_outside(old(data)@, data@, at as int, at + k),
        decreases n - k,
    {
        data.set(at + k, src[k]);
        k += 1;
    }
    assert(data@.subrange(at as int, at + n) =~= src@) by {
        assert forall|j: int| 0 <= j < n implies data@.subrange(at as int, at + n)[j] == src@[j] by {
            assert(data@[at + j] == src@[j]);
        }
    }
    proof {
        let o = overwrite(old(data)@, at as int, src@);
        lemma_overwrite(old(data)@, at as int, src@);
        assert forall|j: int| 0 <= j < data@.len() implies #[trigger] data@[j] == o[j] by {
            if at <= j < at + n {
                assert(data@[j] == data@.subrange(at as int, at + n)[j - at]);
                assert(o[j] == o.subrange(at as int, at + n)[j - at]);
            }
        }
        assert(data@ =~= o);
    }
}

/// Writes `value` little-endian at `at`, leaving every other byte as it was.
pub fn write_u16(data: &mut Vec<u8>, at: usize, value: u16)
    requires
        at + 2 <= old(data).len(),
    ensures
        u16_at(final(data)@, at as int) == value,
        final(data)@.subrange(at as int, at + 2) == spec_u16_to_le_bytes(value),
        same_outside(old(data)@, final(data)@, at as int, at + 2),
        final(data)@ == overwrite(old(data)@, at as int, spec_u16_to_le_bytes(value)),
{
    proof {
        lemma_auto_spec_u16_to_from_le_bytes();
    }
    let encoded = u16_to_le_bytes(value);
    write_bytes(data, at, encoded.as_slice());
}

/// The little-endian encoding of a `u64` reads back as the same value.
pub proof fn lemma_u64_roundtrip(x: u64)
    ensures
        vstd::bytes::spec_u64_to_le_bytes(x).len() == 8,
        spec_u64_from_le_bytes(vstd::bytes::spec_u64_to_le_bytes(x)) == x,
{
    lemma_auto_spec_u64_to_from_le_bytes();
}

/// The little-endian encoding of a `u16` reads back as the same value.
pub proof fn lemma_u16_roundtrip(x: u16)
    ensures
        spec_u16_to_le_bytes(x).len() == 2,
        spec_u16_from_le_bytes(spec_u16_to_le_bytes(x)) == x,
{
    lemma_auto_spec_u16_to_from_le_bytes();
    assert(spec_u16_to_le_bytes(x).len() == 2);
}

} // verus!
