//! Small text helpers for reports on the storage engine.
use vstd::prelude::*;

use crate::text::{
    chars_of, dec_text, hex_text, push_char, push_chars, push_dec, push_hex, push_str, zero_pad,
};

verus! {

/// Two lowercase hex digits per byte, separated by single spaces.
pub open spec fn bytes_hex_text(bytes: Seq<u8>) -> Seq<char>
    decreases bytes.len(),
{
    if bytes.len() == 0 {
        Seq::empty()
    } else if bytes.len() == 1 {
        zero_pad(hex_text(bytes[0] as nat), 2)
    } else {
        bytes_hex_text(bytes.drop_last()) + seq![' '] + zero_pad(hex_text(bytes.last() as nat), 2)
    }
}

/// The pieces joined by `", "`.
pub open spec fn join_comma(parts: Seq<Seq<char>>) -> Seq<char>
    decreases parts.len(),
{
    if parts.len() == 0 {
        Seq::empty()
    } else if parts.len() == 1 {
        parts[0]
    } else {
        join_comma(parts.drop_last()) + seq![',', ' '] + parts.last()
    }
}

/// The pieces of a key sample: the first `max_keys` keys in decimal, and
/// then `... N more` when `N` keys were left out.
pub open spec fn key_sample_parts(keys: Seq<u64>, max_keys: int) -> Seq<Seq<char>> {
    let shown = if keys.len() < max_keys {
        keys.len() as int
    } else {
        max_keys
    };
    let parts = keys.take(shown).map_values(|k: u64| dec_text(k as nat));
    if keys.len() > max_keys {
        parts.push("... "@ + dec_text((keys.len() - max_keys) as nat) + " more"@)
    } else {
        parts
    }
}

/// The labels and positions sampled from `len` items: the first always,
/// the middle when there are more than two, the last when there are more
/// than one.
pub open spec fn sample_spec(len: int) -> Seq<(Seq<char>, int)> {
    if len == 0 {
        Seq::empty()
    } else {
        let first = seq![("first"@, 0int)];
        let with_middle = if len > 2 {
            first.push(("middle"@, len / 2))
        } else {
            first
        };
        if len > 1 {
            with_middle.push(("last"@, len - 1))
        } else {
            with_middle
        }
    }
}

/// `value` cut to `max_chars` characters, with `…` when something was cut.
pub open spec fn truncate_spec(value: Seq<char>, max_chars: int) -> Seq<char> {
    if value.len() > max_chars {
        value.take(max_chars).push('\u{2026}')
    } else {
        value
    }
}

fn push_hex2_bytes(out: &mut String, bytes: &[u8], k: usize)
    requires
        k < bytes@.len(),
    ensures
        final(out)@ == old(out)@ + zero_pad(hex_text(bytes@[k as int] as nat), 2),
{
    push_hex(out, bytes[k] as u64, 2);
}

/// The bytes as two-digit lowercase hex, separated by spaces.
pub fn format_bytes(bytes: &[u8]) -> (r: String)
    ensures
        r@ == bytes_hex_text(bytes@),
{
    let mut out = String::new();
    let mut k: usize = 0;
    assert(bytes@.take(0) =~= Seq::<u8>::empty());
    while k < bytes.len()
        invariant
            k <= bytes@.len(),
            out@ == bytes_hex_text(bytes@.take(k as int)),
        decreases bytes@.len() - k,
    {
        let ghost before = out@;
        if k > 0 {
            push_char(&mut out, ' ');
        }
        push_hex2_bytes(&mut out, bytes, k);
        k += 1;
        proof {
            let t = bytes@.take(k as int);
            assert(t.drop_last() =~= bytes@.take(k - 1));
            if k == 1 {
                assert(before =~= Seq::<char>::empty());
                assert(out@ =~= zero_pad(hex_text(t[0] as nat), 2));
            } else {
                assert(out@ =~= before + seq![' '] + zero_pad(hex_text(t.last() as nat), 2));
            }
        }
    }
    assert(bytes@.take(k as int) =~= bytes@);
    out
}

/// The first `max_keys` keys in decimal, joined by `", "`, followed by
/// `... N more` when `N` keys were left out.
pub fn format_key_sample(keys: &[u64], max_keys: usize) -> (r: String)
    ensures
        r@ == join_comma(key_sample_parts(keys@, max_keys as int)),
{
    let shown = if keys.len() < max_keys {
        keys.len()
    } else {
        max_keys
    };
    let ghost parts = keys@.take(shown as int).map_values(|k: u64| dec_text(k as nat));
    let mut out = String::new();
    let mut k: usize = 0;
    assert(parts.take(0) =~= Seq::<Seq<char>>::empty());
    while k < shown
        invariant
            shown <= keys@.len(),
            k <= shown,
            parts == keys@.take(shown as int).map_values(|k: u64| dec_text(k as nat)),
            out@ == join_comma(parts.take(k as int)),
        decreases shown - k,
    {
        let ghost before = out@;
        if k > 0 {
            push_str(&mut out, ", ");
            proof {
                reveal_strlit(", ");
            }
        }
        push_dec(&mut out, keys[k]);
        k += 1;
        proof {
            let t = parts.take(k as int);
            assert(t.drop_last() =~= parts.take(k - 1));
            assert(t.last() == dec_text(keys@[k - 1] as nat));
            if k == 1 {
                assert(before =~= Seq::<char>::empty());
                assert(out@ =~= t[0]);
            } else {
                assert(", "@ =~= seq![',', ' ']);
                assert(out@ =~= before + seq![',', ' '] + t.last());
            }
        }
    }
    assert(parts.take(shown as int) =~= parts);
    if keys.len() > max_keys {
        let ghost before = out@;
        let ghost more = "... "@ + dec_text((keys.len() - max_keys) as nat) + " more"@;
        if shown > 0 {
            push_str(&mut out, ", ");
        }
        push_str(&mut out, "... ");
        push_dec(&mut out, (keys.len() - max_keys) as u64);
        push_str(&mut out, " more");
        proof {
            reveal_strlit(", ");
            let all = parts.push(more);
            assert(all.drop_last() =~= parts);
            if shown == 0 {
                assert(parts =~= Seq::<Seq<char>>::empty());
                assert(out@ =~= more);
            } else {
                assert(out@ =~= before + seq![',', ' '] + more);
            }
        }
    }
    out
}

/// The labelled positions to sample from `len` items.
pub fn sample_indexes(len: usize) -> (r: Vec<(&'static str, usize)>)
    ensures
        r@.map_values(|p: (&'static str, usize)| (p.0@, p.1 as int)) == sample_spec(len as int),
{
    let mut samples: Vec<(&'static str, usize)> = Vec::new();
    if len == 0 {
        assert(samples@.map_values(|p: (&'static str, usize)| (p.0@, p.1 as int)) =~= sample_spec(
            len as int,
        ));
        return samples;
    }
    samples.push(("first", 0));
    if len > 2 {
        samples.push(("middle", len / 2));
    }
    if len > 1 {
        samples.push(("last", len - 1));
    }
    assert(samples@.map_values(|p: (&'static str, usize)| (p.0@, p.1 as int)) =~= sample_spec(
        len as int,
    ));
    samples
}

/// At most `max_chars` characters of `value`, with `…` appended when it was longer.
pub fn truncate(value: &str, max_chars: usize) -> (r: String)
    ensures
        r@ == truncate_spec(value@, max_chars as int),
{
    let chars = chars_of(value);
    let mut out = String::new();
    let mut k: usize = 0;
    while k < chars.len() && k < max_chars
        invariant
            k <= chars@.len(),
            k <= max_chars,
            out@ == chars@.take(k as int),
        decreases chars@.len() - k,
    {
        push_char(&mut out, chars[k]);
        k += 1;
        assert(out@ =~= chars@.take(k as int));
    }
    if chars.len() > max_chars {
        push_char(&mut out, '\u{2026}');
    } else {
        assert(chars@.take(k as int) =~= chars@);
    }
    out
}

} // verus!
