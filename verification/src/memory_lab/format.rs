//! The lab's text: bit patterns, byte dumps and layout lines.
use vstd::prelude::*;

use crate::text::{
    all_digits, dec_text, dec_text_reads_back, digits_value, hex_text, push_char, push_dec, push_hex,
    push_repeat, push_str, repeat_char,
    space_pad, zero_pad,
};

verus! {

/// The character of bit `k` of `value`.
pub open spec fn bit_char(value: u8, k: u8) -> char {
    if (value >> k) & 1 == 1 {
        '1'
    } else {
        '0'
    }
}

/// The bits of `value`, most significant first, in two groups of four
/// joined by `_` (as in `1010_1100`).
pub open spec fn bits_text(value: u8) -> Seq<char> {
    seq![
        bit_char(value, 7),
        bit_char(value, 6),
        bit_char(value, 5),
        bit_char(value, 4),
        '_',
        bit_char(value, 3),
        bit_char(value, 2),
        bit_char(value, 1),
        bit_char(value, 0),
    ]
}

/// The first line of a byte dump.
pub open spec fn dump_header() -> Seq<char> {
    "address  hex   bits\n"@
}

/// The dump line of the byte `value` at `address`.
pub open spec fn dump_line(address: nat, value: u8) -> Seq<char> {
    "0x"@ + zero_pad(hex_text(address), 2) + "    0x"@ + zero_pad(hex_text(value as nat), 2) + "  "@
        + bits_text(value) + "\n"@
}

/// The dump lines of `bytes`, one per byte in address order.
pub open spec fn dump_lines(bytes: Seq<u8>) -> Seq<char>
    decreases bytes.len(),
{
    if bytes.len() == 0 {
        Seq::empty()
    } else {
        dump_lines(bytes.drop_last()) + dump_line((bytes.len() - 1) as nat, bytes.last())
    }
}

/// A byte dump: the header and then one line per byte.
pub open spec fn dump_text(bytes: Seq<u8>) -> Seq<char> {
    dump_header() + dump_lines(bytes)
}

/// The layout line of a value: its name padded to 28 characters, its
/// address in 16 hex digits, its size and its alignment.
pub open spec fn layout_text(name: Seq<char>, addr: nat, size: nat, align: nat) -> Seq<char> {
    space_pad(name, 28) + " addr=0x"@ + zero_pad(hex_text(addr), 16) + " size="@ + dec_text(size)
        + " align="@ + dec_text(align)
}

/// The size and the alignment of a layout line are written in decimal: the
/// line is some text, then ` size=`, then decimal digits that read back as the
/// size, then ` align=`, then decimal digits that read back as the alignment.
pub proof fn layout_fields_read_back(name: Seq<char>, addr: nat, size: nat, align: nat)
    ensures
        exists|head: Seq<char>, size_digits: Seq<char>, align_digits: Seq<char>|
            {
                &&& layout_text(name, addr, size, align) == head + " size="@ + size_digits
                    + " align="@ + align_digits
                &&& all_digits(size_digits)
                &&& size_digits.len() >= 1
                &&& digits_value(size_digits) == size
                &&& all_digits(align_digits)
                &&& align_digits.len() >= 1
                &&& digits_value(align_digits) == align
            },
{
    dec_text_reads_back(size);
    dec_text_reads_back(align);
    let head = space_pad(name, 28) + " addr=0x"@ + zero_pad(hex_text(addr), 16);
    assert(layout_text(name, addr, size, align) == head + " size="@ + dec_text(size) + " align="@
        + dec_text(align));
}

fn push_bit(s: &mut String, value: u8, k: u8)
    requires
        k < 8,
    ensures
        final(s)@ == old(s)@.push(bit_char(value, k)),
{
    if (value >> k) & 1 == 1 {
        push_char(s, '1');
    } else {
        push_char(s, '0');
    }
}

fn push_bits(s: &mut String, value: u8)
    ensures
        final(s)@ == old(s)@ + bits_text(value),
{
    let ghost start = s@;
    push_bit(s, value, 7);
    push_bit(s, value, 6);
    push_bit(s, value, 5);
    push_bit(s, value, 4);
    push_char(s, '_');
    push_bit(s, value, 3);
    push_bit(s, value, 2);
    push_bit(s, value, 1);
    push_bit(s, value, 0);
    assert(s@ =~= start + bits_text(value));
}

/// The bits of a byte as `bbbb_bbbb`, most significant first.
pub fn format_bits_u8(value: u8) -> (r: String)
    ensures
        r@ == bits_text(value),
{
    let mut s = String::new();
    push_bits(&mut s, value);
    assert(s@ =~= bits_text(value));
    s
}

/// A table of bytes: a header line, then for each byte its address and
/// value in hex (at least two digits) and its bits.
pub fn dump_bytes(bytes: &[u8]) -> (r: String)
    ensures
        r@ == dump_text(bytes@),
{
    let mut out = String::new();
    push_str(&mut out, "address  hex   bits\n");
    let mut address: usize = 0;
    assert(bytes@.take(0) =~= Seq::<u8>::empty());
    assert(out@ =~= dump_header() + dump_lines(bytes@.take(0)));
    while address < bytes.len()
        invariant
            address <= bytes@.len(),
            out@ == dump_header() + dump_lines(bytes@.take(address as int)),
        decreases bytes@.len() - address,
    {
        let ghost before = out@;
        let byte = bytes[address];
        push_str(&mut out, "0x");
        push_hex(&mut out, address as u64, 2);
        push_str(&mut out, "    0x");
        push_hex(&mut out, byte as u64, 2);
        push_str(&mut out, "  ");
        push_bits(&mut out, byte);
        push_str(&mut out, "\n");
        proof {
            let t = bytes@.take(address + 1);
            assert(t.drop_last() =~= bytes@.take(address as int));
            assert(t.last() == byte);
            assert(out@ =~= before + dump_line(address as nat, byte));
        }
        address += 1;
    }
    assert(bytes@.take(address as int) =~= bytes@);
    out
}

/// The layout line of a value of the given name, address, size and alignment.
pub fn layout_report(name: &str, addr: usize, size: usize, align: usize) -> (r: String)
    ensures
        r@ == layout_text(name@, addr as nat, size as nat, align as nat),
{
    let mut out = String::new();
    push_str(&mut out, name);
    let len = name.unicode_len();
    let pad = if len < 28 {
        28 - len
    } else {
        0
    };
    push_repeat(&mut out, ' ', pad);
    assert(repeat_char(' ', pad as int) =~= repeat_char(' ', 28 - name@.len()));
    push_str(&mut out, " addr=0x");
    push_hex(&mut out, addr as u64, 16);
    push_str(&mut out, " size=");
    push_dec(&mut out, size as u64);
    push_str(&mut out, " align=");
    push_dec(&mut out, align as u64);
    assert(out@ =~= layout_text(name@, addr as nat, size as nat, align as nat));
    out
}

} // verus!
