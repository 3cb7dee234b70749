//! Building text: digits of numbers, padding, and appending characters.
use vstd::prelude::*;

verus! {

/// `String::push`: appends one character.
#[verifier::external_body]
pub(crate) fn push_char(s: &mut String, c: char)
    ensures
        final(s)@ == old(s)@.push(c),
{
    s.push(c);
}

/// Appends every character of `t`.
pub fn push_str(s: &mut String, t: &str)
    ensures
        final(s)@ == old(s)@ + t@,
{
    let ghost start = s@;
    for c in it: t.chars()
        invariant
            s@ == start + it.seq().take(it.index() as int),
    {
        proof {
            assert(it.seq().take(it.index() + 1) =~= it.seq().take(it.index() as int).push(c));
        }
        push_char(s, c);
    }
}

/// The lowercase hexadecimal digit of `d < 16`.
pub open spec fn hex_char(d: int) -> char {
    if d < 10 {
        (('0' as int) + d) as char
    } else {
        (('a' as int) + d - 10) as char
    }
}

/// The decimal digit of `d < 10`.
pub open spec fn dec_char(d: int) -> char {
    (('0' as int) + d) as char
}

/// `n` in lowercase hexadecimal, without leading zeros (`0` for zero).
pub open spec fn hex_text(n: nat) -> Seq<char>
    decreases n,
{
    if n < 16 {
        seq![hex_char(n as int)]
    } else {
        hex_text(n / 16).push(hex_char((n % 16) as int))
    }
}

/// `n` in decimal, without leading zeros (`0` for zero).
pub open spec fn dec_text(n: nat) -> Seq<char>
    decreases n,
{
    if n < 10 {
        seq![dec_char(n as int)]
    } else {
        dec_text(n / 10).push(dec_char((n % 10) as int))
    }
}

/// `count` copies of `c`.
pub open spec fn repeat_char(c: char, count: int) -> Seq<char> {
    Seq::new(if count > 0 {
        count as nat
    } else {
        0
    }, |i: int| c)
}

/// `s` padded on the left with zeros up to `width` characters (`{:0width$}`).
pub open spec fn zero_pad(s: Seq<char>, width: int) -> Seq<char> {
    repeat_char('0', width - s.len()) + s
}

/// `s` padded on the right with spaces up to `width` characters (`{:<width$}`).
pub open spec fn space_pad(s: Seq<char>, width: int) -> Seq<char> {
    s + repeat_char(' ', width - s.len())
}

/// The lowercase hexadecimal digit of `d`.
pub fn hex_digit(d: u64) -> (c: char)
    requires
        d < 16,
    ensures
        c == hex_char(d as int),
{
    if d < 10 {
        ((('0' as u32) + (d as u32)) as u8) as char
    } else {
        ((('a' as u32) + (d as u32) - 10) as u8) as char
    }
}

/// The hexadecimal digits of `n` (`{:x}`).
pub fn hex_string(n: u64) -> (r: Vec<char>)
    ensures
        r@ == hex_text(n as nat),
    decreases n,
{
    if n < 16 {
        let mut r: Vec<char> = Vec::new();
        r.push(hex_digit(n));
        assert(r@ =~= hex_text(n as nat));
        r
    } else {
        let mut r = hex_string(n / 16);
        r.push(hex_digit(n % 16));
        r
    }
}

/// The decimal digits of `n` (`{}`).
pub fn dec_string(n: u64) -> (r: Vec<char>)
    ensures
        r@ == dec_text(n as nat),
    decreases n,
{
    if n < 10 {
        let mut r: Vec<char> = Vec::new();
        r.push(((('0' as u32) + (n as u32)) as u8) as char);
        assert(r@ =~= dec_text(n as nat));
        r
    } else {
        let mut r = dec_string(n / 10);
        r.push(((('0' as u32) + ((n % 10) as u32)) as u8) as char);
        r
    }
}

/// Appends `count` copies of `c`.
pub fn push_repeat(s: &mut String, c: char, count: usize)
    ensures
        final(s)@ == old(s)@ + repeat_char(c, count as int),
{
    let ghost start = s@;
    let mut k: usize = 0;
    while k < count
        invariant
            k <= count,
            s@ == start + repeat_char(c, k as int),
        decreases count - k,
    {
        push_char(s, c);
        k += 1;
        assert(repeat_char(c, k as int) =~= repeat_char(c, k - 1).push(c));
    }
}

/// Appends the characters of `chars`.
pub fn push_chars(s: &mut String, chars: &Vec<char>)
    ensures
        final(s)@ == old(s)@ + chars@,
{
    let ghost start = s@;
    let mut k: usize = 0;
    while k < chars.len()
        invariant
            k <= chars@.len(),
            s@ == start + chars@.take(k as int),
        decreases chars@.len() - k,
    {
        push_char(s, chars[k]);
        k += 1;
        assert(chars@.take(k as int) =~= chars@.take(k - 1).push(chars@[k - 1]));
    }
    assert(chars@.take(k as int) =~= chars@);
}

/// Appends `n` in hexadecimal, zero-padded to `width` digits (`{:0width$x}`).
pub fn push_hex(s: &mut String, n: u64, width: usize)
    ensures
        final(s)@ == old(s)@ + zero_pad(hex_text(n as nat), width as int),
{
    let digits = hex_string(n);
    let pad = if digits.len() < width {
        width - digits.len()
    } else {
        0
    };
    push_repeat(s, '0', pad);
    push_chars(s, &digits);
    assert(repeat_char('0', pad as int) =~= repeat_char('0', width - digits@.len()));
}

/// Appends `n` in decimal (`{}`).
pub fn push_dec(s: &mut String, n: u64)
    ensures
        final(s)@ == old(s)@ + dec_text(n as nat),
{
    let digits = dec_string(n);
    push_chars(s, &digits);
}

/// Whether every character of `s` is an ASCII digit.
pub open spec fn all_digits(s: Seq<char>) -> bool {
    forall|i: int| 0 <= i < s.len() ==> '0' <= #[trigger] s[i] && s[i] <= '9'
}

/// The number the decimal digits `s` spell.
pub open spec fn digits_value(s: Seq<char>) -> int
    decreases s.len(),
{
    if s.len() == 0 {
        0
    } else {
        digits_value(s.drop_last()) * 10 + (s.last() as int - '0' as int)
    }
}

/// `u64::from_str`: an optional `+` and then one or more ASCII digits whose
/// value fits a `u64`.
pub open spec fn parse_u64_spec(s: Seq<char>) -> Option<u64> {
    let d = if s.len() > 0 && s[0] == '+' {
        s.drop_first()
    } else {
        s
    };
    if d.len() > 0 && all_digits(d) && digits_value(d) <= u64::MAX {
        Some(digits_value(d) as u64)
    } else {
        None
    }
}


/// `dec_text(n)` is one or more decimal digits that read back as `n`.
pub proof fn dec_text_reads_back(n: nat)
    ensures
        dec_text(n).len() >= 1,
        all_digits(dec_text(n)),
        digits_value(dec_text(n)) == n,
    decreases n,
{
    let d = (n % 10) as int;
    assert(('0' as int) + d <= '9' as int);
    assert(dec_char(d) as int == '0' as int + d);
    if n >= 10 {
        dec_text_reads_back(n / 10);
        let s = dec_text(n);
        assert(s.drop_last() =~= dec_text(n / 10));
        assert(s.last() == dec_char(d));
        assert(n == (n / 10) * 10 + n % 10);
        assert(digits_value(s) == digits_value(dec_text(n / 10)) * 10 + (s.last() as int - '0' as int));
        assert forall|i: int| 0 <= i < s.len() implies '0' <= #[trigger] s[i] && s[i] <= '9' by {
            if i < s.len() - 1 {
                assert(s[i] == dec_text(n / 10)[i]);
            }
        }
    } else {
        let s = dec_text(n);
        assert(s.drop_last() =~= Seq::<char>::empty());
        assert(digits_value(s) == digits_value(s.drop_last()) * 10 + (s.last() as int - '0' as int));
        assert(digits_value(s.drop_last()) == 0);
    }
}

/// Digits of a prefix never spell more than the whole.
pub proof fn lemma_digits_value_prefix(s: Seq<char>, k: int)
    requires
        all_digits(s),
        0 <= k <= s.len(),
    ensures
        0 <= digits_value(s.take(k)) <= digits_value(s),
    decreases s.len() - k,
{
    if k < s.len() {
        lemma_digits_value_prefix(s, k + 1);
        assert(s.take(k + 1).drop_last() =~= s.take(k));
        assert('0' <= s[k] && s[k] <= '9');
    } else {
        assert(s.take(k) =~= s);
        lemma_digits_value_nonneg(s);
    }
}

pub proof fn lemma_digits_value_nonneg(s: Seq<char>)
    requires
        all_digits(s),
    ensures
        digits_value(s) >= 0,
    decreases s.len(),
{
    if s.len() > 0 {
        let t = s.drop_last();
        assert(all_digits(t)) by {
            assert forall|i: int| 0 <= i < t.len() implies '0' <= #[trigger] t[i] && t[i] <= '9' by {
                assert(t[i] == s[i]);
            }
        }
        lemma_digits_value_nonneg(t);
        assert('0' <= s[s.len() - 1]);
    }
}


/// The characters of `s`, in order.
pub fn chars_of(s: &str) -> (r: Vec<char>)
    ensures
        r@ == s@,
{
    let mut out: Vec<char> = Vec::new();
    for c in it: s.chars()
        invariant
            out@ == it.seq().take(it.index() as int),
    {
        out.push(c);
    }
    out
}


/// `u64::from_str` on `chars[lo..hi]`.
pub fn parse_u64_chars(chars: &Vec<char>, lo: usize, hi: usize) -> (r: Option<u64>)
    requires
        lo <= hi <= chars@.len(),
    ensures
        r == parse_u64_spec(chars@.subrange(lo as int, hi as int)),
{
    let ghost s = chars@.subrange(lo as int, hi as int);
    let start = if lo < hi && chars[lo] == '+' {
        lo + 1
    } else {
        lo
    };
    let ghost d = chars@.subrange(start as int, hi as int);
    assert(d =~= (if s.len() > 0 && s[0] == '+' {
        s.drop_first()
    } else {
        s
    }));
    assert(parse_u64_spec(s) == (if d.len() > 0 && all_digits(d) && digits_value(d) <= u64::MAX {
        Some(digits_value(d) as u64)
    } else {
        None::<u64>
    }));
    if start == hi {
        return None;
    }
    let mut value: u64 = 0;
    let mut k = start;
    while k < hi
        invariant
            start <= k <= hi <= chars@.len(),
            d == chars@.subrange(start as int, hi as int),
            s == chars@.subrange(lo as int, hi as int),
            parse_u64_spec(s) == (if d.len() > 0 && all_digits(d) && digits_value(d) <= u64::MAX {
                Some(digits_value(d) as u64)
            } else {
                None::<u64>
            }),
            all_digits(d.take(k - start)),
            value == digits_value(d.take(k - start)),
        decreases hi - k,
    {
        let c = chars[k];
        if !('0' <= c && c <= '9') {
            assert(d[k - start] == c);
            assert(!all_digits(d));
            return None;
        }
        let digit = (c as u32 - '0' as u32) as u64;
        assert(digit == c as int - '0' as int);
        assert(d.take(k - start + 1).last() == c);
        assert(d.take(k - start + 1).drop_last() =~= d.take(k - start));
        assert(all_digits(d.take(k - start + 1))) by {
            assert forall|i: int| 0 <= i < k - start + 1 implies '0' <= #[trigger] d.take(k - start + 1)[i]
                && d.take(k - start + 1)[i] <= '9' by {
                if i < k - start {
                    assert(d.take(k - start + 1)[i] == d.take(k - start)[i]);
                }
            }
        }
        let next = match value.checked_mul(10) {
            Some(v) => v.checked_add(digit),
            None => None,
        };
        match next {
            Some(v) => {
                value = v;
            },
            None => {
                proof {
                    if all_digits(d) {
                        lemma_digits_value_prefix(d, k - start + 1);
                    }
                }
                return None;
            },
        }
        k += 1;
    }
    assert(d.take(k - start) =~= d);
    Some(value)
}


/// `char::is_whitespace`: the characters with the Unicode `White_Space` property.
pub open spec fn is_ws(c: char) -> bool {
    ||| ('\u{9}' <= c && c <= '\u{d}')
    ||| c == ' '
    ||| c == '\u{85}'
    ||| c == '\u{a0}'
    ||| c == '\u{1680}'
    ||| ('\u{2000}' <= c && c <= '\u{200a}')
    ||| c == '\u{2028}'
    ||| c == '\u{2029}'
    ||| c == '\u{202f}'
    ||| c == '\u{205f}'
    ||| c == '\u{3000}'
}

/// The number of leading whitespace characters of `s`.
pub open spec fn lead_ws(s: Seq<char>) -> int
    decreases s.len(),
{
    if s.len() == 0 {
        0
    } else if is_ws(s[0]) {
        1 + lead_ws(s.drop_first())
    } else {
        0
    }
}


/// The number of leading characters of `s` that are not whitespace.
pub open spec fn word_len(s: Seq<char>) -> int
    decreases s.len(),
{
    if s.len() == 0 {
        0
    } else if is_ws(s[0]) {
        0
    } else {
        1 + word_len(s.drop_first())
    }
}

/// `word_len` is the length of the leading run of non-whitespace.
pub proof fn lemma_word_len_is(s: Seq<char>, j: int)
    requires
        0 <= j <= s.len(),
        forall|m: int| 0 <= m < j ==> !is_ws(#[trigger] s[m]),
        j < s.len() ==> is_ws(s[j]),
    ensures
        word_len(s) == j,
    decreases s.len(),
{
    if s.len() > 0 && j > 0 {
        assert forall|m: int| 0 <= m < j - 1 implies !is_ws(#[trigger] s.drop_first()[m]) by {
            assert(!is_ws(s[m + 1]));
        }
        lemma_word_len_is(s.drop_first(), j - 1);
    }
}

/// The index of the first `c` in `s`, or the length of `s` when there is none.
pub open spec fn index_of(s: Seq<char>, c: char) -> int
    decreases s.len(),
{
    if s.len() == 0 {
        0
    } else if s[0] == c {
        0
    } else {
        1 + index_of(s.drop_first(), c)
    }
}


/// A line without its line feed loses a carriage return before it too.
pub open spec fn strip_cr(piece: Seq<char>) -> Seq<char> {
    if piece.len() > 0 && piece.last() == '\r' {
        piece.drop_last()
    } else {
        piece
    }
}


/// `index_of` lies within `s` and stops at the first `c`.
pub proof fn lemma_index_of_bounds(s: Seq<char>, c: char)
    ensures
        0 <= index_of(s, c) <= s.len(),
        index_of(s, c) < s.len() ==> s[index_of(s, c)] == c,
        forall|m: int| 0 <= m < index_of(s, c) ==> #[trigger] s[m] != c,
    decreases s.len(),
{
    if s.len() > 0 && s[0] != c {
        lemma_index_of_bounds(s.drop_first(), c);
        assert forall|m: int| 0 <= m < index_of(s, c) implies #[trigger] s[m] != c by {
            if m > 0 {
                assert(s[m] == s.drop_first()[m - 1]);
            }
        }
    }
}

/// `index_of` is the first position holding `c`, or the length.
pub proof fn lemma_index_of_is(s: Seq<char>, c: char, j: int)
    requires
        0 <= j <= s.len(),
        forall|m: int| 0 <= m < j ==> #[trigger] s[m] != c,
        j < s.len() ==> s[j] == c,
    ensures
        index_of(s, c) == j,
    decreases s.len(),
{
    if s.len() > 0 && j > 0 {
        assert forall|m: int| 0 <= m < j - 1 implies #[trigger] s.drop_first()[m] != c by {
            assert(s[m + 1] != c);
        }
        lemma_index_of_is(s.drop_first(), c, j - 1);
    }
}

/// `lead_ws` is the length of the leading run of whitespace.
pub proof fn lemma_lead_ws_is(s: Seq<char>, j: int)
    requires
        0 <= j <= s.len(),
        forall|m: int| 0 <= m < j ==> is_ws(#[trigger] s[m]),
        j < s.len() ==> !is_ws(s[j]),
    ensures
        lead_ws(s) == j,
    decreases s.len(),
{
    if s.len() > 0 && j > 0 {
        assert forall|m: int| 0 <= m < j - 1 implies is_ws(#[trigger] s.drop_first()[m]) by {
            assert(is_ws(s[m + 1]));
        }
        lemma_lead_ws_is(s.drop_first(), j - 1);
    }
}


/// Facts about the leading whitespace run.
pub proof fn lemma_lead_ws_facts(s: Seq<char>)
    ensures
        0 <= lead_ws(s) <= s.len(),
        forall|m: int| 0 <= m < lead_ws(s) ==> is_ws(#[trigger] s[m]),
        lead_ws(s) < s.len() ==> !is_ws(s[lead_ws(s)]),
    decreases s.len(),
{
    if s.len() > 0 && is_ws(s[0]) {
        let t = s.drop_first();
        lemma_lead_ws_facts(t);
        assert forall|m: int| 0 <= m < lead_ws(s) implies is_ws(#[trigger] s[m]) by {
            if m > 0 {
                assert(s[m] == t[m - 1]);
            }
        }
        if lead_ws(s) < s.len() {
            assert(s[lead_ws(s)] == t[lead_ws(t)]);
        }
    }
}

/// `char::is_whitespace`.
pub fn is_whitespace(c: char) -> (r: bool)
    ensures
        r == is_ws(c),
{
    ('\u{9}' <= c && c <= '\u{d}') || c == ' ' || c == '\u{85}' || c == '\u{a0}' || c
        == '\u{1680}' || ('\u{2000}' <= c && c <= '\u{200a}') || c == '\u{2028}' || c
        == '\u{2029}' || c == '\u{202f}' || c == '\u{205f}' || c == '\u{3000}'
}

/// The position of the first `c` in `chars[lo..hi]`, or `hi`.
pub fn find_char(chars: &Vec<char>, lo: usize, hi: usize, c: char) -> (r: usize)
    requires
        lo <= hi <= chars@.len(),
    ensures
        r == lo + index_of(chars@.subrange(lo as int, hi as int), c),
        lo <= r <= hi,
{
    let mut j = lo;
    while j < hi && chars[j] != c
        invariant
            lo <= j <= hi <= chars@.len(),
            forall|m: int| lo <= m < j ==> #[trigger] chars@[m] != c,
        decreases hi - j,
    {
        j += 1;
    }
    proof {
        let sub = chars@.subrange(lo as int, hi as int);
        assert forall|m: int| 0 <= m < j - lo implies #[trigger] sub[m] != c by {
            assert(sub[m] == chars@[lo + m]);
        }
        lemma_index_of_is(sub, c, j - lo);
    }
    j
}

/// The position of the first non-whitespace character of `chars[lo..hi]`, or `hi`.
pub fn skip_ws_forward(chars: &Vec<char>, lo: usize, hi: usize) -> (r: usize)
    requires
        lo <= hi <= chars@.len(),
    ensures
        r == lo + lead_ws(chars@.subrange(lo as int, hi as int)),
        lo <= r <= hi,
{
    let mut j = lo;
    while j < hi && is_whitespace(chars[j])
        invariant
            lo <= j <= hi <= chars@.len(),
            forall|m: int| lo <= m < j ==> is_ws(#[trigger] chars@[m]),
        decreases hi - j,
    {
        j += 1;
    }
    proof {
        let sub = chars@.subrange(lo as int, hi as int);
        assert forall|m: int| 0 <= m < j - lo implies is_ws(#[trigger] sub[m]) by {
            assert(sub[m] == chars@[lo + m]);
        }
        lemma_lead_ws_is(sub, j - lo);
    }
    j
}


/// The position of the first whitespace character of `chars[lo..hi]`, or `hi`.
pub fn skip_word(chars: &Vec<char>, lo: usize, hi: usize) -> (r: usize)
    requires
        lo <= hi <= chars@.len(),
    ensures
        r == lo + word_len(chars@.subrange(lo as int, hi as int)),
        lo <= r <= hi,
{
    let mut j = lo;
    while j < hi && !is_whitespace(chars[j])
        invariant
            lo <= j <= hi <= chars@.len(),
            forall|m: int| lo <= m < j ==> !is_ws(#[trigger] chars@[m]),
        decreases hi - j,
    {
        j += 1;
    }
    proof {
        let sub = chars@.subrange(lo as int, hi as int);
        assert forall|m: int| 0 <= m < j - lo implies !is_ws(#[trigger] sub[m]) by {
            assert(sub[m] == chars@[lo + m]);
        }
        lemma_word_len_is(sub, j - lo);
    }
    j
}

} // verus!
