//! The resident-set size a process status text (`/proc/<pid>/status`) reports.
use vstd::prelude::*;

use crate::text::{
    all_digits, chars_of, dec_text, dec_text_reads_back, digits_value, find_char, index_of, is_ws,
    lead_ws, lemma_index_of_bounds, lemma_index_of_is, lemma_lead_ws_facts, lemma_lead_ws_is,
    lemma_word_len_is, parse_u64_chars, parse_u64_spec, skip_word, skip_ws_forward, strip_cr,
    word_len,
};

verus! {

/// The tag of the status line that holds the resident-set size.
pub open spec fn rss_tag() -> Seq<char> {
    seq!['V', 'm', 'R', 'S', 'S', ':']
}

/// The first whitespace-separated word of `s`, empty when there is none.
pub open spec fn first_word(s: Seq<char>) -> Seq<char> {
    let t = s.skip(lead_ws(s));
    t.take(word_len(t))
}

/// `usize::from_str`: what `u64::from_str` reads, when it fits a `usize`.
pub open spec fn parse_usize_spec(s: Seq<char>) -> Option<usize> {
    match parse_u64_spec(s) {
        Some(v) => if v <= usize::MAX {
            Some(v as usize)
        } else {
            None
        },
        None => None,
    }
}

/// The resident-set size, in kB, that a status text reports: on its first
/// line that starts with `VmRSS:`, the first word after the tag read as a
/// number. `None` when no line starts so, or when that word is missing or is
/// not a number. Lines end at `\n` or `\r\n`.
pub open spec fn rss_kb_spec(text: Seq<char>) -> Option<usize>
    decreases text.len(),
{
    if text.len() == 0 {
        None
    } else {
        let i = index_of(text, '\n');
        let line = if i < text.len() {
            strip_cr(text.subrange(0, i))
        } else {
            text
        };
        let rest = if i < text.len() {
            text.subrange(i + 1, text.len() as int)
        } else {
            Seq::empty()
        };
        proof {
            lemma_index_of_bounds(text, '\n');
        }
        if line.len() >= 6 && line.take(6) == rss_tag() {
            parse_usize_spec(first_word(line.skip(6)))
        } else {
            rss_kb_spec(rest)
        }
    }
}

/// A status text whose first line is `VmRSS:`, then whitespace, then the
/// decimal digits of `n`, then whitespace or the end of the text, reports
/// `n`, for every `n` a `usize` holds.
pub proof fn rss_reads_the_vmrss_number(space: Seq<char>, n: nat, tail: Seq<char>)
    requires
        n <= usize::MAX,
        forall|j: int| 0 <= j < space.len() ==> is_ws(#[trigger] space[j]) && space[j] != '\n',
        tail.len() == 0 || is_ws(tail[0]),
    ensures
        rss_kb_spec(rss_tag() + space + dec_text(n) + tail) == Some(n as usize),
{
    let d = dec_text(n);
    dec_text_reads_back(n);
    let text = rss_tag() + space + d + tail;
    let w = space.len() as int;
    let m = 6 + w + d.len();
    assert forall|j: int| 0 <= j < m implies #[trigger] text[j] != '\n' by {
        if j < 6 {
            assert(text[j] == rss_tag()[j]);
        } else if j < 6 + w {
            assert(text[j] == space[j - 6]);
        } else {
            assert(text[j] == d[j - 6 - w]);
            assert('0' <= d[j - 6 - w] && d[j - 6 - w] <= '9');
        }
    }
    lemma_index_of_bounds(text, '\n');
    let i = index_of(text, '\n');
    assert(i >= m);
    let line = if i < text.len() {
        strip_cr(text.subrange(0, i))
    } else {
        text
    };
    assert(line.len() >= m) by {
        if i < text.len() && i == m {
            assert(text.subrange(0, i).last() == d.last());
            assert('0' <= d[d.len() - 1] && d[d.len() - 1] <= '9');
        }
    }
    assert(forall|j: int| 0 <= j < line.len() ==> #[trigger] line[j] == text[j]);
    assert(line.take(6) =~= rss_tag()) by {
        assert forall|j: int| 0 <= j < 6 implies #[trigger] line.take(6)[j] == rss_tag()[j] by {
            assert(line[j] == text[j]);
        }
    }
    let u = line.skip(6);
    assert forall|j: int| 0 <= j < w implies is_ws(#[trigger] u[j]) by {
        assert(u[j] == line[j + 6]);
        assert(text[j + 6] == space[j]);
    }
    assert(u[w] == d[0]) by {
        assert(u[w] == line[w + 6]);
        assert(text[w + 6] == d[0]);
    }
    assert('0' <= d[0] && d[0] <= '9');
    lemma_lead_ws_is(u, w);
    let t = u.skip(w);
    assert forall|j: int| 0 <= j < d.len() implies !is_ws(#[trigger] t[j]) by {
        assert(t[j] == line[w + 6 + j]);
        assert(text[w + 6 + j] == d[j]);
        assert('0' <= d[j] && d[j] <= '9');
    }
    if d.len() < t.len() {
        assert(t[d.len() as int] == line[m]);
        assert(text[m] == tail[0]);
    }
    lemma_word_len_is(t, d.len() as int);
    assert(first_word(u) =~= d) by {
        assert forall|j: int| 0 <= j < d.len() implies #[trigger] first_word(u)[j] == d[j] by {
            assert(t[j] == line[w + 6 + j]);
            assert(text[w + 6 + j] == d[j]);
        }
    }
    assert(d[0] != '+');
    assert(parse_u64_spec(d) == Some(n as u64));
}

/// A line that does not start with `VmRSS:` is passed over: the report of
/// that line, a line feed and `rest` is the report of `rest`.
pub proof fn rss_skips_other_lines(line: Seq<char>, rest: Seq<char>)
    requires
        forall|j: int| 0 <= j < line.len() ==> #[trigger] line[j] != '\n',
        !(line.len() >= 6 && line.take(6) == rss_tag()),
    ensures
        rss_kb_spec(line + seq!['\n'] + rest) == rss_kb_spec(rest),
{
    let text = line + seq!['\n'] + rest;
    assert forall|j: int| 0 <= j < line.len() implies #[trigger] text[j] != '\n' by {
        assert(text[j] == line[j]);
    }
    assert(text[line.len() as int] == '\n');
    lemma_index_of_is(text, '\n', line.len() as int);
    assert(text.subrange(0, line.len() as int) =~= line);
    assert(text.subrange(line.len() + 1int, text.len() as int) =~= rest);
    let l2 = strip_cr(line);
    if l2.len() >= 6 && l2.take(6) == rss_tag() {
        assert(line.take(6) =~= l2.take(6));
    }
}

/// Whether `chars[lo..hi]` starts with `VmRSS:`.
fn has_rss_tag(chars: &Vec<char>, lo: usize, hi: usize) -> (r: bool)
    requires
        lo <= hi <= chars@.len(),
    ensures
        r == (hi - lo >= 6 && chars@.subrange(lo as int, hi as int).take(6) == rss_tag()),
{
    if hi - lo < 6 {
        return false;
    }
    let r = chars[lo] == 'V' && chars[lo + 1] == 'm' && chars[lo + 2] == 'R' && chars[lo + 3]
        == 'S' && chars[lo + 4] == 'S' && chars[lo + 5] == ':';
    proof {
        let head = chars@.subrange(lo as int, hi as int).take(6);
        assert(forall|k: int| 0 <= k < 6 ==> head[k] == chars@[lo + k]);
        if r {
            assert(head =~= rss_tag());
        } else {
            assert(head != rss_tag()) by {
                if head == rss_tag() {
                    assert(head[0] == 'V' && head[1] == 'm' && head[2] == 'R');
                    assert(head[3] == 'S' && head[4] == 'S' && head[5] == ':');
                }
            }
        }
    }
    r
}

/// The first word of `chars[lo..hi]` read as a `usize`.
fn read_first_number(chars: &Vec<char>, lo: usize, hi: usize) -> (r: Option<usize>)
    requires
        lo <= hi <= chars@.len(),
    ensures
        r == parse_usize_spec(first_word(chars@.subrange(lo as int, hi as int))),
{
    let a = skip_ws_forward(chars, lo, hi);
    let b = skip_word(chars, a, hi);
    proof {
        let sub = chars@.subrange(lo as int, hi as int);
        let t = sub.skip(lead_ws(sub));
        assert(t =~= chars@.subrange(a as int, hi as int));
        assert(t.take(word_len(t)) =~= chars@.subrange(a as int, b as int));
    }
    match parse_u64_chars(chars, a, b) {
        Some(v) => if v <= usize::MAX as u64 {
            Some(v as usize)
        } else {
            None
        },
        None => None,
    }
}

/// Reads the resident-set size, in kB, out of a process status text.
pub fn rss_kb_from_status(status: &str) -> (r: Option<usize>)
    ensures
        r == rss_kb_spec(status@),
{
    let chars = chars_of(status);
    let n = chars.len();
    let mut pos: usize = 0;
    assert(chars@.subrange(0, n as int) =~= status@);
    while pos < n
        invariant
            n == chars@.len(),
            pos <= n,
            rss_kb_spec(chars@.subrange(pos as int, n as int)) == rss_kb_spec(status@),
        decreases n - pos,
    {
        let ghost text = chars@.subrange(pos as int, n as int);
        let nl = find_char(&chars, pos, n, '\n');
        let mut end = nl;
        if nl < n && end > pos && chars[end - 1] == '\r' {
            end -= 1;
        }
        let next = if nl < n {
            nl + 1
        } else {
            n
        };
        proof {
            lemma_index_of_bounds(text, '\n');
            let i = nl - pos;
            let line = if i < text.len() {
                strip_cr(text.subrange(0, i))
            } else {
                text
            };
            assert(line =~= chars@.subrange(pos as int, end as int));
            let rest = if i < text.len() {
                text.subrange(i + 1, text.len() as int)
            } else {
                Seq::empty()
            };
            assert(rest =~= chars@.subrange(next as int, n as int));
            if end - pos >= 6 {
                assert(line.skip(6) =~= chars@.subrange(pos + 6, end as int));
            }
        }
        if has_rss_tag(&chars, pos, end) {
            return read_first_number(&chars, pos + 6, end);
        }
        pos = next;
    }
    None
}

} // verus!
