//! User-record fixtures: a tab-separated text format with columns
//! `set`, `id`, `name`, `note`, one record per line.
use vstd::prelude::*;

use crate::db::record::UserRecord;
use crate::text::{
    chars_of, find_char, index_of, is_whitespace, is_ws, lead_ws, lemma_index_of_bounds,
    lemma_index_of_is, lemma_lead_ws_facts, lemma_lead_ws_is, parse_u64_chars, parse_u64_spec,
    skip_ws_forward, strip_cr,
};

verus! {

/// `std::io::Error`, carried by `FixtureError::Io`.
#[verifier::external_type_specification]
#[verifier::external_body]
pub struct ExIoError(std::io::Error);

#[derive(Debug, Clone, PartialEq, Eq)]
pub struct UserRecordFixture {
    pub set: String,
    pub id: u64,
    pub name: String,
    pub note: String,
}

impl View for UserRecordFixture {
    type V = (Seq<char>, u64, Seq<char>, Seq<char>);

    open spec fn view(&self) -> (Seq<char>, u64, Seq<char>, Seq<char>) {
        (self.set@, self.id, self.name@, self.note@)
    }
}

impl UserRecordFixture {
    /// The record this fixture describes: its id and name.
    pub fn to_user_record(&self) -> (r: UserRecord)
        ensures
            r@ == (self.id, self.name@),
    {
        UserRecord { id: self.id, name: self.name.clone() }
    }
}

#[derive(Debug)]
pub enum FixtureError {
    Io(std::io::Error),
    BadLine { line_no: usize, line: String, reason: String },
    BadId { line_no: usize, value: String },
}

impl From<std::io::Error> for FixtureError {
    fn from(error: std::io::Error) -> (r: Self) {
        FixtureError::Io(error)
    }
}

impl vstd::std_specs::convert::FromSpecImpl<std::io::Error> for FixtureError {
    open spec fn obeys_from_spec() -> bool {
        true
    }

    open spec fn from_spec(v: std::io::Error) -> Self {
        FixtureError::Io(v)
    }
}

/// Why a fixture could not be parsed: a line without four tab-separated
/// fields, or an id that is not a `u64`.
pub enum FixtureFailure {
    BadLine { line_no: int, line: Seq<char> },
    BadId { line_no: int, value: Seq<char> },
}

/// What one line of a fixture file gives.
pub enum LineOutcome {
    Skip,
    Row((Seq<char>, u64, Seq<char>, Seq<char>)),
    Fail(FixtureFailure),
}

/// The reason given with every `BadLine` error.
pub open spec fn bad_line_reason() -> Seq<char> {
    "expected exactly 4 tab-separated fields: set, id, name, note"@
}

/// The header line that fixture files may start with.
pub open spec fn header_line() -> Seq<char> {
    seq!['s', 'e', 't', '\t', 'i', 'd', '\t', 'n', 'a', 'm', 'e', '\t', 'n', 'o', 't', 'e']
}

/// The number of trailing whitespace characters of `s`.
pub open spec fn trail_ws(s: Seq<char>) -> int
    decreases s.len(),
{
    if s.len() == 0 {
        0
    } else if is_ws(s.last()) {
        1 + trail_ws(s.drop_last())
    } else {
        0
    }
}

/// `s` without leading and trailing whitespace (`str::trim`).
pub open spec fn trim_spec(s: Seq<char>) -> Seq<char> {
    if lead_ws(s) == s.len() {
        Seq::empty()
    } else {
        s.subrange(lead_ws(s), s.len() - trail_ws(s))
    }
}

/// What line `line_no` reading `line` gives: blank lines, comments and the
/// header are skipped; otherwise it splits at the first three tabs into set,
/// id, name and note (the note keeps any further tab).
pub open spec fn parse_line_spec(line: Seq<char>, line_no: int) -> LineOutcome {
    let t = trim_spec(line);
    if t.len() == 0 || t[0] == '#' || t == header_line() {
        LineOutcome::Skip
    } else {
        let t1 = index_of(line, '\t');
        let t2 = t1 + 1 + index_of(line.subrange(t1 + 1, line.len() as int), '\t');
        let t3 = t2 + 1 + index_of(line.subrange(t2 + 1, line.len() as int), '\t');
        if t1 >= line.len() || t2 >= line.len() || t3 >= line.len() {
            LineOutcome::Fail(FixtureFailure::BadLine { line_no, line })
        } else {
            let id_text = line.subrange(t1 + 1, t2);
            match parse_u64_spec(id_text) {
                None => LineOutcome::Fail(FixtureFailure::BadId { line_no, value: id_text }),
                Some(id) => LineOutcome::Row(
                    (
                        line.subrange(0, t1),
                        id,
                        line.subrange(t2 + 1, t3),
                        line.subrange(t3 + 1, line.len() as int),
                    ),
                ),
            }
        }
    }
}

/// The fixtures of `text`, whose first line is line `line_no`, or the first
/// failure. Lines end at `\n` or `\r\n`; the last line ending is optional.
pub open spec fn parse_text_spec(text: Seq<char>, line_no: int) -> Result<
    Seq<(Seq<char>, u64, Seq<char>, Seq<char>)>,
    FixtureFailure,
>
    decreases text.len(),
{
    if text.len() == 0 {
        Ok(Seq::empty())
    } else {
        let i = index_of(text, '\n');
        let line = if i < text.len() {
            strip_cr(text.subrange(0, i))
        } else {
            text
        };
        let rest = if i < text.len() {
            text.subrange(i + 1, text.len() as int)
        } else {
            Seq::empty()
        };
        proof {
            lemma_index_of_bounds(text, '\n');
        }
        match parse_line_spec(line, line_no) {
            LineOutcome::Skip => parse_text_spec(rest, line_no + 1),
            LineOutcome::Fail(e) => Err(e),
            LineOutcome::Row(row) => match parse_text_spec(rest, line_no + 1) {
                Ok(rows) => Ok(seq![row] + rows),
                Err(e) => Err(e),
            },
        }
    }
}

/// `trail_ws` is the length of the trailing run of whitespace.
proof fn lemma_trail_ws_is(s: Seq<char>, j: int)
    requires
        0 <= j <= s.len(),
        forall|m: int| s.len() - j <= m < s.len() ==> is_ws(#[trigger] s[m]),
        j < s.len() ==> !is_ws(s[s.len() - 1 - j]),
    ensures
        trail_ws(s) == j,
    decreases s.len(),
{
    if s.len() > 0 && j > 0 {
        let t = s.drop_last();
        assert forall|m: int| t.len() - (j - 1) <= m < t.len() implies is_ws(#[trigger] t[m]) by {
            assert(t[m] == s[m]);
        }
        lemma_trail_ws_is(t, j - 1);
    }
}

/// The end of `chars[lo..hi]` without its trailing whitespace, where
/// `chars[lo]` is not whitespace.
fn skip_ws_backward(chars: &Vec<char>, lo: usize, hi: usize) -> (r: usize)
    requires
        lo < hi <= chars@.len(),
        !is_ws(chars@[lo as int]),
    ensures
        r == hi - trail_ws(chars@.subrange(lo as int, hi as int)),
        lo < r <= hi,
{
    let mut p = hi;
    while p > lo + 1 && is_whitespace(chars[p - 1])
        invariant
            lo < p <= hi <= chars@.len(),
            forall|m: int| p <= m < hi ==> is_ws(#[trigger] chars@[m]),
        decreases p,
    {
        p -= 1;
    }
    proof {
        let sub = chars@.subrange(lo as int, hi as int);
        assert forall|m: int| sub.len() - (hi - p) <= m < sub.len() implies is_ws(#[trigger] sub[m]) by {
            assert(sub[m] == chars@[lo + m]);
        }
        assert(sub[sub.len() - 1 - (hi - p)] == chars@[p - 1]);
        lemma_trail_ws_is(sub, hi - p);
    }
    p
}

/// Whether `chars[lo..hi]` is the header line.
fn is_header(chars: &Vec<char>, lo: usize, hi: usize) -> (r: bool)
    requires
        lo <= hi <= chars@.len(),
    ensures
        r == (chars@.subrange(lo as int, hi as int) == header_line()),
{
    let header: [char; 16] = ['s', 'e', 't', '\t', 'i', 'd', '\t', 'n', 'a', 'm', 'e', '\t', 'n', 'o', 't', 'e'];
    assert(header@ =~= header_line());
    if hi - lo != 16 {
        return false;
    }
    let mut k: usize = 0;
    while k < 16
        invariant
            hi - lo == 16,
            lo <= hi <= chars@.len(),
            k <= 16,
            header@ == header_line(),
            forall|m: int| 0 <= m < k ==> chars@[lo + m] == #[trigger] header_line()[m],
        decreases 16 - k,
    {
        if chars[lo + k] != header[k] {
            assert(chars@.subrange(lo as int, hi as int)[k as int] != header_line()[k as int]);
            return false;
        }
        k += 1;
    }
    assert(chars@.subrange(lo as int, hi as int) =~= header_line());
    true
}

/// A fixture result agrees with what the spec says of it.
pub open spec fn failure_matches(f: FixtureFailure, e: FixtureError) -> bool {
    match f {
        FixtureFailure::BadLine { line_no, line } => e matches FixtureError::BadLine {
            line_no: n,
            line: l,
            reason,
        } && n == line_no && l@ == line && reason@ == bad_line_reason(),
        FixtureFailure::BadId { line_no, value } => e matches FixtureError::BadId {
            line_no: n,
            value: v,
        } && n == line_no && v@ == value,
    }
}

/// One parsed line agrees with what the spec says of it.
pub open spec fn line_matches(o: LineOutcome, r: Option<Result<UserRecordFixture, FixtureError>>) -> bool {
    match o {
        LineOutcome::Skip => r is None,
        LineOutcome::Row(row) => r matches Some(Ok(f)) && f@ == row,
        LineOutcome::Fail(f) => r matches Some(Err(e)) && failure_matches(f, e),
    }
}

/// Parses line `line_no`, the characters `lo..hi` of `input`.
#[verifier::rlimit(60)]
fn parse_line(input: &str, chars: &Vec<char>, lo: usize, hi: usize, line_no: usize) -> (r: Option<
    Result<UserRecordFixture, FixtureError>,
>)
    requires
        chars@ == input@,
        lo <= hi <= chars@.len(),
    ensures
        line_matches(parse_line_spec(chars@.subrange(lo as int, hi as int), line_no as int), r),
{
    let ghost line = chars@.subrange(lo as int, hi as int);
    let first = skip_ws_forward(chars, lo, hi);
    if first == hi {
        return None;
    }
    proof {
        lemma_lead_ws_facts(line);
        lemma_trail_ws_facts(line);
        assert(line[first - lo] == chars@[first as int]);
        assert(!is_ws(chars@[first as int]));
        if trail_ws(line) > line.len() - 1 - (first - lo) {
            assert(is_ws(line[first - lo]));
        }
    }
    if chars[first] == '#' {
        assert(trim_spec(line)[0] == chars@[first as int]);
        return None;
    }
    let last = skip_ws_backward(chars, first, hi);
    proof {
        let l = lead_ws(line);
        assert(l == first - lo);
        let sub = chars@.subrange(first as int, hi as int);
        assert(sub =~= line.subrange(l, line.len() as int));
        // the trailing run of `line` is the trailing run of `sub`
        assert forall|m: int| line.len() - (hi - last) <= m < line.len() implies is_ws(#[trigger] line[m]) by {
            assert(line[m] == chars@[lo + m]);
            assert(sub[m - l] == chars@[lo + m]);
            lemma_trail_ws_facts(sub);
        }
        lemma_trail_ws_facts(sub);
        if hi - last < line.len() {
            assert(line[line.len() - 1 - (hi - last)] == sub[sub.len() - 1 - (hi - last)]);
        }
        lemma_trail_ws_is(line, hi - last);
        assert(trim_spec(line) =~= chars@.subrange(first as int, last as int));
    }
    if is_header(chars, first, last) {
        return None;
    }
    let t1 = find_char(chars, lo, hi, '\t');
    let t2 = if t1 < hi {
        find_char(chars, t1 + 1, hi, '\t')
    } else {
        hi
    };
    let t3 = if t2 < hi {
        find_char(chars, t2 + 1, hi, '\t')
    } else {
        hi
    };
    proof {
        lemma_index_of_bounds(line, '\t');
        assert(line.subrange(0, line.len() as int) =~= line);
        if t1 < hi {
            assert(line.subrange(t1 - lo + 1, line.len() as int) =~= chars@.subrange(t1 + 1, hi as int));
        }
        if t2 < hi {
            assert(line.subrange(t2 - lo + 1, line.len() as int) =~= chars@.subrange(t2 + 1, hi as int));
        }
    }
    if t3 >= hi {
        let text = input.substring_char(lo, hi).to_owned();
        let reason = "expected exactly 4 tab-separated fields: set, id, name, note".to_owned();
        return Some(Err(FixtureError::BadLine { line_no, line: text, reason }));
    }
    proof {
        assert(chars@.subrange(t1 + 1, t2 as int) =~= line.subrange(t1 - lo + 1, t2 - lo));
        assert(chars@.subrange(lo as int, t1 as int) =~= line.subrange(0, t1 - lo));
        assert(chars@.subrange(t2 + 1, t3 as int) =~= line.subrange(t2 - lo + 1, t3 - lo));
        assert(chars@.subrange(t3 + 1, hi as int) =~= line.subrange(t3 - lo + 1, line.len() as int));
    }
    let id = match parse_u64_chars(chars, t1 + 1, t2) {
        Some(id) => id,
        None => {
            let value = input.substring_char(t1 + 1, t2).to_owned();
            return Some(Err(FixtureError::BadId { line_no, value }));
        },
    };
    let set = input.substring_char(lo, t1).to_owned();
    let name = input.substring_char(t2 + 1, t3).to_owned();
    let note = input.substring_char(t3 + 1, hi).to_owned();
    Some(Ok(UserRecordFixture { set, id, name, note }))
}

/// Facts about the trailing whitespace run.
proof fn lemma_trail_ws_facts(s: Seq<char>)
    ensures
        0 <= trail_ws(s) <= s.len(),
        forall|m: int| s.len() - trail_ws(s) <= m < s.len() ==> is_ws(#[trigger] s[m]),
        trail_ws(s) < s.len() ==> !is_ws(s[s.len() - 1 - trail_ws(s)]),
    decreases s.len(),
{
    if s.len() > 0 && is_ws(s.last()) {
        let t = s.drop_last();
        lemma_trail_ws_facts(t);
        assert forall|m: int| s.len() - trail_ws(s) <= m < s.len() implies is_ws(#[trigger] s[m]) by {
            if m < s.len() - 1 {
                assert(s[m] == t[m]);
            }
        }
        if trail_ws(s) < s.len() {
            assert(s[s.len() - 1 - trail_ws(s)] == t[t.len() - 1 - trail_ws(t)]);
        }
    }
}

/// A final line ending changes nothing: parsing `text` and parsing `text`
/// followed by a line feed give the same fixtures, or the same failure. So the
/// last line yields its fixture whether or not a newline ends it. (A text
/// ending in a carriage return is left out: without the line feed its last
/// line keeps the `\r`, with it the `\r` is part of the line ending.)
pub proof fn parse_ignores_final_newline(text: Seq<char>, line_no: int)
    requires
        text.len() == 0 || text.last() != '\r',
    ensures
        parse_text_spec(text.push('\n'), line_no) == parse_text_spec(text, line_no),
    decreases text.len(),
{
    let t2 = text.push('\n');
    lemma_index_of_bounds(t2, '\n');
    lemma_index_of_bounds(text, '\n');
    let i = index_of(text, '\n');
    if text.len() == 0 {
        lemma_index_of_is(t2, '\n', 0);
        assert(t2.subrange(0, 0) =~= Seq::<char>::empty());
        assert(t2.subrange(1, 1) =~= Seq::<char>::empty());
        assert(trim_spec(Seq::<char>::empty()) =~= Seq::<char>::empty());
        assert(strip_cr(Seq::<char>::empty()) =~= Seq::<char>::empty());
        assert(parse_line_spec(Seq::<char>::empty(), line_no) is Skip);
        assert(parse_text_spec(Seq::<char>::empty(), line_no + 1) == parse_text_spec(text, line_no));
        assert(parse_text_spec(t2, line_no) == parse_text_spec(Seq::<char>::empty(), line_no + 1));
    } else if i < text.len() {
        assert forall|m: int| 0 <= m < i implies #[trigger] t2[m] != '\n' by {
            assert(t2[m] == text[m]);
        }
        assert(t2[i] == text[i]);
        lemma_index_of_is(t2, '\n', i);
        assert(t2.subrange(0, i) =~= text.subrange(0, i));
        let rest = text.subrange(i + 1, text.len() as int);
        assert(t2.subrange(i + 1, t2.len() as int) =~= rest.push('\n'));
        if rest.len() > 0 {
            assert(rest.last() == text.last());
        }
        parse_ignores_final_newline(rest, line_no + 1);
        assert(strip_cr(t2.subrange(0, i)) == strip_cr(text.subrange(0, i)));
    } else {
        assert forall|m: int| 0 <= m < text.len() implies #[trigger] t2[m] != '\n' by {
            assert(t2[m] == text[m]);
        }
        lemma_index_of_is(t2, '\n', text.len() as int);
        assert(t2.subrange(0, text.len() as int) =~= text);
        assert(t2.subrange(text.len() + 1int, t2.len() as int) =~= Seq::<char>::empty());
        assert(strip_cr(t2.subrange(0, text.len() as int)) == text);
    }
}

/// The fixtures `rows` parsed so far followed by the outcome of the rest.
pub open spec fn after_rows(
    rows: Seq<(Seq<char>, u64, Seq<char>, Seq<char>)>,
    rest: Result<Seq<(Seq<char>, u64, Seq<char>, Seq<char>)>, FixtureFailure>,
) -> Result<Seq<(Seq<char>, u64, Seq<char>, Seq<char>)>, FixtureFailure> {
    match rest {
        Ok(more) => Ok(rows + more),
        Err(e) => Err(e),
    }
}

/// Parses fixture text: one fixture per line as `set<TAB>id<TAB>name<TAB>note`,
/// skipping blank lines, `#` comments and the header line. Fails on the first
/// line with fewer than four fields (`BadLine`) or an id that is not a `u64`
/// (`BadId`), numbering lines from 1.
pub fn parse_user_record_fixtures(input: &str) -> (r: Result<Vec<UserRecordFixture>, FixtureError>)
    requires
        input@.len() < usize::MAX,
    ensures
        match parse_text_spec(input@, 1) {
            Ok(rows) => r matches Ok(fixtures) && fixtures@.map_values(
                |f: UserRecordFixture| f@,
            ) == rows,
            Err(f) => r matches Err(e) && failure_matches(f, e),
        },
{
    let chars = chars_of(input);
    let n = chars.len();
    let mut fixtures: Vec<UserRecordFixture> = Vec::new();
    let mut pos: usize = 0;
    let mut line_no: usize = 1;
    assert(chars@.subrange(0, n as int) =~= input@);
    while pos < n
        invariant
            chars@ == input@,
            n == chars@.len(),
            n < usize::MAX,
            pos <= n,
            1 <= line_no <= pos + 1,
            after_rows(
                fixtures@.map_values(|f: UserRecordFixture| f@),
                parse_text_spec(chars@.subrange(pos as int, n as int), line_no as int),
            ) == parse_text_spec(input@, 1),
        decreases n - pos,
    {
        let ghost text = chars@.subrange(pos as int, n as int);
        let nl = find_char(&chars, pos, n, '\n');
        let mut end = nl;
        if nl < n && end > pos && chars[end - 1] == '\r' {
            end -= 1;
        }
        let outcome = parse_line(input, &chars, pos, end, line_no);
        let next = if nl < n {
            nl + 1
        } else {
            n
        };
        proof {
            lemma_index_of_bounds(text, '\n');
            let i = nl - pos;
            let line = if i < text.len() {
                strip_cr(text.subrange(0, i))
            } else {
                text
            };
            assert(line =~= chars@.subrange(pos as int, end as int));
            let rest = if i < text.len() {
                text.subrange(i + 1, text.len() as int)
            } else {
                Seq::empty()
            };
            assert(rest =~= chars@.subrange(next as int, n as int));
        }
        match outcome {
            None => {},
            Some(Ok(fixture)) => {
                let ghost before = fixtures@.map_values(|f: UserRecordFixture| f@);
                fixtures.push(fixture);
                proof {
                    let row = fixture@;
                    assert(fixtures@.map_values(|f: UserRecordFixture| f@) =~= before.push(row));
                    let more = parse_text_spec(chars@.subrange(next as int, n as int), line_no + 1);
                    match more {
                        Ok(m) => {
                            assert(before + (seq![row] + m) =~= before.push(row) + m);
                        },
                        Err(_) => {},
                    }
                }
            },
            Some(Err(error)) => {
                return Err(error);
            },
        }
        pos = next;
        line_no += 1;
    }
    proof {
        assert(fixtures@.map_values(|f: UserRecordFixture| f@) + Seq::<(Seq<char>, u64, Seq<char>, Seq<char>)>::empty()
            =~= fixtures@.map_values(|f: UserRecordFixture| f@));
    }
    Ok(fixtures)
}

/// `a` orders before `b`, character by character (the order of `String`s,
/// whose UTF-8 bytes compare in code point order).
pub open spec fn chars_lt(a: Seq<char>, b: Seq<char>) -> bool
    decreases a.len(),
{
    if a.len() == 0 {
        b.len() > 0
    } else if b.len() == 0 {
        false
    } else if a[0] != b[0] {
        a[0] < b[0]
    } else {
        chars_lt(a.drop_first(), b.drop_first())
    }
}

/// The fixtures among `fixtures` whose set is `name`, in order.
pub open spec fn members_of(
    fixtures: Seq<(Seq<char>, u64, Seq<char>, Seq<char>)>,
    name: Seq<char>,
) -> Seq<(Seq<char>, u64, Seq<char>, Seq<char>)>
    decreases fixtures.len(),
{
    if fixtures.len() == 0 {
        Seq::empty()
    } else {
        let before = members_of(fixtures.drop_last(), name);
        if fixtures.last().0 == name {
            before.push(fixtures.last())
        } else {
            before
        }
    }
}

/// Groups of fixtures by set: names in strictly increasing order, each name
/// the set of some fixture, each group exactly the fixtures of its set in
/// their order, and every fixture's set has a group.
pub open spec fn grouped_by_set(
    fixtures: Seq<(Seq<char>, u64, Seq<char>, Seq<char>)>,
    groups: Seq<(Seq<char>, Seq<(Seq<char>, u64, Seq<char>, Seq<char>)>)>,
) -> bool {
    &&& forall|i: int, j: int|
        0 <= i < j < groups.len() ==> chars_lt(#[trigger] groups[i].0, #[trigger] groups[j].0)
    &&& forall|i: int| 0 <= i < groups.len() ==> #[trigger] groups[i].1 == members_of(fixtures, groups[i].0)
    &&& forall|i: int| 0 <= i < groups.len() ==> #[trigger] groups[i].1.len() > 0
    &&& forall|k: int|
        0 <= k < fixtures.len() ==> exists|i: int|
            0 <= i < groups.len() && #[trigger] groups[i].0 == #[trigger] fixtures[k].0
}

/// The number of fixtures over all groups.
pub open spec fn group_total(
    groups: Seq<(Seq<char>, Seq<(Seq<char>, u64, Seq<char>, Seq<char>)>)>,
) -> int
    decreases groups.len(),
{
    if groups.len() == 0 {
        0
    } else {
        group_total(groups.drop_last()) + groups.last().1.len()
    }
}

proof fn lemma_group_total_update(
    groups: Seq<(Seq<char>, Seq<(Seq<char>, u64, Seq<char>, Seq<char>)>)>,
    j: int,
    g: (Seq<char>, Seq<(Seq<char>, u64, Seq<char>, Seq<char>)>),
)
    requires
        0 <= j < groups.len(),
    ensures
        group_total(groups.update(j, g)) == group_total(groups) - groups[j].1.len() + g.1.len(),
    decreases groups.len(),
{
    let after = groups.update(j, g);
    if j < groups.len() - 1 {
        assert(after.drop_last() =~= groups.drop_last().update(j, g));
        lemma_group_total_update(groups.drop_last(), j, g);
    } else {
        assert(after.drop_last() =~= groups.drop_last());
    }
}

proof fn lemma_group_total_insert(
    groups: Seq<(Seq<char>, Seq<(Seq<char>, u64, Seq<char>, Seq<char>)>)>,
    j: int,
    g: (Seq<char>, Seq<(Seq<char>, u64, Seq<char>, Seq<char>)>),
)
    requires
        0 <= j <= groups.len(),
    ensures
        group_total(groups.insert(j, g)) == group_total(groups) + g.1.len(),
    decreases groups.len(),
{
    let after = groups.insert(j, g);
    if j < groups.len() {
        assert(after.drop_last() =~= groups.drop_last().insert(j, g));
        assert(after.last() == groups.last());
        lemma_group_total_insert(groups.drop_last(), j, g);
    } else {
        assert(after.drop_last() =~= groups);
    }
}

proof fn lemma_chars_lt_irreflexive(a: Seq<char>)
    ensures
        !chars_lt(a, a),
    decreases a.len(),
{
    if a.len() > 0 {
        lemma_chars_lt_irreflexive(a.drop_first());
    }
}

proof fn lemma_chars_lt_trans(a: Seq<char>, b: Seq<char>, c: Seq<char>)
    requires
        chars_lt(a, b),
        chars_lt(b, c),
    ensures
        chars_lt(a, c),
    decreases a.len(),
{
    if a.len() > 0 && b.len() > 0 && c.len() > 0 && a[0] == b[0] && b[0] == c[0] {
        lemma_chars_lt_trans(a.drop_first(), b.drop_first(), c.drop_first());
    }
}

proof fn lemma_chars_lt_total(a: Seq<char>, b: Seq<char>)
    ensures
        chars_lt(a, b) || chars_lt(b, a) || a == b,
    decreases a.len(),
{
    if a.len() > 0 && b.len() > 0 && a[0] == b[0] {
        lemma_chars_lt_total(a.drop_first(), b.drop_first());
        if a.drop_first() == b.drop_first() {
            assert(a =~= b) by {
                assert forall|i: int| 0 <= i < a.len() implies a[i] == b[i] by {
                    if i > 0 {
                        assert(a[i] == a.drop_first()[i - 1]);
                        assert(b[i] == b.drop_first()[i - 1]);
                    }
                }
            }
        }
    } else if a.len() == 0 && b.len() == 0 {
        assert(a =~= b);
    }
}

/// Whether `a` orders before `b` (`a < b` on strings).
fn string_less(a: &Vec<char>, b: &Vec<char>) -> (r: bool)
    ensures
        r == chars_lt(a@, b@),
{
    let mut k: usize = 0;
    assert(a@.skip(0) =~= a@);
    assert(b@.skip(0) =~= b@);
    assert(a@.take(0) =~= b@.take(0));
    while k < a.len() && k < b.len() && a[k] == b[k]
        invariant
            k <= a@.len(),
            k <= b@.len(),
            a@.take(k as int) == b@.take(k as int),
            chars_lt(a@, b@) == chars_lt(a@.skip(k as int), b@.skip(k as int)),
        decreases a@.len() - k,
    {
        proof {
            let sa = a@.skip(k as int);
            let sb = b@.skip(k as int);
            assert(sa.drop_first() =~= a@.skip(k + 1));
            assert(sb.drop_first() =~= b@.skip(k + 1));
            assert(a@.take(k + 1) =~= a@.take(k as int).push(a@[k as int]));
            assert(b@.take(k + 1) =~= b@.take(k as int).push(b@[k as int]));
        }
        k += 1;
    }
    if k == a.len() {
        k < b.len()
    } else if k == b.len() {
        false
    } else {
        assert(a@.skip(k as int)[0] == a@[k as int]);
        assert(b@.skip(k as int)[0] == b@[k as int]);
        a[k] < b[k]
    }
}

proof fn lemma_members_push(
    fs: Seq<(Seq<char>, u64, Seq<char>, Seq<char>)>,
    f: (Seq<char>, u64, Seq<char>, Seq<char>),
    name: Seq<char>,
)
    ensures
        members_of(fs.push(f), name) == if f.0 == name {
            members_of(fs, name).push(f)
        } else {
            members_of(fs, name)
        },
{
    assert(fs.push(f).drop_last() =~= fs);
}

proof fn lemma_members_absent(fs: Seq<(Seq<char>, u64, Seq<char>, Seq<char>)>, name: Seq<char>)
    requires
        forall|k: int| 0 <= k < fs.len() ==> #[trigger] fs[k].0 != name,
    ensures
        members_of(fs, name) == Seq::<(Seq<char>, u64, Seq<char>, Seq<char>)>::empty(),
    decreases fs.len(),
{
    if fs.len() > 0 {
        let t = fs.drop_last();
        assert forall|k: int| 0 <= k < t.len() implies #[trigger] t[k].0 != name by {
            assert(t[k] == fs[k]);
        }
        lemma_members_absent(t, name);
        assert(fs[fs.len() - 1].0 != name);
    }
}

/// The view of a group: its set name and its fixtures.
pub open spec fn group_view(g: (String, Vec<UserRecordFixture>)) -> (
    Seq<char>,
    Seq<(Seq<char>, u64, Seq<char>, Seq<char>)>,
) {
    (g.0@, g.1@.map_values(|f: UserRecordFixture| f@))
}

/// Groups fixtures by set, sets in increasing order, each group keeping the
/// fixtures' order; the groups together hold every fixture once.
#[verifier::rlimit(40)]
pub fn group_by_set(fixtures: Vec<UserRecordFixture>) -> (r: Vec<(String, Vec<UserRecordFixture>)>)
    ensures
        grouped_by_set(
            fixtures@.map_values(|f: UserRecordFixture| f@),
            r@.map_values(|g: (String, Vec<UserRecordFixture>)| group_view(g)),
        ),
        group_total(r@.map_values(|g: (String, Vec<UserRecordFixture>)| group_view(g)))
            == fixtures@.len(),
{
    let ghost all = fixtures@.map_values(|f: UserRecordFixture| f@);
    let mut rest = fixtures;
    let mut groups: Vec<(String, Vec<UserRecordFixture>)> = Vec::new();
    let mut names: Vec<Vec<char>> = Vec::new();
    let ghost mut done: int = 0;
    assert(all.skip(0) =~= all);
    assert(groups@.map_values(|g: (String, Vec<UserRecordFixture>)| group_view(g)) =~= Seq::<
        (Seq<char>, Seq<(Seq<char>, u64, Seq<char>, Seq<char>)>),
    >::empty());
    while rest.len() > 0
        invariant
            0 <= done <= all.len(),
            rest@.map_values(|f: UserRecordFixture| f@) == all.skip(done),
            names@.len() == groups@.len(),
            forall|i: int| 0 <= i < groups@.len() ==> #[trigger] names@[i]@ == groups@[i].0@,
            grouped_by_set(
                all.take(done),
                groups@.map_values(|g: (String, Vec<UserRecordFixture>)| group_view(g)),
            ),
            group_total(groups@.map_values(|g: (String, Vec<UserRecordFixture>)| group_view(g)))
                == done,
            all.len() == fixtures@.len(),
        decreases rest@.len(),
    {
        let ghost old_groups = groups@;
        let ghost old_names = names@;
        let ghost before = groups@.map_values(|g: (String, Vec<UserRecordFixture>)| group_view(g));
        let ghost prev = all.take(done);
        let ghost old_rest = rest@;
        let fixture = rest.remove(0);
        let ghost fv = fixture@;
        proof {
            let ov = old_rest.map_values(|f: UserRecordFixture| f@);
            assert(ov.len() == old_rest.len());
            assert(ov == all.skip(done));
            assert(done < all.len());
            assert(ov[0] == fixture@);
            assert(all.skip(done)[0] == all[done]);
            assert(all[done] == fv);
            let rv = rest@.map_values(|f: UserRecordFixture| f@);
            assert forall|i: int| 0 <= i < rest@.len() implies #[trigger] rv[i] == all.skip(done + 1)[i] by {
                assert(rest@[i] == old_rest[i + 1]);
                assert(ov[i + 1] == all.skip(done)[i + 1]);
                assert(all.skip(done)[i + 1] == all[done + 1 + i]);
            }
            assert(rv =~= all.skip(done + 1));
            assert(all.take(done + 1) =~= prev.push(fv));
        }
        let name = chars_of(fixture.set.as_str());
        let mut j: usize = 0;
        while j < names.len() && string_less(&names[j], &name)
            invariant
                j <= names@.len(),
                names@.len() == groups@.len(),
                forall|i: int| 0 <= i < j ==> chars_lt(#[trigger] names@[i]@, name@),
            decreases names@.len() - j,
        {
            j += 1;
        }
        proof {
            if j < names@.len() {
                lemma_chars_lt_total(names@[j as int]@, name@);
            }
        }
        if j < groups.len() && groups[j].0 == fixture.set {
            let mut group = groups.remove(j);
            group.1.push(fixture);
            groups.insert(j, group);
            proof {
                let after = groups@.map_values(|g: (String, Vec<UserRecordFixture>)| group_view(g));
                assert(groups@ =~= old_groups.update(j as int, group));
                assert(group.1@.map_values(|f: UserRecordFixture| f@) =~= before[j as int].1.push(fv));
                assert(after =~= before.update(j as int, (before[j as int].0, before[j as int].1.push(fv))));
                lemma_group_total_update(before, j as int, (before[j as int].0, before[j as int].1.push(fv)));
                let taken = prev.push(fv);
                assert forall|i: int| 0 <= i < after.len() implies #[trigger] after[i].1 == members_of(taken, after[i].0) by {
                    lemma_members_push(prev, fv, after[i].0);
                    if i != j {
                        if i < j {
                            assert(chars_lt(before[i].0, before[j as int].0));
                        } else {
                            assert(chars_lt(before[j as int].0, before[i].0));
                        }
                        lemma_chars_lt_irreflexive(before[i].0);
                    }
                }
                assert forall|k: int| 0 <= k < taken.len() implies exists|i: int|
                    0 <= i < after.len() && #[trigger] after[i].0 == #[trigger] taken[k].0 by {
                    if k < prev.len() {
                        assert(taken[k] == prev[k]);
                        let i = choose|i: int| 0 <= i < before.len() && #[trigger] before[i].0 == #[trigger] prev[k].0;
                        assert(after[i].0 == taken[k].0);
                    } else {
                        assert(after[j as int].0 == taken[k].0);
                    }
                }
                assert forall|a: int, b: int| 0 <= a < b < after.len() implies chars_lt(#[trigger] after[a].0, #[trigger] after[b].0) by {
                    assert(chars_lt(before[a].0, before[b].0));
                }
            }
        } else {
            let set = fixture.set.clone();
            let mut members: Vec<UserRecordFixture> = Vec::new();
            members.push(fixture);
            let group = (set, members);
            groups.insert(j, group);
            names.insert(j, name);
            proof {
                let n = fv.0;
                let after = groups@.map_values(|g: (String, Vec<UserRecordFixture>)| group_view(g));
                assert(group.1@.map_values(|f: UserRecordFixture| f@) =~= seq![fv]);
                assert(after =~= before.insert(j as int, (n, seq![fv])));
                lemma_group_total_insert(before, j as int, (n, seq![fv]));
                let taken = prev.push(fv);
                assert forall|i: int| 0 <= i < before.len() implies #[trigger] before[i].0 != n by {
                    assert(old_names[i]@ == before[i].0);
                    if i < j {
                        assert(chars_lt(old_names[i]@, n));
                        lemma_chars_lt_irreflexive(n);
                    } else {
                        assert(old_names[j as int]@ == before[j as int].0);
                        if i > j {
                            assert(chars_lt(before[j as int].0, before[i].0));
                            if before[i].0 == n {
                                lemma_chars_lt_trans(n, before[j as int].0, n);
                                lemma_chars_lt_irreflexive(n);
                            }
                        } else {
                            lemma_chars_lt_irreflexive(n);
                        }
                    }
                }
                assert forall|k: int| 0 <= k < prev.len() implies #[trigger] prev[k].0 != n by {
                    let i = choose|i: int| 0 <= i < before.len() && #[trigger] before[i].0 == #[trigger] prev[k].0;
                    assert(before[i].0 != n);
                }
                lemma_members_absent(prev, n);
                lemma_members_push(prev, fv, n);
                assert forall|i: int| 0 <= i < after.len() implies #[trigger] after[i].1 == members_of(taken, after[i].0) by {
                    if i != j {
                        let oi = if i < j { i } else { i - 1 };
                        assert(after[i] == before[oi]);
                        lemma_members_push(prev, fv, before[oi].0);
                    } else {
                        assert(seq![fv] =~= Seq::<(Seq<char>, u64, Seq<char>, Seq<char>)>::empty().push(fv));
                    }
                }
                assert forall|i: int| 0 <= i < after.len() implies #[trigger] after[i].1.len() > 0 by {
                    if i != j {
                        let oi = if i < j { i } else { i - 1 };
                        assert(after[i] == before[oi]);
                    }
                }
                assert forall|k: int| 0 <= k < taken.len() implies exists|i: int|
                    0 <= i < after.len() && #[trigger] after[i].0 == #[trigger] taken[k].0 by {
                    if k < prev.len() {
                        assert(taken[k] == prev[k]);
                        let i = choose|i: int| 0 <= i < before.len() && #[trigger] before[i].0 == #[trigger] prev[k].0;
                        let ai = if i < j { i } else { i + 1 };
                        assert(after[ai].0 == taken[k].0);
                    } else {
                        assert(after[j as int].0 == taken[k].0);
                    }
                }
                assert forall|a: int, b: int| 0 <= a < b < after.len() implies chars_lt(#[trigger] after[a].0, #[trigger] after[b].0) by {
                    if b < j {
                        assert(chars_lt(before[a].0, before[b].0));
                    } else if b == j {
                        assert(old_names[a]@ == before[a].0);
                    } else if a == j {
                        assert(old_names[j as int]@ == before[j as int].0);
                        if b - 1 > j {
                            assert(chars_lt(before[j as int].0, before[b - 1].0));
                            lemma_chars_lt_trans(n, before[j as int].0, before[b - 1].0);
                        }
                    } else if a < j {
                        assert(old_names[a]@ == before[a].0);
                        if b - 1 == j {
                            lemma_chars_lt_trans(before[a].0, n, before[j as int].0);
                        } else {
                            assert(chars_lt(before[a].0, before[b - 1].0));
                        }
                    } else {
                        assert(chars_lt(before[a - 1].0, before[b - 1].0));
                    }
                }
                assert forall|i: int| 0 <= i < groups@.len() implies #[trigger] names@[i]@ == groups@[i].0@ by {
                    if i < j {
                        assert(names@[i] == old_names[i]);
                        assert(groups@[i] == old_groups[i]);
                    } else if i > j {
                        assert(names@[i] == old_names[i - 1]);
                        assert(groups@[i] == old_groups[i - 1]);
                    }
                }
            }
        }
        proof {
            done = done + 1;
        }
    }
    assert(all.take(done) =~= all);
    groups
}

} // verus!
