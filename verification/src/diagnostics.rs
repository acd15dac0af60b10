//! Diagnostics, and where they are in the text of the editor.
//!
//! The parser and the validators report byte ranges. The editor counts characters,
//! lines and columns. [`map_diagnostic`] goes from the one to the other.

use vstd::prelude::*;

use crate::syntax::TextRange;
use crate::text;

verus! {

/// How bad a finding is.
#[derive(Debug, Clone, Copy, PartialEq, Eq, Structural)]
pub enum Severity {
    Error,
    Warning,
}

/// A finding in a text.
#[derive(Debug, PartialEq, Eq)]
pub struct Diagnostic {
    pub severity: Severity,
    /// Its stable code.
    pub code: String,
    pub message: String,
    /// The bytes that it is about.
    pub range: TextRange,
}

/// A finding as the editor shows it.
#[derive(Debug, PartialEq, Eq)]
pub struct DiagnosticView {
    pub severity: Severity,
    pub code: String,
    pub message: String,
    /// The characters that it is about.
    pub char_range: (usize, usize),
    /// The line and the column at which it starts and ends, from zero.
    pub line_col: ((usize, usize), (usize, usize)),
}

/// A finding as a mathematical value.
pub struct Finding {
    pub severity: Severity,
    pub code: Seq<char>,
    pub message: Seq<char>,
    pub range: TextRange,
}

/// A finding of the editor as a mathematical value.
pub struct Marked {
    pub severity: Severity,
    pub code: Seq<char>,
    pub message: Seq<char>,
    pub chars: (nat, nat),
    pub start: (nat, nat),
    pub end: (nat, nat),
}

impl View for Diagnostic {
    type V = Finding;

    open spec fn view(&self) -> Finding {
        Finding {
            severity: self.severity,
            code: self.code@,
            message: self.message@,
            range: self.range,
        }
    }
}

impl View for DiagnosticView {
    type V = Marked;

    open spec fn view(&self) -> Marked {
        Marked {
            severity: self.severity,
            code: self.code@,
            message: self.message@,
            chars: (self.char_range.0 as nat, self.char_range.1 as nat),
            start: (self.line_col.0.0 as nat, self.line_col.0.1 as nat),
            end: (self.line_col.1.0 as nat, self.line_col.1.1 as nat),
        }
    }
}

/// Findings as mathematical values.
pub open spec fn findings(list: Seq<Diagnostic>) -> Seq<Finding> {
    list.map_values(|d: Diagnostic| d@)
}

/// Findings of the editor as mathematical values.
pub open spec fn marks(list: Seq<DiagnosticView>) -> Seq<Marked> {
    list.map_values(|d: DiagnosticView| d@)
}

/// How many characters of a text end at or before a byte.
pub open spec fn chars_before(s: Seq<char>, byte: int) -> nat
    decreases s.len(),
{
    if s.len() == 0 || text::char_len(s[0]) > byte {
        0
    } else {
        1 + chars_before(s.drop_first(), byte - text::char_len(s[0]))
    }
}

/// Where the line of the character at `at` starts.
pub open spec fn line_start(s: Seq<char>, at: nat) -> nat
    decreases at,
{
    if at == 0 || s[at - 1] == '\n' {
        at
    } else {
        line_start(s, (at - 1) as nat)
    }
}

/// How many line ends there are before the character at `at`.
pub open spec fn line_of(s: Seq<char>, at: nat) -> nat
    decreases at,
{
    if at == 0 {
        0
    } else {
        line_of(s, (at - 1) as nat) + (if s[at - 1] == '\n' {
            1nat
        } else {
            0
        })
    }
}

/// The line and the column of the character at `at`.
pub open spec fn position(s: Seq<char>, at: nat) -> (nat, nat) {
    (line_of(s, at), (at - line_start(s, at)) as nat)
}

/// A finding as the editor shows it over a text.
pub open spec fn marked(f: Finding, s: Seq<char>) -> Marked {
    let start = chars_before(s, f.range.start as int);
    let end = chars_before(s, f.range.end as int);
    Marked {
        severity: f.severity,
        code: f.code,
        message: f.message,
        chars: (start, end),
        start: position(s, start),
        end: position(s, end),
    }
}

proof fn lemma_chars_before_bounded(s: Seq<char>, byte: int)
    ensures
        chars_before(s, byte) <= s.len(),
    decreases s.len(),
{
    if s.len() > 0 && text::char_len(s[0]) <= byte {
        lemma_chars_before_bounded(s.drop_first(), byte - text::char_len(s[0]));
    }
}

/// How many characters of a text end at or before a byte.
pub fn byte_to_char(chars: &Vec<char>, byte: usize) -> (r: usize)
    ensures
        r == chars_before(chars@, byte as int),
        r <= chars@.len(),
{
    let n = chars.len();
    let mut left: usize = byte;
    let mut i: usize = 0;
    assert(chars@.skip(0) =~= chars@);
    while i < n && text::utf8_len(chars[i]) <= left
        invariant
            i <= n,
            n == chars@.len(),
            i + chars_before(chars@.skip(i as int), left as int) == chars_before(
                chars@,
                byte as int,
            ),
        decreases n - i,
    {
        assert(chars@.skip(i as int)[0] == chars@[i as int]);
        assert(chars@.skip(i as int).drop_first() =~= chars@.skip(i + 1));
        left -= text::utf8_len(chars[i]);
        i += 1;
    }
    proof {
        if i < n {
            assert(chars@.skip(i as int)[0] == chars@[i as int]);
        }
        lemma_chars_before_bounded(chars@, byte as int);
    }
    i
}

/// The line and the column of the character at `at`.
pub fn line_and_column(chars: &Vec<char>, at: usize) -> (r: (usize, usize))
    requires
        at <= chars@.len(),
    ensures
        (r.0 as nat, r.1 as nat) == position(chars@, at as nat),
        r.0 <= at,
        r.1 <= at,
{
    let mut line: usize = 0;
    let mut start: usize = 0;
    let mut i: usize = 0;
    while i < at
        invariant
            i <= at <= chars@.len(),
            line <= i,
            start <= i,
            line == line_of(chars@, i as nat),
            start == line_start(chars@, i as nat),
        decreases at - i,
    {
        if chars[i] == '\n' {
            line += 1;
            start = i + 1;
        }
        i += 1;
    }
    (line, at - start)
}

/// A finding as the editor shows it over a text.
pub fn map_diagnostic(d: &Diagnostic, chars: &Vec<char>) -> (r: DiagnosticView)
    ensures
        r@ == marked(d@, chars@),
        r.char_range.0 <= chars@.len(),
        r.char_range.1 <= chars@.len(),
{
    let start = byte_to_char(chars, d.range.start);
    let end = byte_to_char(chars, d.range.end);
    DiagnosticView {
        severity: d.severity,
        code: d.code.clone(),
        message: d.message.clone(),
        char_range: (start, end),
        line_col: (line_and_column(chars, start), line_and_column(chars, end)),
    }
}

/// Whether two ranges share a byte. An empty range is taken for the byte at its place.
pub open spec fn overlap(a: TextRange, b: TextRange) -> bool {
    let a_end = if a.end > a.start {
        a.end as int
    } else {
        a.start + 1
    };
    let b_end = if b.end > b.start {
        b.end as int
    } else {
        b.start + 1
    };
    a.start < b_end && b.start < a_end
}

/// Whether two ranges share a byte.
pub fn overlaps(a: &TextRange, b: &TextRange) -> (r: bool)
    ensures
        r == overlap(*a, *b),
{
    let first = if a.end > a.start {
        b.start < a.end
    } else {
        b.start <= a.start
    };
    let second = if b.end > b.start {
        a.start < b.end
    } else {
        a.start <= b.start
    };
    first && second
}

/// The characters that end at or before a byte are those at the start of the text that
/// take no more bytes than that; one more would take more.
pub proof fn characters_end_before_their_byte(s: Seq<char>, byte: int)
    requires
        byte >= 0,
    ensures
        chars_before(s, byte) <= s.len(),
        text::byte_len(s.take(chars_before(s, byte) as int)) <= byte,
        chars_before(s, byte) < s.len() ==> byte < text::byte_len(
            s.take(chars_before(s, byte) as int + 1),
        ),
    decreases s.len(),
{
    let n = chars_before(s, byte);
    if s.len() == 0 {
        assert(text::byte_len(s.take(0)) == 0);
    } else {
        let c = s[0];
        let rest = s.drop_first();
        text::lemma_byte_len_one(c);
        if text::char_len(c) > byte {
            assert(s.take(0) =~= Seq::<char>::empty());
            assert(text::byte_len(Seq::<char>::empty()) == 0);
            assert(s.take(1) =~= seq![c]);
        } else {
            characters_end_before_their_byte(rest, byte - text::char_len(c));
            assert(s.take(n as int) =~= seq![c] + rest.take(n - 1));
            text::lemma_byte_len_concat(seq![c], rest.take(n - 1));
            if n < s.len() {
                assert(s.take(n as int + 1) =~= seq![c] + rest.take(n as int));
                text::lemma_byte_len_concat(seq![c], rest.take(n as int));
            }
        }
    }
}

/// A later byte is at no earlier character.
pub proof fn later_bytes_are_at_later_characters(s: Seq<char>, a: int, b: int)
    requires
        0 <= a <= b,
    ensures
        chars_before(s, a) <= chars_before(s, b),
    decreases s.len(),
{
    if s.len() > 0 && text::char_len(s[0]) <= a {
        later_bytes_are_at_later_characters(
            s.drop_first(),
            a - text::char_len(s[0]),
            b - text::char_len(s[0]),
        );
    }
}

/// Positions count from the start of the text: a line end leads to the start of the next
/// line, any other character to the next column.
pub proof fn positions_go_on_character_by_character(s: Seq<char>, at: nat)
    requires
        at < s.len(),
    ensures
        position(s, 0) == (0nat, 0nat),
        s[at as int] == '\n' ==> position(s, at + 1) == (position(s, at).0 + 1, 0nat),
        s[at as int] != '\n' ==> position(s, at + 1) == (
            position(s, at).0,
            position(s, at).1 + 1,
        ),
{
    lemma_line_starts_before(s, at);
}

proof fn lemma_line_starts_before(s: Seq<char>, at: nat)
    ensures
        line_start(s, at) <= at,
    decreases at,
{
    if at > 0 && s[at - 1] != '\n' {
        lemma_line_starts_before(s, (at - 1) as nat);
    }
}

/// A finding is shown with its own words, over the characters that its bytes hold.
pub proof fn findings_are_shown_where_they_are(f: Finding, s: Seq<char>, from: nat, to: nat)
    requires
        from <= to <= s.len(),
        f.range.start == text::byte_len(s.take(from as int)),
        f.range.end == text::byte_len(s.take(to as int)),
    ensures
        marked(f, s).severity == f.severity,
        marked(f, s).code == f.code,
        marked(f, s).message == f.message,
        marked(f, s).chars == (from, to),
        marked(f, s).start == position(s, from),
        marked(f, s).end == position(s, to),
{
    lemma_found_again(s, from);
    lemma_found_again(s, to);
}

proof fn lemma_found_again(s: Seq<char>, at: nat)
    requires
        at <= s.len(),
    ensures
        chars_before(s, text::byte_len(s.take(at as int)) as int) == at,
{
    let byte = text::byte_len(s.take(at as int)) as int;
    let n = chars_before(s, byte);
    characters_end_before_their_byte(s, byte);
    if n < at {
        let more = s.take(at as int);
        assert(more.subrange(0, n as int + 1) =~= s.take(n as int + 1));
        text::lemma_byte_len_part(more, 0, n as int + 1);
    } else if n > at {
        let c = s[at as int];
        assert(s.take(at as int + 1) =~= s.take(at as int).push(c));
        text::lemma_byte_len_push(s.take(at as int), c);
        text::lemma_byte_len_one(c);
        assert(s.take(n as int).subrange(0, at as int + 1) =~= s.take(at as int + 1));
        text::lemma_byte_len_part(s.take(n as int), 0, at as int + 1);
    }
}

/// Whether a byte belongs to a range. An empty range has the byte at its place.
pub open spec fn belongs_to(byte: int, r: TextRange) -> bool {
    r.start <= byte && (byte < r.end || byte == r.start)
}

/// Two ranges overlap where some byte belongs to both: then the later of the two starts
/// is such a byte.
pub proof fn overlapping_ranges_share_a_byte(a: TextRange, b: TextRange, byte: int)
    ensures
        belongs_to(byte, a) && belongs_to(byte, b) ==> overlap(a, b),
        overlap(a, b) ==> {
            let later = if a.start < b.start {
                b.start as int
            } else {
                a.start as int
            };
            belongs_to(later, a) && belongs_to(later, b)
        },
{
}

} // verus!
