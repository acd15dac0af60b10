//! What a save has to keep of the file that was opened.
//!
//! The editor works on text with one kind of line end and without a byte order mark. A
//! [`ByteFidelityProfile`] remembers how the file was written, and [`save_bytes`]
//! writes the text that way again: a file with one kind of line ends that is opened
//! and saved without an edit keeps every byte.

use vstd::prelude::*;

use crate::hash;
use crate::text;

verus! {

/// How the lines of a file end.
#[derive(Debug, Clone, Copy, PartialEq, Eq, Hash, Structural)]
pub enum LineEnding {
    /// With `\r\n`.
    Crlf,
    /// With `\n`.
    Lf,
    /// Some with `\r\n` and some with `\n`.
    Mixed,
}

/// How a file was written.
#[derive(Debug, Clone, Copy, PartialEq, Eq, Structural)]
pub struct ByteFidelityProfile {
    /// How its lines end.
    pub line_ending: LineEnding,
    /// How most of its lines end; never [`LineEnding::Mixed`].
    pub dominant: LineEnding,
    /// Whether it ends with a line end.
    pub had_trailing_newline: bool,
    /// Whether it starts with a byte order mark.
    pub had_bom: bool,
    /// The hash of its bytes.
    pub original_hash: u64,
}

/// The byte order mark.
pub open spec fn bom() -> Seq<u8> {
    seq![0xEFu8, 0xBBu8, 0xBFu8]
}

/// How many lines end with `\r\n`.
pub open spec fn crlf_count(raw: Seq<u8>) -> nat
    decreases raw.len(),
{
    if raw.len() == 0 {
        0
    } else {
        crlf_count(raw.drop_last()) + (if raw.last() == 10 && raw.len() > 1 && raw[raw.len() - 2]
            == 13 {
            1nat
        } else {
            0
        })
    }
}

/// How many lines end with a mere `\n`.
pub open spec fn lf_count(raw: Seq<u8>) -> nat
    decreases raw.len(),
{
    if raw.len() == 0 {
        0
    } else {
        lf_count(raw.drop_last()) + (if raw.last() == 10 && !(raw.len() > 1 && raw[raw.len() - 2]
            == 13) {
            1nat
        } else {
            0
        })
    }
}

/// How a file with these bytes was written.
pub open spec fn profile_of(raw: Seq<u8>) -> ByteFidelityProfile {
    ByteFidelityProfile {
        line_ending: if crlf_count(raw) > 0 && lf_count(raw) > 0 {
            LineEnding::Mixed
        } else if crlf_count(raw) > 0 {
            LineEnding::Crlf
        } else {
            LineEnding::Lf
        },
        dominant: if crlf_count(raw) > lf_count(raw) {
            LineEnding::Crlf
        } else {
            LineEnding::Lf
        },
        had_trailing_newline: raw.len() > 0 && raw.last() == 10,
        had_bom: raw.len() >= 3 && raw.take(3) == bom(),
        original_hash: hash::fnv1a(raw),
    }
}

impl ByteFidelityProfile {
    /// How a file with these bytes was written.
    pub fn from_bytes(raw: &[u8]) -> (r: Self)
        ensures
            r == profile_of(raw@),
            r.dominant != LineEnding::Mixed,
    {
        let n = raw.len();
        let had_bom = n >= 3 && raw[0] == 0xEF && raw[1] == 0xBB && raw[2] == 0xBF;
        proof {
            if n >= 3 {
                let t = raw@.take(3);
                if had_bom {
                    assert(t =~= bom());
                } else if t == bom() {
                    assert(t[0] == 0xEF && t[1] == 0xBB && t[2] == 0xBF);
                }
            }
        }
        let mut crlf: usize = 0;
        let mut lone_lf: usize = 0;
        let mut i: usize = 0;
        while i < n
            invariant
                i <= n,
                n == raw@.len(),
                crlf + lone_lf <= i,
                crlf == crlf_count(raw@.take(i as int)),
                lone_lf == lf_count(raw@.take(i as int)),
            decreases n - i,
        {
            let ghost next = raw@.take(i + 1);
            assert(next.drop_last() =~= raw@.take(i as int));
            if raw[i] == 10 {
                if i > 0 && raw[i - 1] == 13 {
                    crlf += 1;
                } else {
                    lone_lf += 1;
                }
            }
            i += 1;
        }
        assert(raw@.take(i as int) =~= raw@);
        let line_ending = if crlf > 0 && lone_lf > 0 {
            LineEnding::Mixed
        } else if crlf > 0 {
            LineEnding::Crlf
        } else {
            LineEnding::Lf
        };
        let dominant = if crlf > lone_lf {
            LineEnding::Crlf
        } else {
            LineEnding::Lf
        };
        ByteFidelityProfile {
            line_ending,
            dominant,
            had_trailing_newline: n > 0 && raw[n - 1] == 10,
            had_bom,
            original_hash: hash::hash_bytes(raw),
        }
    }

    /// Whether a save writes `\r\n`.
    pub open spec fn writes_crlf(self) -> bool {
        match self.line_ending {
            LineEnding::Crlf => true,
            LineEnding::Lf => false,
            LineEnding::Mixed => self.dominant == LineEnding::Crlf,
        }
    }
}

/// The text from `from` on with every kind of line end replaced by `\n`.
pub open spec fn unix_lines(s: Seq<char>, from: int) -> Seq<char>
    decreases s.len() - from,
{
    if from >= s.len() {
        Seq::empty()
    } else if s[from] == '\r' && from + 1 < s.len() && s[from + 1] == '\n' {
        seq!['\n'] + unix_lines(s, from + 2)
    } else if s[from] == '\r' {
        seq!['\n'] + unix_lines(s, from + 1)
    } else {
        seq![s[from]] + unix_lines(s, from + 1)
    }
}

/// The text with `\r\n` for every `\n`.
pub open spec fn dos_lines(s: Seq<char>) -> Seq<char>
    decreases s.len(),
{
    if s.len() == 0 {
        Seq::empty()
    } else if s.last() == '\n' {
        dos_lines(s.drop_last()) + seq!['\r', '\n']
    } else {
        dos_lines(s.drop_last()).push(s.last())
    }
}

/// The text without one line end at its end.
pub open spec fn without_last_newline(s: Seq<char>) -> Seq<char> {
    if s.len() > 0 && s.last() == '\n' {
        s.drop_last()
    } else {
        s
    }
}

/// The lines that a save writes: those of the text, with or without a line end at the end
/// as the file had it.
pub open spec fn saved_lines(buffer: Seq<char>, profile: ByteFidelityProfile) -> Seq<char> {
    let core = without_last_newline(unix_lines(buffer, 0));
    if profile.had_trailing_newline {
        core.push('\n')
    } else {
        core
    }
}

/// The text that a save writes.
pub open spec fn saved_text(buffer: Seq<char>, profile: ByteFidelityProfile) -> Seq<char> {
    if profile.writes_crlf() {
        dos_lines(saved_lines(buffer, profile))
    } else {
        saved_lines(buffer, profile)
    }
}

/// The bytes that a save writes.
pub open spec fn saved_bytes(buffer: Seq<char>, profile: ByteFidelityProfile) -> Seq<u8> {
    let bytes = vstd::utf8::encode_utf8(saved_text(buffer, profile));
    if profile.had_bom {
        bom() + bytes
    } else {
        bytes
    }
}

/// The text with every kind of line end replaced by `\n`.
pub fn normalise_to_lf(s: &str) -> (r: String)
    ensures
        r@ == unix_lines(s@, 0),
{
    let chars = text::chars_of(s);
    let n = chars.len();
    let mut r = String::new();
    let mut i: usize = 0;
    assert(r@ + unix_lines(chars@, 0) =~= unix_lines(chars@, 0));
    while i < n
        invariant
            i <= n,
            n == chars@.len(),
            r@ + unix_lines(chars@, i as int) == unix_lines(chars@, 0),
        decreases n - i,
    {
        let ghost before = r@;
        if chars[i] == '\r' {
            r.push('\n');
            if i + 1 < n && chars[i + 1] == '\n' {
                assert(before + (seq!['\n'] + unix_lines(chars@, i + 2)) =~= r@ + unix_lines(
                    chars@,
                    i + 2,
                ));
                i += 2;
            } else {
                assert(before + (seq!['\n'] + unix_lines(chars@, i + 1)) =~= r@ + unix_lines(
                    chars@,
                    i + 1,
                ));
                i += 1;
            }
        } else {
            r.push(chars[i]);
            assert(before + (seq![chars@[i as int]] + unix_lines(chars@, i + 1)) =~= r@
                + unix_lines(chars@, i + 1));
            i += 1;
        }
    }
    assert(r@ + Seq::<char>::empty() =~= r@);
    r
}

/// The bytes of the text, written as the file was: with its line ends, with or without
/// a line end at its end, and with or without a byte order mark. A file whose lines
/// ended in different ways gets the way in which most of them ended.
pub fn save_bytes(buffer: &str, profile: &ByteFidelityProfile) -> (r: Vec<u8>)
    ensures
        r@ == saved_bytes(buffer@, *profile),
{
    let crlf = match profile.line_ending {
        LineEnding::Crlf => true,
        LineEnding::Lf => false,
        LineEnding::Mixed => matches!(profile.dominant, LineEnding::Crlf),
    };
    let unix = normalise_to_lf(buffer);
    let mut chars = text::chars_of(unix.as_str());
    let ghost whole = chars@;
    let n = chars.len();
    if n > 0 && chars[n - 1] == '\n' {
        chars.pop();
    }
    assert(chars@ == without_last_newline(whole));
    if profile.had_trailing_newline {
        chars.push('\n');
    }
    let ghost lines = chars@;
    let mut out = String::new();
    let mut i: usize = 0;
    while i < chars.len()
        invariant
            i <= chars@.len(),
            chars@ == lines,
            out@ == (if crlf {
                dos_lines(lines.take(i as int))
            } else {
                lines.take(i as int)
            }),
        decreases chars@.len() - i,
    {
        assert(lines.take(i + 1).drop_last() =~= lines.take(i as int));
        assert(lines.take(i + 1) =~= lines.take(i as int).push(lines[i as int]));
        let ghost before = out@;
        if crlf && chars[i] == '\n' {
            out.push('\r');
            out.push('\n');
            assert(out@ =~= before + seq!['\r', '\n']);
        } else {
            out.push(chars[i]);
        }
        i += 1;
    }
    assert(lines.take(i as int) =~= lines);
    assert(out@ == saved_text(buffer@, *profile));
    let mut r: Vec<u8> = Vec::new();
    if profile.had_bom {
        r.push(0xEF);
        r.push(0xBB);
        r.push(0xBF);
        assert(r@ =~= bom());
    }
    let ghost head = r@;
    let body = out.as_str().as_bytes();
    let mut k: usize = 0;
    while k < body.len()
        invariant
            k <= body@.len(),
            r@ == head + body@.take(k as int),
        decreases body@.len() - k,
    {
        assert(body@.take(k + 1) =~= body@.take(k as int).push(body@[k as int]));
        r.push(body[k]);
        assert(r@ =~= head + body@.take(k + 1));
        k += 1;
    }
    assert(body@.take(k as int) =~= body@);
    assert(r@ =~= saved_bytes(buffer@, *profile));
    r
}

/// The text without a byte order mark in front.
pub open spec fn without_bom(s: Seq<char>) -> Seq<char> {
    if s.len() > 0 && s[0] == '\u{FEFF}' {
        s.skip(1)
    } else {
        s
    }
}

/// The text without a byte order mark in front.
pub fn strip_bom(s: &str) -> (r: String)
    ensures
        r@ == without_bom(s@),
{
    let chars = text::chars_of(s);
    let n = chars.len();
    if n > 0 && chars[0] == '\u{FEFF}' {
        let r = text::slice(&chars, 1, n);
        assert(r@ =~= s@.skip(1));
        r
    } else {
        s.to_owned()
    }
}

/// `std::str::from_utf8`: the text that bytes encode, where they are UTF-8.
#[verifier::external_body]
pub(crate) fn decode_utf8(bytes: &[u8]) -> (r: Option<String>)
    ensures
        match r {
            Some(s) => vstd::utf8::encode_utf8(s@) == bytes@,
            None => !vstd::utf8::valid_utf8(bytes@),
        },
{
    std::str::from_utf8(bytes).ok().map(str::to_owned)
}

/// A fingerprint of the text that was saved or opened last: its hash and its length.
#[derive(Debug, Clone, Copy, PartialEq, Eq, Structural)]
pub struct SavedSnapshot {
    pub content_hash: u64,
    pub len: usize,
}

/// The fingerprint of a text.
pub open spec fn snapshot_of(buffer: Seq<char>) -> (u64, nat) {
    (hash::fnv1a(vstd::utf8::encode_utf8(buffer)), text::byte_len(buffer))
}

impl SavedSnapshot {
    /// The fingerprint of a text.
    pub fn of(buffer: &str) -> (r: Self)
        ensures
            (r.content_hash, r.len as nat) == snapshot_of(buffer@),
    {
        let bytes = buffer.as_bytes();
        SavedSnapshot { content_hash: hash::hash_bytes(bytes), len: bytes.len() }
    }

    /// Whether a text has this fingerprint.
    pub open spec fn fits(self, buffer: Seq<char>) -> bool {
        (self.content_hash, self.len as nat) == snapshot_of(buffer)
    }

    /// Whether a text has this fingerprint.
    pub fn matches(&self, buffer: &str) -> (r: bool)
        ensures
            r == self.fits(buffer@),
    {
        let bytes = buffer.as_bytes();
        self.len == bytes.len() && self.content_hash == hash::hash_bytes(bytes)
    }
}

/// A text of another length has another fingerprint.
pub proof fn length_tells_texts_apart(a: Seq<char>, b: Seq<char>)
    requires
        text::byte_len(a) != text::byte_len(b),
    ensures
        snapshot_of(a) != snapshot_of(b),
{
}

/// No fingerprint fits two texts of different lengths.
pub proof fn lengths_are_noticed(saved: SavedSnapshot, a: Seq<char>, b: Seq<char>)
    requires
        saved.fits(a),
        text::byte_len(a) != text::byte_len(b),
    ensures
        !saved.fits(b),
{
}

/// A change of one byte is noticed, wherever it is: of two texts that differ in a single
/// byte, no fingerprint fits both.
pub proof fn single_bytes_tell_texts_apart(
    saved: SavedSnapshot,
    a: Seq<char>,
    b: Seq<char>,
    i: int,
)
    requires
        saved.fits(a),
        ({
            let x = vstd::utf8::encode_utf8(a);
            let y = vstd::utf8::encode_utf8(b);
            x.len() == y.len() && 0 <= i < x.len() && x[i] != y[i] && forall|j: int|
                0 <= j < x.len() && j != i ==> #[trigger] x[j] == y[j]
        }),
    ensures
        !saved.fits(b),
{
    hash::every_byte_counts(vstd::utf8::encode_utf8(a), vstd::utf8::encode_utf8(b), i);
}

proof fn lemma_high_bytes(scalar: u32)
    requires
        vstd::utf8::is_scalar(scalar),
        scalar >= 128,
    ensures
        forall|i: int|
            0 <= i < vstd::utf8::encode_scalar(scalar).len() ==> #[trigger] vstd::utf8::encode_scalar(
                scalar,
            )[i] >= 128,
{
    assert(0xC0u8 | ((scalar >> 6) & 0x1F) as u8 >= 128) by (bit_vector);
    assert(0xE0u8 | ((scalar >> 12) & 0x0F) as u8 >= 128) by (bit_vector);
    assert(0xF0u8 | ((scalar >> 18) & 0x07) as u8 >= 128) by (bit_vector);
    assert(0x80u8 | (scalar & 0x3F) as u8 >= 128) by (bit_vector);
    assert(0x80u8 | ((scalar >> 6) & 0x3F) as u8 >= 128) by (bit_vector);
    assert(0x80u8 | ((scalar >> 12) & 0x3F) as u8 >= 128) by (bit_vector);
}

/// The line ends of a text are those of its bytes.
proof fn lemma_counts(t: Seq<char>)
    ensures
        (vstd::utf8::encode_utf8(t).len() > 0 && vstd::utf8::encode_utf8(t).last() == 10)
            <==> (t.len() > 0 && t.last() == '\n'),
        (vstd::utf8::encode_utf8(t).len() > 0 && vstd::utf8::encode_utf8(t).last() == 13)
            <==> (t.len() > 0 && t.last() == '\r'),
        crlf_count(vstd::utf8::encode_utf8(t)) == crlf_chars(t),
        lf_count(vstd::utf8::encode_utf8(t)) == lf_chars(t),
    decreases t.len(),
{
    if t.len() > 0 {
        let p = t.drop_last();
        let c = t.last();
        lemma_counts(p);
        assert(t =~= p + seq![c]);
        text::lemma_encode_concat(p, seq![c]);
        let ep = vstd::utf8::encode_utf8(p);
        let ec = vstd::utf8::encode_utf8(seq![c]);
        lemma_one_char(c);
        vstd::utf8::char_is_scalar(c);
        let e = ep + ec;
        assert(e == vstd::utf8::encode_utf8(t));
        text::lemma_empty_has_no_bytes(p);
        if (c as u32) < 128 {
            assert(ec.len() == 1 && ec[0] == c as u8);
            assert(e.drop_last() =~= ep);
            assert(e.last() == c as u8);
            if p.len() > 0 {
                assert(e[e.len() - 2] == ep.last());
            }
        } else {
            lemma_high_bytes(c as u32);
            lemma_count_skips_high(ep, ec, ec.len() as int);
            assert(ec.take(ec.len() as int) =~= ec);
            assert(e.last() == ec.last());
        }
    }
}

pub proof fn lemma_one_char(c: char)
    ensures
        vstd::utf8::encode_utf8(seq![c]) == vstd::utf8::encode_scalar(c as u32),
        (c as u32) < 128 ==> vstd::utf8::encode_utf8(seq![c]) == seq![c as u8] && (c as u8 == 10
            <==> c == '\n') && (c as u8 == 13 <==> c == '\r'),
        (c as u32) >= 128 ==> c != '\n' && c != '\r',
        (c as u32) == 0xFEFF ==> c == '\u{FEFF}',
        vstd::utf8::encode_utf8(seq![c]).len() > 0,
{
    reveal_with_fuel(vstd::utf8::encode_utf8, 2);
    vstd::utf8::char_is_scalar(c);
    assert(seq![c].drop_first() =~= Seq::<char>::empty());
    assert(vstd::utf8::encode_utf8(seq![c]) =~= vstd::utf8::encode_scalar(c as u32));
    let v = c as u32;
    assert(v < 128 ==> (v & 0x7F) as u8 == v as u8) by (bit_vector);
    if v < 128 {
        assert(vstd::utf8::encode_scalar(v) =~= seq![c as u8]);
    }
}

proof fn lemma_count_skips_high(a: Seq<u8>, b: Seq<u8>, n: int)
    requires
        0 <= n <= b.len(),
        forall|i: int| 0 <= i < b.len() ==> #[trigger] b[i] >= 128,
    ensures
        crlf_count(a + b.take(n)) == crlf_count(a),
        lf_count(a + b.take(n)) == lf_count(a),
    decreases n,
{
    if n == 0 {
        assert(a + b.take(0) =~= a);
    } else {
        lemma_count_skips_high(a, b, n - 1);
        let e = a + b.take(n);
        assert(e.drop_last() =~= a + b.take(n - 1));
        assert(e.last() == b[n - 1]);
    }
}

/// How many lines of a text end with `\r\n`.
pub open spec fn crlf_chars(t: Seq<char>) -> nat
    decreases t.len(),
{
    if t.len() == 0 {
        0
    } else {
        crlf_chars(t.drop_last()) + (if t.last() == '\n' && t.len() > 1 && t[t.len() - 2] == '\r' {
            1nat
        } else {
            0
        })
    }
}

/// How many lines of a text end with a mere `\n`.
pub open spec fn lf_chars(t: Seq<char>) -> nat
    decreases t.len(),
{
    if t.len() == 0 {
        0
    } else {
        lf_chars(t.drop_last()) + (if t.last() == '\n' && !(t.len() > 1 && t[t.len() - 2] == '\r') {
            1nat
        } else {
            0
        })
    }
}

/// Whether all lines of a text end with `\n`.
pub open spec fn is_unix(t: Seq<char>) -> bool {
    forall|i: int| 0 <= i < t.len() ==> #[trigger] t[i] != '\r'
}

/// Whether all lines of a text end with `\r\n`.
pub open spec fn is_dos(t: Seq<char>) -> bool {
    &&& forall|i: int|
        0 <= i < t.len() && #[trigger] t[i] == '\r' ==> i + 1 < t.len() && t[i + 1] == '\n'
    &&& forall|i: int| 0 <= i < t.len() && #[trigger] t[i] == '\n' ==> i > 0 && t[i - 1] == '\r'
}

proof fn lemma_unix_counts(t: Seq<char>)
    requires
        is_unix(t),
    ensures
        crlf_chars(t) == 0,
        unix_lines(t, 0) == t,
    decreases t.len(),
{
    lemma_no_crlf(t);
    lemma_unix_stays(t, 0);
    assert(t.skip(0) =~= t);
}

proof fn lemma_no_crlf(t: Seq<char>)
    requires
        is_unix(t),
    ensures
        crlf_chars(t) == 0,
    decreases t.len(),
{
    if t.len() > 0 {
        assert(is_unix(t.drop_last()));
        lemma_no_crlf(t.drop_last());
    }
}

proof fn lemma_unix_stays(t: Seq<char>, from: int)
    requires
        is_unix(t),
        0 <= from <= t.len(),
    ensures
        unix_lines(t, from) == t.skip(from),
    decreases t.len() - from,
{
    if from < t.len() {
        lemma_unix_stays(t, from + 1);
        assert(t.skip(from) =~= seq![t[from]] + t.skip(from + 1));
    } else {
        assert(t.skip(from) =~= Seq::empty());
    }
}

proof fn lemma_dos_concat(a: Seq<char>, b: Seq<char>)
    ensures
        dos_lines(a + b) == dos_lines(a) + dos_lines(b),
    decreases b.len(),
{
    if b.len() == 0 {
        assert(a + b =~= a);
        assert(dos_lines(a) + dos_lines(b) =~= dos_lines(a));
    } else {
        lemma_dos_concat(a, b.drop_last());
        assert((a + b).drop_last() =~= a + b.drop_last());
        assert(dos_lines(a + b) =~= dos_lines(a) + dos_lines(b));
    }
}

proof fn lemma_dos_one(c: char)
    ensures
        dos_lines(seq![c]) == (if c == '\n' {
            seq!['\r', '\n']
        } else {
            seq![c]
        }),
{
    assert(seq![c].drop_last() =~= Seq::<char>::empty());
    reveal_with_fuel(dos_lines, 2);
    assert(dos_lines(seq![c]) =~= (if c == '\n' {
        seq!['\r', '\n']
    } else {
        seq![c]
    }));
}

/// In a text whose lines end with `\r\n`, replacing the line ends and putting them
/// back gives the text.
proof fn lemma_dos_restores(t: Seq<char>, from: int)
    requires
        is_dos(t),
        0 <= from <= t.len(),
        from == 0 || t[from - 1] != '\r',
    ensures
        dos_lines(unix_lines(t, from)) == t.skip(from),
    decreases t.len() - from,
{
    if from >= t.len() {
        assert(t.skip(from) =~= Seq::empty());
    } else if t[from] == '\r' {
        assert(t[from + 1] == '\n');
        lemma_dos_restores(t, from + 2);
        lemma_dos_concat(seq!['\n'], unix_lines(t, from + 2));
        lemma_dos_one('\n');
        assert(t.skip(from) =~= seq!['\r', '\n'] + t.skip(from + 2));
    } else {
        assert(t[from] != '\n') by {
            if t[from] == '\n' {
                assert(from > 0 && t[from - 1] == '\r');
            }
        }
        lemma_dos_restores(t, from + 1);
        lemma_dos_concat(seq![t[from]], unix_lines(t, from + 1));
        lemma_dos_one(t[from]);
        assert(t.skip(from) =~= seq![t[from]] + t.skip(from + 1));
    }
}

proof fn lemma_dos_counts(t: Seq<char>)
    requires
        forall|i: int| 0 <= i < t.len() && #[trigger] t[i] == '\n' ==> i > 0 && t[i - 1] == '\r',
    ensures
        lf_chars(t) == 0,
        crlf_chars(t) == 0 ==> forall|i: int| 0 <= i < t.len() ==> #[trigger] t[i] != '\n',
    decreases t.len(),
{
    if t.len() > 0 {
        let p = t.drop_last();
        assert forall|i: int| 0 <= i < p.len() && #[trigger] p[i] == '\n' implies i > 0 && p[i - 1]
            == '\r' by {
            assert(t[i] == '\n');
        }
        lemma_dos_counts(p);
        if t.last() == '\n' {
            assert(t[t.len() - 1] == '\n');
        }
        assert forall|i: int| 0 <= i < t.len() && crlf_chars(t) == 0 implies #[trigger] t[i]
            != '\n' by {
            if i < p.len() {
                assert(p[i] == t[i]);
            }
        }
    }
}

proof fn lemma_last_newline(t: Seq<char>, from: int)
    requires
        is_dos(t),
        0 <= from < t.len(),
        from == 0 || t[from - 1] != '\r',
    ensures
        unix_lines(t, from).len() > 0,
        (unix_lines(t, from).last() == '\n') == (t.last() == '\n'),
    decreases t.len() - from,
{
    if t[from] == '\r' {
        assert(t[from + 1] == '\n');
        if from + 2 < t.len() {
            lemma_last_newline(t, from + 2);
            let rest = unix_lines(t, from + 2);
            assert((seq!['\n'] + rest).last() == rest.last());
        } else {
            assert(unix_lines(t, from + 2) =~= Seq::empty());
            assert((seq!['\n'] + unix_lines(t, from + 2)).last() == '\n');
        }
    } else {
        if from + 1 < t.len() {
            lemma_last_newline(t, from + 1);
            let rest = unix_lines(t, from + 1);
            assert((seq![t[from]] + rest).last() == rest.last());
        } else {
            assert((seq![t[from]] + unix_lines(t, from + 1)).last() == t[from]);
        }
    }
}

proof fn lemma_saved_unix(t: Seq<char>, profile: ByteFidelityProfile)
    requires
        is_unix(t),
        !profile.writes_crlf(),
        profile.had_trailing_newline == (t.len() > 0 && t.last() == '\n'),
    ensures
        saved_text(t, profile) == t,
{
    lemma_unix_counts(t);
    if profile.had_trailing_newline {
        assert(without_last_newline(t).push('\n') =~= t);
    }
}

proof fn lemma_saved_dos(t: Seq<char>, profile: ByteFidelityProfile)
    requires
        is_dos(t),
        profile.writes_crlf(),
        profile.had_trailing_newline == (t.len() > 0 && t.last() == '\n'),
    ensures
        saved_text(t, profile) == t,
{
    let u = unix_lines(t, 0);
    lemma_dos_restores(t, 0);
    assert(t.skip(0) =~= t);
    if t.len() > 0 {
        lemma_last_newline(t, 0);
        if profile.had_trailing_newline {
            assert(without_last_newline(u).push('\n') =~= u);
        }
    }
}

/// The mark is the encoding of its character, and of no other.
proof fn lemma_bom(t: Seq<char>)
    ensures
        vstd::utf8::encode_utf8(seq!['\u{FEFF}']) == bom(),
        (t.len() > 0 && t[0] == '\u{FEFF}') == (vstd::utf8::encode_utf8(t).len() >= 3
            && vstd::utf8::encode_utf8(t).take(3) == bom()),
{
    let m = 0xFEFFu32;
    assert(0xE0u8 | ((m >> 12) & 0x0F) as u8 == 0xEFu8 && 0x80u8 | ((m >> 6) & 0x3F) as u8 == 0xBBu8
        && 0x80u8 | (m & 0x3F) as u8 == 0xBFu8) by (bit_vector)
        requires
            m == 0xFEFFu32,
    ;
    lemma_one_char('\u{FEFF}');
    assert(vstd::utf8::encode_scalar(m) =~= bom());
    if t.len() > 0 {
        let c = t[0];
        assert(t =~= seq![c] + t.skip(1));
        text::lemma_encode_concat(seq![c], t.skip(1));
        lemma_one_char(c);
        vstd::utf8::char_is_scalar(c);
        let e = vstd::utf8::encode_utf8(t);
        let ec = vstd::utf8::encode_scalar(c as u32);
        if c == '\u{FEFF}' {
            assert(e.take(3) =~= bom());
        } else if e.len() >= 3 && e.take(3) == bom() {
            assert(e.take(3)[0] == 0xEF && e.take(3)[1] == 0xBB && e.take(3)[2] == 0xBF);
            assert(e[0] == 0xEF && e[1] == 0xBB && e[2] == 0xBF);
            assert(ec[0] == e[0]);
            let v = c as u32;
            assert((v & 0x7F) as u8 != 0xEFu8) by (bit_vector);
            assert(0xC0u8 | ((v >> 6) & 0x1F) as u8 != 0xEFu8) by (bit_vector);
            assert(0xF0u8 | ((v >> 18) & 0x07) as u8 != 0xEFu8) by (bit_vector);
            assert(ec.len() == 3);
            assert(ec[1] == e[1] && ec[2] == e[2]);
            assert(v <= 0xFFFF && 0xE0u8 | ((v >> 12) & 0x0F) as u8 == 0xEFu8 && 0x80u8 | ((v >> 6)
                & 0x3F) as u8 == 0xBBu8 && 0x80u8 | (v & 0x3F) as u8 == 0xBFu8 ==> v == 0xFEFF)
                by (bit_vector);
            assert(v == 0xFEFF);
            assert(c == '\u{FEFF}');
        }
    } else {
        assert(vstd::utf8::encode_utf8(t).len() == 0);
    }
}

/// A file whose lines all end in the same way is kept, byte for byte, when it is
/// opened and saved without an edit.
pub proof fn uniform_files_are_kept(t: Seq<char>)
    requires
        is_unix(t) || is_dos(t),
    ensures
        saved_bytes(without_bom(t), profile_of(vstd::utf8::encode_utf8(t)))
            == vstd::utf8::encode_utf8(t),
{
    let raw = vstd::utf8::encode_utf8(t);
    let profile = profile_of(raw);
    lemma_counts(t);
    lemma_bom(t);
    let b = without_bom(t);
    if is_unix(t) {
        lemma_no_crlf(t);
        assert(is_unix(b));
    } else {
        lemma_dos_counts(t);
        if crlf_chars(t) == 0 {
            assert forall|i: int| 0 <= i < t.len() implies #[trigger] t[i] != '\r' by {
                if t[i] == '\r' {
                    assert(t[i + 1] == '\n');
                }
            }
            assert(is_unix(b));
        } else {
            lemma_dos_without_bom(t);
        }
    }
    if t.len() > 0 && t[0] == '\u{FEFF}' && b.len() > 0 {
        assert(b.last() == t.last());
    }
    if profile.writes_crlf() {
        lemma_saved_dos(b, profile);
    } else {
        lemma_saved_unix(b, profile);
    }
    if t.len() > 0 && t[0] == '\u{FEFF}' {
        assert(t =~= seq!['\u{FEFF}'] + b);
        text::lemma_encode_concat(seq!['\u{FEFF}'], b);
    }
}

proof fn lemma_dos_without_bom(t: Seq<char>)
    requires
        is_dos(t),
    ensures
        is_dos(without_bom(t)),
{
    let b = without_bom(t);
    if t.len() > 0 && t[0] == '\u{FEFF}' {
        assert forall|i: int| 0 <= i < b.len() && #[trigger] b[i] == '\r' implies i + 1 < b.len()
            && b[i + 1] == '\n' by {
            assert(t[i + 1] == '\r');
        }
        assert forall|i: int| 0 <= i < b.len() && #[trigger] b[i] == '\n' implies i > 0 && b[i - 1]
            == '\r' by {
            assert(t[i + 1] == '\n');
        }
    }
}

proof fn lemma_unix_is_unix(s: Seq<char>, from: int)
    requires
        0 <= from,
    ensures
        is_unix(unix_lines(s, from)),
    decreases s.len() - from,
{
    if from < s.len() {
        if s[from] == '\r' && from + 1 < s.len() && s[from + 1] == '\n' {
            lemma_unix_is_unix(s, from + 2);
        } else {
            lemma_unix_is_unix(s, from + 1);
        }
    }
}

proof fn lemma_dos_is_dos(u: Seq<char>)
    requires
        is_unix(u),
    ensures
        is_dos(dos_lines(u)),
        (dos_lines(u).len() > 0 && dos_lines(u).last() == '\n') == (u.len() > 0 && u.last() == '\n'),
        crlf_chars(dos_lines(u)) == 0 ==> dos_lines(u) == u,
        u.len() > 0 ==> dos_lines(u).len() > 0,
        u.len() > 0 && u[0] != '\n' ==> dos_lines(u)[0] == u[0],
        u.len() > 0 && u[0] == '\n' ==> dos_lines(u)[0] == '\r',
    decreases u.len(),
{
    let d = dos_lines(u);
    if u.len() > 0 {
        let p = u.drop_last();
        let dp = dos_lines(p);
        assert forall|i: int| 0 <= i < p.len() implies #[trigger] p[i] != '\r' by {
            assert(u[i] != '\r');
        }
        lemma_dos_is_dos(p);
        assert(u.last() != '\r') by {
            assert(u[u.len() - 1] != '\r');
        }
        assert forall|i: int| 0 <= i < d.len() && #[trigger] d[i] == '\r' implies i + 1 < d.len()
            && d[i + 1] == '\n' by {
            if i < dp.len() {
                assert(dp[i] == '\r');
            }
        }
        assert forall|i: int| 0 <= i < d.len() && #[trigger] d[i] == '\n' implies i > 0 && d[i - 1]
            == '\r' by {
            if i < dp.len() {
                assert(dp[i] == '\n');
            }
        }
        if u.last() == '\n' {
            assert(d.drop_last() =~= dp.push('\r'));
            assert(d[d.len() - 2] == '\r');
        } else {
            assert(d.drop_last() =~= dp);
            if crlf_chars(d) == 0 {
                assert(d =~= u);
            }
        }
        if p.len() > 0 {
            assert(d[0] == dp[0]);
            assert(p[0] == u[0]);
        } else {
            assert(dp =~= Seq::empty());
        }
    }
}

/// Whether a save of the text adds no mark of its own and no line end that the file did
/// not have.
pub open spec fn plain_buffer(buffer: Seq<char>, profile: ByteFidelityProfile) -> bool {
    let core = without_last_newline(unix_lines(buffer, 0));
    &&& !profile.had_bom ==> !(core.len() > 0 && core[0] == '\u{FEFF}')
    &&& !profile.had_trailing_newline ==> !(core.len() > 0 && core.last() == '\n')
}

/// Saving with the profile of the saved file writes the same file. The file has a byte
/// order mark, and a line end at its end, where the one before had them.
pub proof fn saving_again_changes_nothing(buffer: Seq<char>, profile: ByteFidelityProfile)
    requires
        plain_buffer(buffer, profile),
    ensures
        saved_bytes(buffer, profile_of(saved_bytes(buffer, profile))) == saved_bytes(
            buffer,
            profile,
        ),
        profile_of(saved_bytes(buffer, profile)).had_bom == profile.had_bom,
        profile_of(saved_bytes(buffer, profile)).had_trailing_newline
            == profile.had_trailing_newline,
{
    let u = unix_lines(buffer, 0);
    lemma_unix_is_unix(buffer, 0);
    let core = without_last_newline(u);
    let lines = if profile.had_trailing_newline {
        core.push('\n')
    } else {
        core
    };
    assert(is_unix(lines)) by {
        assert forall|i: int| 0 <= i < lines.len() implies #[trigger] lines[i] != '\r' by {
            if i < core.len() {
                assert(u[i] != '\r');
            }
        }
    }
    lemma_dos_is_dos(lines);
    let e = saved_text(buffer, profile);
    let t = if profile.had_bom {
        seq!['\u{FEFF}'] + e
    } else {
        e
    };
    let raw = saved_bytes(buffer, profile);
    lemma_bom(t);
    if profile.had_bom {
        text::lemma_encode_concat(seq!['\u{FEFF}'], e);
    }
    assert(raw == vstd::utf8::encode_utf8(t));
    lemma_counts(t);
    let again = profile_of(raw);
    assert(again.had_bom == profile.had_bom) by {
        if profile.had_bom {
            assert(t[0] == '\u{FEFF}');
        } else if t.len() > 0 && t[0] == '\u{FEFF}' {
            assert(lines[0] == '\u{FEFF}');
            assert(core.len() > 0);
            assert(core[0] == lines[0]);
        }
    }
    assert((e.len() > 0 && e.last() == '\n') == profile.had_trailing_newline);
    assert(again.had_trailing_newline == profile.had_trailing_newline) by {
        if e.len() > 0 {
            assert(t.last() == e.last());
        } else {
            assert(!profile.had_trailing_newline);
            if profile.had_bom {
                assert(t =~= seq!['\u{FEFF}']);
            }
        }
    }
    lemma_marked_counts(e);
    if profile.writes_crlf() {
        lemma_dos_counts(e);
        assert(lf_chars(t) == 0);
        if crlf_chars(t) == 0 {
            assert(e == lines);
            assert(!again.writes_crlf());
        } else {
            assert(again.writes_crlf());
        }
    } else {
        lemma_no_crlf(e);
        assert(!again.writes_crlf());
    }
    assert(saved_text(buffer, again) == e);
}

proof fn lemma_unix_shift(head: Seq<char>, s: Seq<char>, from: int)
    requires
        0 <= from,
    ensures
        unix_lines(head + s, head.len() + from) == unix_lines(s, from),
    decreases s.len() - from,
{
    if from < s.len() {
        let whole = head + s;
        assert(whole[head.len() + from] == s[from]);
        lemma_unix_shift(head, s, from + 1);
        if from + 1 < s.len() {
            assert(whole[head.len() + from + 1] == s[from + 1]);
            lemma_unix_shift(head, s, from + 2);
        }
    }
}

/// Replacing `\r\n` undoes putting it in.
proof fn lemma_unix_of_dos(u: Seq<char>)
    requires
        is_unix(u),
    ensures
        unix_lines(dos_lines(u), 0) == u,
    decreases u.len(),
{
    if u.len() > 0 {
        let c = u[0];
        let rest = u.skip(1);
        let d = dos_lines(rest);
        assert(u =~= seq![c] + rest);
        lemma_dos_concat(seq![c], rest);
        lemma_dos_one(c);
        lemma_unix_of_dos(rest);
        if c == '\n' {
            lemma_unix_shift(seq!['\r', '\n'], d, 0);
            assert((seq!['\r', '\n'] + d)[0] == '\r' && (seq!['\r', '\n'] + d)[1] == '\n');
        } else {
            lemma_unix_shift(seq![c], d, 0);
            assert((seq![c] + d)[0] == c);
        }
    } else {
        assert(u =~= Seq::empty());
    }
}

/// Opening a saved file gives the lines of the text back, whatever the file was like
/// before: a save changes no more than the line ends and whether one stands at the end.
pub proof fn saved_text_is_read_back(buffer: Seq<char>, profile: ByteFidelityProfile)
    requires
        profile.had_bom || !(buffer.len() > 0 && buffer[0] == '\u{FEFF}'),
    ensures
        vstd::utf8::valid_utf8(saved_bytes(buffer, profile)),
        unix_lines(
            without_bom(vstd::utf8::decode_utf8(saved_bytes(buffer, profile))),
            0,
        ) == saved_lines(buffer, profile),
{
    let u = unix_lines(buffer, 0);
    lemma_unix_is_unix(buffer, 0);
    let core = without_last_newline(u);
    let lines = saved_lines(buffer, profile);
    assert forall|i: int| 0 <= i < lines.len() implies #[trigger] lines[i] != '\r' by {
        if i < core.len() {
            assert(u[i] != '\r');
        }
    }
    let e = saved_text(buffer, profile);
    if profile.writes_crlf() {
        lemma_unix_of_dos(lines);
        lemma_dos_is_dos(lines);
    } else {
        lemma_unix_counts(lines);
    }
    let t = if profile.had_bom {
        seq!['\u{FEFF}'] + e
    } else {
        e
    };
    lemma_bom(t);
    if profile.had_bom {
        text::lemma_encode_concat(seq!['\u{FEFF}'], e);
        assert(t.skip(1) =~= e);
    } else if e.len() > 0 && e[0] == '\u{FEFF}' {
        assert(lines[0] == '\u{FEFF}');
        assert(core.len() > 0 && u[0] == lines[0]);
        assert(buffer[0] == u[0]);
    }
    assert(saved_bytes(buffer, profile) == vstd::utf8::encode_utf8(t));
    vstd::utf8::encode_utf8_valid_utf8(t);
    vstd::utf8::encode_utf8_decode_utf8(t);
}

proof fn lemma_marked_counts(e: Seq<char>)
    ensures
        crlf_chars(seq!['\u{FEFF}'] + e) == crlf_chars(e),
        lf_chars(seq!['\u{FEFF}'] + e) == lf_chars(e),
    decreases e.len(),
{
    let t = seq!['\u{FEFF}'] + e;
    if e.len() == 0 {
        assert(t.drop_last() =~= Seq::<char>::empty());
        reveal_with_fuel(crlf_chars, 2);
        reveal_with_fuel(lf_chars, 2);
    } else {
        lemma_marked_counts(e.drop_last());
        assert(t.drop_last() =~= seq!['\u{FEFF}'] + e.drop_last());
    }
}

/// A text of one line is written as it is where the file had neither a mark nor a line
/// end.
pub proof fn plain_text_is_kept(t: Seq<char>, profile: ByteFidelityProfile)
    requires
        forall|i: int| 0 <= i < t.len() ==> #[trigger] t[i] != '\n' && t[i] != '\r',
        !profile.writes_crlf(),
        !profile.had_trailing_newline,
        !profile.had_bom,
    ensures
        saved_bytes(t, profile) == vstd::utf8::encode_utf8(t),
{
    if t.len() > 0 {
        assert(t[t.len() - 1] != '\n');
    }
    lemma_saved_unix(t, profile);
}

/// Whether a line ends at a place in a file, with `\r\n` or with a mere `\n`.
pub open spec fn line_ends_at(raw: Seq<u8>, dos: bool, i: int) -> bool {
    0 <= i < raw.len() && raw[i] == 10 && dos == (i > 0 && raw[i - 1] == 13)
}

/// Whether places are all those where lines of a file end in one of the two ways.
pub open spec fn are_line_ends(raw: Seq<u8>, dos: bool, places: Seq<int>) -> bool {
    &&& forall|j: int, k: int|
        0 <= j < k < places.len() ==> #[trigger] places[j] < #[trigger] places[k]
    &&& forall|k: int| 0 <= k < places.len() ==> line_ends_at(raw, dos, #[trigger] places[k])
    &&& forall|i: int| #[trigger] line_ends_at(raw, dos, i) ==> places.contains(i)
}

proof fn lemma_line_ends_are_counted(raw: Seq<u8>, dos: bool, places: Seq<int>)
    requires
        are_line_ends(raw, dos, places),
    ensures
        places.len() == if dos {
            crlf_count(raw)
        } else {
            lf_count(raw)
        },
    decreases raw.len(),
{
    if raw.len() == 0 {
        if places.len() > 0 {
            assert(line_ends_at(raw, dos, places[0]));
        }
    } else {
        let p = raw.drop_last();
        let n = raw.len() - 1;
        assert forall|i: int| #[trigger] line_ends_at(p, dos, i) implies line_ends_at(
            raw,
            dos,
            i,
        ) by {}
        if line_ends_at(raw, dos, n) {
            let at = places.index_of(n);
            assert(places.contains(n));
            assert(places[at] == n);
            let end = places.len() - 1;
            assert(line_ends_at(raw, dos, places[end]));
            assert(at == end);
            let rest = places.drop_last();
            assert forall|k: int| 0 <= k < rest.len() implies line_ends_at(
                p,
                dos,
                #[trigger] rest[k],
            ) by {
                assert(line_ends_at(raw, dos, places[k]));
                assert(places[k] < places[end]);
            }
            assert forall|i: int| #[trigger] line_ends_at(p, dos, i) implies rest.contains(i) by {
                assert(line_ends_at(raw, dos, i));
                let k = places.index_of(i);
                assert(places.contains(i));
                assert(places[k] == i);
                assert(rest[k] == i);
            }
            lemma_line_ends_are_counted(p, dos, rest);
        } else {
            assert forall|k: int| 0 <= k < places.len() implies line_ends_at(
                p,
                dos,
                #[trigger] places[k],
            ) by {
                assert(line_ends_at(raw, dos, places[k]));
            }
            assert forall|i: int| #[trigger] line_ends_at(p, dos, i) implies places.contains(i) by {
                assert(line_ends_at(raw, dos, i));
            }
            lemma_line_ends_are_counted(p, dos, places);
        }
    }
}

/// A file is saved with the line ends of most of its lines: all lines end with `\r\n`
/// where more of them did, and with `\n` otherwise.
pub proof fn the_majority_decides(
    raw: Seq<u8>,
    dos: Seq<int>,
    unix: Seq<int>,
    buffer: Seq<char>,
)
    requires
        are_line_ends(raw, true, dos),
        are_line_ends(raw, false, unix),
    ensures
        dos.len() > unix.len() ==> is_dos(saved_text(buffer, profile_of(raw))),
        dos.len() <= unix.len() ==> is_unix(saved_text(buffer, profile_of(raw))),
        (profile_of(raw).line_ending == LineEnding::Mixed) == (dos.len() > 0 && unix.len() > 0),
{
    lemma_line_ends_are_counted(raw, true, dos);
    lemma_line_ends_are_counted(raw, false, unix);
    let profile = profile_of(raw);
    let u = unix_lines(buffer, 0);
    lemma_unix_is_unix(buffer, 0);
    let core = without_last_newline(u);
    let lines = saved_lines(buffer, profile);
    assert forall|i: int| 0 <= i < lines.len() implies #[trigger] lines[i] != '\r' by {
        if i < core.len() {
            assert(u[i] != '\r');
        }
    }
    lemma_dos_is_dos(lines);
}

proof fn lemma_unix_concat(a: Seq<char>, b: Seq<char>, from: int)
    requires
        0 <= from <= a.len(),
        a.len() > 0 && a.last() == '\r' ==> !(b.len() > 0 && b[0] == '\n'),
    ensures
        unix_lines(a + b, from) == unix_lines(a, from) + unix_lines(b, 0),
    decreases a.len() - from,
{
    let whole = a + b;
    if from == a.len() {
        lemma_unix_shift(a, b, 0);
        assert(unix_lines(a, from) + unix_lines(b, 0) =~= unix_lines(b, 0));
    } else {
        assert(whole[from] == a[from]);
        if from + 1 < a.len() {
            assert(whole[from + 1] == a[from + 1]);
        } else if b.len() > 0 {
            assert(whole[from + 1] == b[0]);
        }
        let dos = a[from] == '\r' && from + 1 < a.len() && a[from + 1] == '\n';
        let step: int = if dos {
            2
        } else {
            1
        };
        lemma_unix_concat(a, b, from + step);
        assert(unix_lines(whole, from) =~= unix_lines(a, from) + unix_lines(b, 0));
    }
}

/// Each kind of line end becomes one `\n`, and all else stays, wherever it stands.
pub proof fn line_ends_are_replaced_one_by_one(a: Seq<char>, c: char, b: Seq<char>)
    ensures
        !(a.len() > 0 && a.last() == '\r') || c != '\n' ==> (c != '\r' ==> unix_lines(
            a.push(c) + b,
            0,
        ) == unix_lines(a, 0).push(c) + unix_lines(b, 0)),
        !(b.len() > 0 && b[0] == '\n') ==> unix_lines(a.push('\r') + b, 0) == unix_lines(
            a,
            0,
        ).push('\n') + unix_lines(b, 0),
        unix_lines(a + seq!['\r', '\n'] + b, 0) == unix_lines(a, 0).push('\n') + unix_lines(b, 0),
{
    reveal_with_fuel(unix_lines, 3);
    if (!(a.len() > 0 && a.last() == '\r') || c != '\n') && c != '\r' {
        lemma_unix_concat(a, seq![c], 0);
        lemma_unix_concat(a.push(c), b, 0);
        assert(a.push(c) =~= a + seq![c]);
        assert(unix_lines(seq![c], 0) =~= seq![c]);
        assert(unix_lines(a, 0) + seq![c] =~= unix_lines(a, 0).push(c));
    }
    let cr = seq!['\r'];
    assert(unix_lines(cr, 0) =~= seq!['\n']);
    assert(a.push('\r') =~= a + cr);
    lemma_unix_concat(a, cr, 0);
    assert(unix_lines(a, 0) + seq!['\n'] =~= unix_lines(a, 0).push('\n'));
    if !(b.len() > 0 && b[0] == '\n') {
        lemma_unix_concat(a.push('\r'), b, 0);
    }
    let crlf = seq!['\r', '\n'];
    assert(unix_lines(crlf, 0) =~= seq!['\n']);
    lemma_unix_concat(a, crlf, 0);
    lemma_unix_concat(a + crlf, b, 0);
}

} // verus!
