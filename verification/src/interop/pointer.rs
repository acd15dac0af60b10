//! JSON Pointers (RFC 6901) of the values of a RON document.
//!
//! A value's pointer says where its JSON counterpart stands in the converted
//! document:
//!
//! * a struct field, a map entry and a field of a brace-style variant add their key;
//! * an item of a list or of an anonymous tuple adds its index;
//! * `Some(x)` is transparent: `x` keeps the pointer of the option, and `None` is a
//!   leaf;
//! * any other named tuple or variant is externally tagged: its payload stands under
//!   the name, a single item directly, several under their index.

use vstd::prelude::*;

use crate::syntax::{self, MapEntry, RonDocument, RonValue, Shape, StructField, SyntaxKind, TextRange};
use crate::text;
use crate::text_map::TextMap;

verus! {

/// A value of a document and the pointer of its JSON counterpart.
#[derive(Debug, Clone, PartialEq, Eq)]
pub struct ValuePointer {
    /// The span of the value in the source.
    pub range: TextRange,
    /// The JSON Pointer of the value.
    pub pointer: String,
}

/// A character as it stands in a pointer segment.
pub open spec fn escaped_char(c: char) -> Seq<char> {
    if c == '~' {
        seq!['~', '0']
    } else if c == '/' {
        seq!['~', '1']
    } else {
        seq![c]
    }
}

/// A key as it stands in a pointer segment.
pub open spec fn escaped(key: Seq<char>) -> Seq<char>
    decreases key.len(),
{
    if key.len() == 0 {
        Seq::empty()
    } else {
        escaped_char(key[0]) + escaped(key.drop_first())
    }
}

/// What a pointer segment stands for.
pub open spec fn unescaped(segment: Seq<char>) -> Seq<char>
    decreases segment.len(),
{
    if segment.len() == 0 {
        Seq::empty()
    } else if segment[0] == '~' && segment.len() >= 2 {
        seq![if segment[1] == '0' { '~' } else { '/' }] + unescaped(segment.skip(2))
    } else {
        seq![segment[0]] + unescaped(segment.drop_first())
    }
}

/// The pointer of the property `key` of the value at `pointer`.
pub open spec fn key_pointer(pointer: Seq<char>, key: Seq<char>) -> Seq<char> {
    pointer.push('/') + escaped(key)
}

/// The pointer of item `index` of the value at `pointer`.
pub open spec fn index_pointer(pointer: Seq<char>, index: nat) -> Seq<char> {
    pointer.push('/') + text::decimal(index)
}

/// Reading a segment back gives the key it was written for.
pub proof fn unescaping_undoes_escaping(key: Seq<char>)
    ensures
        unescaped(escaped(key)) == key,
    decreases key.len(),
{
    if key.len() > 0 {
        unescaping_undoes_escaping(key.drop_first());
        let e = escaped(key);
        if key[0] == '~' || key[0] == '/' {
            assert(e.skip(2) =~= escaped(key.drop_first()));
        } else {
            assert(e.drop_first() =~= escaped(key.drop_first()));
        }
        assert(unescaped(e) =~= key);
    }
}

/// Whether no slash stands in a segment.
pub open spec fn no_slash(segment: Seq<char>) -> bool {
    forall|i: int| 0 <= i < segment.len() ==> #[trigger] segment[i] != '/'
}

/// No slash stands in an escaped key.
pub proof fn lemma_escaped(key: Seq<char>)
    ensures
        no_slash(escaped(key)),
    decreases key.len(),
{
    if key.len() > 0 {
        lemma_escaped(key.drop_first());
        let head = escaped_char(key[0]);
        let rest = escaped(key.drop_first());
        assert forall|i: int| 0 <= i < (head + rest).len() implies #[trigger] (head + rest)[i]
            != '/' by {
            if i >= head.len() {
                assert((head + rest)[i] == rest[i - head.len()]);
            }
        }
    }
}

/// A number is written with digits alone, which need no escape.
pub proof fn lemma_decimal(n: nat)
    ensures
        no_slash(text::decimal(n)),
        text::decimal(n).len() > 0,
        forall|i: int|
            0 <= i < text::decimal(n).len() ==> '0' <= #[trigger] text::decimal(n)[i] <= '9',
        escaped(text::decimal(n)) == text::decimal(n),
    decreases n,
{
    if n >= 10 {
        lemma_decimal(n / 10);
    }
    lemma_escaped_digits(text::decimal(n));
}

proof fn lemma_escaped_digits(s: Seq<char>)
    requires
        forall|i: int| 0 <= i < s.len() ==> '0' <= #[trigger] s[i] <= '9',
    ensures
        escaped(s) == s,
    decreases s.len(),
{
    if s.len() > 0 {
        let rest = s.drop_first();
        assert forall|i: int| 0 <= i < rest.len() implies '0' <= #[trigger] rest[i] <= '9' by {
            assert(rest[i] == s[i + 1]);
        }
        lemma_escaped_digits(rest);
        assert(s =~= seq![s[0]] + rest);
    }
}

/// Different numbers are written differently.
pub proof fn lemma_decimal_distinct(a: nat, b: nat)
    requires
        text::decimal(a) == text::decimal(b),
    ensures
        a == b,
    decreases a,
{
    let x = text::decimal(a);
    let y = text::decimal(b);
    lemma_decimal(a / 10);
    lemma_decimal(b / 10);
    assert(x.last() == y.last());
    assert(x.last() == text::digit_char(a % 10));
    assert(y.last() == text::digit_char(b % 10));
    assert(a % 10 == b % 10) by {
        assert((48 + a % 10) as char as int == 48 + a % 10);
        assert((48 + b % 10) as char as int == 48 + b % 10);
    }
    if a >= 10 && b >= 10 {
        assert(x.drop_last() =~= text::decimal(a / 10));
        assert(y.drop_last() =~= text::decimal(b / 10));
        lemma_decimal_distinct(a / 10, b / 10);
    } else if a >= 10 {
        assert(x.len() >= 2);
    } else if b >= 10 {
        assert(y.len() >= 2);
    }
}

/// Two properties of one value have the same pointer only if their keys are equal.
pub proof fn distinct_keys_have_distinct_pointers(
    pointer: Seq<char>,
    first: Seq<char>,
    second: Seq<char>,
)
    ensures
        key_pointer(pointer, first) == key_pointer(pointer, second) <==> first == second,
{
    unescaping_undoes_escaping(first);
    unescaping_undoes_escaping(second);
    let n = pointer.len() + 1;
    assert(key_pointer(pointer, first).skip(n as int) =~= escaped(first));
    assert(key_pointer(pointer, second).skip(n as int) =~= escaped(second));
}

/// The pointer of the property `key` of the value at `pointer`.
pub fn push_key(pointer: &str, key: &str) -> (r: String)
    ensures
        r@ == key_pointer(pointer@, key@),
{
    let mut out = String::new();
    out.push_str(pointer);
    out.push('/');
    let chars = text::chars_of(key);
    let mut i: usize = 0;
    assert(chars@.skip(0) =~= key@);
    assert(out@ =~= pointer@.push('/'));
    while i < chars.len()
        invariant
            i <= chars@.len(),
            out@ + escaped(chars@.skip(i as int)) == key_pointer(pointer@, key@),
        decreases chars@.len() - i,
    {
        let ghost before = out@;
        assert(chars@.skip(i as int).drop_first() =~= chars@.skip(i + 1));
        let c = chars[i];
        if c == '~' {
            out.push('~');
            out.push('0');
        } else if c == '/' {
            out.push('~');
            out.push('1');
        } else {
            out.push(c);
        }
        assert(out@ =~= before + escaped_char(c));
        assert(out@ + escaped(chars@.skip(i + 1)) =~= before + (escaped_char(c) + escaped(
            chars@.skip(i + 1),
        )));
        i += 1;
    }
    assert(out@ + escaped(chars@.skip(i as int)) =~= out@);
    out
}

/// The pointer of item `index` of the value at `pointer`.
pub fn push_index(pointer: &str, index: usize) -> (r: String)
    ensures
        r@ == index_pointer(pointer@, index as nat),
{
    let mut out = String::new();
    out.push_str(pointer);
    out.push('/');
    text::push_decimal(&mut out, index);
    assert(out@ =~= index_pointer(pointer@, index as nat));
    out
}

/// The text between a pair of delimiters `quote`, or the whole text where it is not
/// enclosed by them.
pub open spec fn unquoted(s: Seq<char>, quote: char) -> Seq<char> {
    if s.len() >= 2 && s[0] == quote && s.last() == quote {
        s.subrange(1, s.len() - 1)
    } else {
        s
    }
}

/// The character that a one-letter escape stands for.
pub open spec fn simple_escape(c: char) -> Option<char> {
    if c == 'n' {
        Some('\n')
    } else if c == 'r' {
        Some('\r')
    } else if c == 't' {
        Some('\t')
    } else if c == '0' {
        Some('\0')
    } else if c == '\\' || c == '"' || c == '\'' {
        Some(c)
    } else {
        None
    }
}

/// The character named by the hexadecimal digits of a `\u{..}` escape, after an
/// optional plus sign.
pub open spec fn unicode_escape(hex: Seq<char>) -> Seq<char> {
    let digits = if hex.len() > 0 && hex[0] == '+' { hex.drop_first() } else { hex };
    match text::hex_number(digits) {
        Some(n) => if digits.len() > 0 && n <= 0x10FFFF && vstd::utf8::is_scalar(n as u32) {
            seq![(n as u32) as char]
        } else {
            Seq::empty()
        },
        None => Seq::empty(),
    }
}

/// The contents of a literal with its escapes resolved. An escape that is not
/// recognised stands for itself; a `\u{..}` escape that names no character stands for
/// nothing.
pub open spec fn resolved(s: Seq<char>) -> Seq<char>
    decreases s.len(),
{
    if s.len() == 0 {
        Seq::empty()
    } else if s[0] != '\\' {
        seq![s[0]] + resolved(s.drop_first())
    } else if s.len() == 1 {
        seq!['\\']
    } else if simple_escape(s[1]) is Some {
        seq![simple_escape(s[1])->0] + resolved(s.skip(2))
    } else if s[1] == 'u' && s.len() > 2 && s[2] == '{' {
        let close = text::index_from(s, '}', 3);
        if 3 <= close < s.len() {
            unicode_escape(s.subrange(3, close)) + resolved(s.skip(close + 1))
        } else {
            unicode_escape(s.skip(3))
        }
    } else {
        seq!['\\', s[1]] + resolved(s.skip(2))
    }
}

/// Appends the character that the digits `hex[from..to]` name, if any.
fn push_unicode_escape(out: &mut String, s: &Vec<char>, from: usize, to: usize)
    requires
        from <= to <= s@.len(),
    ensures
        final(out)@ == old(out)@ + unicode_escape(s@.subrange(from as int, to as int)),
{
    let ghost hex = s@.subrange(from as int, to as int);
    let mut first: usize = from;
    if first < to && s[first] == '+' {
        first += 1;
    }
    let ghost digits = s@.subrange(first as int, to as int);
    assert(digits =~= if hex.len() > 0 && hex[0] == '+' { hex.drop_first() } else { hex });
    let mut value: u32 = 0;
    let mut i: usize = first;
    let mut valid: bool = true;
    assert(s@.subrange(first as int, first as int) =~= Seq::<char>::empty());
    while i < to && valid
        invariant
            from <= first <= i <= to <= s@.len(),
            digits == s@.subrange(first as int, to as int),
            value <= 0x10FFFF,
            valid ==> text::hex_number(s@.subrange(first as int, i as int)) == Some(value as nat),
            !valid ==> (text::hex_number(digits) matches Some(n) ==> n > 0x10FFFF),
        decreases (to - i) + (if valid { 1int } else { 0 }),
    {
        let ghost done = s@.subrange(first as int, i + 1);
        assert(done.drop_last() =~= s@.subrange(first as int, i as int));
        assert(done =~= digits.take(i + 1 - first));
        match text::hex_digit_of(s[i]) {
            Some(d) => {
                let next: u32 = value * 16 + d;
                if next > 0x10FFFF {
                    proof {
                        lemma_hex_grows(digits, i + 1 - first);
                    }
                    valid = false;
                } else {
                    value = next;
                    i += 1;
                }
            },
            None => {
                proof {
                    lemma_hex_grows(digits, i + 1 - first);
                }
                valid = false;
            },
        }
    }
    if valid && first < to {
        assert(s@.subrange(first as int, i as int) =~= digits);
        match char::from_u32(value) {
            Some(c) => {
                out.push(c);
                proof {
                    vstd::utf8::char_u32_cast(c, value);
                }
                assert(unicode_escape(hex) =~= seq![c]);
            },
            None => {},
        }
    }
    assert(out@ =~= old(out)@ + unicode_escape(hex));
}

/// More digits never make a number smaller, and never make it a number again.
proof fn lemma_hex_grows(digits: Seq<char>, n: int)
    requires
        0 <= n <= digits.len(),
    ensures
        text::hex_number(digits) matches Some(whole) ==> (text::hex_number(digits.take(n)) matches Some(
            part,
        ) && part <= whole),
    decreases digits.len() - n,
{
    if n < digits.len() {
        lemma_hex_grows(digits, n + 1);
        assert(digits.take(n + 1).drop_last() =~= digits.take(n));
    } else {
        assert(digits.take(n) =~= digits);
    }
}

/// The contents of a literal with its escapes resolved.
pub fn unescape(s: &str) -> (r: String)
    ensures
        r@ == resolved(s@),
{
    let chars = text::chars_of(s);
    let mut out = String::new();
    let mut i: usize = 0;
    assert(chars@.skip(0) =~= s@);
    assert(out@ + resolved(chars@.skip(0)) =~= resolved(s@));
    while i < chars.len()
        invariant
            i <= chars@.len(),
            out@ + resolved(chars@.skip(i as int)) == resolved(s@),
        decreases chars@.len() - i,
    {
        let ghost rest = chars@.skip(i as int);
        let ghost before = out@;
        let c = chars[i];
        if c != '\\' {
            out.push(c);
            i += 1;
            assert(rest.drop_first() =~= chars@.skip(i as int));
            assert(out@ =~= before + seq![c]);
        } else if i + 1 == chars.len() {
            out.push('\\');
            i += 1;
            assert(chars@.skip(i as int).len() == 0);
            assert(out@ =~= before + seq!['\\']);
        } else {
            let e = chars[i + 1];
            let simple: Option<char> = match e {
                'n' => Some('\n'),
                'r' => Some('\r'),
                't' => Some('\t'),
                '0' => Some('\0'),
                '\\' => Some('\\'),
                '"' => Some('"'),
                '\'' => Some('\''),
                _ => None,
            };
            if let Some(plain) = simple {
                out.push(plain);
                i += 2;
                assert(rest.skip(2) =~= chars@.skip(i as int));
                assert(out@ =~= before + seq![plain]);
            } else if e == 'u' && i + 2 < chars.len() && chars[i + 2] == '{' {
                let close = text::find_from(&chars, '}', i + 3);
                proof {
                    lemma_index_from_skip(chars@, '}', i as int, 3);
                }
                push_unicode_escape(&mut out, &chars, i + 3, close);
                if close < chars.len() {
                    assert(rest.subrange(3, close - i) =~= chars@.subrange(i + 3, close as int));
                    assert(rest.skip(close - i + 1) =~= chars@.skip(close + 1));
                    i = close + 1;
                } else {
                    assert(rest.skip(3) =~= chars@.subrange(i + 3, close as int));
                    i = close;
                    assert(chars@.skip(i as int).len() == 0);
                }
                assert(out@ + resolved(chars@.skip(i as int)) =~= before + resolved(rest));
            } else {
                out.push('\\');
                out.push(e);
                i += 2;
                assert(rest.skip(2) =~= chars@.skip(i as int));
                assert(out@ =~= before + seq!['\\', e]);
            }
        }
        assert(out@ + resolved(chars@.skip(i as int)) =~= before + resolved(rest));
    }
    assert(out@ + resolved(chars@.skip(i as int)) =~= out@);
    out
}

pub proof fn lemma_index_from_skip(s: Seq<char>, c: char, offset: int, from: int)
    requires
        0 <= offset <= s.len(),
        0 <= from,
    ensures
        offset + from <= s.len() ==> text::index_from(s, c, offset + from) == offset + text::index_from(
            s.skip(offset),
            c,
            from,
        ),
    decreases s.len() - from,
{
    if offset + from < s.len() {
        lemma_index_from_skip(s, c, offset, from + 1);
    }
}

/// The contents of a quoted string literal.
pub fn decode_string(literal: &str) -> (r: String)
    ensures
        r@ == resolved(unquoted(literal@, '"')),
{
    decode_quoted(literal, '"')
}

/// The contents of a character literal.
pub fn decode_char(literal: &str) -> (r: String)
    ensures
        r@ == resolved(unquoted(literal@, '\'')),
{
    decode_quoted(literal, '\'')
}

/// The contents of a literal between two delimiters `quote`.
fn decode_quoted(literal: &str, quote: char) -> (r: String)
    ensures
        r@ == resolved(unquoted(literal@, quote)),
{
    let chars = text::chars_of(literal);
    let n = chars.len();
    if n >= 2 && chars[0] == quote && chars[n - 1] == quote {
        let inner = text::slice(&chars, 1, n - 1);
        unescape(inner.as_str())
    } else {
        unescape(literal)
    }
}

/// How many `#` follow each other in `bytes` from position `from` on.
pub open spec fn hashes_from(bytes: Seq<u8>, from: int) -> nat
    decreases bytes.len() - from,
{
    if 0 <= from < bytes.len() && bytes[from] == 35 {
        1 + hashes_from(bytes, from + 1)
    } else {
        0
    }
}

/// The contents of a raw string literal: what stands between the opening quote and
/// as many closing bytes as the opening delimiter has. A literal that does not open
/// like a raw string, or is too short to close, stands for itself; one whose closing
/// delimiter would split a character has no contents.
pub open spec fn raw_contents(literal: Seq<char>) -> Seq<char> {
    let bytes = vstd::utf8::encode_utf8(literal);
    let hashes = hashes_from(bytes, 1);
    let open = hashes + 2;
    let close = bytes.len() - (hashes + 1);
    if bytes.len() == 0 || bytes[0] != 114 {
        literal
    } else if hashes + 1 >= bytes.len() || bytes[hashes as int + 1] != 34 {
        literal
    } else if close < open {
        literal
    } else if vstd::utf8::is_char_boundary(bytes, close) {
        vstd::utf8::decode_utf8(bytes.subrange(open as int, close))
    } else {
        Seq::empty()
    }
}

/// A valid prefix of valid UTF-8 ends at a character boundary.
proof fn lemma_valid_prefix_ends_at_boundary(bytes: Seq<u8>, n: int)
    requires
        vstd::utf8::valid_utf8(bytes),
        vstd::utf8::partial_valid_utf8(bytes, n),
    ensures
        vstd::utf8::is_char_boundary(bytes, n),
{
    if n == bytes.len() {
        vstd::utf8::is_char_boundary_start_end_of_seq(bytes);
    } else {
        let rest = bytes.subrange(n, bytes.len() as int);
        if !vstd::utf8::valid_utf8(rest) {
            vstd::utf8::partial_valid_partial_invalid_utf8(bytes, n);
        }
        assert(rest[0] == bytes[n]);
        vstd::utf8::is_char_boundary_iff_not_is_continuation_byte(bytes, n);
    }
}

/// The contents of a raw string literal.
pub fn decode_raw_string(literal: &str) -> (r: String)
    ensures
        r@ == raw_contents(literal@),
{
    let bytes = literal.as_bytes();
    let n = bytes.len();
    if n == 0 || bytes[0] != 114 {
        return literal.to_owned();
    }
    let mut i: usize = 1;
    while i < n && bytes[i] == 35
        invariant
            1 <= i <= n,
            n == bytes@.len(),
            hashes_from(bytes@, 1) == i - 1 + hashes_from(bytes@, i as int),
            forall|j: int| 1 <= j < i ==> bytes@[j] == 35,
        decreases n - i,
    {
        i += 1;
    }
    if i >= n || bytes[i] != 34 {
        return literal.to_owned();
    }
    let hashes: usize = i - 1;
    let open: usize = i + 1;
    if n - open < hashes + 1 {
        return literal.to_owned();
    }
    let close: usize = n - (hashes + 1);
    if !literal.is_char_boundary(close) {
        return String::new();
    }
    let (front, _) = literal.split_at(close);
    proof {
        let fb = vstd::utf8::encode_utf8(front@);
        assert(fb =~= bytes@.subrange(0, close as int));
        vstd::utf8::encode_utf8_valid_utf8(front@);
        assert(fb.subrange(0, 0) =~= Seq::<u8>::empty());
        vstd::utf8::partial_valid_utf8_extend_ascii_block(fb, 0, open as int);
        lemma_valid_prefix_ends_at_boundary(fb, open as int);
    }
    let (_, inner) = front.split_at(open);
    proof {
        vstd::utf8::encode_utf8_decode_utf8(inner@);
        assert(vstd::utf8::encode_utf8(inner@) =~= bytes@.subrange(open as int, close as int));
    }
    inner.to_owned()
}

/// The property name that a map key gets in the converted document: the contents of a
/// string, raw string or character literal, the verbatim text of any other key.
pub open spec fn key_text(key: RonValue) -> Seq<char> {
    match key.shape {
        Shape::Literal { kind: Some(SyntaxKind::String), text } => resolved(
            unquoted(syntax::text_or_empty(text), '"'),
        ),
        Shape::Literal { kind: Some(SyntaxKind::RawString), text } => raw_contents(
            syntax::text_or_empty(text),
        ),
        Shape::Literal { kind: Some(SyntaxKind::Char), text } => resolved(
            unquoted(syntax::text_or_empty(text), '\''),
        ),
        _ => key.text@,
    }
}

/// The property name that a map key gets in the converted document.
pub fn projection_key_string(key: &RonValue) -> (r: String)
    ensures
        r@ == key_text(*key),
{
    match &key.shape {
        Shape::Literal { kind: Some(SyntaxKind::String), text } => decode_string(
            syntax::text_of(text).as_str(),
        ),
        Shape::Literal { kind: Some(SyntaxKind::RawString), text } => decode_raw_string(
            syntax::text_of(text).as_str(),
        ),
        Shape::Literal { kind: Some(SyntaxKind::Char), text } => decode_char(
            syntax::text_of(text).as_str(),
        ),
        _ => key.text.clone(),
    }
}

/// The field name of an entry of a brace-style variant.
pub open spec fn entry_name(entry: MapEntry) -> Option<Seq<char>> {
    match entry.key {
        None => None,
        Some(key) => match key.shape {
            Shape::EnumVariant { name, .. } => match name {
                Some(n) => Some(n@),
                None => None,
            },
            Shape::Literal { text, .. } => match text {
                Some(t) => Some(t@),
                None => None,
            },
            _ => Some(key.text@),
        },
    }
}

/// The field name of an entry of a brace-style variant.
pub fn entry_key_name(entry: &MapEntry) -> (r: Option<String>)
    ensures
        match r {
            Some(name) => entry_name(*entry) == Some(name@),
            None => entry_name(*entry) is None,
        },
{
    match &entry.key {
        None => None,
        Some(key) => match &key.shape {
            Shape::EnumVariant { name, .. } => name.clone(),
            Shape::Literal { text, .. } => text.clone(),
            _ => Some(key.text.clone()),
        },
    }
}

/// Whether a variant is `None` without any payload.
pub open spec fn is_bare_none(
    name: Option<String>,
    items: Seq<RonValue>,
    entries: Seq<MapEntry>,
) -> bool {
    syntax::text_or_empty(name) == "None"@ && items.len() == 0 && entries.len() == 0
}

/// Whether a variant is `Some` with a positional payload.
pub open spec fn is_some_of(name: Option<String>, items: Seq<RonValue>) -> bool {
    syntax::text_or_empty(name) == "Some"@ && items.len() > 0
}

/// The spans and pointers of `value`, which stands at `pointer`, and of all values
/// inside it: a value comes before what it holds.
pub open spec fn value_pointers(value: RonValue, pointer: Seq<char>) -> Seq<(TextRange, Seq<char>)>
    decreases value, 0nat,
{
    seq![(value.range, pointer)] + match value.shape {
        Shape::Struct { fields, .. } => field_pointers(fields@, pointer, 0),
        Shape::Tuple { name, items } => if syntax::named(name, "Some"@) {
            if items@.len() > 0 {
                value_pointers(items@[0], pointer)
            } else {
                Seq::empty()
            }
        } else {
            match name {
                Some(n) => payload_pointers(items@, key_pointer(pointer, n@)),
                None => item_pointers(items@, pointer, 0),
            }
        },
        Shape::List { items } => item_pointers(items@, pointer, 0),
        Shape::Dictionary { entries } => map_pointers(entries@, pointer, 0),
        Shape::EnumVariant { name, items, entries } => if is_bare_none(name, items@, entries@) {
            Seq::empty()
        } else if is_some_of(name, items@) {
            value_pointers(items@[0], pointer)
        } else {
            let under = key_pointer(pointer, syntax::text_or_empty(name));
            if entries@.len() > 0 || syntax::brace_among(value.layout@) {
                entry_pointers(entries@, under, 0)
            } else {
                payload_pointers(items@, under)
            }
        },
        Shape::Unit | Shape::Literal { .. } | Shape::Error => Seq::empty(),
    }
}

/// The spans and pointers of the fields from position `from` on.
pub open spec fn field_pointers(
    fields: Seq<StructField>,
    pointer: Seq<char>,
    from: nat,
) -> Seq<(TextRange, Seq<char>)>
    decreases fields, fields.len() - from,
{
    if from >= fields.len() {
        Seq::empty()
    } else {
        (match (fields[from as int].name, fields[from as int].value) {
            (Some(name), Some(value)) => value_pointers(value, key_pointer(pointer, name@)),
            _ => Seq::empty(),
        }) + field_pointers(fields, pointer, from + 1)
    }
}

/// The spans and pointers of the items from position `from` on, each under its index.
pub open spec fn item_pointers(
    items: Seq<RonValue>,
    pointer: Seq<char>,
    from: nat,
) -> Seq<(TextRange, Seq<char>)>
    decreases items, items.len() - from,
{
    if from >= items.len() {
        Seq::empty()
    } else {
        value_pointers(items[from as int], index_pointer(pointer, from)) + item_pointers(
            items,
            pointer,
            from + 1,
        )
    }
}

/// The spans and pointers of a variant's positional payload.
pub open spec fn payload_pointers(items: Seq<RonValue>, pointer: Seq<char>) -> Seq<
    (TextRange, Seq<char>),
>
    decreases items, items.len() + 1,
{
    if items.len() == 1 {
        value_pointers(items[0], pointer)
    } else {
        item_pointers(items, pointer, 0)
    }
}

/// The spans and pointers of the map entries from position `from` on.
pub open spec fn map_pointers(
    entries: Seq<MapEntry>,
    pointer: Seq<char>,
    from: nat,
) -> Seq<(TextRange, Seq<char>)>
    decreases entries, entries.len() - from,
{
    if from >= entries.len() {
        Seq::empty()
    } else {
        (match (entries[from as int].key, entries[from as int].value) {
            (Some(key), Some(value)) => value_pointers(value, key_pointer(pointer, key_text(key))),
            _ => Seq::empty(),
        }) + map_pointers(entries, pointer, from + 1)
    }
}

/// The spans and pointers of a brace-style variant's entries from position `from` on.
pub open spec fn entry_pointers(
    entries: Seq<MapEntry>,
    pointer: Seq<char>,
    from: nat,
) -> Seq<(TextRange, Seq<char>)>
    decreases entries, entries.len() - from,
{
    if from >= entries.len() {
        Seq::empty()
    } else {
        (match (entry_name(entries[from as int]), entries[from as int].value) {
            (Some(name), Some(value)) => value_pointers(value, key_pointer(pointer, name)),
            _ => Seq::empty(),
        }) + entry_pointers(entries, pointer, from + 1)
    }
}

/// The spans and pointers of every value of a document.
pub open spec fn document_pointers(doc: RonDocument) -> Seq<(TextRange, Seq<char>)> {
    match doc.root {
        Some(root) => value_pointers(root, Seq::empty()),
        None => Seq::empty(),
    }
}

/// A list of spans and pointers as mathematical pairs.
pub open spec fn pairs(list: Seq<(TextRange, String)>) -> Seq<(TextRange, Seq<char>)> {
    list.map_values(|p: (TextRange, String)| (p.0, p.1@))
}

fn walk(value: &RonValue, pointer: &str, out: &mut Vec<(TextRange, String)>)
    ensures
        pairs(final(out)@) == pairs(old(out)@) + value_pointers(*value, pointer@),
    decreases value, 0nat,
{
    out.push((value.range, pointer.to_owned()));
    assert(pairs(out@) =~= pairs(old(out)@) + seq![(value.range, pointer@)]);
    match &value.shape {
        Shape::Struct { fields, .. } => walk_struct(fields, pointer, out),
        Shape::Tuple { name, items } => {
            if syntax::is_named(name, "Some") {
                if items.len() > 0 {
                    walk(&items[0], pointer, out);
                }
            } else {
                match name {
                    Some(n) => {
                        let under = push_key(pointer, n.as_str());
                        walk_payload(items, under.as_str(), out);
                    },
                    None => walk_items(items, pointer, out),
                }
            }
        },
        Shape::List { items } => walk_items(items, pointer, out),
        Shape::Dictionary { entries } => walk_map(entries, pointer, out),
        Shape::EnumVariant { name, items, entries } => {
            let name_text = syntax::text_of(name);
            if text::same_text(name_text.as_str(), "None") && items.len() == 0 && entries.len()
                == 0 {
            } else if text::same_text(name_text.as_str(), "Some") && items.len() > 0 {
                walk(&items[0], pointer, out);
            } else {
                let under = push_key(pointer, name_text.as_str());
                if entries.len() > 0 || syntax::has_brace(&value.layout) {
                    walk_entries(entries, under.as_str(), out);
                } else {
                    walk_payload(items, under.as_str(), out);
                }
            }
        },
        Shape::Unit | Shape::Literal { .. } | Shape::Error => {},
    }
    assert(pairs(out@) =~= pairs(old(out)@) + value_pointers(*value, pointer@));
}

fn walk_struct(fields: &Vec<StructField>, pointer: &str, out: &mut Vec<(TextRange, String)>)
    ensures
        pairs(final(out)@) == pairs(old(out)@) + field_pointers(fields@, pointer@, 0),
    decreases fields@, fields@.len(),
{
    let mut i: usize = 0;
    assert(pairs(out@) + field_pointers(fields@, pointer@, 0) =~= pairs(old(out)@) + field_pointers(
        fields@,
        pointer@,
        0,
    ));
    while i < fields.len()
        invariant
            i <= fields@.len(),
            pairs(out@) + field_pointers(fields@, pointer@, i as nat) == pairs(old(out)@)
                + field_pointers(fields@, pointer@, 0),
        decreases fields@.len() - i,
    {
        let ghost before = pairs(out@);
        let field = &fields[i];
        if let (Some(name), Some(value)) = (&field.name, &field.value) {
            let child = push_key(pointer, name.as_str());
            assert(decreases_to!(fields@ => fields@[i as int]));
            walk(value, child.as_str(), out);
        }
        assert(pairs(out@) + field_pointers(fields@, pointer@, i as nat + 1) =~= before
            + field_pointers(fields@, pointer@, i as nat));
        i += 1;
    }
    assert(pairs(out@) + field_pointers(fields@, pointer@, i as nat) =~= pairs(out@));
}

fn walk_items(items: &Vec<RonValue>, pointer: &str, out: &mut Vec<(TextRange, String)>)
    ensures
        pairs(final(out)@) == pairs(old(out)@) + item_pointers(items@, pointer@, 0),
    decreases items@, items@.len(),
{
    let mut i: usize = 0;
    while i < items.len()
        invariant
            i <= items@.len(),
            pairs(out@) + item_pointers(items@, pointer@, i as nat) == pairs(old(out)@)
                + item_pointers(items@, pointer@, 0),
        decreases items@.len() - i,
    {
        let ghost before = pairs(out@);
        let child = push_index(pointer, i);
        walk(&items[i], child.as_str(), out);
        assert(pairs(out@) + item_pointers(items@, pointer@, i as nat + 1) =~= before
            + item_pointers(items@, pointer@, i as nat));
        i += 1;
    }
    assert(pairs(out@) + item_pointers(items@, pointer@, i as nat) =~= pairs(out@));
}

fn walk_payload(items: &Vec<RonValue>, pointer: &str, out: &mut Vec<(TextRange, String)>)
    ensures
        pairs(final(out)@) == pairs(old(out)@) + payload_pointers(items@, pointer@),
    decreases items@, items@.len() + 1,
{
    if items.len() == 1 {
        walk(&items[0], pointer, out);
    } else {
        walk_items(items, pointer, out);
    }
}

fn walk_map(entries: &Vec<MapEntry>, pointer: &str, out: &mut Vec<(TextRange, String)>)
    ensures
        pairs(final(out)@) == pairs(old(out)@) + map_pointers(entries@, pointer@, 0),
    decreases entries@, entries@.len(),
{
    let mut i: usize = 0;
    while i < entries.len()
        invariant
            i <= entries@.len(),
            pairs(out@) + map_pointers(entries@, pointer@, i as nat) == pairs(old(out)@)
                + map_pointers(entries@, pointer@, 0),
        decreases entries@.len() - i,
    {
        let ghost before = pairs(out@);
        let entry = &entries[i];
        if let (Some(key), Some(value)) = (&entry.key, &entry.value) {
            let key = projection_key_string(key);
            let child = push_key(pointer, key.as_str());
            assert(decreases_to!(entries@ => entries@[i as int]));
            walk(value, child.as_str(), out);
        }
        assert(pairs(out@) + map_pointers(entries@, pointer@, i as nat + 1) =~= before
            + map_pointers(entries@, pointer@, i as nat));
        i += 1;
    }
    assert(pairs(out@) + map_pointers(entries@, pointer@, i as nat) =~= pairs(out@));
}

fn walk_entries(entries: &Vec<MapEntry>, pointer: &str, out: &mut Vec<(TextRange, String)>)
    ensures
        pairs(final(out)@) == pairs(old(out)@) + entry_pointers(entries@, pointer@, 0),
    decreases entries@, entries@.len(),
{
    let mut i: usize = 0;
    while i < entries.len()
        invariant
            i <= entries@.len(),
            pairs(out@) + entry_pointers(entries@, pointer@, i as nat) == pairs(old(out)@)
                + entry_pointers(entries@, pointer@, 0),
        decreases entries@.len() - i,
    {
        let ghost before = pairs(out@);
        let entry = &entries[i];
        if let (Some(name), Some(value)) = (entry_key_name(entry), &entry.value) {
            let child = push_key(pointer, name.as_str());
            assert(decreases_to!(entries@ => entries@[i as int]));
            walk(value, child.as_str(), out);
        }
        assert(pairs(out@) + entry_pointers(entries@, pointer@, i as nat + 1) =~= before
            + entry_pointers(entries@, pointer@, i as nat));
        i += 1;
    }
    assert(pairs(out@) + entry_pointers(entries@, pointer@, i as nat) =~= pairs(out@));
}

/// The span of the last value in `list` that stands at `pointer`.
pub open spec fn last_range(list: Seq<(TextRange, Seq<char>)>, pointer: Seq<char>) -> Option<
    TextRange,
>
    decreases list.len(),
{
    if list.len() == 0 {
        None
    } else if list.last().1 == pointer {
        Some(list.last().0)
    } else {
        last_range(list.drop_last(), pointer)
    }
}

/// The span of the value at each pointer of a document. Where an option shares its
/// pointer with what it holds, the span is that of the innermost value.
pub fn pointer_to_range(doc: &RonDocument) -> (r: TextMap<TextRange>)
    ensures
        r.wf(),
        forall|p: Seq<char>| r.at(p) == last_range(document_pointers(*doc), p),
{
    let list = value_pointer_map(doc);
    let ghost all = pairs(list@);
    let mut map: TextMap<TextRange> = TextMap::new();
    let mut i: usize = 0;
    while i < list.len()
        invariant
            i <= list@.len(),
            all == pairs(list@),
            map.wf(),
            forall|p: Seq<char>| map.at(p) == last_range(all.take(i as int), p),
        decreases list@.len() - i,
    {
        let ghost before = map;
        map.insert(list[i].1.clone(), list[i].0);
        proof {
            assert(all.take(i + 1).drop_last() =~= all.take(i as int));
            assert(all.take(i + 1).last() == all[i as int]);
            assert forall|p: Seq<char>| map.at(p) == last_range(all.take(i + 1), p) by {
                assert(before.at(p) == last_range(all.take(i as int), p));
            }
        }
        i += 1;
    }
    assert(all.take(i as int) =~= all);
    map
}

/// The span and pointer of every value of a document, a value before what it holds.
/// A document without a root value has none.
pub fn value_pointer_map(doc: &RonDocument) -> (r: Vec<(TextRange, String)>)
    ensures
        pairs(r@) == document_pointers(*doc),
{
    let mut out: Vec<(TextRange, String)> = Vec::new();
    if let Some(root) = &doc.root {
        walk(root, "", &mut out);
        proof {
            reveal_strlit("");
            assert(""@ =~= Seq::<char>::empty());
            assert(pairs(out@) =~= document_pointers(*doc));
        }
    }
    assert(pairs(out@) =~= document_pointers(*doc));
    out
}

} // verus!
