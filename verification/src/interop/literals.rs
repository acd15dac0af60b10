//! What the literals of RON stand for.

use vstd::prelude::*;

use crate::fidelity;
use crate::hash;
use crate::interop::pointer;
use crate::recovery;
use crate::text;

verus! {

/// Text without a backslash stands for itself, wherever it is in a literal.
pub proof fn plain_text_stands_for_itself(plain: Seq<char>, tail: Seq<char>)
    requires
        forall|i: int| 0 <= i < plain.len() ==> #[trigger] plain[i] != '\\',
    ensures
        pointer::resolved(plain + tail) == plain + pointer::resolved(tail),
    decreases plain.len(),
{
    if plain.len() == 0 {
        assert(plain + tail =~= tail);
        assert(plain + pointer::resolved(tail) =~= pointer::resolved(tail));
    } else {
        let less = plain.drop_first();
        assert forall|i: int| 0 <= i < less.len() implies #[trigger] less[i] != '\\' by {
            assert(plain[i + 1] != '\\');
        }
        assert(plain[0] != '\\');
        assert((plain + tail).drop_first() =~= less + tail);
        plain_text_stands_for_itself(less, tail);
        assert(seq![plain[0]] + (less + pointer::resolved(tail)) =~= plain + pointer::resolved(
            tail,
        ));
    }
}

proof fn lemma_hex_chars(n: nat, width: nat)
    ensures
        hash::hex(n, width).len() == width,
        forall|i: int|
            0 <= i < width ==> {
                let c = #[trigger] hash::hex(n, width)[i];
                c != '}' && c != '+' && c != '{'
            },
    decreases width,
{
    if width > 0 {
        lemma_hex_chars(n / 16, (width - 1) as nat);
        let less = hash::hex(n / 16, (width - 1) as nat);
        assert forall|i: int| 0 <= i < width implies {
            let c = #[trigger] hash::hex(n, width)[i];
            c != '}' && c != '+' && c != '{'
        } by {
            if i < width - 1 {
                assert(hash::hex(n, width)[i] == less[i]);
            }
        }
    }
}

proof fn lemma_first_brace(s: Seq<char>, from: int, at: int)
    requires
        0 <= from <= at < s.len(),
        s[at] == '}',
        forall|i: int| from <= i < at ==> #[trigger] s[i] != '}',
    ensures
        text::index_from(s, '}', from) == at,
    decreases at - from,
{
    if from < at {
        assert(s[from] != '}');
        lemma_first_brace(s, from + 1, at);
    }
}

/// An escape with the number of a character in hexadecimal digits, however many, stands
/// for the character.
pub proof fn unicode_escapes_stand_for_their_character(c: char, width: nat, tail: Seq<char>)
    requires
        width > 0,
        (c as nat) < recovery::hex_bound(width),
    ensures
        pointer::resolved(
            seq!['\\', 'u', '{'] + hash::hex(c as nat, width) + seq!['}'] + tail,
        ) == seq![c] + pointer::resolved(tail),
{
    let digits = hash::hex(c as nat, width);
    let s = seq!['\\', 'u', '{'] + digits + seq!['}'] + tail;
    lemma_hex_chars(c as nat, width);
    recovery::lemma_hex_digits(c as nat, width);
    let close = 3 + width as int;
    assert(s[close] == '}');
    assert forall|i: int| 3 <= i < close implies #[trigger] s[i] != '}' by {
        assert(s[i] == digits[i - 3]);
    }
    lemma_first_brace(s, 3, close);
    assert(s.subrange(3, close) =~= digits);
    assert(s.skip(close + 1) =~= tail);
    vstd::utf8::char_is_scalar(c);
    assert(digits[0] != '+');
    assert((c as nat) as u32 as char == c);
    assert(pointer::unicode_escape(digits) =~= seq![c]);
    assert(pointer::simple_escape('u') is None);
}

/// The letter behind a backslash stands for its character, and the text goes on behind
/// it.
pub proof fn letters_stand_for_their_characters(tail: Seq<char>)
    ensures
        pointer::resolved(seq!['\\', 'n'] + tail) == seq!['\n'] + pointer::resolved(tail),
        pointer::resolved(seq!['\\', 'r'] + tail) == seq!['\r'] + pointer::resolved(tail),
        pointer::resolved(seq!['\\', 't'] + tail) == seq!['\t'] + pointer::resolved(tail),
        pointer::resolved(seq!['\\', '0'] + tail) == seq!['\0'] + pointer::resolved(tail),
        pointer::resolved(seq!['\\', '\\'] + tail) == seq!['\\'] + pointer::resolved(tail),
        pointer::resolved(seq!['\\', '"'] + tail) == seq!['"'] + pointer::resolved(tail),
        pointer::resolved(seq!['\\', '\''] + tail) == seq!['\''] + pointer::resolved(tail),
{
    assert((seq!['\\', 'n'] + tail).skip(2) =~= tail);
    assert((seq!['\\', 'r'] + tail).skip(2) =~= tail);
    assert((seq!['\\', 't'] + tail).skip(2) =~= tail);
    assert((seq!['\\', '0'] + tail).skip(2) =~= tail);
    assert((seq!['\\', '\\'] + tail).skip(2) =~= tail);
    assert((seq!['\\', '"'] + tail).skip(2) =~= tail);
    assert((seq!['\\', '\''] + tail).skip(2) =~= tail);
}

/// So many `#`.
pub open spec fn hashes(n: nat) -> Seq<char> {
    Seq::new(n, |i: int| '#')
}

proof fn lemma_hash_bytes(n: nat)
    ensures
        vstd::utf8::encode_utf8(hashes(n)) == Seq::new(n, |i: int| 35u8),
    decreases n,
{
    let bytes = Seq::new(n, |i: int| 35u8);
    if n == 0 {
        assert(vstd::utf8::encode_utf8(hashes(0)) =~= bytes);
    } else {
        lemma_hash_bytes((n - 1) as nat);
        assert(hashes(n) =~= hashes((n - 1) as nat) + seq!['#']);
        text::lemma_encode_concat(hashes((n - 1) as nat), seq!['#']);
        fidelity::lemma_one_char('#');
        assert('#' as u8 == 35);
        assert(vstd::utf8::encode_utf8(hashes(n)) =~= bytes);
    }
}

proof fn lemma_hashes_counted(bytes: Seq<u8>, from: int, n: nat)
    requires
        0 <= from,
        from + n < bytes.len(),
        forall|i: int| from <= i < from + n ==> #[trigger] bytes[i] == 35,
        bytes[from + n] != 35,
    ensures
        pointer::hashes_from(bytes, from) == n,
    decreases n,
{
    if n > 0 {
        assert(bytes[from] == 35);
        lemma_hashes_counted(bytes, from + 1, (n - 1) as nat);
    }
}

/// A raw string holds the text between its quotes as it is, whatever it is and however
/// many `#` stand around it.
pub proof fn raw_strings_hold_their_text(body: Seq<char>, n: nat)
    ensures
        pointer::raw_contents(
            seq!['r'] + hashes(n) + seq!['"'] + body + (seq!['"'] + hashes(n)),
        ) == body,
{
    let front = seq!['r'] + hashes(n) + seq!['"'];
    let back = seq!['"'] + hashes(n);
    let literal = front + body + back;
    let bytes = vstd::utf8::encode_utf8(literal);
    let marks = Seq::new(n, |i: int| 35u8);
    let inner = vstd::utf8::encode_utf8(body);
    lemma_hash_bytes(n);
    fidelity::lemma_one_char('r');
    fidelity::lemma_one_char('"');
    assert('r' as u8 == 114 && '"' as u8 == 34);
    text::lemma_encode_concat(front + body, back);
    text::lemma_encode_concat(front, body);
    text::lemma_encode_concat(seq!['r'] + hashes(n), seq!['"']);
    text::lemma_encode_concat(seq!['r'], hashes(n));
    text::lemma_encode_concat(seq!['"'], hashes(n));
    assert(bytes =~= seq![114u8] + marks + seq![34u8] + inner + (seq![34u8] + marks));
    assert(bytes[0] == 114);
    assert forall|i: int| 1 <= i < 1 + n implies #[trigger] bytes[i] == 35 by {}
    assert(bytes[1 + n as int] == 34);
    lemma_hashes_counted(bytes, 1, n);
    let open = n + 2;
    let close = bytes.len() - (n + 1);
    assert(close == open + inner.len());
    assert(bytes[close] == 34);
    assert(bytes.subrange(open as int, close) =~= inner);
    vstd::utf8::encode_utf8_valid_utf8(literal);
    vstd::utf8::is_char_boundary_iff_not_is_continuation_byte(bytes, close);
    assert(!vstd::utf8::is_continuation_byte(34u8)) by {
        assert(34u8 & 0xC0u8 != 0x80u8) by (bit_vector);
    }
    vstd::utf8::encode_utf8_decode_utf8(body);
}

} // verus!
