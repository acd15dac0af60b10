//! Text building blocks shared by the whole crate.

use vstd::prelude::*;

verus! {

/// `String::push` appends one character.
pub assume_specification[ std::string::String::push ](s: &mut std::string::String, c: char)
    ensures
        final(s)@ == old(s)@.push(c),
;

/// `String::push_str` appends a string slice.
pub assume_specification[ std::string::String::push_str ](s: &mut std::string::String, t: &str)
    ensures
        final(s)@ == old(s)@ + t@,
;

/// The characters of `s`, in order.
pub fn chars_of(s: &str) -> (r: Vec<char>)
    ensures
        r@ == s@,
{
    let mut r: Vec<char> = Vec::new();
    for c in it: s.chars()
        invariant
            it.seq() == s@,
            r@ == s@.take(it.index() as int),
    {
        assert(s@.take(it.index() as int + 1) =~= s@.take(it.index() as int).push(c));
        r.push(c);
    }
    assert(s@.take(s@.len() as int) =~= s@);
    r
}

/// Whether two texts are equal.
pub fn same_text(a: &str, b: &str) -> (r: bool)
    ensures
        r == (a@ == b@),
{
    broadcast use vstd::utf8::encode_utf8_decode_utf8;

    let x = a.as_bytes();
    let y = b.as_bytes();
    if x.len() != y.len() {
        return false;
    }
    let mut i: usize = 0;
    while i < x.len()
        invariant
            i <= x@.len(),
            x@.len() == y@.len(),
            x@ == vstd::utf8::encode_utf8(a@),
            y@ == vstd::utf8::encode_utf8(b@),
            forall|j: int| 0 <= j < i ==> x@[j] == y@[j],
        decreases x@.len() - i,
    {
        if x[i] != y[i] {
            return false;
        }
        i += 1;
    }
    assert(x@ =~= y@);
    assert(vstd::utf8::decode_utf8(vstd::utf8::encode_utf8(a@)) == a@);
    assert(vstd::utf8::decode_utf8(vstd::utf8::encode_utf8(b@)) == b@);
    true
}

/// `char::from_u32` gives the character of a Unicode scalar value, and nothing for any
/// other number.
pub assume_specification[ std::primitive::char::from_u32 ](value: u32) -> (r: Option<char>)
    ensures
        match r {
            Some(c) => vstd::utf8::is_scalar(value) && c as u32 == value,
            None => !vstd::utf8::is_scalar(value),
        },
;

/// What the `Debug` formatting of a string writes.
pub uninterp spec fn debug_text(s: Seq<char>) -> Seq<char>;

/// `Debug` formatting of a string: the string in quotes, with escapes.
#[verifier::external_body]
pub(crate) fn debug_string(s: &str) -> (r: String)
    ensures
        r@ == debug_text(s@),
{
    format!("{s:?}")
}

/// The first position at or after `from` where `c` stands, or the length of `s`.
pub open spec fn index_from(s: Seq<char>, c: char, from: int) -> int
    decreases s.len() - from,
{
    if from >= s.len() {
        s.len() as int
    } else if s[from] == c {
        from
    } else {
        index_from(s, c, from + 1)
    }
}

/// The first position at or after `from` where `c` stands, or the length of `s`.
pub fn find_from(s: &Vec<char>, c: char, from: usize) -> (r: usize)
    requires
        from <= s@.len(),
    ensures
        r == index_from(s@, c, from as int),
        from <= r <= s@.len(),
        r < s@.len() ==> s@[r as int] == c,
        forall|j: int| from <= j < r ==> s@[j] != c,
{
    let mut i: usize = from;
    while i < s.len() && s[i] != c
        invariant
            from <= i <= s@.len(),
            index_from(s@, c, i as int) == index_from(s@, c, from as int),
            forall|j: int| from <= j < i ==> s@[j] != c,
        decreases s@.len() - i,
    {
        i += 1;
    }
    i
}

/// The characters of `s` from `from` up to, but not including, `to`.
pub fn slice(s: &Vec<char>, from: usize, to: usize) -> (r: String)
    requires
        from <= to <= s@.len(),
    ensures
        r@ == s@.subrange(from as int, to as int),
{
    let mut r = String::new();
    let mut i: usize = from;
    while i < to
        invariant
            from <= i <= to <= s@.len(),
            r@ == s@.subrange(from as int, i as int),
        decreases to - i,
    {
        assert(s@.subrange(from as int, i + 1) =~= s@.subrange(from as int, i as int).push(
            s@[i as int],
        ));
        r.push(s[i]);
        i += 1;
    }
    r
}

/// The value of a hexadecimal digit.
pub open spec fn hex_digit(c: char) -> Option<nat> {
    if '0' <= c && c <= '9' {
        Some((c as nat - 48) as nat)
    } else if 'a' <= c && c <= 'f' {
        Some((c as nat - 87) as nat)
    } else if 'A' <= c && c <= 'F' {
        Some((c as nat - 55) as nat)
    } else {
        None
    }
}

/// The number that hexadecimal digits stand for; nothing if some character is no
/// digit. No digits stand for zero.
pub open spec fn hex_number(digits: Seq<char>) -> Option<nat>
    decreases digits.len(),
{
    if digits.len() == 0 {
        Some(0)
    } else {
        match (hex_number(digits.drop_last()), hex_digit(digits.last())) {
            (Some(n), Some(d)) => Some(n * 16 + d),
            _ => None,
        }
    }
}

/// The value of a hexadecimal digit.
pub fn hex_digit_of(c: char) -> (r: Option<u32>)
    ensures
        match r {
            Some(d) => hex_digit(c) == Some(d as nat) && d < 16,
            None => hex_digit(c) is None,
        },
{
    let v: u32 = c as u32;
    if '0' <= c && c <= '9' {
        Some(v - 48)
    } else if 'a' <= c && c <= 'f' {
        Some(v - 87)
    } else if 'A' <= c && c <= 'F' {
        Some(v - 55)
    } else {
        None
    }
}

/// Decimal notation of a natural number, without leading zeros.
pub open spec fn decimal(n: nat) -> Seq<char>
    decreases n,
{
    if n < 10 {
        seq![digit_char(n)]
    } else {
        decimal(n / 10).push(digit_char(n % 10))
    }
}

/// The character of one decimal digit.
pub open spec fn digit_char(d: nat) -> char {
    (48 + d) as char
}

/// Appends `n` in decimal notation.
pub fn push_decimal(out: &mut String, n: usize)
    ensures
        final(out)@ == old(out)@ + decimal(n as nat),
    decreases n,
{
    if n >= 10 {
        push_decimal(out, n / 10);
    }
    let d: u8 = 48 + (n % 10) as u8;
    out.push(d as char);
}

/// How many bytes a text takes.
pub open spec fn byte_len(s: Seq<char>) -> nat {
    vstd::utf8::encode_utf8(s).len()
}

/// How many bytes a character takes.
pub open spec fn char_len(c: char) -> nat {
    vstd::utf8::encode_scalar(c as u32).len()
}

/// The bytes of two texts in a row are those of the one and those of the other.
pub proof fn lemma_encode_concat(a: Seq<char>, b: Seq<char>)
    ensures
        vstd::utf8::encode_utf8(a + b) == vstd::utf8::encode_utf8(a) + vstd::utf8::encode_utf8(b),
    decreases a.len(),
{
    if a.len() == 0 {
        assert(a + b =~= b);
    } else {
        lemma_encode_concat(a.drop_first(), b);
        assert((a + b).drop_first() =~= a.drop_first() + b);
        assert(vstd::utf8::encode_utf8(a + b) =~= vstd::utf8::encode_utf8(a)
            + vstd::utf8::encode_utf8(b));
    }
}

/// A text takes as many bytes as its parts.
pub proof fn lemma_byte_len_concat(a: Seq<char>, b: Seq<char>)
    ensures
        byte_len(a + b) == byte_len(a) + byte_len(b),
{
    lemma_encode_concat(a, b);
}

/// One more character takes as many bytes more as that character.
pub proof fn lemma_byte_len_push(s: Seq<char>, c: char)
    ensures
        byte_len(s.push(c)) == byte_len(s) + char_len(c),
{
    lemma_byte_len_concat(s, seq![c]);
    assert(s.push(c) =~= s + seq![c]);
    lemma_byte_len_one(c);
}

/// A single character takes between one and four bytes.
pub proof fn lemma_byte_len_one(c: char)
    ensures
        byte_len(seq![c]) == char_len(c),
        1 <= char_len(c) <= 4,
        (c as u32) < 128 <==> char_len(c) == 1,
{
    vstd::utf8::char_is_scalar(c);
    reveal_with_fuel(vstd::utf8::encode_utf8, 2);
    assert(seq![c].drop_first() =~= Seq::<char>::empty());
}

/// How many bytes a character takes.
pub fn utf8_len(c: char) -> (r: usize)
    ensures
        r == char_len(c),
        1 <= r <= 4,
{
    let v: u32 = c as u32;
    proof {
        vstd::utf8::char_is_scalar(c);
    }
    if v <= 0x7F {
        1
    } else if v <= 0x7FF {
        2
    } else if v <= 0xFFFF {
        3
    } else {
        4
    }
}

/// The number of bytes that `chars[from..to]` takes.
pub fn bytes_between(chars: &Vec<char>, from: usize, to: usize) -> (r: usize)
    requires
        from <= to <= chars@.len(),
        byte_len(chars@) <= usize::MAX,
    ensures
        r == byte_len(chars@.subrange(from as int, to as int)),
{
    let mut n: usize = 0;
    let mut i: usize = from;
    while i < to
        invariant
            from <= i <= to <= chars@.len(),
            byte_len(chars@) <= usize::MAX,
            n == byte_len(chars@.subrange(from as int, i as int)),
        decreases to - i,
    {
        proof {
            let part = chars@.subrange(from as int, i + 1);
            assert(part =~= chars@.subrange(from as int, i as int).push(chars@[i as int]));
            lemma_byte_len_push(chars@.subrange(from as int, i as int), chars@[i as int]);
            lemma_byte_len_part(chars@, from as int, i + 1);
        }
        n += utf8_len(chars[i]);
        i += 1;
    }
    n
}

/// A part of a text takes no more bytes than the whole.
pub proof fn lemma_byte_len_part(s: Seq<char>, from: int, to: int)
    requires
        0 <= from <= to <= s.len(),
    ensures
        byte_len(s.subrange(from, to)) <= byte_len(s),
{
    assert(s =~= s.take(from) + s.subrange(from, to) + s.skip(to));
    lemma_byte_len_concat(s.take(from) + s.subrange(from, to), s.skip(to));
    lemma_byte_len_concat(s.take(from), s.subrange(from, to));
}

/// `n` spaces.
pub open spec fn spaces(n: nat) -> Seq<char> {
    Seq::new(n, |i: int| ' ')
}

/// Appends `n` spaces.
pub fn push_spaces(out: &mut String, n: usize)
    ensures
        final(out)@ == old(out)@ + spaces(n as nat),
{
    let mut i: usize = 0;
    assert(out@ =~= old(out)@ + spaces(0));
    while i < n
        invariant
            i <= n,
            out@ == old(out)@ + spaces(i as nat),
        decreases n - i,
    {
        out.push(' ');
        assert(out@ =~= old(out)@ + spaces(i as nat + 1));
        i += 1;
    }
}

/// Whether a character is white space in the sense of Unicode.
pub open spec fn white_space(c: char) -> bool {
    let n = c as u32;
    (9 <= n <= 13) || n == 0x20 || n == 0x85 || n == 0xA0 || n == 0x1680 || (0x2000 <= n <= 0x200A)
        || n == 0x2028 || n == 0x2029 || n == 0x202F || n == 0x205F || n == 0x3000
}

/// Whether a character is white space in the sense of Unicode.
pub fn is_white_space(c: char) -> (r: bool)
    ensures
        r == white_space(c),
{
    let n: u32 = c as u32;
    (9 <= n && n <= 13) || n == 0x20 || n == 0x85 || n == 0xA0 || n == 0x1680 || (0x2000 <= n && n
        <= 0x200A) || n == 0x2028 || n == 0x2029 || n == 0x202F || n == 0x205F || n == 0x3000
}

/// A text without the white space in front.
pub open spec fn trimmed_start(s: Seq<char>) -> Seq<char>
    decreases s.len(),
{
    if s.len() > 0 && white_space(s[0]) {
        trimmed_start(s.drop_first())
    } else {
        s
    }
}

/// A text without the white space at its end.
pub open spec fn trimmed_end(s: Seq<char>) -> Seq<char>
    decreases s.len(),
{
    if s.len() > 0 && white_space(s.last()) {
        trimmed_end(s.drop_last())
    } else {
        s
    }
}

/// A text without the white space around it.
pub open spec fn trimmed(s: Seq<char>) -> Seq<char> {
    trimmed_end(trimmed_start(s))
}

/// The part of `chars[from..to]` without the white space around it.
pub fn trim_range(chars: &Vec<char>, from: usize, to: usize) -> (r: String)
    requires
        from <= to <= chars@.len(),
    ensures
        r@ == trimmed(chars@.subrange(from as int, to as int)),
{
    let ghost whole = chars@.subrange(from as int, to as int);
    let mut a: usize = from;
    while a < to && is_white_space(chars[a])
        invariant
            from <= a <= to <= chars@.len(),
            whole == chars@.subrange(from as int, to as int),
            trimmed_start(chars@.subrange(a as int, to as int)) == trimmed_start(whole),
        decreases to - a,
    {
        assert(chars@.subrange(a as int, to as int).drop_first() =~= chars@.subrange(
            a + 1,
            to as int,
        ));
        a += 1;
    }
    let ghost front = chars@.subrange(a as int, to as int);
    assert(front == trimmed_start(whole));
    let mut b: usize = to;
    while a < b && is_white_space(chars[b - 1])
        invariant
            a <= b <= to <= chars@.len(),
            front == chars@.subrange(a as int, to as int),
            trimmed_end(chars@.subrange(a as int, b as int)) == trimmed_end(front),
        decreases b,
    {
        assert(chars@.subrange(a as int, b as int).drop_last() =~= chars@.subrange(
            a as int,
            b - 1,
        ));
        b -= 1;
    }
    slice(chars, a, b)
}

/// A text without the white space around it.
pub fn trim(s: &str) -> (r: String)
    ensures
        r@ == trimmed(s@),
{
    let chars = chars_of(s);
    let n = chars.len();
    assert(chars@.subrange(0, n as int) =~= s@);
    trim_range(&chars, 0, n)
}

/// The texts of a list of strings.
pub open spec fn strings(list: Seq<String>) -> Seq<Seq<char>> {
    list.map_values(|s: String| s@)
}

/// The entries of a list written with commas from position `from` on: each without
/// the white space around it, and none that is blank.
pub open spec fn list_items(s: Seq<char>, from: int) -> Seq<Seq<char>>
    decreases s.len() - from,
{
    let comma = index_from(s, ',', from);
    let item = trimmed(s.subrange(from, comma));
    let rest = if from <= comma < s.len() {
        list_items(s, comma + 1)
    } else {
        Seq::empty()
    };
    if item.len() > 0 {
        seq![item] + rest
    } else {
        rest
    }
}

/// The entries of a list written with commas.
pub fn list_of(s: &str) -> (r: Vec<String>)
    ensures
        strings(r@) == list_items(s@, 0),
{
    let chars = chars_of(s);
    let n = chars.len();
    let mut r: Vec<String> = Vec::new();
    let mut from: usize = 0;
    assert(strings(r@) + list_items(s@, 0) =~= list_items(s@, 0));
    loop
        invariant_except_break
            strings(r@) + list_items(s@, from as int) == list_items(s@, 0),
        invariant
            n == chars@.len(),
            chars@ == s@,
            from <= n,
        ensures
            strings(r@) == list_items(s@, 0),
        decreases n - from,
    {
        let comma = find_from(&chars, ',', from);
        let item = trim_range(&chars, from, comma);
        let ghost before = strings(r@);
        let ghost rest = if comma < n {
            list_items(s@, comma + 1)
        } else {
            Seq::empty()
        };
        if !item.as_str().is_empty() {
            let ghost text = item@;
            r.push(item);
            assert(strings(r@) =~= before.push(text));
            assert(before + (seq![text] + rest) =~= strings(r@) + rest);
        }
        if comma >= n {
            assert(strings(r@) + rest =~= strings(r@));
            break;
        }
        from = comma + 1;
    }
    r
}

/// Exactly the empty text has no bytes.
pub proof fn lemma_empty_has_no_bytes(s: Seq<char>)
    ensures
        byte_len(s) == 0 <==> s.len() == 0,
        byte_len(s) >= s.len(),
    decreases s.len(),
{
    if s.len() > 0 {
        lemma_empty_has_no_bytes(s.drop_last());
        lemma_byte_len_push(s.drop_last(), s.last());
        assert(s.drop_last().push(s.last()) =~= s);
    }
}

/// The number of characters of a text.
pub fn char_count(s: &str) -> (r: usize)
    ensures
        r == s@.len(),
{
    let mut n: usize = 0;
    proof {
        lemma_empty_has_no_bytes(s@);
    }
    let limit = s.as_bytes().len();
    for c in it: s.chars()
        invariant
            it.seq() == s@,
            n == it.index(),
            s@.len() <= limit,
    {
        n += 1;
    }
    n
}

/// A copy of a list of strings.
pub fn copy_strings(list: &Vec<String>) -> (r: Vec<String>)
    ensures
        strings(r@) == strings(list@),
{
    let mut r: Vec<String> = Vec::new();
    let mut i: usize = 0;
    while i < list.len()
        invariant
            i <= list@.len(),
            r@.len() == i,
            forall|j: int| 0 <= j < i ==> (#[trigger] r@[j])@ == list@[j]@,
        decreases list@.len() - i,
    {
        r.push(list[i].clone());
        i += 1;
    }
    assert(strings(r@) =~= strings(list@));
    r
}

/// Whether a text holds another.
pub open spec fn holds(text: Seq<char>, part: Seq<char>) -> bool {
    exists|before: Seq<char>, behind: Seq<char>|
        text == #[trigger] ((before + part) + behind)
}

/// What a part of a text holds, the text holds.
pub proof fn lemma_holds(left: Seq<char>, text: Seq<char>, right: Seq<char>, part: Seq<char>)
    requires
        holds(text, part),
    ensures
        holds(left + text + right, part),
        holds(left + text, part),
        holds(text + right, part),
{
    let (before, behind) = choose|before: Seq<char>, behind: Seq<char>|
        text == #[trigger] ((before + part) + behind);
    assert(left + text + right =~= ((left + before) + part) + (behind + right));
    assert(left + text =~= ((left + before) + part) + behind);
    assert(text + right =~= (before + part) + (behind + right));
}

proof fn lemma_trimmed_start(s: Seq<char>) -> (from: int)
    ensures
        0 <= from <= s.len(),
        trimmed_start(s) == s.skip(from),
        forall|i: int| 0 <= i < from ==> white_space(#[trigger] s[i]),
        from < s.len() ==> !white_space(s[from]),
    decreases s.len(),
{
    if s.len() > 0 && white_space(s[0]) {
        let rest = s.drop_first();
        let from = lemma_trimmed_start(rest);
        assert(rest.skip(from) =~= s.skip(from + 1));
        assert forall|i: int| 0 <= i < from + 1 implies white_space(#[trigger] s[i]) by {
            if i > 0 {
                assert(white_space(rest[i - 1]));
            }
        }
        from + 1
    } else {
        assert(s.skip(0) =~= s);
        0
    }
}

proof fn lemma_trimmed_end(s: Seq<char>) -> (to: int)
    ensures
        0 <= to <= s.len(),
        trimmed_end(s) == s.take(to),
        forall|i: int| to <= i < s.len() ==> white_space(#[trigger] s[i]),
        to > 0 ==> !white_space(s[to - 1]),
    decreases s.len(),
{
    if s.len() > 0 && white_space(s.last()) {
        let rest = s.drop_last();
        let to = lemma_trimmed_end(rest);
        assert(rest.take(to) =~= s.take(to));
        assert forall|i: int| to <= i < s.len() implies white_space(#[trigger] s[i]) by {
            if i < rest.len() {
                assert(white_space(rest[i]));
            }
        }
        to
    } else {
        assert(s.take(s.len() as int) =~= s);
        s.len() as int
    }
}

/// Trimming takes the white space around a text off and nothing else: the part that is
/// left starts and ends with other characters.
pub proof fn trimming_takes_white_space_off(s: Seq<char>) -> (part: (int, int))
    ensures
        0 <= part.0 <= part.1 <= s.len(),
        trimmed(s) == s.subrange(part.0, part.1),
        forall|i: int| 0 <= i < part.0 ==> white_space(#[trigger] s[i]),
        forall|i: int| part.1 <= i < s.len() ==> white_space(#[trigger] s[i]),
        part.0 < part.1 ==> !white_space(s[part.0]) && !white_space(s[part.1 - 1]),
{
    let from = lemma_trimmed_start(s);
    let rest = s.skip(from);
    let to = lemma_trimmed_end(rest);
    assert(rest.take(to) =~= s.subrange(from, from + to));
    assert forall|i: int| from + to <= i < s.len() implies white_space(#[trigger] s[i]) by {
        assert(white_space(rest[i - from]));
    }
    if to > 0 {
        assert(rest[to - 1] == s[from + to - 1]);
        assert(rest[0] == s[from]);
    }
    (from, from + to)
}

/// Texts with commas between them.
pub open spec fn with_commas(items: Seq<Seq<char>>) -> Seq<char>
    decreases items.len(),
{
    if items.len() == 0 {
        Seq::empty()
    } else if items.len() == 1 {
        items[0]
    } else {
        items[0] + seq![','] + with_commas(items.drop_first())
    }
}

/// Whether a text can be an entry of a list: it holds no comma, is not empty and has no
/// white space around it.
pub open spec fn is_list_item(item: Seq<char>) -> bool {
    &&& item.len() > 0
    &&& !white_space(item[0])
    &&& !white_space(item.last())
    &&& forall|i: int| 0 <= i < item.len() ==> #[trigger] item[i] != ','
}

proof fn lemma_index_from_shift(head: Seq<char>, s: Seq<char>, c: char, from: int)
    requires
        0 <= from,
    ensures
        from <= s.len() ==> index_from(head + s, c, head.len() + from) == head.len() + index_from(
            s,
            c,
            from,
        ),
        from <= s.len() ==> from <= index_from(s, c, from) <= s.len(),
    decreases s.len() - from,
{
    if from < s.len() {
        assert((head + s)[head.len() + from] == s[from]);
        lemma_index_from_shift(head, s, c, from + 1);
    }
}

proof fn lemma_list_shift(head: Seq<char>, s: Seq<char>, from: int)
    requires
        0 <= from <= s.len(),
    ensures
        list_items(head + s, head.len() + from) == list_items(s, from),
    decreases s.len() - from,
{
    let comma = index_from(s, ',', from);
    lemma_index_from_shift(head, s, ',', from);
    assert((head + s).subrange(head.len() + from, head.len() + comma) =~= s.subrange(from, comma));
    if comma < s.len() {
        lemma_list_shift(head, s, comma + 1);
    }
}

proof fn lemma_first_comma(item: Seq<char>, tail: Seq<char>, from: int)
    requires
        forall|i: int| 0 <= i < item.len() ==> #[trigger] item[i] != ',',
        0 <= from <= item.len(),
        tail.len() > 0 ==> tail[0] == ',',
    ensures
        index_from(item + tail, ',', from) == item.len(),
    decreases item.len() - from,
{
    if from < item.len() {
        assert((item + tail)[from] == item[from]);
        lemma_first_comma(item, tail, from + 1);
    }
}

/// The entries of a list are those it was written with.
pub proof fn list_items_are_read_back(items: Seq<Seq<char>>)
    requires
        forall|i: int| 0 <= i < items.len() ==> is_list_item(#[trigger] items[i]),
    ensures
        list_items(with_commas(items), 0) == items,
    decreases items.len(),
{
    let s = with_commas(items);
    if items.len() == 0 {
        let none = Seq::<char>::empty();
        assert(s.subrange(0, 0) =~= none);
        assert(trimmed(none) == none);
        assert(list_items(s, 0) =~= items);
    } else {
        let item = items[0];
        let rest = items.drop_first();
        assert(is_list_item(items[0]));
        let tail = if items.len() == 1 {
            Seq::empty()
        } else {
            seq![','] + with_commas(rest)
        };
        assert(s =~= item + tail);
        lemma_first_comma(item, tail, 0);
        assert(s.subrange(0, item.len() as int) =~= item);
        assert(trimmed(item) == item);
        if items.len() == 1 {
            assert(list_items(s, 0) =~= items);
        } else {
            assert forall|i: int| 0 <= i < rest.len() implies is_list_item(#[trigger] rest[i]) by {
                assert(is_list_item(items[i + 1]));
            }
            list_items_are_read_back(rest);
            let head = item + seq![','];
            assert(s =~= head + with_commas(rest));
            lemma_list_shift(head, with_commas(rest), 0);
            assert(list_items(s, 0) =~= items);
        }
    }
}

} // verus!
