//! A reader of RON values that stand on one line.
//!
//! It knows the grammar alone: words, literals in quotes, and groups in brackets whose
//! parts are values or keys with values, separated by `, ` and `: `. What a text means is
//! said of the tree that is read from it. The writers of this library are held to it.

use vstd::prelude::*;

use crate::interop::round_trip;

verus! {

/// A value as it is read.
pub enum Ron {
    /// A name, a number, `true` or `false`.
    Word(Seq<char>),
    /// A literal in quotes, as it stands.
    Quoted(Seq<char>),
    /// What stands in brackets: the opening bracket, the name before it, and the parts.
    Group(char, Seq<char>, Seq<Part>),
}

/// A part of a group.
pub enum Part {
    Item(Ron),
    Pair(Ron, Ron),
}

/// Whether a character is white space.
pub open spec fn blank(c: char) -> bool {
    c == ' ' || c == '\n' || c == '\t' || c == '\r'
}

/// Whether a character can stand in a word.
pub open spec fn plain(c: char) -> bool {
    !blank(c) && c != '(' && c != ')' && c != '[' && c != ']' && c != '{' && c != '}' && c != ','
        && c != ':' && c != '"' && c != '\''
}

/// Where a word ends that begins before `j`.
pub open spec fn word_end(s: Seq<char>, j: int) -> int
    decreases s.len() - j,
{
    if j >= s.len() {
        s.len() as int
    } else if plain(s[j]) {
        word_end(s, j + 1)
    } else {
        j
    }
}

/// Where a literal in quotes ends that begins before `j`: behind the first `quote` that no
/// backslash escapes. Past the end of the text if there is none.
pub open spec fn quoted_end(s: Seq<char>, quote: char, j: int) -> int
    decreases s.len() - j,
{
    if j >= s.len() {
        s.len() as int + 1
    } else if s[j] == '\\' {
        if j + 1 < s.len() {
            quoted_end(s, quote, j + 2)
        } else {
            s.len() as int + 1
        }
    } else if s[j] == quote {
        j + 1
    } else {
        quoted_end(s, quote, j + 1)
    }
}

/// Where a run of hashes ends.
pub open spec fn hashes_end(s: Seq<char>, j: int) -> int
    decreases s.len() - j,
{
    if j >= s.len() {
        s.len() as int
    } else if s[j] == '#' {
        hashes_end(s, j + 1)
    } else {
        j
    }
}

/// Whether a raw string begins: `r`, any hashes and a quote.
pub open spec fn begins_raw(s: Seq<char>) -> bool {
    s.len() > 0 && s[0] == 'r' && hashes_end(s, 1) < s.len() && s[hashes_end(s, 1)] == '"'
}

/// Whether `n` hashes stand at `j`.
pub open spec fn hashes_at(s: Seq<char>, j: int, n: int) -> bool {
    j + n <= s.len() && forall|i: int| j <= i < j + n ==> #[trigger] s[i] == '#'
}

/// Where a raw string with `n` hashes ends whose contents begin before `j`: behind the
/// first quote with as many hashes. Past the end of the text if there is none.
pub open spec fn raw_end(s: Seq<char>, n: int, j: int) -> int
    decreases s.len() - j,
{
    if j >= s.len() {
        s.len() as int + 1
    } else if s[j] == '"' && hashes_at(s, j + 1, n) {
        j + 1 + n
    } else {
        raw_end(s, n, j + 1)
    }
}

/// Whether a literal in quotes begins.
pub open spec fn begins_quoted(s: Seq<char>) -> bool {
    s.len() > 0 && (s[0] == '"' || s[0] == '\'') || begins_raw(s)
}

/// Where the word or the literal that a text begins with ends.
pub open spec fn token_end(s: Seq<char>) -> int {
    if begins_raw(s) {
        raw_end(s, hashes_end(s, 1) - 1, hashes_end(s, 1) + 1)
    } else if s[0] == '"' || s[0] == '\'' {
        quoted_end(s, s[0], 1)
    } else {
        word_end(s, 0)
    }
}

/// The bracket that closes a group.
pub open spec fn closing(open: char) -> char {
    if open == '(' {
        ')'
    } else if open == '[' {
        ']'
    } else {
        '}'
    }
}

/// Whether a bracket opens a group.
pub open spec fn opens(c: char) -> bool {
    c == '(' || c == '[' || c == '{'
}

/// Whether a text begins with `c` and a space.
pub open spec fn separates(s: Seq<char>, c: char) -> bool {
    s.len() >= 2 && s[0] == c && s[1] == ' '
}

/// The value that a text begins with, and the rest of the text.
pub open spec fn read(s: Seq<char>) -> Option<(Ron, Seq<char>)>
    decreases s.len(), 0nat,
{
    if s.len() == 0 {
        None
    } else if opens(s[0]) {
        match read_parts(s.drop_first(), closing(s[0]), true) {
            Some((parts, rest)) => Some((Ron::Group(s[0], Seq::empty(), parts), rest)),
            None => None,
        }
    } else {
        let end = token_end(s);
        if 0 < end <= s.len() {
            let rest = s.skip(end);
            if begins_quoted(s) {
                Some((Ron::Quoted(s.take(end)), rest))
            } else if rest.len() > 0 && rest[0] == '(' {
                match read_parts(rest.drop_first(), ')', true) {
                    Some((parts, behind)) => Some((Ron::Group('(', s.take(end), parts), behind)),
                    None => None,
                }
            } else {
                Some((Ron::Word(s.take(end)), rest))
            }
        } else {
            None
        }
    }
}

/// The part of a group that a text begins with, and the rest of the text.
pub open spec fn read_part(s: Seq<char>) -> Option<(Part, Seq<char>)>
    decreases s.len(), 1nat,
{
    match read(s) {
        Some((value, rest)) => if separates(rest, ':') {
            if rest.len() < s.len() {
                match read(rest.skip(2)) {
                    Some((second, behind)) => Some((Part::Pair(value, second), behind)),
                    None => None,
                }
            } else {
                None
            }
        } else {
            Some((Part::Item(value), rest))
        },
        None => None,
    }
}

/// The parts of a group up to its closing bracket, and the rest of the text. A part that
/// is not the `first` stands behind a comma.
pub open spec fn read_parts(s: Seq<char>, close: char, first: bool) -> Option<
    (Seq<Part>, Seq<char>),
>
    decreases s.len(), 2nat,
{
    if s.len() == 0 {
        None
    } else if s[0] == close {
        Some((Seq::empty(), s.drop_first()))
    } else if first || separates(s, ',') {
        let begin = if first {
            s
        } else {
            s.skip(2)
        };
        match read_part(begin) {
            Some((part, rest)) => if rest.len() < s.len() {
                match read_parts(rest, close, false) {
                    Some((parts, behind)) => Some((seq![part] + parts, behind)),
                    None => None,
                }
            } else {
                None
            },
            None => None,
        }
    } else {
        None
    }
}

/// What a whole text stands for.
pub open spec fn meaning(text: Seq<char>) -> Option<Ron> {
    match read(text) {
        Some((value, rest)) => if rest.len() == 0 {
            Some(value)
        } else {
            None
        },
        None => None,
    }
}

/// Whether a value can end before `rest`.
pub open spec fn ends(rest: Seq<char>) -> bool {
    rest.len() == 0 || blank(rest[0]) || rest[0] == ',' || rest[0] == ':' || rest[0] == ')'
        || rest[0] == ']' || rest[0] == '}'
}

/// Whether a text spells a value: whatever follows, the value is read from it.
pub open spec fn spells(text: Seq<char>, value: Ron) -> bool {
    text.len() > 0 && !ends(text) && forall|rest: Seq<char>|
        ends(rest) ==> #[trigger] read(text + rest) == Some((value, rest))
}

/// Whether a text spells a part of a group.
pub open spec fn spells_part(text: Seq<char>, part: Part) -> bool {
    match part {
        Part::Item(value) => spells(text, value),
        Part::Pair(key, value) => exists|a: Seq<char>, b: Seq<char>|
            text == #[trigger] paired(a, b) && spells(a, key) && spells(b, value),
    }
}

/// A key and a value with a colon between them.
pub open spec fn paired(a: Seq<char>, b: Seq<char>) -> Seq<char> {
    a + ": "@ + b
}

/// Whether a text is a word.
pub open spec fn is_word(w: Seq<char>) -> bool {
    w.len() > 0 && forall|i: int| 0 <= i < w.len() ==> plain(#[trigger] w[i])
}

/// Whether a text is one literal in quotes.
pub open spec fn is_quoted(q: Seq<char>) -> bool {
    begins_quoted(q) && token_end(q) == q.len()
}

/// A text that spells a value stands for it.
pub proof fn lemma_meaning(text: Seq<char>, value: Ron)
    requires
        spells(text, value),
    ensures
        meaning(text) == Some(value),
{
    let none = Seq::<char>::empty();
    assert(text + none =~= text);
    assert(read(text + none) == Some((value, none)));
}

proof fn lemma_word_end(w: Seq<char>, rest: Seq<char>, j: int)
    requires
        0 <= j <= w.len(),
        forall|i: int| 0 <= i < w.len() ==> plain(#[trigger] w[i]),
        rest.len() > 0 ==> !plain(rest[0]),
    ensures
        word_end(w + rest, j) == w.len(),
    decreases w.len() - j,
{
    let s = w + rest;
    if j < w.len() {
        assert(s[j] == w[j]);
        lemma_word_end(w, rest, j + 1);
    } else if rest.len() > 0 {
        assert(s[j] == rest[0]);
    }
}

proof fn lemma_hashes_end(s: Seq<char>, j: int)
    requires
        0 <= j <= s.len(),
    ensures
        j <= hashes_end(s, j) <= s.len(),
        forall|i: int| j <= i < hashes_end(s, j) ==> #[trigger] s[i] == '#',
        hashes_end(s, j) < s.len() ==> s[hashes_end(s, j)] != '#',
    decreases s.len() - j,
{
    if j < s.len() && s[j] == '#' {
        lemma_hashes_end(s, j + 1);
    }
}

/// A word does not begin a raw string, unless a quote or a hash follows.
pub proof fn lemma_no_raw(w: Seq<char>, rest: Seq<char>)
    requires
        is_word(w),
        rest.len() > 0 ==> rest[0] != '"' && rest[0] != '#',
    ensures
        !begins_raw(w + rest),
{
    let s = w + rest;
    if begins_raw(s) {
        lemma_hashes_end(s, 1);
        let e = hashes_end(s, 1);
        if e < w.len() {
            assert(plain(w[e]));
            assert(s[e] == w[e]);
        } else {
            if e > w.len() {
                assert(s[w.len() as int] == '#');
            }
            assert(s[w.len() as int] == rest[0]);
        }
    }
}

/// A word spells itself.
pub proof fn lemma_word(w: Seq<char>)
    requires
        is_word(w),
    ensures
        spells(w, Ron::Word(w)),
{
    assert(plain(w[0]));
    assert forall|rest: Seq<char>| ends(rest) implies #[trigger] read(w + rest) == Some(
        (Ron::Word(w), rest),
    ) by {
        let s = w + rest;
        assert(s[0] == w[0]);
        lemma_no_raw(w, rest);
        lemma_word_end(w, rest, 0);
        assert(s.take(w.len() as int) =~= w);
        assert(s.skip(w.len() as int) =~= rest);
    }
}

proof fn lemma_quoted_end(q: Seq<char>, quote: char, rest: Seq<char>, j: int)
    requires
        0 <= j,
        quoted_end(q, quote, j) <= q.len(),
    ensures
        quoted_end(q + rest, quote, j) == quoted_end(q, quote, j),
    decreases q.len() - j,
{
    if j < q.len() {
        assert((q + rest)[j] == q[j]);
        if q[j] == '\\' {
            assert((q + rest)[j + 1] == q[j + 1]);
            lemma_quoted_end(q, quote, rest, j + 2);
        } else if q[j] != quote {
            lemma_quoted_end(q, quote, rest, j + 1);
        }
    }
}

proof fn lemma_raw_end(q: Seq<char>, n: int, rest: Seq<char>, j: int)
    requires
        0 <= j,
        0 <= n,
        raw_end(q, n, j) == q.len(),
    ensures
        raw_end(q + rest, n, j) == q.len(),
    decreases q.len() - j,
{
    if j < q.len() {
        let s = q + rest;
        assert(s[j] == q[j]);
        if q[j] == '"' && hashes_at(q, j + 1, n) {
            assert forall|i: int| j + 1 <= i < j + 1 + n implies #[trigger] s[i] == '#' by {
                assert(s[i] == q[i]);
            }
        } else {
            lemma_raw_end(q, n, rest, j + 1);
            lemma_raw_end_inside(q, n, j + 1);
            if s[j] == '"' && hashes_at(s, j + 1, n) {
                assert forall|i: int| j + 1 <= i < j + 1 + n implies #[trigger] q[i] == '#' by {
                    assert(s[i] == '#');
                    assert(s[i] == q[i]);
                }
            }
        }
    }
}

/// A raw string leaves room for its closing hashes.
proof fn lemma_raw_end_inside(q: Seq<char>, n: int, j: int)
    requires
        0 <= j,
        0 <= n,
        raw_end(q, n, j) <= q.len(),
    ensures
        j + 1 + n <= raw_end(q, n, j),
    decreases q.len() - j,
{
    if j < q.len() && !(q[j] == '"' && hashes_at(q, j + 1, n)) {
        lemma_raw_end_inside(q, n, j + 1);
    }
}

proof fn lemma_hashes_end_same(q: Seq<char>, rest: Seq<char>, j: int)
    requires
        0 <= j,
        hashes_end(q, j) < q.len(),
    ensures
        hashes_end(q + rest, j) == hashes_end(q, j),
    decreases q.len() - j,
{
    if j < q.len() {
        assert((q + rest)[j] == q[j]);
        if q[j] == '#' {
            lemma_hashes_end_same(q, rest, j + 1);
        }
    }
}

/// A literal in quotes spells itself.
pub proof fn lemma_quoted(q: Seq<char>)
    requires
        is_quoted(q),
    ensures
        spells(q, Ron::Quoted(q)),
{
    assert forall|rest: Seq<char>| ends(rest) implies #[trigger] read(q + rest) == Some(
        (Ron::Quoted(q), rest),
    ) by {
        let s = q + rest;
        assert(s[0] == q[0]);
        if begins_raw(q) {
            lemma_hashes_end(q, 1);
            let e = hashes_end(q, 1);
            lemma_hashes_end_same(q, rest, 1);
            assert(s[e] == q[e]);
            lemma_raw_end(q, e - 1, rest, e + 1);
        } else {
            lemma_quoted_end(q, q[0], rest, 1);
        }
        assert(s.take(q.len() as int) =~= q);
        assert(s.skip(q.len() as int) =~= rest);
    }
}

/// Reading behind a text that spells a value.
proof fn lemma_read(text: Seq<char>, value: Ron, rest: Seq<char>)
    requires
        spells(text, value),
        ends(rest),
    ensures
        read(text + rest) == Some((value, rest)),
{
}

/// Reading a part of a group before a comma or a closing bracket.
proof fn lemma_read_part(text: Seq<char>, part: Part, rest: Seq<char>)
    requires
        spells_part(text, part),
        ends(rest),
        !separates(rest, ':'),
    ensures
        read_part(text + rest) == Some((part, rest)),
        text.len() > 0,
        !ends(text),
{
    match part {
        Part::Item(value) => {
            lemma_read(text, value, rest);
        },
        Part::Pair(key, value) => {
            reveal_strlit(": ");
            let (a, b) = choose|a: Seq<char>, b: Seq<char>|
                text == #[trigger] paired(a, b) && spells(a, key) && spells(b, value);
            let behind = ": "@ + b + rest;
            assert(text + rest =~= a + behind);
            assert(behind[0] == ':' && behind[1] == ' ');
            lemma_read(a, key, behind);
            assert(behind.skip(2) =~= b + rest);
            lemma_read(b, value, rest);
        },
    }
}

/// Whether texts spell the parts of a group, one by one.
pub open spec fn spell_parts(pieces: Seq<Seq<char>>, parts: Seq<Part>) -> bool {
    pieces.len() == parts.len() && forall|i: int|
        0 <= i < parts.len() ==> spells_part(#[trigger] pieces[i], parts[i])
}

/// Reading one more part before the others.
proof fn lemma_one_part(
    piece: Seq<char>,
    part: Part,
    more: Seq<char>,
    first: bool,
    close: char,
    parts: Seq<Part>,
    rest: Seq<char>,
)
    requires
        spells_part(piece, part),
        close == ')' || close == ']' || close == '}',
        more.len() > 0,
        more[0] == close || more[0] == ',',
        read_parts(more, close, false) == Some((parts, rest)),
    ensures
        read_parts(
            (if first {
                Seq::empty()
            } else {
                ", "@
            }) + (piece + more),
            close,
            first,
        ) == Some((seq![part] + parts, rest)),
{
    reveal_strlit(", ");
    let both = piece + more;
    lemma_read_part(piece, part, more);
    assert(both[0] == piece[0]);
    if first {
        assert(Seq::<char>::empty() + both =~= both);
    } else {
        let s = ", "@ + both;
        assert(s[0] == ',' && s[1] == ' ');
        assert(s.skip(2) =~= both);
    }
}

/// Reading the parts from position `from` on.
proof fn lemma_read_parts(
    pieces: Seq<Seq<char>>,
    parts: Seq<Part>,
    close: char,
    from: nat,
    rest: Seq<char>,
)
    requires
        spell_parts(pieces, parts),
        from <= parts.len(),
        close == ')' || close == ']' || close == '}',
    ensures
        read_parts(
            round_trip::listing(pieces, from) + (seq![close] + rest),
            close,
            from == 0,
        ) == Some((parts.skip(from as int), rest)),
    decreases parts.len() - from,
{
    let tail = seq![close] + rest;
    let s = round_trip::listing(pieces, from) + tail;
    if from == parts.len() {
        assert(s =~= tail);
        assert(tail[0] == close);
        assert(tail.drop_first() =~= rest);
        assert(parts.skip(from as int) =~= Seq::<Part>::empty());
    } else {
        let piece = pieces[from as int];
        let next = round_trip::listing(pieces, from + 1);
        let more = next + tail;
        lemma_read_parts(pieces, parts, close, from + 1, rest);
        lemma_listing_begins(pieces, from + 1);
        assert(more[0] == close || more[0] == ',') by {
            if from + 1 == parts.len() {
                assert(more =~= tail);
            }
        }
        let comma: Seq<char> = if from == 0 {
            Seq::empty()
        } else {
            ", "@
        };
        assert(s =~= comma + (piece + more));
        lemma_one_part(
            piece,
            parts[from as int],
            more,
            from == 0,
            close,
            parts.skip(from as int + 1),
            rest,
        );
        assert(seq![parts[from as int]] + parts.skip(from as int + 1) =~= parts.skip(from as int));
    }
}

proof fn lemma_listing_begins(pieces: Seq<Seq<char>>, from: nat)
    requires
        from > 0,
    ensures
        from < pieces.len() ==> round_trip::listing(pieces, from).len() > 0
            && round_trip::listing(pieces, from)[0] == ',',
        from >= pieces.len() ==> round_trip::listing(pieces, from).len() == 0,
{
    reveal_strlit(", ");
}

/// A group spells its parts.
pub proof fn lemma_group(open: char, name: Seq<char>, pieces: Seq<Seq<char>>, parts: Seq<Part>)
    requires
        opens(open),
        name.len() == 0 || is_word(name) && open == '(',
        spell_parts(pieces, parts),
    ensures
        spells(
            name + round_trip::enclosed(open, pieces, closing(open)),
            Ron::Group(open, name, parts),
        ),
{
    let close = closing(open);
    let body = round_trip::listing(pieces, 0);
    let text = name + round_trip::enclosed(open, pieces, close);
    if name.len() > 0 {
        assert(plain(name[0]));
        assert(text[0] == name[0]);
    } else {
        assert(text[0] == open);
    }
    assert forall|rest: Seq<char>| ends(rest) implies #[trigger] read(text + rest) == Some(
        (Ron::Group(open, name, parts), rest),
    ) by {
        let s = text + rest;
        let inner = body + (seq![close] + rest);
        lemma_read_parts(pieces, parts, close, 0, rest);
        assert(parts.skip(0) =~= parts);
        let tail = seq![open] + inner;
        assert(s =~= name + tail);
        assert(tail.drop_first() =~= inner);
        if name.len() == 0 {
            assert(s =~= tail);
            assert(name =~= Seq::<char>::empty());
        } else {
            assert(s[0] == name[0]);
            lemma_no_raw(name, tail);
            lemma_word_end(name, tail, 0);
            assert(s.take(name.len() as int) =~= name);
            assert(s.skip(name.len() as int) =~= tail);
        }
    }
}

/// A key with a value spells a pair.
pub proof fn lemma_pair(a: Seq<char>, key: Ron, b: Seq<char>, value: Ron)
    requires
        spells(a, key),
        spells(b, value),
    ensures
        spells_part(a + ": "@ + b, Part::Pair(key, value)),
{
    assert(a + ": "@ + b == paired(a, b));
}

/// What a text spells is all it spells.
pub proof fn spelling_is_unambiguous(text: Seq<char>, a: Ron, b: Ron)
    requires
        spells(text, a),
        spells(text, b),
    ensures
        a == b,
{
    lemma_meaning(text, a);
    lemma_meaning(text, b);
}

} // verus!
