//! What a JSON text stands for.
//!
//! The grammar of JSON with comments as a function from texts to values, and the law
//! that a written document stands for the value it was written from.

use vstd::prelude::*;

use crate::interop::comments::{CommentKind, CommentModel};
use crate::interop::emit;
use crate::interop::json::{self, JsonModel};
use crate::interop::jsonc;
use crate::interop::pointer;
use crate::interop::read_back;
use crate::text;

verus! {

/// The text from the next line end on.
pub open spec fn from_line_end(rest: Seq<char>) -> Seq<char>
    decreases rest.len(),
{
    if rest.len() == 0 || rest[0] == '\n' {
        rest
    } else {
        from_line_end(rest.skip(1))
    }
}

/// The text behind the next `*/`.
pub open spec fn behind_block(rest: Seq<char>) -> Seq<char>
    decreases rest.len(),
{
    if rest.len() < 2 {
        Seq::empty()
    } else if rest[0] == '*' && rest[1] == '/' {
        rest.skip(2)
    } else {
        behind_block(rest.skip(1))
    }
}

/// The text behind the white space and the comments at its start.
pub open spec fn behind_blanks(rest: Seq<char>) -> Seq<char>
    decreases rest.len(),
{
    if rest.len() == 0 {
        rest
    } else if jsonc::blank(rest[0]) {
        behind_blanks(rest.skip(1))
    } else if rest.len() > 1 && rest[0] == '/' && rest[1] == '/' {
        let tail = from_line_end(rest.skip(2));
        if tail.len() < rest.len() {
            behind_blanks(tail)
        } else {
            rest
        }
    } else if rest.len() > 1 && rest[0] == '/' && rest[1] == '*' {
        let tail = behind_block(rest.skip(2));
        if tail.len() < rest.len() {
            behind_blanks(tail)
        } else {
            rest
        }
    } else {
        rest
    }
}

/// The character that a letter stands for behind a backslash.
pub open spec fn escaped(letter: char) -> Option<char> {
    if letter == '"' || letter == '\\' || letter == '/' {
        Some(letter)
    } else if letter == 'b' {
        Some(8u8 as char)
    } else if letter == 't' {
        Some('\t')
    } else if letter == 'n' {
        Some('\n')
    } else if letter == 'f' {
        Some(12u8 as char)
    } else if letter == 'r' {
        Some('\r')
    } else {
        None
    }
}

/// The first character of a string, and the text behind it.
pub open spec fn read_char(rest: Seq<char>) -> Option<(char, Seq<char>)> {
    if rest.len() == 0 {
        None
    } else if rest[0] != '\\' {
        Some((rest[0], rest.skip(1)))
    } else if rest.len() >= 6 && rest[1] == 'u' {
        match text::hex_number(rest.subrange(2, 6)) {
            Some(n) => if n < 0xD800 || 0xE000 <= n {
                Some((n as char, rest.skip(6)))
            } else {
                None
            },
            None => None,
        }
    } else if rest.len() >= 2 {
        match escaped(rest[1]) {
            Some(c) => Some((c, rest.skip(2))),
            None => None,
        }
    } else {
        None
    }
}

/// The characters up to the next quote, and the text behind it.
pub open spec fn read_string(rest: Seq<char>) -> Option<(Seq<char>, Seq<char>)>
    decreases rest.len(),
{
    if rest.len() > 0 && rest[0] == '"' {
        Some((Seq::empty(), rest.skip(1)))
    } else {
        match read_char(rest) {
            Some((c, tail)) => if tail.len() < rest.len() {
                match read_string(tail) {
                    Some((s, end)) => Some((seq![c] + s, end)),
                    None => None,
                }
            } else {
                None
            },
            None => None,
        }
    }
}

/// How many characters a text has before the first that ends a word.
pub open spec fn word_len(rest: Seq<char>) -> nat
    decreases rest.len(),
{
    if rest.len() == 0 || jsonc::terminator(rest[0]) {
        0
    } else {
        1 + word_len(rest.skip(1))
    }
}

/// Whether a word starts like a number.
pub open spec fn starts_a_number(word: Seq<char>) -> bool {
    word.len() > 0 && (word[0] == '-' || '0' <= word[0] <= '9')
}

/// What a word stands for.
pub open spec fn read_word(word: Seq<char>) -> Option<JsonModel> {
    if word == seq!['n', 'u', 'l', 'l'] {
        Some(JsonModel::Null)
    } else if word == seq!['t', 'r', 'u', 'e'] {
        Some(JsonModel::Bool(true))
    } else if word == seq!['f', 'a', 'l', 's', 'e'] {
        Some(JsonModel::Bool(false))
    } else if starts_a_number(word) {
        Some(JsonModel::Number(word))
    } else {
        None
    }
}

/// The value at the start of a text, and the text behind it.
pub open spec fn read_value(rest: Seq<char>) -> Option<(JsonModel, Seq<char>)>
    decreases rest.len(), 0nat,
{
    if rest.len() == 0 {
        None
    } else if rest[0] == '"' {
        match read_string(rest.skip(1)) {
            Some((s, tail)) => Some((JsonModel::Str(s), tail)),
            None => None,
        }
    } else if rest[0] == '[' {
        let inner = behind_blanks(rest.skip(1));
        if inner.len() >= rest.len() {
            None
        } else if inner.len() > 0 && inner[0] == ']' {
            Some((JsonModel::Array(Seq::empty()), inner.skip(1)))
        } else {
            match read_items(inner) {
                Some((items, tail)) => Some((JsonModel::Array(items), tail)),
                None => None,
            }
        }
    } else if rest[0] == '{' {
        let inner = behind_blanks(rest.skip(1));
        if inner.len() >= rest.len() {
            None
        } else if inner.len() > 0 && inner[0] == '}' {
            Some((JsonModel::Object(Seq::empty()), inner.skip(1)))
        } else {
            match read_entries(inner) {
                Some((entries, tail)) => Some((JsonModel::Object(entries), tail)),
                None => None,
            }
        }
    } else {
        let n = word_len(rest) as int;
        match read_word(rest.take(n)) {
            Some(value) => Some((value, rest.skip(n))),
            None => None,
        }
    }
}

/// The items at the start of a text, with commas between them, and the text behind the
/// bracket that ends them.
pub open spec fn read_items(rest: Seq<char>) -> Option<(Seq<JsonModel>, Seq<char>)>
    decreases rest.len(), 1nat,
{
    match read_value(rest) {
        Some((value, tail)) => {
            let next = behind_blanks(tail);
            if next.len() > 0 && next[0] == ']' {
                Some((seq![value], next.skip(1)))
            } else if next.len() > 0 && next[0] == ',' {
                let more = behind_blanks(next.skip(1));
                if more.len() < rest.len() {
                    match read_items(more) {
                        Some((items, end)) => Some((seq![value] + items, end)),
                        None => None,
                    }
                } else {
                    None
                }
            } else {
                None
            }
        },
        None => None,
    }
}

/// The properties at the start of a text, with commas between them, and the text behind
/// the brace that ends them.
pub open spec fn read_entries(rest: Seq<char>) -> Option<(Seq<(Seq<char>, JsonModel)>, Seq<char>)>
    decreases rest.len(), 1nat,
{
    match read_key(rest) {
        Some((key, behind)) => if behind.len() < rest.len() {
            match read_value(behind) {
                Some((value, tail)) => {
                    let next = behind_blanks(tail);
                    if next.len() > 0 && next[0] == '}' {
                        Some((seq![(key, value)], next.skip(1)))
                    } else if next.len() > 0 && next[0] == ',' {
                        let more = behind_blanks(next.skip(1));
                        if more.len() < rest.len() {
                            match read_entries(more) {
                                Some((entries, end)) => Some((seq![(key, value)] + entries, end)),
                                None => None,
                            }
                        } else {
                            None
                        }
                    } else {
                        None
                    }
                },
                None => None,
            }
        } else {
            None
        },
        None => None,
    }
}

/// The property name at the start of a text, and the text at its value.
pub open spec fn read_key(rest: Seq<char>) -> Option<(Seq<char>, Seq<char>)> {
    if rest.len() > 0 && rest[0] == '"' {
        match read_string(rest.skip(1)) {
            Some((key, tail)) => {
                let next = behind_blanks(tail);
                if next.len() > 0 && next[0] == ':' {
                    Some((key, behind_blanks(next.skip(1))))
                } else {
                    None
                }
            },
            None => None,
        }
    } else {
        None
    }
}

/// The value that a text stands for.
pub open spec fn read_document(s: Seq<char>) -> Option<JsonModel> {
    match read_value(behind_blanks(s)) {
        Some((value, tail)) => if behind_blanks(tail).len() == 0 {
            Some(value)
        } else {
            None
        },
        None => None,
    }
}

proof fn lemma_lower_hex(d: nat)
    requires
        d < 16,
    ensures
        text::hex_digit(json::lower_hex(d)) == Some(d),
{
}

proof fn lemma_char(c: char, tail: Seq<char>)
    ensures
        read_char(json::string_char(c) + tail) == Some((c, tail)),
        json::string_char(c).len() > 0,
        json::string_char(c)[0] != '"',
{
    let n = c as nat;
    let written = json::string_char(c);
    let rest = written + tail;
    assert(rest.skip(written.len() as int) =~= tail);
    if n < 32 && n != 8 && n != 9 && n != 10 && n != 12 && n != 13 {
        let digits = rest.subrange(2, 6);
        assert(digits =~= seq!['0', '0', json::lower_hex(n / 16), json::lower_hex(n % 16)]);
        lemma_lower_hex(n / 16);
        lemma_lower_hex(n % 16);
        assert(digits.drop_last() =~= seq!['0', '0', json::lower_hex(n / 16)]);
        assert(digits.drop_last().drop_last() =~= seq!['0', '0']);
        assert(seq!['0', '0'].drop_last() =~= seq!['0']);
        assert(seq!['0'].drop_last() =~= Seq::<char>::empty());
        reveal_with_fuel(text::hex_number, 5);
        assert(text::hex_number(seq!['0']) == Some(0nat));
        assert(text::hex_number(seq!['0', '0']) == Some(0nat));
        assert(text::hex_number(digits.drop_last()) == Some(n / 16));
        assert(text::hex_number(digits) == Some(n));
        assert(n as char == c);
    } else {
        assert(8u8 as char as nat == 8 && 12u8 as char as nat == 12);
        assert(n == 8 ==> c == 8u8 as char);
        assert(n == 12 ==> c == 12u8 as char);
    }
}

proof fn lemma_string(s: Seq<char>, tail: Seq<char>)
    ensures
        read_string(json::string_body(s) + seq!['"'] + tail) == Some((s, tail)),
    decreases s.len(),
{
    let rest = json::string_body(s) + seq!['"'] + tail;
    if s.len() == 0 {
        assert(rest =~= seq!['"'] + tail);
        assert(rest.skip(1) =~= tail);
        assert(s =~= Seq::<char>::empty());
    } else {
        let more = json::string_body(s.drop_first()) + seq!['"'] + tail;
        lemma_char(s[0], more);
        lemma_string(s.drop_first(), tail);
        assert(rest =~= json::string_char(s[0]) + more);
        assert(rest[0] == json::string_char(s[0])[0]);
        assert(seq![s[0]] + s.drop_first() =~= s);
    }
}

/// Whether the numbers in a value are words that start like numbers.
pub open spec fn has_numbers(value: JsonModel) -> bool
    decreases value,
{
    match value {
        JsonModel::Number(n) => starts_a_number(n) && forall|i: int|
            0 <= i < n.len() ==> !jsonc::terminator(#[trigger] n[i]),
        JsonModel::Array(items) => forall|i: int|
            0 <= i < items.len() ==> has_numbers(#[trigger] items[i]),
        JsonModel::Object(entries) => forall|i: int|
            0 <= i < entries.len() ==> has_numbers((#[trigger] entries[i]).1),
        _ => true,
    }
}

spec fn all_blank(s: Seq<char>) -> bool {
    forall|i: int| 0 <= i < s.len() ==> jsonc::blank(#[trigger] s[i])
}

proof fn lemma_behind_pad(pad: Seq<char>, tail: Seq<char>)
    requires
        all_blank(pad),
    ensures
        behind_blanks(pad + tail) == behind_blanks(tail),
    decreases pad.len(),
{
    if pad.len() == 0 {
        assert(pad + tail =~= tail);
    } else {
        let less = pad.skip(1);
        assert(jsonc::blank(pad[0]));
        assert((pad + tail).skip(1) =~= less + tail);
        assert forall|i: int| 0 <= i < less.len() implies jsonc::blank(#[trigger] less[i]) by {
            assert(jsonc::blank(pad[i + 1]));
        }
        lemma_behind_pad(less, tail);
    }
}

proof fn lemma_line_comment(head: Seq<char>, tail: Seq<char>)
    requires
        forall|i: int| 0 <= i < head.len() ==> #[trigger] head[i] != '\n',
    ensures
        from_line_end(head + seq!['\n'] + tail) == seq!['\n'] + tail,
    decreases head.len(),
{
    let rest = head + seq!['\n'] + tail;
    if head.len() == 0 {
        assert(rest =~= seq!['\n'] + tail);
    } else {
        let less = head.skip(1);
        assert forall|i: int| 0 <= i < less.len() implies #[trigger] less[i] != '\n' by {
            assert(head[i + 1] != '\n');
        }
        assert(rest.skip(1) =~= less + seq!['\n'] + tail);
        assert(rest[0] == head[0]);
        lemma_line_comment(less, tail);
    }
}

proof fn lemma_block_comment(head: Seq<char>, tail: Seq<char>)
    requires
        head.len() >= 2,
        head[head.len() - 2] == '*',
        head[head.len() - 1] == '/',
        forall|i: int|
            0 <= i < head.len() - 2 ==> !(#[trigger] head[i] == '*' && head[i + 1] == '/'),
    ensures
        behind_block(head + tail) == tail,
    decreases head.len(),
{
    let rest = head + tail;
    if head.len() == 2 {
        assert(rest.skip(2) =~= tail);
    } else {
        let less = head.skip(1);
        assert(!(head[0] == '*' && head[1] == '/'));
        assert forall|i: int| 0 <= i < less.len() - 2 implies !(#[trigger] less[i] == '*' && less[i
            + 1] == '/') by {
            assert(!(head[i + 1] == '*' && head[i + 2] == '/'));
        }
        assert(rest.skip(1) =~= less + tail);
        assert(rest[0] == head[0] && rest[1] == head[1]);
        lemma_block_comment(less, tail);
    }
}

proof fn lemma_behind_comment(comment: Seq<char>, kind: CommentKind, tail: Seq<char>)
    requires
        read_back::is_comment(comment, kind),
    ensures
        behind_blanks(comment + seq!['\n'] + tail) == behind_blanks(tail),
{
    let rest = comment + seq!['\n'] + tail;
    let inner = comment.skip(2);
    assert(rest[0] == comment[0] && rest[1] == comment[1]);
    assert((seq!['\n'] + tail).skip(1) =~= tail);
    assert((seq!['\n'] + tail)[0] == '\n');
    match kind {
        CommentKind::Line => {
            assert forall|i: int| 0 <= i < inner.len() implies #[trigger] inner[i] != '\n' by {
                assert(comment[i + 2] != '\n');
            }
            assert(rest.skip(2) =~= inner + seq!['\n'] + tail);
            lemma_line_comment(inner, tail);
        },
        CommentKind::Block => {
            assert forall|i: int| 0 <= i < inner.len() - 2 implies !(#[trigger] inner[i] == '*'
                && inner[i + 1] == '/') by {
                assert(!(comment[i + 2] == '*' && comment[i + 3] == '/'));
            }
            assert(rest.skip(2) =~= inner + (seq!['\n'] + tail));
            lemma_block_comment(inner, seq!['\n'] + tail);
        },
    }
    assert(behind_blanks(seq!['\n'] + tail) == behind_blanks(tail));
}

proof fn lemma_behind_lines(
    comments: Seq<CommentModel>,
    pointer: Seq<char>,
    pad: Seq<char>,
    n: nat,
    tail: Seq<char>,
)
    requires
        read_back::are_comments(comments),
        all_blank(pad),
        n <= comments.len(),
    ensures
        behind_blanks(emit::comment_lines(comments, pointer, pad, n) + tail) == behind_blanks(tail),
    decreases n,
{
    let lines = emit::comment_lines(comments, pointer, pad, n);
    if n == 0 {
        assert(lines + tail =~= tail);
    } else {
        let before = emit::comment_lines(comments, pointer, pad, (n - 1) as nat);
        let c = comments[n - 1];
        if c.anchor == pointer {
            let more = c.text + seq!['\n'] + tail;
            assert(lines + tail =~= before + (pad + more));
            lemma_behind_lines(comments, pointer, pad, (n - 1) as nat, pad + more);
            lemma_behind_pad(pad, more);
            lemma_behind_comment(c.text, c.kind, tail);
        } else {
            lemma_behind_lines(comments, pointer, pad, (n - 1) as nat, tail);
        }
    }
}

/// Whether a text starts with what is neither white space nor a comment nor a bracket
/// that ends something.
spec fn starts(s: Seq<char>) -> bool {
    s.len() > 0 && !jsonc::blank(s[0]) && s[0] != '/' && s[0] != ']' && s[0] != '}' && s[0] != ','
}

proof fn lemma_word(word: Seq<char>, tail: Seq<char>)
    requires
        forall|i: int| 0 <= i < word.len() ==> !jsonc::terminator(#[trigger] word[i]),
        tail.len() > 0 ==> jsonc::terminator(tail[0]),
    ensures
        word_len(word + tail) == word.len(),
    decreases word.len(),
{
    if word.len() == 0 {
        assert(word + tail =~= tail);
    } else {
        let less = word.skip(1);
        assert forall|i: int| 0 <= i < less.len() implies !jsonc::terminator(#[trigger] less[i]) by {
            assert(!jsonc::terminator(word[i + 1]));
        }
        assert(!jsonc::terminator(word[0]));
        assert((word + tail).skip(1) =~= less + tail);
        lemma_word(less, tail);
    }
}

proof fn lemma_word_read(word: Seq<char>, value: JsonModel, tail: Seq<char>)
    requires
        word.len() > 0,
        word[0] != '"',
        forall|i: int| 0 <= i < word.len() ==> !jsonc::terminator(#[trigger] word[i]),
        tail.len() > 0 ==> jsonc::terminator(tail[0]),
        read_word(word) == Some(value),
    ensures
        read_value(word + tail) == Some((value, tail)),
        starts(word),
{
    lemma_word(word, tail);
    assert(!jsonc::terminator(word[0]));
    assert((word + tail)[0] == word[0]);
    assert((word + tail).take(word.len() as int) =~= word);
    assert((word + tail).skip(word.len() as int) =~= tail);
}

proof fn lemma_starts(
    value: JsonModel,
    comments: Seq<CommentModel>,
    pointer: Seq<char>,
    pad: Seq<char>,
    step: Seq<char>,
)
    requires
        has_numbers(value),
    ensures
        starts(emit::rendered(value, comments, pointer, pad, step)),
{
    reveal_strlit("null");
    reveal_strlit("true");
    reveal_strlit("false");
    reveal_strlit("[]");
    reveal_strlit("{}");
    reveal_strlit("[\n");
    reveal_strlit("{\n");
}

proof fn lemma_scalar_read(
    value: JsonModel,
    comments: Seq<CommentModel>,
    pointer: Seq<char>,
    pad: Seq<char>,
    step: Seq<char>,
    tail: Seq<char>,
)
    requires
        has_numbers(value),
        !(value is Array) && !(value is Object),
        tail.len() > 0 ==> jsonc::terminator(tail[0]),
    ensures
        read_value(emit::rendered(value, comments, pointer, pad, step) + tail) == Some(
            (value, tail),
        ),
{
    let written = emit::rendered(value, comments, pointer, pad, step);
    let rest = written + tail;
    reveal_strlit("null");
    reveal_strlit("true");
    reveal_strlit("false");
    match value {
        JsonModel::Null => {
            assert(written =~= seq!['n', 'u', 'l', 'l']);
            lemma_word_read(written, value, tail);
        },
        JsonModel::Bool(b) => {
            if b {
                assert(written =~= seq!['t', 'r', 'u', 'e']);
                assert(written[0] != seq!['n', 'u', 'l', 'l'][0]);
            } else {
                assert(written =~= seq!['f', 'a', 'l', 's', 'e']);
                assert(written[0] != seq!['n', 'u', 'l', 'l'][0]);
                assert(written[0] != seq!['t', 'r', 'u', 'e'][0]);
            }
            lemma_word_read(written, value, tail);
        },
        JsonModel::Number(n) => {
            assert(written[0] != seq!['n', 'u', 'l', 'l'][0]);
            assert(written[0] != seq!['t', 'r', 'u', 'e'][0]);
            assert(written[0] != seq!['f', 'a', 'l', 's', 'e'][0]);
            lemma_word_read(written, value, tail);
        },
        JsonModel::Str(s) => {
            assert(rest.skip(1) =~= json::string_body(s) + seq!['"'] + tail);
            assert(rest[0] == '"');
            lemma_string(s, tail);
        },
        _ => {},
    }
}

proof fn lemma_array_opens(inner: Seq<char>, items: Seq<JsonModel>, tail: Seq<char>)
    requires
        starts(behind_blanks(inner)),
        read_items(behind_blanks(inner)) == Some((items, tail)),
    ensures
        read_value("[\n"@ + inner) == Some((JsonModel::Array(items), tail)),
{
    reveal_strlit("[\n");
    let rest = "[\n"@ + inner;
    assert(rest.skip(1) =~= seq!['\n'] + inner);
    lemma_behind_pad(seq!['\n'], inner);
    lemma_behind_shrinks(inner);
}

proof fn lemma_object_opens(
    inner: Seq<char>,
    entries: Seq<(Seq<char>, JsonModel)>,
    tail: Seq<char>,
)
    requires
        starts(behind_blanks(inner)),
        read_entries(behind_blanks(inner)) == Some((entries, tail)),
    ensures
        read_value("{\n"@ + inner) == Some((JsonModel::Object(entries), tail)),
{
    reveal_strlit("{\n");
    let rest = "{\n"@ + inner;
    assert(rest.skip(1) =~= seq!['\n'] + inner);
    lemma_behind_pad(seq!['\n'], inner);
    lemma_behind_shrinks(inner);
}

#[verifier::rlimit(40)]
proof fn lemma_value_read(
    value: JsonModel,
    comments: Seq<CommentModel>,
    pointer: Seq<char>,
    pad: Seq<char>,
    step: Seq<char>,
    tail: Seq<char>,
)
    requires
        has_numbers(value),
        read_back::are_comments(comments),
        all_blank(pad),
        all_blank(step),
        tail.len() > 0 ==> jsonc::terminator(tail[0]),
    ensures
        read_value(emit::rendered(value, comments, pointer, pad, step) + tail) == Some(
            (value, tail),
        ),
    decreases value, 0nat,
{
    let written = emit::rendered(value, comments, pointer, pad, step);
    let rest = written + tail;
    reveal_strlit("[]");
    reveal_strlit("{}");
    match value {
        JsonModel::Array(items) => {
            if items.len() == 0 {
                assert(rest.skip(1) =~= seq![']'] + tail);
                assert((seq![']'] + tail).skip(1) =~= tail);
                assert(items =~= Seq::<JsonModel>::empty());
            } else {
                let inner = emit::rendered_items(items, comments, pointer, pad, step, 0);
                let end = pad + seq![']'] + tail;
                assert(rest =~= "[\n"@ + (inner + end));
                lemma_items_read(items, comments, pointer, pad, step, 0, tail);
                assert(items.skip(0) =~= items);
                lemma_array_opens(inner + end, items, tail);
            }
        },
        JsonModel::Object(entries) => {
            if entries.len() == 0 {
                assert(rest.skip(1) =~= seq!['}'] + tail);
                assert((seq!['}'] + tail).skip(1) =~= tail);
                assert(entries =~= Seq::<(Seq<char>, JsonModel)>::empty());
            } else {
                let inner = emit::rendered_entries(entries, comments, pointer, pad, step, 0);
                let end = pad + seq!['}'] + tail;
                assert(rest =~= "{\n"@ + (inner + end));
                lemma_entries_read(entries, comments, pointer, pad, step, 0, tail);
                assert(entries.skip(0) =~= entries);
                lemma_object_opens(inner + end, entries, tail);
            }
        },
        _ => {
            lemma_scalar_read(value, comments, pointer, pad, step, tail);
        },
    }
}

proof fn lemma_behind_shrinks(rest: Seq<char>)
    ensures
        behind_blanks(rest).len() <= rest.len(),
    decreases rest.len(),
{
    if rest.len() > 0 {
        if jsonc::blank(rest[0]) {
            lemma_behind_shrinks(rest.skip(1));
        } else if rest.len() > 1 && rest[0] == '/' && rest[1] == '/' {
            let tail = from_line_end(rest.skip(2));
            if tail.len() < rest.len() {
                lemma_behind_shrinks(tail);
            }
        } else if rest.len() > 1 && rest[0] == '/' && rest[1] == '*' {
            let tail = behind_block(rest.skip(2));
            if tail.len() < rest.len() {
                lemma_behind_shrinks(tail);
            }
        }
    }
}

proof fn lemma_pads(pad: Seq<char>, step: Seq<char>)
    requires
        all_blank(pad),
        all_blank(step),
    ensures
        all_blank(pad + step),
{
    assert forall|i: int| 0 <= i < (pad + step).len() implies jsonc::blank(
        #[trigger] (pad + step)[i],
    ) by {
        if i < pad.len() {
            assert(jsonc::blank(pad[i]));
        } else {
            assert(jsonc::blank(step[i - pad.len()]));
        }
    }
}

proof fn lemma_items_read(
    items: Seq<JsonModel>,
    comments: Seq<CommentModel>,
    pointer: Seq<char>,
    pad: Seq<char>,
    step: Seq<char>,
    from: nat,
    tail: Seq<char>,
)
    requires
        from < items.len(),
        forall|i: int| 0 <= i < items.len() ==> has_numbers(#[trigger] items[i]),
        read_back::are_comments(comments),
        all_blank(pad),
        all_blank(step),
    ensures
        ({
            let at = behind_blanks(
                emit::rendered_items(items, comments, pointer, pad, step, from) + (pad + seq![']']
                    + tail),
            );
            starts(at) && read_items(at) == Some((items.skip(from as int), tail))
        }),
    decreases items, items.len() - from,
{
    reveal_strlit(",\n");
    let end = pad + seq![']'] + tail;
    let under = pointer::index_pointer(pointer, from);
    let deeper = pad + step;
    let value = items[from as int];
    let lines = emit::lines_at(comments, under, deeper);
    let written = emit::rendered(value, comments, under, deeper, step);
    let mark = emit::line_end(from, items.len());
    let more = emit::rendered_items(items, comments, pointer, pad, step, from + 1);
    let behind = mark + (more + end);
    let all = emit::rendered_items(items, comments, pointer, pad, step, from) + end;
    lemma_pads(pad, step);
    assert(all =~= lines + (deeper + (written + behind)));
    lemma_behind_lines(comments, under, deeper, comments.len(), deeper + (written + behind));
    lemma_behind_pad(deeper, written + behind);
    lemma_starts(value, comments, under, deeper, step);
    assert((written + behind)[0] == written[0]);
    let at = written + behind;
    assert(behind_blanks(at) == at);
    assert(behind_blanks(all) == at);
    assert(behind[0] == mark[0]);
    lemma_value_read(value, comments, under, deeper, step, behind);
    if from + 1 < items.len() {
        assert(behind[0] == ',');
        assert(behind.skip(1) =~= seq!['\n'] + (more + end));
        lemma_behind_pad(seq!['\n'], more + end);
        lemma_items_read(items, comments, pointer, pad, step, from + 1, tail);
        lemma_behind_shrinks(behind.skip(1));
        assert(seq![value] + items.skip(from as int + 1) =~= items.skip(from as int));
    } else {
        assert(more =~= Seq::<char>::empty());
        assert(behind =~= seq!['\n'] + end);
        lemma_closing(pad, ']', tail);
        assert(seq![value] =~= items.skip(from as int));
    }
}

proof fn lemma_key_read(key: Seq<char>, value: Seq<char>)
    requires
        starts(value),
    ensures
        read_key(json::string_literal(key) + (": "@ + value)) == Some((key, value)),
        (json::string_literal(key) + (": "@ + value))[0] == '"',
        (json::string_literal(key) + (": "@ + value)).len() > value.len(),
{
    reveal_strlit(": ");
    let colon = ": "@ + value;
    let at = json::string_literal(key) + colon;
    lemma_string(key, colon);
    assert(at.skip(1) =~= json::string_body(key) + seq!['"'] + colon);
    assert(colon[0] == ':');
    assert(behind_blanks(colon) == colon);
    assert(colon.skip(1) =~= seq![' '] + value);
    lemma_behind_pad(seq![' '], value);
    assert(behind_blanks(value) == value);
}

/// What follows the last item or property leads to the bracket.
proof fn lemma_closing(pad: Seq<char>, bracket: char, tail: Seq<char>)
    requires
        all_blank(pad),
        bracket == ']' || bracket == '}',
    ensures
        behind_blanks(seq!['\n'] + (pad + seq![bracket] + tail)) == seq![bracket] + tail,
        (seq![bracket] + tail)[0] == bracket,
        (seq![bracket] + tail).skip(1) == tail,
{
    let end = seq![bracket] + tail;
    assert(pad + seq![bracket] + tail =~= pad + end);
    lemma_behind_pad(seq!['\n'], pad + end);
    lemma_behind_pad(pad, end);
    assert(end.skip(1) =~= tail);
}

#[verifier::rlimit(40)]
proof fn lemma_entries_read(
    entries: Seq<(Seq<char>, JsonModel)>,
    comments: Seq<CommentModel>,
    pointer: Seq<char>,
    pad: Seq<char>,
    step: Seq<char>,
    from: nat,
    tail: Seq<char>,
)
    requires
        from < entries.len(),
        forall|i: int| 0 <= i < entries.len() ==> has_numbers((#[trigger] entries[i]).1),
        read_back::are_comments(comments),
        all_blank(pad),
        all_blank(step),
    ensures
        ({
            let at = behind_blanks(
                emit::rendered_entries(entries, comments, pointer, pad, step, from) + (pad + seq![
                    '}',
                ] + tail),
            );
            starts(at) && read_entries(at) == Some((entries.skip(from as int), tail))
        }),
    decreases entries, entries.len() - from,
{
    reveal_strlit(",\n");
    let end = pad + seq!['}'] + tail;
    let key = entries[from as int].0;
    let under = pointer::key_pointer(pointer, key);
    let deeper = pad + step;
    let value = entries[from as int].1;
    let lines = emit::lines_at(comments, under, deeper);
    let name = json::string_literal(key);
    let written = emit::rendered(value, comments, under, deeper, step);
    let mark = emit::line_end(from, entries.len());
    let more = emit::rendered_entries(entries, comments, pointer, pad, step, from + 1);
    let behind = mark + (more + end);
    let at = name + (": "@ + (written + behind));
    let all = emit::rendered_entries(entries, comments, pointer, pad, step, from) + end;
    lemma_pads(pad, step);
    assert(all =~= lines + (deeper + at));
    lemma_behind_lines(comments, under, deeper, comments.len(), deeper + at);
    lemma_behind_pad(deeper, at);
    lemma_starts(value, comments, under, deeper, step);
    assert((written + behind)[0] == written[0]);
    lemma_key_read(key, written + behind);
    assert(behind_blanks(at) == at);
    assert(behind_blanks(all) == at);
    assert(behind[0] == mark[0]);
    assert(decreases_to!(entries => entries[from as int]));
    lemma_value_read(value, comments, under, deeper, step, behind);
    if from + 1 < entries.len() {
        assert(behind[0] == ',');
        assert(behind.skip(1) =~= seq!['\n'] + (more + end));
        lemma_behind_pad(seq!['\n'], more + end);
        lemma_entries_read(entries, comments, pointer, pad, step, from + 1, tail);
        lemma_behind_shrinks(behind.skip(1));
        assert(seq![(key, value)] + entries.skip(from as int + 1) =~= entries.skip(from as int));
    } else {
        assert(more =~= Seq::<char>::empty());
        assert(behind =~= seq!['\n'] + end);
        lemma_closing(pad, '}', tail);
        assert(seq![(key, value)] =~= entries.skip(from as int));
    }
}

/// A written document stands for the value it was written from, with or without
/// comments and however far its lines are indented.
pub proof fn written_documents_stand_for_their_values(
    value: JsonModel,
    comments: Seq<CommentModel>,
    indent: nat,
)
    requires
        has_numbers(value),
        read_back::are_comments(comments),
    ensures
        read_document(emit::document_text(value, comments, indent)) == Some(value),
{
    let none = Seq::<char>::empty();
    let step = emit::step(indent);
    let lines = emit::lines_at(comments, none, none);
    let written = emit::rendered(value, comments, none, none, step);
    let end = seq!['\n'];
    let all = emit::document_text(value, comments, indent);
    assert(all_blank(step));
    assert(all =~= lines + (written + end));
    lemma_behind_lines(comments, none, none, comments.len(), written + end);
    lemma_starts(value, comments, none, none, step);
    assert((written + end)[0] == written[0]);
    assert(behind_blanks(written + end) == written + end);
    lemma_value_read(value, comments, none, none, step, end);
    lemma_behind_pad(end, none);
    assert(end + none =~= end);
}

/// Different values are written differently, whatever comments they carry.
pub proof fn different_values_are_written_differently(
    a: JsonModel,
    b: JsonModel,
    first: Seq<CommentModel>,
    second: Seq<CommentModel>,
    indent: nat,
)
    requires
        has_numbers(a),
        has_numbers(b),
        read_back::are_comments(first),
        read_back::are_comments(second),
        a != b,
    ensures
        emit::document_text(a, first, indent) != emit::document_text(b, second, indent),
{
    written_documents_stand_for_their_values(a, first, indent);
    written_documents_stand_for_their_values(b, second, indent);
}

} // verus!
