//! What comes back from JSON with comments.
//!
//! Comments that are written between the values of a JSON document are read back from
//! its text: each with its text and its form, at the value it was anchored to, in the
//! order in which they stood there.

use vstd::prelude::*;

use crate::interop::comments::{self, CommentKind, CommentModel};
use crate::interop::emit;
use crate::interop::json::{self, JsonModel};
use crate::interop::jsonc::{self, FrameModel, Piece, Tracker, Waiting, MAX_TRACK_DEPTH};
use crate::interop::pointer;
use crate::syntax::TextRange;
use crate::text;

verus! {

/// Whether a text is one comment of its form: a line comment without a line end, or a
/// block comment that its first `*/` ends.
pub open spec fn is_comment(text: Seq<char>, kind: CommentKind) -> bool {
    match kind {
        CommentKind::Line => {
            &&& text.len() >= 2
            &&& text[0] == '/'
            &&& text[1] == '/'
            &&& forall|i: int| 0 <= i < text.len() ==> #[trigger] text[i] != '\n'
        },
        CommentKind::Block => {
            &&& text.len() >= 4
            &&& text[0] == '/'
            &&& text[1] == '*'
            &&& text[text.len() - 2] == '*'
            &&& text[text.len() - 1] == '/'
            &&& forall|i: int|
                2 <= i < text.len() - 2 ==> !(#[trigger] text[i] == '*' && text[i + 1] == '/')
        },
    }
}

/// Whether every comment is one comment of its form.
pub open spec fn are_comments(comments: Seq<CommentModel>) -> bool {
    forall|i: int|
        0 <= i < comments.len() ==> is_comment((#[trigger] comments[i]).text, comments[i].kind)
}

/// Whether the reader of property names undoes the escapes of a property name: it does
/// for all characters but the control characters that are written with `\b`, `\f` or
/// `\u`.
pub open spec fn readable_key(key: Seq<char>) -> bool {
    forall|i: int|
        0 <= i < key.len() ==> {
            let n = #[trigger] key[i] as nat;
            n >= 32 || n == 9 || n == 10 || n == 13
        }
}

/// Whether a number is written without white space, brackets and other punctuation.
pub open spec fn readable_number(n: Seq<char>) -> bool {
    n.len() > 0 && n[0] != '"' && forall|i: int|
        0 <= i < n.len() ==> !jsonc::terminator(#[trigger] n[i])
}

/// Whether a value at nesting depth `depth` is read back place by place.
pub open spec fn readable(value: JsonModel, depth: nat) -> bool
    decreases value, 0nat,
{
    match value {
        JsonModel::Number(n) => readable_number(n),
        JsonModel::Array(items) => depth < MAX_TRACK_DEPTH && readable_items(items, depth + 1),
        JsonModel::Object(entries) => depth < MAX_TRACK_DEPTH && readable_entries(
            entries,
            depth + 1,
        ),
        _ => true,
    }
}

/// Whether all items are read back.
pub open spec fn readable_items(items: Seq<JsonModel>, depth: nat) -> bool
    decreases items, 0nat,
{
    forall|i: int| 0 <= i < items.len() ==> readable(#[trigger] items[i], depth)
}

/// Whether all properties are read back; no two have the same key.
pub open spec fn readable_entries(entries: Seq<(Seq<char>, JsonModel)>, depth: nat) -> bool
    decreases entries, 0nat,
{
    &&& forall|i: int|
        0 <= i < entries.len() ==> readable_key((#[trigger] entries[i]).0) && readable(
            entries[i].1,
            depth,
        )
    &&& forall|i: int, j: int|
        0 <= i < j < entries.len() ==> (#[trigger] entries[i]).0 != (#[trigger] entries[j]).0
}

/// The texts and forms of the comments anchored to `pointer`, in order.
pub open spec fn remarks_at(comments: Seq<CommentModel>, pointer: Seq<char>) -> Seq<
    (Seq<char>, CommentKind),
>
    decreases comments.len(),
{
    if comments.len() == 0 {
        Seq::empty()
    } else {
        let before = remarks_at(comments.drop_last(), pointer);
        if comments.last().anchor == pointer {
            before.push((comments.last().text, comments.last().kind))
        } else {
            before
        }
    }
}

spec fn nowhere() -> TextRange {
    TextRange { start: 0, end: 0 }
}

/// A comment without its span.
spec fn plain(c: CommentModel) -> CommentModel {
    CommentModel { source_range: nowhere(), ..c }
}

spec fn all_plain(comments: Seq<CommentModel>) -> Seq<CommentModel> {
    comments.map_values(|c: CommentModel| plain(c))
}

spec fn plain_waiting(pending: Seq<Waiting>) -> Seq<Waiting> {
    pending.map_values(|w: Waiting| Waiting { source_range: nowhere(), ..w })
}

spec fn plain_tracker(t: Tracker) -> Tracker {
    Tracker { pending: plain_waiting(t.pending), comments: all_plain(t.comments), ..t }
}

/// What is known after what `rest` starts with, without the spans.
spec fn stepped(t: Tracker, rest: Seq<char>) -> Tracker {
    let head = rest.take(jsonc::piece_len(rest));
    match jsonc::piece(rest) {
        Piece::LineComment => Tracker {
            pending: t.pending.push(
                Waiting { text: head, kind: CommentKind::Line, source_range: nowhere() },
            ),
            ..t
        },
        Piece::BlockComment => Tracker {
            pending: t.pending.push(
                Waiting { text: head, kind: CommentKind::Block, source_range: nowhere() },
            ),
            ..t
        },
        _ => jsonc::noted(t, rest, 0),
    }
}

/// The comments of a text without their spans, given what is known where it begins.
spec fn plain_from(t: Tracker, rest: Seq<char>) -> Seq<CommentModel>
    decreases rest.len(),
    via plain_from_decreases
{
    if rest.len() == 0 {
        t.comments + jsonc::anchored(t.pending, Seq::empty())
    } else {
        plain_from(stepped(t, rest), rest.skip(jsonc::piece_len(rest)))
    }
}

#[via_fn]
proof fn plain_from_decreases(t: Tracker, rest: Seq<char>) {
    if rest.len() > 0 {
        jsonc::lemma_piece_len(rest);
    }
}

proof fn lemma_plain_anchored(pending: Seq<Waiting>, pointer: Seq<char>)
    ensures
        all_plain(jsonc::anchored(pending, pointer)) == jsonc::anchored(
            plain_waiting(pending),
            pointer,
        ),
{
    assert(all_plain(jsonc::anchored(pending, pointer)) =~= jsonc::anchored(
        plain_waiting(pending),
        pointer,
    ));
}

proof fn lemma_all_plain_concat(a: Seq<CommentModel>, b: Seq<CommentModel>)
    ensures
        all_plain(a + b) == all_plain(a) + all_plain(b),
{
    assert(all_plain(a + b) =~= all_plain(a) + all_plain(b));
}

proof fn lemma_plain_step(t: Tracker, rest: Seq<char>, offset: nat)
    ensures
        plain_tracker(jsonc::noted(t, rest, offset)) == stepped(plain_tracker(t), rest),
{
    let pointer = jsonc::pointer_of(t.stack);
    lemma_plain_anchored(t.pending, pointer);
    lemma_all_plain_concat(t.comments, jsonc::anchored(t.pending, pointer));
    let a = plain_tracker(jsonc::noted(t, rest, offset));
    let b = stepped(plain_tracker(t), rest);
    assert(a.pending =~= b.pending);
    assert(a.comments =~= b.comments);
}

proof fn lemma_plain_from(t: Tracker, rest: Seq<char>, offset: nat)
    ensures
        all_plain(jsonc::comments_from(t, rest, offset)) == plain_from(plain_tracker(t), rest),
    decreases rest.len(),
{
    if rest.len() == 0 {
        lemma_plain_anchored(t.pending, Seq::empty());
        lemma_all_plain_concat(t.comments, jsonc::anchored(t.pending, Seq::empty()));
    } else {
        jsonc::lemma_piece_len(rest);
        lemma_plain_step(t, rest, offset);
        lemma_plain_from(
            jsonc::noted(t, rest, offset),
            rest.skip(jsonc::piece_len(rest)),
            offset + text::byte_len(rest.take(jsonc::piece_len(rest))),
        );
    }
}

proof fn lemma_piece_read(t: Tracker, head: Seq<char>, tail: Seq<char>)
    requires
        head.len() > 0,
        jsonc::piece_len(head + tail) == head.len(),
    ensures
        plain_from(t, head + tail) == plain_from(stepped(t, head + tail), tail),
        (head + tail).take(head.len() as int) == head,
{
    assert((head + tail).skip(head.len() as int) =~= tail);
    assert((head + tail).take(head.len() as int) =~= head);
}

spec fn blanks(s: Seq<char>) -> bool {
    forall|i: int| 0 <= i < s.len() ==> jsonc::blank(#[trigger] s[i])
}

proof fn lemma_blanks(t: Tracker, pad: Seq<char>, tail: Seq<char>)
    requires
        blanks(pad),
    ensures
        plain_from(t, pad + tail) == plain_from(t, tail),
    decreases pad.len(),
{
    if pad.len() == 0 {
        assert(pad + tail =~= tail);
    } else {
        let first = seq![pad[0]];
        let rest = pad.drop_first();
        assert(jsonc::blank(pad[0]));
        assert(pad + tail =~= first + (rest + tail));
        assert((first + (rest + tail))[0] == pad[0]);
        lemma_piece_read(t, first, rest + tail);
        assert forall|i: int| 0 <= i < rest.len() implies jsonc::blank(#[trigger] rest[i]) by {
            assert(rest[i] == pad[i + 1]);
        }
        lemma_blanks(t, rest, tail);
    }
}

proof fn lemma_line_ends(text: Seq<char>, tail: Seq<char>, j: int)
    requires
        0 <= j <= text.len(),
        forall|i: int| j <= i < text.len() ==> #[trigger] text[i] != '\n',
        tail.len() > 0,
        tail[0] == '\n',
    ensures
        text::index_from(text + tail, '\n', j) == text.len(),
    decreases text.len() - j,
{
    if j < text.len() {
        assert((text + tail)[j] == text[j]);
        lemma_line_ends(text, tail, j + 1);
    } else {
        assert((text + tail)[j] == tail[0]);
    }
}

proof fn lemma_block_ends(text: Seq<char>, tail: Seq<char>, j: int)
    requires
        is_comment(text, CommentKind::Block),
        2 <= j <= text.len() - 2,
    ensures
        jsonc::block_end(text + tail, j) == text.len(),
    decreases text.len() - j,
{
    let rest = text + tail;
    assert(rest[j] == text[j] && rest[j + 1] == text[j + 1]);
    if j < text.len() - 2 {
        lemma_block_ends(text, tail, j + 1);
    }
}

/// A comment on a line is read as one.
proof fn lemma_comment_read(t: Tracker, text: Seq<char>, kind: CommentKind, tail: Seq<char>)
    requires
        is_comment(text, kind),
        tail.len() > 0,
        tail[0] == '\n',
    ensures
        plain_from(t, text + tail) == plain_from(
            Tracker {
                pending: t.pending.push(Waiting { text, kind, source_range: nowhere() }),
                ..t
            },
            tail,
        ),
{
    let rest = text + tail;
    assert(rest[0] == text[0] && rest[1] == text[1]);
    match kind {
        CommentKind::Line => {
            lemma_line_ends(text, tail, 2);
        },
        CommentKind::Block => {
            lemma_block_ends(text, tail, 2);
        },
    }
    lemma_piece_read(t, text, tail);
}

/// The comments anchored to `pointer` among the first `n`, as they wait for their value.
spec fn waiting_at(comments: Seq<CommentModel>, pointer: Seq<char>, n: nat) -> Seq<Waiting>
    decreases n,
{
    if n == 0 {
        Seq::empty()
    } else {
        let before = waiting_at(comments, pointer, (n - 1) as nat);
        let c = comments[n - 1];
        if c.anchor == pointer {
            before.push(Waiting { text: c.text, kind: c.kind, source_range: nowhere() })
        } else {
            before
        }
    }
}

proof fn lemma_lines_read(
    t: Tracker,
    comments: Seq<CommentModel>,
    pointer: Seq<char>,
    pad: Seq<char>,
    n: nat,
    tail: Seq<char>,
)
    requires
        are_comments(comments),
        blanks(pad),
        n <= comments.len(),
    ensures
        plain_from(t, emit::comment_lines(comments, pointer, pad, n) + tail) == plain_from(
            Tracker { pending: t.pending + waiting_at(comments, pointer, n), ..t },
            tail,
        ),
    decreases n,
{
    if n == 0 {
        assert(emit::comment_lines(comments, pointer, pad, n) + tail =~= tail);
        assert(t.pending + waiting_at(comments, pointer, n) =~= t.pending);
    } else {
        let before = emit::comment_lines(comments, pointer, pad, (n - 1) as nat);
        let c = comments[n - 1];
        if c.anchor == pointer {
            let end = seq!['\n'];
            assert(before + pad + c.text + end + tail =~= before + (pad + (c.text + (end + tail))));
            let rest = pad + (c.text + (end + tail));
            lemma_lines_read(t, comments, pointer, pad, (n - 1) as nat, rest);
            let t1 = Tracker {
                pending: t.pending + waiting_at(comments, pointer, (n - 1) as nat),
                ..t
            };
            lemma_blanks(t1, pad, c.text + (end + tail));
            lemma_comment_read(t1, c.text, c.kind, end + tail);
            let t2 = Tracker {
                pending: t1.pending.push(
                    Waiting { text: c.text, kind: c.kind, source_range: nowhere() },
                ),
                ..t1
            };
            lemma_blanks(t2, end, tail);
            assert(t2.pending =~= t.pending + waiting_at(comments, pointer, n));
        } else {
            lemma_lines_read(t, comments, pointer, pad, (n - 1) as nat, tail);
        }
    }
}

proof fn lemma_string_ends(before: Seq<char>, s: Seq<char>, tail: Seq<char>)
    ensures
        jsonc::string_end(before + json::string_body(s) + seq!['"'] + tail, before.len() as int)
            == before.len() + json::string_body(s).len() + 1,
    decreases s.len(),
{
    let rest = before + json::string_body(s) + seq!['"'] + tail;
    let j = before.len() as int;
    if s.len() == 0 {
        assert(rest[j] == '"');
    } else {
        let head = json::string_char(s[0]);
        let body = json::string_body(s.drop_first());
        assert(rest =~= (before + head) + body + seq!['"'] + tail);
        lemma_string_ends(before + head, s.drop_first(), tail);
        assert forall|k: int| 0 <= k < head.len() implies rest[j + k] == #[trigger] head[k] by {}
        assert(rest[j] == head[0]);
        if head.len() == 2 {
            assert(rest[j + 1] == head[1]);
        } else if head.len() == 6 {
            assert(rest[j + 1] == head[1]);
            assert(rest[j + 2] == head[2] && rest[j + 3] == head[3]);
            assert(rest[j + 4] == head[4] && rest[j + 5] == head[5]);
            reveal_with_fuel(jsonc::string_end, 6);
        }
    }
}

proof fn lemma_white_space(c: char)
    ensures
        c as nat == 9 ==> c == '\t',
        c as nat == 10 ==> c == '\n',
        c as nat == 13 ==> c == '\r',
{
}

proof fn lemma_string_contents(before: Seq<char>, s: Seq<char>, tail: Seq<char>)
    requires
        readable_key(s),
    ensures
        jsonc::string_contents(
            before + json::string_body(s) + seq!['"'] + tail,
            before.len() as int,
        ) == s,
    decreases s.len(),
{
    let rest = before + json::string_body(s) + seq!['"'] + tail;
    let j = before.len() as int;
    if s.len() == 0 {
        assert(rest[j] == '"');
        assert(jsonc::string_contents(rest, j) =~= s);
    } else {
        let head = json::string_char(s[0]);
        let body = json::string_body(s.drop_first());
        assert(rest =~= (before + head) + body + seq!['"'] + tail);
        assert forall|i: int| 0 <= i < s.drop_first().len() implies ({
            let n = #[trigger] s.drop_first()[i] as nat;
            n >= 32 || n == 9 || n == 10 || n == 13
        }) by {
            assert(s.drop_first()[i] == s[i + 1]);
        }
        lemma_string_contents(before + head, s.drop_first(), tail);
        assert forall|k: int| 0 <= k < head.len() implies rest[j + k] == #[trigger] head[k] by {}
        assert(rest[j] == head[0]);
        let n = s[0] as nat;
        assert(n >= 32 || n == 9 || n == 10 || n == 13);
        lemma_white_space(s[0]);
        if head.len() == 2 {
            assert(rest[j + 1] == head[1]);
        }
        assert(jsonc::string_contents(rest, j) =~= seq![s[0]] + s.drop_first());
        assert(seq![s[0]] + s.drop_first() =~= s);
    }
}

proof fn lemma_literal(s: Seq<char>, tail: Seq<char>)
    ensures
        jsonc::piece(json::string_literal(s) + tail) is String,
        jsonc::piece_len(json::string_literal(s) + tail) == json::string_literal(s).len(),
        readable_key(s) ==> jsonc::string_contents(json::string_literal(s) + tail, 1) == s,
{
    let before = seq!['"'];
    assert(json::string_literal(s) + tail =~= before + json::string_body(s) + seq!['"'] + tail);
    lemma_string_ends(before, s, tail);
    if readable_key(s) {
        lemma_string_contents(before, s, tail);
    }
}

proof fn lemma_scalar_ends(n: Seq<char>, tail: Seq<char>, j: int)
    requires
        0 <= j <= n.len(),
        forall|i: int| j <= i < n.len() ==> !jsonc::terminator(#[trigger] n[i]),
        tail.len() > 0,
        jsonc::terminator(tail[0]),
    ensures
        jsonc::scalar_end(n + tail, j) == n.len(),
    decreases n.len() - j,
{
    if j < n.len() {
        assert((n + tail)[j] == n[j]);
        lemma_scalar_ends(n, tail, j + 1);
    } else {
        assert((n + tail)[j] == tail[0]);
    }
}

/// What is known after a value at `pointer` with the comments `found` inside it.
spec fn after_value(t: Tracker, pointer: Seq<char>, found: Seq<CommentModel>) -> Tracker {
    Tracker {
        stack: jsonc::advanced(t.stack),
        expecting_key: false,
        pending: Seq::empty(),
        comments: t.comments + jsonc::anchored(t.pending, pointer) + found,
    }
}

/// The comments that stand inside a value at `pointer`, in the order of their places.
spec fn inside(value: JsonModel, comments: Seq<CommentModel>, pointer: Seq<char>) -> Seq<
    CommentModel,
>
    decreases value, 0nat,
{
    match value {
        JsonModel::Array(items) => inside_items(items, comments, pointer, 0),
        JsonModel::Object(entries) => inside_entries(entries, comments, pointer, 0),
        _ => Seq::empty(),
    }
}

/// The comments before a value at `pointer`.
spec fn ahead_of(comments: Seq<CommentModel>, pointer: Seq<char>) -> Seq<CommentModel> {
    jsonc::anchored(waiting_at(comments, pointer, comments.len()), pointer)
}

spec fn inside_items(
    items: Seq<JsonModel>,
    comments: Seq<CommentModel>,
    pointer: Seq<char>,
    from: nat,
) -> Seq<CommentModel>
    decreases items, items.len() - from,
{
    if from >= items.len() {
        Seq::empty()
    } else {
        let under = pointer::index_pointer(pointer, from);
        ahead_of(comments, under) + inside(items[from as int], comments, under) + inside_items(
            items,
            comments,
            pointer,
            from + 1,
        )
    }
}

spec fn inside_entries(
    entries: Seq<(Seq<char>, JsonModel)>,
    comments: Seq<CommentModel>,
    pointer: Seq<char>,
    from: nat,
) -> Seq<CommentModel>
    decreases entries, entries.len() - from,
{
    if from >= entries.len() {
        Seq::empty()
    } else {
        let under = pointer::key_pointer(pointer, entries[from as int].0);
        ahead_of(comments, under) + inside(entries[from as int].1, comments, under)
            + inside_entries(entries, comments, pointer, from + 1)
    }
}

proof fn lemma_scalar_read(t: Tracker, n: Seq<char>, pointer: Seq<char>, tail: Seq<char>)
    requires
        readable_number(n),
        !t.expecting_key,
        jsonc::pointer_of(t.stack) == pointer,
        tail.len() > 0,
        jsonc::terminator(tail[0]),
    ensures
        plain_from(t, n + tail) == plain_from(after_value(t, pointer, Seq::empty()), tail),
{
    let rest = n + tail;
    assert(rest[0] == n[0]);
    assert(!jsonc::terminator(n[0]));
    lemma_scalar_ends(n, tail, 1);
    lemma_piece_read(t, n, tail);
    let after = after_value(t, pointer, Seq::empty());
    assert(stepped(t, rest).comments =~= after.comments);
}

/// Reading what was written for a value finds the comments that stand inside it.
proof fn lemma_value_read(
    t: Tracker,
    value: JsonModel,
    comments: Seq<CommentModel>,
    pointer: Seq<char>,
    pad: Seq<char>,
    step: Seq<char>,
    tail: Seq<char>,
)
    requires
        are_comments(comments),
        readable(value, t.stack.len()),
        blanks(pad),
        blanks(step),
        !t.expecting_key,
        jsonc::pointer_of(t.stack) == pointer,
        tail.len() > 0,
        jsonc::terminator(tail[0]),
    ensures
        plain_from(t, emit::rendered(value, comments, pointer, pad, step) + tail) == plain_from(
            after_value(t, pointer, inside(value, comments, pointer)),
            tail,
        ),
    decreases value, 0nat,
{
    reveal_strlit("null");
    reveal_strlit("true");
    reveal_strlit("false");
    match value {
        JsonModel::Null => {
            lemma_scalar_read(t, "null"@, pointer, tail);
        },
        JsonModel::Bool(b) => {
            lemma_scalar_read(t, if b { "true"@ } else { "false"@ }, pointer, tail);
        },
        JsonModel::Number(n) => {
            lemma_scalar_read(t, n, pointer, tail);
        },
        JsonModel::Str(s) => {
            lemma_literal(s, tail);
            lemma_piece_read(t, json::string_literal(s), tail);
            let after = after_value(t, pointer, Seq::empty());
            assert(stepped(t, json::string_literal(s) + tail).comments =~= after.comments);
        },
        JsonModel::Array(items) => {
            lemma_array_read(t, items, comments, pointer, pad, step, tail);
        },
        JsonModel::Object(entries) => {
            lemma_object_read(t, entries, comments, pointer, pad, step, tail);
        },
    }
}

/// Reading what was written for an array finds the comments that stand inside it.
proof fn lemma_array_read(
    t: Tracker,
    items: Seq<JsonModel>,
    comments: Seq<CommentModel>,
    pointer: Seq<char>,
    pad: Seq<char>,
    step: Seq<char>,
    tail: Seq<char>,
)
    requires
        are_comments(comments),
        readable(JsonModel::Array(items), t.stack.len()),
        blanks(pad),
        blanks(step),
        !t.expecting_key,
        jsonc::pointer_of(t.stack) == pointer,
        tail.len() > 0,
        jsonc::terminator(tail[0]),
    ensures
        plain_from(
            t,
            emit::rendered(JsonModel::Array(items), comments, pointer, pad, step) + tail,
        ) == plain_from(
            after_value(t, pointer, inside(JsonModel::Array(items), comments, pointer)),
            tail,
        ),
    decreases items, items.len() + 1,
{
    reveal_strlit("[]");
    reveal_strlit("[\n");
    let line = seq!['\n'];
    let value = JsonModel::Array(items);
    let open = seq!['['];
    let close = seq![']'];
    let t1 = Tracker {
        stack: t.stack.push(FrameModel::Array { index: 0 }),
        expecting_key: false,
        ..jsonc::flushed(t)
    };
    let body = if items.len() == 0 {
        Seq::empty()
    } else {
        line + emit::rendered_items(items, comments, pointer, pad, step, 0) + pad
    };
    assert(emit::rendered(value, comments, pointer, pad, step) + tail =~= open + (body + (
    close + tail)));
    lemma_piece_read(t, open, body + (close + tail));
    assert(stepped(t, open + (body + (close + tail))) == t1);
    let found = inside(value, comments, pointer);
    let t2 = Tracker {
        stack: t.stack.push(FrameModel::Array { index: items.len() }),
        comments: t1.comments + found,
        ..t1
    };
    assert(t1.stack.drop_last() =~= t.stack);
    if items.len() == 0 {
        assert(body + (close + tail) =~= close + tail);
        assert(t1.comments + found =~= t1.comments);
    } else {
        let lines = emit::rendered_items(items, comments, pointer, pad, step, 0);
        assert(body + (close + tail) =~= line + (lines + (pad + (close + tail))));
        lemma_blanks(t1, line, lines + (pad + (close + tail)));
        lemma_items_read(t1, items, comments, pointer, pad, step, 0, pad + (close + tail));
        lemma_blanks(t2, pad, close + tail);
    }
    assert(plain_from(t1, body + (close + tail)) == plain_from(t2, close + tail));
    lemma_piece_read(t2, close, tail);
    assert(t2.stack.drop_last() =~= t.stack);
    let after = after_value(t, pointer, found);
    assert(stepped(t2, close + tail).comments =~= after.comments);
}

/// Reading what was written for an object finds the comments that stand inside it.
proof fn lemma_object_read(
    t: Tracker,
    entries: Seq<(Seq<char>, JsonModel)>,
    comments: Seq<CommentModel>,
    pointer: Seq<char>,
    pad: Seq<char>,
    step: Seq<char>,
    tail: Seq<char>,
)
    requires
        are_comments(comments),
        readable(JsonModel::Object(entries), t.stack.len()),
        blanks(pad),
        blanks(step),
        !t.expecting_key,
        jsonc::pointer_of(t.stack) == pointer,
        tail.len() > 0,
        jsonc::terminator(tail[0]),
    ensures
        plain_from(
            t,
            emit::rendered(JsonModel::Object(entries), comments, pointer, pad, step) + tail,
        ) == plain_from(
            after_value(t, pointer, inside(JsonModel::Object(entries), comments, pointer)),
            tail,
        ),
    decreases entries, entries.len() + 1,
{
    reveal_strlit("{}");
    reveal_strlit("{\n");
    let line = seq!['\n'];
    let value = JsonModel::Object(entries);
    let open = seq!['{'];
    let close = seq!['}'];
    let t1 = Tracker {
        stack: t.stack.push(FrameModel::Object { key: None }),
        expecting_key: true,
        ..jsonc::flushed(t)
    };
    let body = if entries.len() == 0 {
        Seq::empty()
    } else {
        line + emit::rendered_entries(entries, comments, pointer, pad, step, 0) + pad
    };
    assert(emit::rendered(value, comments, pointer, pad, step) + tail =~= open + (body + (
    close + tail)));
    lemma_piece_read(t, open, body + (close + tail));
    assert(stepped(t, open + (body + (close + tail))) == t1);
    let found = inside(value, comments, pointer);
    assert(t1.stack.drop_last() =~= t.stack);
    if entries.len() == 0 {
        assert(body + (close + tail) =~= close + tail);
        assert(t1.comments + found =~= t1.comments);
        lemma_piece_read(t1, close, tail);
        let after = after_value(t, pointer, found);
        assert(stepped(t1, close + tail).comments =~= after.comments);
    } else {
        let lines = emit::rendered_entries(entries, comments, pointer, pad, step, 0);
        assert(body + (close + tail) =~= line + (lines + (pad + (close + tail))));
        lemma_blanks(t1, line, lines + (pad + (close + tail)));
        lemma_entries_read(t1, entries, comments, pointer, pad, step, 0, pad + (close + tail));
        let t2 = after_entries(t1, entries, found);
        lemma_blanks(t2, pad, close + tail);
        lemma_piece_read(t2, close, tail);
        assert(t2.stack.drop_last() =~= t.stack);
        let after = after_value(t, pointer, found);
        assert(stepped(t2, close + tail).comments =~= after.comments);
    }
}

/// What is known after the properties of an object.
spec fn after_entries(
    t: Tracker,
    entries: Seq<(Seq<char>, JsonModel)>,
    found: Seq<CommentModel>,
) -> Tracker {
    Tracker {
        stack: t.stack.drop_last().push(FrameModel::Object { key: Some(entries.last().0) }),
        expecting_key: false,
        pending: Seq::empty(),
        comments: t.comments + found,
    }
}

#[verifier::rlimit(40)]
#[verifier::spinoff_prover]
proof fn lemma_items_read(
    t: Tracker,
    items: Seq<JsonModel>,
    comments: Seq<CommentModel>,
    pointer: Seq<char>,
    pad: Seq<char>,
    step: Seq<char>,
    from: nat,
    tail: Seq<char>,
)
    requires
        are_comments(comments),
        readable_items(items, t.stack.len()),
        blanks(pad),
        blanks(step),
        !t.expecting_key,
        t.pending.len() == 0,
        t.stack.len() > 0,
        t.stack.last() == (FrameModel::Array { index: from }),
        jsonc::pointer_of(t.stack.drop_last()) == pointer,
        from <= items.len(),
    ensures
        plain_from(t, emit::rendered_items(items, comments, pointer, pad, step, from) + tail)
            == plain_from(
            Tracker {
                stack: t.stack.drop_last().push(FrameModel::Array { index: items.len() }),
                comments: t.comments + inside_items(items, comments, pointer, from),
                ..t
            },
            tail,
        ),
    decreases items, items.len() - from,
{
    if from == items.len() {
        assert(emit::rendered_items(items, comments, pointer, pad, step, from) + tail =~= tail);
        assert(t.comments + inside_items(items, comments, pointer, from) =~= t.comments);
        assert(t.stack.drop_last().push(FrameModel::Array { index: items.len() }) =~= t.stack);
    } else {
        let under = pointer::index_pointer(pointer, from);
        let item = items[from as int];
        let lines = emit::lines_at(comments, under, pad + step);
        let body = emit::rendered(item, comments, under, pad + step, step);
        let end = emit::line_end(from, items.len());
        let more = emit::rendered_items(items, comments, pointer, pad, step, from + 1);
        let after_body = end + (more + tail);
        assert(emit::rendered_items(items, comments, pointer, pad, step, from) + tail =~= lines + ((
        pad + step) + (body + after_body)));
        lemma_lines_read(
            t,
            comments,
            under,
            pad + step,
            comments.len(),
            (pad + step) + (body + after_body),
        );
        let t1 = Tracker { pending: waiting_at(comments, under, comments.len()), ..t };
        assert(t.pending + t1.pending =~= t1.pending);
        lemma_blanks(t1, pad + step, body + after_body);
        lemma_line_end(from, items.len());
        assert(after_body[0] == end[0]);
        lemma_value_read(t1, item, comments, under, pad + step, step, after_body);
        let t2 = after_value(t1, under, inside(item, comments, under));
        lemma_line_end_read(t2, from, items.len(), more + tail);
        assert(t2.stack.drop_last() =~= t.stack.drop_last());
        lemma_items_read(t2, items, comments, pointer, pad, step, from + 1, tail);
        let found = inside_items(items, comments, pointer, from);
        let rest = inside_items(items, comments, pointer, from + 1);
        assert(t2.comments + rest =~= t.comments + found);
        assert(t2.pending =~= t.pending);
    }
}

proof fn lemma_line_end(i: nat, n: nat)
    ensures
        emit::line_end(i, n).len() > 0,
        jsonc::terminator(emit::line_end(i, n)[0]),
        emit::line_end(i, n) == if i + 1 < n {
            seq![',', '\n']
        } else {
            seq!['\n']
        },
{
    reveal_strlit(",\n");
    assert(",\n"@ =~= seq![',', '\n']);
}

/// The end of a line of a container: after a comma in an object a key follows.
proof fn lemma_line_end_read(t: Tracker, i: nat, n: nat, tail: Seq<char>)
    requires
        t.stack.len() > 0,
        !t.expecting_key,
    ensures
        plain_from(t, emit::line_end(i, n) + tail) == plain_from(
            Tracker { expecting_key: i + 1 < n && t.stack.last() is Object, ..t },
            tail,
        ),
{
    lemma_line_end(i, n);
    let line = seq!['\n'];
    if i + 1 < n {
        let comma = seq![','];
        assert(emit::line_end(i, n) + tail =~= comma + (line + tail));
        lemma_piece_read(t, comma, line + tail);
        lemma_blanks(Tracker { expecting_key: t.stack.last() is Object, ..t }, line, tail);
    } else {
        lemma_blanks(t, line, tail);
    }
}

#[verifier::rlimit(40)]
#[verifier::spinoff_prover]
proof fn lemma_entries_read(
    t: Tracker,
    entries: Seq<(Seq<char>, JsonModel)>,
    comments: Seq<CommentModel>,
    pointer: Seq<char>,
    pad: Seq<char>,
    step: Seq<char>,
    from: nat,
    tail: Seq<char>,
)
    requires
        are_comments(comments),
        readable_entries(entries, t.stack.len()),
        blanks(pad),
        blanks(step),
        t.expecting_key,
        t.pending.len() == 0,
        t.stack.len() > 0,
        t.stack.last() is Object,
        jsonc::pointer_of(t.stack.drop_last()) == pointer,
        from < entries.len(),
    ensures
        plain_from(t, emit::rendered_entries(entries, comments, pointer, pad, step, from) + tail)
            == plain_from(
            after_entries(t, entries, inside_entries(entries, comments, pointer, from)),
            tail,
        ),
    decreases entries, entries.len() - from,
{
    reveal_strlit(": ");
    let under = pointer::key_pointer(pointer, entries[from as int].0);
    let (key, item) = entries[from as int];
    assert(decreases_to!(entries => entries[from as int]));
    let lines = emit::lines_at(comments, under, pad + step);
    let name = json::string_literal(key);
    let body = emit::rendered(item, comments, under, pad + step, step);
    let end = emit::line_end(from, entries.len());
    let more = emit::rendered_entries(entries, comments, pointer, pad, step, from + 1);
    let after_body = end + (more + tail);
    let colon = seq![':'];
    let space = seq![' '];
    let after_name = colon + (space + (body + after_body));
    assert(emit::rendered_entries(entries, comments, pointer, pad, step, from) + tail =~= lines + ((
    pad + step) + (name + after_name)));
    lemma_lines_read(
        t,
        comments,
        under,
        pad + step,
        comments.len(),
        (pad + step) + (name + after_name),
    );
    let t1 = Tracker { pending: waiting_at(comments, under, comments.len()), ..t };
    assert(t.pending + t1.pending =~= t1.pending);
    lemma_blanks(t1, pad + step, name + after_name);
    assert(readable_key(entries[from as int].0));
    lemma_literal(key, after_name);
    lemma_piece_read(t1, name, after_name);
    let t2 = Tracker {
        stack: t.stack.drop_last().push(FrameModel::Object { key: Some(key) }),
        expecting_key: false,
        ..t1
    };
    assert(stepped(t1, name + after_name) == t2);
    lemma_piece_read(t2, colon, space + (body + after_body));
    assert(stepped(t2, after_name) == t2);
    lemma_blanks(t2, space, body + after_body);
    assert(t2.stack.drop_last() =~= t.stack.drop_last());
    lemma_line_end(from, entries.len());
    assert(after_body[0] == end[0]);
    assert(readable(item, t2.stack.len()));
    lemma_value_read(t2, item, comments, under, pad + step, step, after_body);
    let t3 = after_value(t2, under, inside(item, comments, under));
    assert(t3.stack == t2.stack);
    lemma_line_end_read(t3, from, entries.len(), more + tail);
    let found = inside_entries(entries, comments, pointer, from);
    let rest = inside_entries(entries, comments, pointer, from + 1);
    if from + 1 < entries.len() {
        let t4 = Tracker { expecting_key: true, ..t3 };
        lemma_entries_read(t4, entries, comments, pointer, pad, step, from + 1, tail);
        assert(t4.comments + rest =~= t.comments + found);
        assert(after_entries(t4, entries, rest) == after_entries(t, entries, found));
    } else {
        assert(more + tail =~= tail);
        assert(t3.comments =~= t.comments + found);
        assert(t3 == after_entries(t, entries, found));
    }
}

/// The comments of a rendered document, without their spans.
proof fn lemma_document_read(value: JsonModel, comments: Seq<CommentModel>, indent: nat)
    requires
        are_comments(comments),
        readable(value, 0),
    ensures
        all_plain(jsonc::comments_in(emit::document_text(value, comments, indent))) == ahead_of(
            comments,
            Seq::empty(),
        ) + inside(value, comments, Seq::empty()),
{
    let none = Seq::<char>::empty();
    let step = emit::step(indent);
    let body = emit::rendered(value, comments, none, none, step);
    let line = seq!['\n'];
    let t = jsonc::untouched();
    let whole = emit::document_text(value, comments, indent);
    lemma_plain_from(t, whole, 0);
    assert(plain_tracker(t).pending =~= t.pending);
    assert(plain_tracker(t).comments =~= t.comments);
    assert(whole =~= emit::lines_at(comments, none, none) + (body + line));
    lemma_lines_read(t, comments, none, none, comments.len(), body + line);
    let t1 = Tracker { pending: waiting_at(comments, none, comments.len()), ..t };
    assert(t.pending + t1.pending =~= t1.pending);
    lemma_value_read(t1, value, comments, none, none, step, line);
    let t2 = after_value(t1, none, inside(value, comments, none));
    lemma_blanks(t2, line, none);
    assert(line + none =~= line);
    assert(t2.comments + jsonc::anchored(t2.pending, none) =~= ahead_of(comments, none) + inside(
        value,
        comments,
        none,
    ));
}

proof fn lemma_remarks_concat(a: Seq<CommentModel>, b: Seq<CommentModel>, pointer: Seq<char>)
    ensures
        remarks_at(a + b, pointer) == remarks_at(a, pointer) + remarks_at(b, pointer),
    decreases b.len(),
{
    if b.len() == 0 {
        assert(a + b =~= a);
        assert(remarks_at(a, pointer) + remarks_at(b, pointer) =~= remarks_at(a, pointer));
    } else {
        lemma_remarks_concat(a, b.drop_last(), pointer);
        assert((a + b).drop_last() =~= a + b.drop_last());
        assert((a + b).last() == b.last());
        assert(remarks_at(a + b, pointer) =~= remarks_at(a, pointer) + remarks_at(b, pointer));
    }
}

proof fn lemma_plain_remarks(comments: Seq<CommentModel>, pointer: Seq<char>)
    ensures
        remarks_at(all_plain(comments), pointer) == remarks_at(comments, pointer),
    decreases comments.len(),
{
    if comments.len() > 0 {
        lemma_plain_remarks(comments.drop_last(), pointer);
        assert(all_plain(comments).drop_last() =~= all_plain(comments.drop_last()));
        assert(all_plain(comments).last() == plain(comments.last()));
    }
}

proof fn lemma_remarks_ahead(comments: Seq<CommentModel>, pointer: Seq<char>, place: Seq<char>, n: nat)
    requires
        n <= comments.len(),
    ensures
        remarks_at(jsonc::anchored(waiting_at(comments, pointer, n), pointer), place) == (
        if pointer == place {
            remarks_at(comments.take(n as int), place)
        } else {
            Seq::empty()
        }),
    decreases n,
{
    let here = jsonc::anchored(waiting_at(comments, pointer, n), pointer);
    let first = comments.take(n as int);
    if n == 0 {
        assert(here.len() == 0);
    } else {
        let m = (n - 1) as nat;
        lemma_remarks_ahead(comments, pointer, place, m);
        assert(first.drop_last() =~= comments.take(m as int));
        if comments[n - 1].anchor == pointer {
            assert(here.drop_last() =~= jsonc::anchored(
                waiting_at(comments, pointer, m),
                pointer,
            ));
        }
    }
}

/// Whether `place` stands below `pointer`, or at it.
spec fn below(pointer: Seq<char>, place: Seq<char>) -> bool {
    place == pointer || strictly_below(pointer, place)
}

spec fn strictly_below(pointer: Seq<char>, place: Seq<char>) -> bool {
    place.len() > pointer.len() && place.take(pointer.len() as int) == pointer
        && place[pointer.len() as int] == '/'
}

/// A segment is below a pointer, and what is below it is strictly below the pointer.
proof fn lemma_segment(pointer: Seq<char>, segment: Seq<char>, place: Seq<char>)
    requires
        below(pointer.push('/') + segment, place),
    ensures
        strictly_below(pointer, place),
{
    let under = pointer.push('/') + segment;
    assert(under.take(pointer.len() as int) =~= pointer);
    if place != under {
        assert(place.take(pointer.len() as int) =~= place.take(under.len() as int).take(
            pointer.len() as int,
        ));
        assert(place[pointer.len() as int] == place.take(under.len() as int)[pointer.len() as int]);
    }
}

/// A place is below one segment only.
proof fn lemma_apart(pointer: Seq<char>, first: Seq<char>, second: Seq<char>, place: Seq<char>)
    requires
        pointer::no_slash(first),
        pointer::no_slash(second),
        below(pointer.push('/') + first, place),
        below(pointer.push('/') + second, place),
    ensures
        first == second,
{
    let a = pointer.push('/') + first;
    let b = pointer.push('/') + second;
    let n: int = pointer.len() as int + 1;
    assert(place.take(a.len() as int) =~= a);
    assert(place.take(b.len() as int) =~= b);
    assert forall|i: int| 0 <= i < first.len() implies place[n + i] == #[trigger] first[i] by {
        assert(place.take(a.len() as int)[n + i] == a[n + i]);
    }
    assert forall|i: int| 0 <= i < second.len() implies place[n + i] == #[trigger] second[i] by {
        assert(place.take(b.len() as int)[n + i] == b[n + i]);
    }
    if first.len() < second.len() {
        assert(place[n + first.len() as int] == second[first.len() as int]);
    } else if second.len() < first.len() {
        assert(place[n + second.len() as int] == first[second.len() as int]);
    }
    assert(first =~= second);
}

proof fn lemma_none_ahead(comments: Seq<CommentModel>, pointer: Seq<char>, place: Seq<char>)
    ensures
        remarks_at(ahead_of(comments, pointer), place) == if pointer == place {
            remarks_at(comments, place)
        } else {
            Seq::empty()
        },
{
    lemma_remarks_ahead(comments, pointer, place, comments.len());
    assert(comments.take(comments.len() as int) =~= comments);
}

/// The comments inside a value are anchored strictly below it.
proof fn lemma_none_inside(
    value: JsonModel,
    comments: Seq<CommentModel>,
    pointer: Seq<char>,
    place: Seq<char>,
)
    requires
        !strictly_below(pointer, place),
    ensures
        remarks_at(inside(value, comments, pointer), place).len() == 0,
    decreases value, 0nat,
{
    match value {
        JsonModel::Array(items) => {
            assert forall|k: nat| k < items.len() implies !below(
                #[trigger] pointer::index_pointer(pointer, k),
                place,
            ) by {
                if below(pointer::index_pointer(pointer, k), place) {
                    lemma_segment(pointer, text::decimal(k), place);
                }
            }
            lemma_none_in_items(items, comments, pointer, place, 0);
        },
        JsonModel::Object(entries) => {
            assert forall|k: int| 0 <= k < entries.len() implies !below(
                pointer::key_pointer(pointer, (#[trigger] entries[k]).0),
                place,
            ) by {
                if below(pointer::key_pointer(pointer, entries[k].0), place) {
                    lemma_segment(pointer, pointer::escaped(entries[k].0), place);
                }
            }
            lemma_none_in_entries(entries, comments, pointer, place, 0);
        },
        _ => {},
    }
}

proof fn lemma_none_in_items(
    items: Seq<JsonModel>,
    comments: Seq<CommentModel>,
    pointer: Seq<char>,
    place: Seq<char>,
    from: nat,
)
    requires
        forall|k: nat|
            from <= k < items.len() ==> !below(
                #[trigger] pointer::index_pointer(pointer, k),
                place,
            ),
    ensures
        remarks_at(inside_items(items, comments, pointer, from), place).len() == 0,
    decreases items, items.len() - from,
{
    if from < items.len() {
        let under = pointer::index_pointer(pointer, from);
        let inner = inside(items[from as int], comments, under);
        let rest = inside_items(items, comments, pointer, from + 1);
        lemma_none_ahead(comments, under, place);
        lemma_none_inside(items[from as int], comments, under, place);
        lemma_none_in_items(items, comments, pointer, place, from + 1);
        lemma_remarks_concat(ahead_of(comments, under) + inner, rest, place);
        lemma_remarks_concat(ahead_of(comments, under), inner, place);
    }
}

proof fn lemma_none_in_entries(
    entries: Seq<(Seq<char>, JsonModel)>,
    comments: Seq<CommentModel>,
    pointer: Seq<char>,
    place: Seq<char>,
    from: nat,
)
    requires
        forall|k: int|
            from <= k < entries.len() ==> !below(
                pointer::key_pointer(pointer, (#[trigger] entries[k]).0),
                place,
            ),
    ensures
        remarks_at(inside_entries(entries, comments, pointer, from), place).len() == 0,
    decreases entries, entries.len() - from,
{
    if from < entries.len() {
        assert(decreases_to!(entries => entries[from as int]));
        let under = pointer::key_pointer(pointer, entries[from as int].0);
        let inner = inside(entries[from as int].1, comments, under);
        let rest = inside_entries(entries, comments, pointer, from + 1);
        lemma_none_ahead(comments, under, place);
        lemma_none_inside(entries[from as int].1, comments, under, place);
        lemma_none_in_entries(entries, comments, pointer, place, from + 1);
        lemma_remarks_concat(ahead_of(comments, under) + inner, rest, place);
        lemma_remarks_concat(ahead_of(comments, under), inner, place);
    }
}

/// What stands inside a value stands strictly below it.
proof fn lemma_stands_below(value: JsonModel, pointer: Seq<char>, place: Seq<char>)
    requires
        emit::stands_at(value, pointer, place),
    ensures
        strictly_below(pointer, place),
    decreases value, 0nat,
{
    match value {
        JsonModel::Array(items) => {
            let k = lemma_item_below(items, pointer, place, 0);
            lemma_segment(pointer, text::decimal(k), place);
        },
        JsonModel::Object(entries) => {
            let k = lemma_entry_below(entries, pointer, place, 0);
            lemma_segment(pointer, pointer::escaped(entries[k as int].0), place);
        },
        _ => {},
    }
}

proof fn lemma_item_below(items: Seq<JsonModel>, pointer: Seq<char>, place: Seq<char>, from: nat) -> (k:
    nat)
    requires
        emit::item_stands_at(items, pointer, place, from),
    ensures
        from <= k < items.len(),
        below(pointer::index_pointer(pointer, k), place),
    decreases items, items.len() - from,
{
    let under = pointer::index_pointer(pointer, from);
    if under == place {
        from
    } else if emit::stands_at(items[from as int], under, place) {
        lemma_stands_below(items[from as int], under, place);
        from
    } else {
        lemma_item_below(items, pointer, place, from + 1)
    }
}

proof fn lemma_entry_below(
    entries: Seq<(Seq<char>, JsonModel)>,
    pointer: Seq<char>,
    place: Seq<char>,
    from: nat,
) -> (k: nat)
    requires
        emit::entry_stands_at(entries, pointer, place, from),
    ensures
        from <= k < entries.len(),
        below(pointer::key_pointer(pointer, entries[k as int].0), place),
    decreases entries, entries.len() - from,
{
    let under = pointer::key_pointer(pointer, entries[from as int].0);
    assert(decreases_to!(entries => entries[from as int]));
    if under == place {
        from
    } else if emit::stands_at(entries[from as int].1, under, place) {
        lemma_stands_below(entries[from as int].1, under, place);
        from
    } else {
        lemma_entry_below(entries, pointer, place, from + 1)
    }
}

/// Among the comments inside a value, those at a place inside it are all that are
/// anchored there.
proof fn lemma_place(
    value: JsonModel,
    comments: Seq<CommentModel>,
    pointer: Seq<char>,
    place: Seq<char>,
    depth: nat,
)
    requires
        readable(value, depth),
        emit::stands_at(value, pointer, place),
    ensures
        remarks_at(inside(value, comments, pointer), place) == remarks_at(comments, place),
    decreases value, 0nat,
{
    match value {
        JsonModel::Array(items) => {
            lemma_item_place(items, comments, pointer, place, 0, depth + 1);
        },
        JsonModel::Object(entries) => {
            lemma_entry_place(entries, comments, pointer, place, 0, depth + 1);
        },
        _ => {},
    }
}

proof fn lemma_item_place(
    items: Seq<JsonModel>,
    comments: Seq<CommentModel>,
    pointer: Seq<char>,
    place: Seq<char>,
    from: nat,
    depth: nat,
)
    requires
        readable_items(items, depth),
        emit::item_stands_at(items, pointer, place, from),
    ensures
        remarks_at(inside_items(items, comments, pointer, from), place) == remarks_at(
            comments,
            place,
        ),
    decreases items, items.len() - from,
{
    let under = pointer::index_pointer(pointer, from);
    let item = items[from as int];
    let inner = inside(item, comments, under);
    let rest = inside_items(items, comments, pointer, from + 1);
    lemma_none_ahead(comments, under, place);
    lemma_remarks_concat(ahead_of(comments, under) + inner, rest, place);
    lemma_remarks_concat(ahead_of(comments, under), inner, place);
    if under == place || emit::stands_at(item, under, place) {
        if under == place {
            lemma_none_inside(item, comments, under, place);
        } else {
            lemma_stands_below(item, under, place);
            lemma_place(item, comments, under, place, depth);
        }
        assert forall|k: nat| from + 1 <= k < items.len() implies !below(
            #[trigger] pointer::index_pointer(pointer, k),
            place,
        ) by {
            if below(pointer::index_pointer(pointer, k), place) {
                lemma_indices_apart(pointer, from, k, place);
            }
        }
        lemma_none_in_items(items, comments, pointer, place, from + 1);
    } else {
        let k = lemma_item_below(items, pointer, place, from + 1);
        if below(under, place) {
            lemma_indices_apart(pointer, from, k, place);
        }
        lemma_none_inside(item, comments, under, place);
        lemma_item_place(items, comments, pointer, place, from + 1, depth);
    }
    assert(remarks_at(inside_items(items, comments, pointer, from), place) =~= remarks_at(
        comments,
        place,
    ));
}

proof fn lemma_indices_apart(pointer: Seq<char>, first: nat, second: nat, place: Seq<char>)
    requires
        below(pointer::index_pointer(pointer, first), place),
        below(pointer::index_pointer(pointer, second), place),
    ensures
        first == second,
{
    pointer::lemma_decimal(first);
    pointer::lemma_decimal(second);
    lemma_apart(pointer, text::decimal(first), text::decimal(second), place);
    pointer::lemma_decimal_distinct(first, second);
}

proof fn lemma_keys_apart(pointer: Seq<char>, first: Seq<char>, second: Seq<char>, place: Seq<char>)
    requires
        below(pointer::key_pointer(pointer, first), place),
        below(pointer::key_pointer(pointer, second), place),
    ensures
        first == second,
{
    pointer::lemma_escaped(first);
    pointer::lemma_escaped(second);
    lemma_apart(pointer, pointer::escaped(first), pointer::escaped(second), place);
    pointer::distinct_keys_have_distinct_pointers(pointer, first, second);
}

proof fn lemma_entry_place(
    entries: Seq<(Seq<char>, JsonModel)>,
    comments: Seq<CommentModel>,
    pointer: Seq<char>,
    place: Seq<char>,
    from: nat,
    depth: nat,
)
    requires
        readable_entries(entries, depth),
        emit::entry_stands_at(entries, pointer, place, from),
    ensures
        remarks_at(inside_entries(entries, comments, pointer, from), place) == remarks_at(
            comments,
            place,
        ),
    decreases entries, entries.len() - from,
{
    let under = pointer::key_pointer(pointer, entries[from as int].0);
    let item = entries[from as int].1;
    assert(decreases_to!(entries => entries[from as int]));
    let inner = inside(item, comments, under);
    let rest = inside_entries(entries, comments, pointer, from + 1);
    lemma_none_ahead(comments, under, place);
    lemma_remarks_concat(ahead_of(comments, under) + inner, rest, place);
    lemma_remarks_concat(ahead_of(comments, under), inner, place);
    if under == place || emit::stands_at(item, under, place) {
        if under == place {
            lemma_none_inside(item, comments, under, place);
        } else {
            lemma_stands_below(item, under, place);
            lemma_place(item, comments, under, place, depth);
        }
        assert forall|k: int| from + 1 <= k < entries.len() implies !below(
            pointer::key_pointer(pointer, (#[trigger] entries[k]).0),
            place,
        ) by {
            if below(pointer::key_pointer(pointer, entries[k].0), place) {
                lemma_keys_apart(pointer, entries[from as int].0, entries[k].0, place);
            }
        }
        lemma_none_in_entries(entries, comments, pointer, place, from + 1);
    } else {
        let k = lemma_entry_below(entries, pointer, place, from + 1);
        if below(under, place) {
            lemma_keys_apart(pointer, entries[from as int].0, entries[k as int].0, place);
        }
        lemma_none_inside(item, comments, under, place);
        lemma_entry_place(entries, comments, pointer, place, from + 1, depth);
    }
    assert(remarks_at(inside_entries(entries, comments, pointer, from), place) =~= remarks_at(
        comments,
        place,
    ));
}

proof fn lemma_texts(comments: Seq<CommentModel>, pointer: Seq<char>)
    ensures
        comments::texts_at(comments, pointer) == remarks_at(comments, pointer).map_values(
            |r: (Seq<char>, CommentKind)| r.0,
        ),
    decreases comments.len(),
{
    if comments.len() > 0 {
        lemma_texts(comments.drop_last(), pointer);
    }
    assert(comments::texts_at(comments, pointer) =~= remarks_at(comments, pointer).map_values(
        |r: (Seq<char>, CommentKind)| r.0,
    ));
}

/// The comments of a document are read back from its JSON with comments: at every place
/// of the value, the text that was written holds the same comments in the same order,
/// each with its text and its form.
pub proof fn inline_comments_are_read_back(
    value: JsonModel,
    comments: Seq<CommentModel>,
    indent: nat,
    place: Seq<char>,
)
    requires
        are_comments(comments),
        readable(value, 0),
        place == Seq::<char>::empty() || emit::stands_at(value, Seq::empty(), place),
    ensures
        remarks_at(jsonc::comments_in(emit::document_text(value, comments, indent)), place)
            == remarks_at(comments, place),
        comments::texts_at(jsonc::comments_in(emit::document_text(value, comments, indent)), place)
            == comments::texts_at(comments, place),
{
    let none = Seq::<char>::empty();
    let read = jsonc::comments_in(emit::document_text(value, comments, indent));
    lemma_document_read(value, comments, indent);
    lemma_plain_remarks(read, place);
    let inner = inside(value, comments, none);
    lemma_remarks_concat(ahead_of(comments, none), inner, place);
    lemma_none_ahead(comments, none, place);
    if place == none {
        lemma_none_inside(value, comments, none, place);
    } else {
        lemma_place(value, comments, none, place, 0);
    }
    assert(remarks_at(read, place) =~= remarks_at(comments, place));
    lemma_texts(read, place);
    lemma_texts(comments, place);
}

} // verus!
