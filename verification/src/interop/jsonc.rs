//! JSON with comments.
//!
//! A single pass over the text replaces every comment by white space of the same
//! length, so that an ordinary JSON parser reads the rest with its offsets unchanged,
//! and anchors each comment to the JSON Pointer of the value that follows it. A comment
//! marker inside a string is text. Where no value follows, a comment is anchored to the
//! root.

use vstd::prelude::*;

use crate::interop::comments::{self, Comment, CommentKind, CommentModel};
use crate::interop::json::{self, Json};
use crate::interop::pointer;
use crate::syntax::TextRange;
use crate::text;

verus! {

/// How deep containers are tracked. Below that, comments are anchored to the last
/// pointer that was known.
pub const MAX_TRACK_DEPTH: usize = 1024;

/// What a text starts with.
pub enum Piece {
    LineComment,
    BlockComment,
    String,
    OpenObject,
    OpenArray,
    Close,
    Colon,
    Comma,
    Blank,
    Scalar,
}

/// What `rest` starts with.
pub open spec fn piece(rest: Seq<char>) -> Piece {
    let c = rest[0];
    if c == '/' && rest.len() > 1 && rest[1] == '/' {
        Piece::LineComment
    } else if c == '/' && rest.len() > 1 && rest[1] == '*' {
        Piece::BlockComment
    } else if c == '"' {
        Piece::String
    } else if c == '{' {
        Piece::OpenObject
    } else if c == '[' {
        Piece::OpenArray
    } else if c == '}' || c == ']' {
        Piece::Close
    } else if c == ':' {
        Piece::Colon
    } else if c == ',' {
        Piece::Comma
    } else if blank(c) {
        Piece::Blank
    } else {
        Piece::Scalar
    }
}

/// Whether a character is JSON white space.
pub open spec fn blank(c: char) -> bool {
    c == ' ' || c == '\t' || c == '\r' || c == '\n'
}

/// Whether a character ends a scalar.
pub open spec fn terminator(c: char) -> bool {
    blank(c) || c == ',' || c == '}' || c == ']' || c == '{' || c == '[' || c == ':' || c == '/'
}

/// Where the block comment that `rest` starts with ends, looking for its end from `j` on.
pub open spec fn block_end(rest: Seq<char>, j: int) -> int
    decreases rest.len() - j,
{
    if j + 1 >= rest.len() {
        rest.len() as int
    } else if rest[j] == '*' && rest[j + 1] == '/' {
        j + 2
    } else {
        block_end(rest, j + 1)
    }
}

/// Where the string that `rest` starts with ends, looking for its end from `j` on.
pub open spec fn string_end(rest: Seq<char>, j: int) -> int
    decreases rest.len() - j,
{
    if j >= rest.len() {
        rest.len() as int
    } else if rest[j] == '\\' {
        if j + 1 < rest.len() {
            string_end(rest, j + 2)
        } else {
            rest.len() as int
        }
    } else if rest[j] == '"' {
        j + 1
    } else {
        string_end(rest, j + 1)
    }
}

/// Where the scalar that `rest` starts with ends, looking for its end from `j` on.
pub open spec fn scalar_end(rest: Seq<char>, j: int) -> int
    decreases rest.len() - j,
{
    if j >= rest.len() {
        rest.len() as int
    } else if terminator(rest[j]) {
        j
    } else {
        scalar_end(rest, j + 1)
    }
}

/// The length of what `rest` starts with.
pub open spec fn piece_len(rest: Seq<char>) -> int {
    match piece(rest) {
        Piece::LineComment => text::index_from(rest, '\n', 2),
        Piece::BlockComment => block_end(rest, 2),
        Piece::String => string_end(rest, 1),
        Piece::Scalar => scalar_end(rest, 1),
        _ => 1,
    }
}

proof fn lemma_block_end(rest: Seq<char>, j: int)
    requires
        0 <= j,
    ensures
        j <= rest.len() ==> j <= block_end(rest, j) <= rest.len(),
    decreases rest.len() - j,
{
    if j + 1 < rest.len() && !(rest[j] == '*' && rest[j + 1] == '/') {
        lemma_block_end(rest, j + 1);
    }
}

proof fn lemma_string_end(rest: Seq<char>, j: int)
    requires
        0 <= j,
    ensures
        j <= rest.len() ==> j <= string_end(rest, j) <= rest.len(),
    decreases rest.len() - j,
{
    if j < rest.len() {
        lemma_string_end(rest, j + 1);
        if j + 1 < rest.len() {
            lemma_string_end(rest, j + 2);
        }
    }
}

proof fn lemma_scalar_end(rest: Seq<char>, j: int)
    requires
        0 <= j,
    ensures
        j <= rest.len() ==> j <= scalar_end(rest, j) <= rest.len(),
        forall|k: int| j <= k < scalar_end(rest, j) ==> !terminator(#[trigger] rest[k]),
        j <= scalar_end(rest, j) < rest.len() ==> terminator(rest[scalar_end(rest, j)]),
    decreases rest.len() - j,
{
    if j < rest.len() && !terminator(rest[j]) {
        lemma_scalar_end(rest, j + 1);
    }
}

proof fn lemma_index_from(rest: Seq<char>, c: char, j: int)
    requires
        0 <= j,
    ensures
        j <= rest.len() ==> j <= text::index_from(rest, c, j) <= rest.len(),
    decreases rest.len() - j,
{
    if j < rest.len() && rest[j] != c {
        lemma_index_from(rest, c, j + 1);
    }
}

/// What a text starts with takes at least one character and no more than there are.
pub proof fn lemma_piece_len(rest: Seq<char>)
    requires
        rest.len() > 0,
    ensures
        1 <= piece_len(rest) <= rest.len(),
        (piece(rest) is LineComment || piece(rest) is BlockComment) ==> piece_len(rest) >= 2,
{
    lemma_block_end(rest, 2);
    lemma_string_end(rest, 1);
    lemma_scalar_end(rest, 1);
    lemma_index_from(rest, '\n', 2);
}

/// White space in the place of a character of a comment: line ends stay, anything else
/// becomes as many spaces as it has bytes.
pub open spec fn blanked_char(c: char) -> Seq<char> {
    if c == '\n' || c == '\r' {
        seq![c]
    } else {
        text::spaces(text::char_len(c))
    }
}

/// White space in the place of a comment.
pub open spec fn blanked(comment: Seq<char>) -> Seq<char>
    decreases comment.len(),
{
    if comment.len() == 0 {
        Seq::empty()
    } else {
        blanked_char(comment[0]) + blanked(comment.drop_first())
    }
}

/// What stands in the stripped text for what `rest` starts with.
pub open spec fn kept(rest: Seq<char>) -> Seq<char> {
    let head = rest.take(piece_len(rest));
    if piece(rest) is LineComment || piece(rest) is BlockComment {
        blanked(head)
    } else {
        head
    }
}

/// A text with white space in the place of its comments.
pub open spec fn stripped(rest: Seq<char>) -> Seq<char>
    decreases rest.len(),
    via stripped_decreases
{
    if rest.len() == 0 {
        Seq::empty()
    } else {
        kept(rest) + stripped(rest.skip(piece_len(rest)))
    }
}

#[via_fn]
proof fn stripped_decreases(rest: Seq<char>) {
    if rest.len() > 0 {
        lemma_piece_len(rest);
    }
}

/// A container that is open.
pub enum FrameModel {
    /// An array; `index` is that of the next item.
    Array { index: nat },
    /// An object; `key` is the property read last.
    Object { key: Option<Seq<char>> },
}

/// A comment that waits for the value it belongs to.
pub struct Waiting {
    pub text: Seq<char>,
    pub kind: CommentKind,
    pub source_range: TextRange,
}

/// What is known at a point of the text.
pub struct Tracker {
    pub stack: Seq<FrameModel>,
    pub expecting_key: bool,
    pub pending: Seq<Waiting>,
    pub comments: Seq<CommentModel>,
}

/// The pointer of the value that is read next.
pub open spec fn pointer_of(stack: Seq<FrameModel>) -> Seq<char>
    decreases stack.len(),
{
    if stack.len() == 0 {
        Seq::empty()
    } else {
        let outer = pointer_of(stack.drop_last());
        match stack.last() {
            FrameModel::Array { index } => pointer::index_pointer(outer, index),
            FrameModel::Object { key } => match key {
                Some(k) => pointer::key_pointer(outer, k),
                None => outer,
            },
        }
    }
}

/// The containers after a value was read: the innermost array goes on to its next item.
pub open spec fn advanced(stack: Seq<FrameModel>) -> Seq<FrameModel> {
    if stack.len() > 0 {
        match stack.last() {
            FrameModel::Array { index } => stack.drop_last().push(
                FrameModel::Array { index: index + 1 },
            ),
            FrameModel::Object { .. } => stack,
        }
    } else {
        stack
    }
}

/// Comments anchored to `pointer`.
pub open spec fn anchored(pending: Seq<Waiting>, pointer: Seq<char>) -> Seq<CommentModel> {
    pending.map_values(
        |w: Waiting|
            CommentModel {
                text: w.text,
                kind: w.kind,
                source_range: w.source_range,
                anchor: pointer,
            },
    )
}

/// The waiting comments anchored to the value that is read now.
pub open spec fn flushed(t: Tracker) -> Tracker {
    Tracker {
        pending: Seq::empty(),
        comments: t.comments + anchored(t.pending, pointer_of(t.stack)),
        ..t
    }
}

/// The containers with one more, unless they are too deep.
pub open spec fn entered(stack: Seq<FrameModel>, frame: FrameModel) -> Seq<FrameModel> {
    if stack.len() < MAX_TRACK_DEPTH {
        stack.push(frame)
    } else {
        stack
    }
}

/// The containers without the innermost one.
pub open spec fn left(stack: Seq<FrameModel>) -> Seq<FrameModel> {
    if stack.len() > 0 {
        stack.drop_last()
    } else {
        stack
    }
}

/// The character that an escape stands for in a property name.
pub open spec fn escape_char(c: char) -> char {
    if c == 'n' {
        '\n'
    } else if c == 'r' {
        '\r'
    } else if c == 't' {
        '\t'
    } else {
        c
    }
}

/// The contents, from position `j` on, of the string that `rest` starts with.
pub open spec fn string_contents(rest: Seq<char>, j: int) -> Seq<char>
    decreases rest.len() - j,
{
    if j >= rest.len() || rest[j] == '"' {
        Seq::empty()
    } else if rest[j] == '\\' {
        if j + 1 < rest.len() {
            seq![escape_char(rest[j + 1])] + string_contents(rest, j + 2)
        } else {
            Seq::empty()
        }
    } else {
        seq![rest[j]] + string_contents(rest, j + 1)
    }
}

/// What is known after what `rest` starts with, which begins at byte `offset`.
pub open spec fn noted(t: Tracker, rest: Seq<char>, offset: nat) -> Tracker {
    let head = rest.take(piece_len(rest));
    let range = TextRange { start: offset as usize, end: (offset + text::byte_len(head)) as usize };
    match piece(rest) {
        Piece::LineComment => Tracker {
            pending: t.pending.push(
                Waiting { text: head, kind: CommentKind::Line, source_range: range },
            ),
            ..t
        },
        Piece::BlockComment => Tracker {
            pending: t.pending.push(
                Waiting { text: head, kind: CommentKind::Block, source_range: range },
            ),
            ..t
        },
        Piece::String => if t.expecting_key {
            Tracker {
                stack: if t.stack.len() > 0 && t.stack.last() is Object {
                    t.stack.drop_last().push(
                        FrameModel::Object { key: Some(string_contents(rest, 1)) },
                    )
                } else {
                    t.stack
                },
                expecting_key: false,
                ..t
            }
        } else {
            Tracker { stack: advanced(t.stack), ..flushed(t) }
        },
        Piece::OpenObject => Tracker {
            stack: entered(t.stack, FrameModel::Object { key: None }),
            expecting_key: true,
            ..flushed(t)
        },
        Piece::OpenArray => Tracker {
            stack: entered(t.stack, FrameModel::Array { index: 0 }),
            expecting_key: false,
            ..flushed(t)
        },
        Piece::Close => Tracker { stack: advanced(left(t.stack)), expecting_key: false, ..t },
        Piece::Colon => Tracker { expecting_key: false, ..t },
        Piece::Comma => Tracker {
            expecting_key: t.expecting_key || (t.stack.len() > 0 && t.stack.last() is Object),
            ..t
        },
        Piece::Blank => t,
        Piece::Scalar => Tracker { stack: advanced(t.stack), ..flushed(t) },
    }
}

/// The comments of the text, given what is known where `rest` begins, at byte `offset`.
pub open spec fn comments_from(t: Tracker, rest: Seq<char>, offset: nat) -> Seq<CommentModel>
    decreases rest.len(),
    via comments_from_decreases
{
    if rest.len() == 0 {
        t.comments + anchored(t.pending, Seq::empty())
    } else {
        comments_from(
            noted(t, rest, offset),
            rest.skip(piece_len(rest)),
            offset + text::byte_len(rest.take(piece_len(rest))),
        )
    }
}

#[via_fn]
proof fn comments_from_decreases(t: Tracker, rest: Seq<char>, offset: nat) {
    if rest.len() > 0 {
        lemma_piece_len(rest);
    }
}

/// What is known at the beginning of a text.
pub open spec fn untouched() -> Tracker {
    Tracker {
        stack: Seq::empty(),
        expecting_key: false,
        pending: Seq::empty(),
        comments: Seq::empty(),
    }
}

/// The comments of a text, in order.
pub open spec fn comments_in(input: Seq<char>) -> Seq<CommentModel> {
    comments_from(untouched(), input, 0)
}

/// A container that is open.
enum Frame {
    Array { index: usize },
    Object { key: Option<String> },
}

impl Frame {
    spec fn model(self) -> FrameModel {
        match self {
            Frame::Array { index } => FrameModel::Array { index: index as nat },
            Frame::Object { key } => FrameModel::Object {
                key: match key {
                    Some(k) => Some(k@),
                    None => None,
                },
            },
        }
    }
}

/// A comment that waits for the value it belongs to.
struct Pending {
    text: String,
    kind: CommentKind,
    source_range: TextRange,
}

impl Pending {
    spec fn model(self) -> Waiting {
        Waiting { text: self.text@, kind: self.kind, source_range: self.source_range }
    }
}

/// The state of the pass over a text.
struct Scanner {
    stack: Vec<Frame>,
    expecting_key: bool,
    pending: Vec<Pending>,
    comments: Vec<Comment>,
}

spec fn frames(stack: Seq<Frame>) -> Seq<FrameModel> {
    stack.map_values(|f: Frame| f.model())
}

spec fn waiting(pending: Seq<Pending>) -> Seq<Waiting> {
    pending.map_values(|p: Pending| p.model())
}

impl Scanner {
    spec fn model(self) -> Tracker {
        Tracker {
            stack: frames(self.stack@),
            expecting_key: self.expecting_key,
            pending: waiting(self.pending@),
            comments: comments::models(self.comments@),
        }
    }

    /// Whether every array index is at most `n`.
    spec fn bounded(self, n: int) -> bool {
        forall|i: int|
            0 <= i < self.stack@.len() ==> (#[trigger] self.stack@[i] matches Frame::Array { index }
                ==> index <= n)
    }

    /// Anchors the waiting comments to `pointer`.
    fn flush_pending(&mut self, pointer: &str)
        ensures
            final(self).model() == (Tracker {
                pending: Seq::empty(),
                comments: old(self).model().comments + anchored(
                    old(self).model().pending,
                    pointer@,
                ),
                ..old(self).model()
            }),
            final(self).stack == old(self).stack,
    {
        let ghost all = waiting(self.pending@);
        let ghost before = comments::models(self.comments@);
        let mut i: usize = 0;
        assert(comments::models(self.comments@) =~= before + anchored(all.take(0), pointer@));
        while i < self.pending.len()
            invariant
                i <= self.pending@.len(),
                self.pending == old(self).pending,
                self.stack == old(self).stack,
                self.expecting_key == old(self).expecting_key,
                all == waiting(self.pending@),
                comments::models(self.comments@) == before + anchored(
                    all.take(i as int),
                    pointer@,
                ),
            decreases self.pending@.len() - i,
        {
            let ghost so_far = comments::models(self.comments@);
            let comment = Comment {
                text: self.pending[i].text.clone(),
                kind: self.pending[i].kind,
                source_range: self.pending[i].source_range,
                anchor_pointer: pointer.to_owned(),
            };
            let ghost c = comment@;
            self.comments.push(comment);
            assert(comments::models(self.comments@) =~= so_far.push(c));
            assert(comments::models(self.comments@) =~= before + anchored(
                all.take(i + 1),
                pointer@,
            ));
            i += 1;
        }
        assert(all.take(i as int) =~= all);
        self.pending = Vec::new();
        assert(waiting(self.pending@) =~= Seq::<Waiting>::empty());
    }

    /// Anchors the waiting comments to the value that is read now.
    fn flush(&mut self)
        ensures
            final(self).model() == flushed(old(self).model()),
            final(self).stack == old(self).stack,
    {
        let pointer = current_pointer(&self.stack);
        self.flush_pending(pointer.as_str());
    }

    /// Goes on to the next item of the innermost array.
    fn advance_after_value(&mut self, n: usize)
        requires
            old(self).bounded(n as int),
            n < usize::MAX,
        ensures
            final(self).model() == (Tracker {
                stack: advanced(old(self).model().stack),
                ..old(self).model()
            }),
            final(self).bounded(n + 1),
    {
        let ghost before = frames(self.stack@);
        match self.stack.pop() {
            None => {},
            Some(Frame::Array { index }) => {
                assert(old(self).stack@[old(self).stack@.len() - 1] == Frame::Array { index });
                self.stack.push(Frame::Array { index: index + 1 });
                assert(frames(self.stack@) =~= advanced(before));
            },
            Some(Frame::Object { key }) => {
                self.stack.push(Frame::Object { key });
                assert(self.stack@ =~= old(self).stack@);
            },
        }
        assert(frames(self.stack@) =~= advanced(before));
    }

    /// Enters a container, unless it is too deep to follow.
    fn enter(&mut self, frame: Frame)
        ensures
            final(self).model() == (Tracker {
                stack: entered(old(self).model().stack, frame.model()),
                ..old(self).model()
            }),
            forall|n: int|
                old(self).bounded(n) && (frame matches Frame::Array { index } ==> index <= n)
                    ==> final(self).bounded(n),
    {
        let ghost before = frames(self.stack@);
        if self.stack.len() < MAX_TRACK_DEPTH {
            self.stack.push(frame);
            assert(frames(self.stack@) =~= before.push(frame.model()));
        }
    }

    /// Records the name of the property that is read next.
    fn record_key(&mut self, name: String)
        ensures
            final(self).model() == (Tracker {
                stack: if old(self).model().stack.len() > 0 && old(
                    self,
                ).model().stack.last() is Object {
                    old(self).model().stack.drop_last().push(
                        FrameModel::Object { key: Some(name@) },
                    )
                } else {
                    old(self).model().stack
                },
                ..old(self).model()
            }),
            forall|n: int| old(self).bounded(n) ==> final(self).bounded(n),
    {
        let ghost before = frames(self.stack@);
        let n = self.stack.len();
        if n > 0 {
            if let Frame::Object { .. } = &self.stack[n - 1] {
                self.stack.set(n - 1, Frame::Object { key: Some(name) });
                assert(frames(self.stack@) =~= before.drop_last().push(
                    FrameModel::Object { key: Some(name@) },
                ));
            }
        }
    }

    /// Whether the innermost container is an object.
    fn in_object(&self) -> (r: bool)
        ensures
            r == (self.model().stack.len() > 0 && self.model().stack.last() is Object),
    {
        let n = self.stack.len();
        n > 0 && matches!(&self.stack[n - 1], Frame::Object { .. })
    }
}

/// The pointer of the value that is read next.
fn current_pointer(stack: &Vec<Frame>) -> (r: String)
    ensures
        r@ == pointer_of(frames(stack@)),
{
    let ghost all = frames(stack@);
    let mut out = String::new();
    let mut i: usize = 0;
    assert(out@ =~= pointer_of(all.take(0)));
    while i < stack.len()
        invariant
            i <= stack@.len(),
            all == frames(stack@),
            out@ == pointer_of(all.take(i as int)),
        decreases stack@.len() - i,
    {
        assert(all.take(i + 1).drop_last() =~= all.take(i as int));
        assert(all.take(i + 1).last() == stack@[i as int].model());
        match &stack[i] {
            Frame::Array { index } => {
                out = pointer::push_index(out.as_str(), *index);
            },
            Frame::Object { key } => {
                if let Some(k) = key {
                    out = pointer::push_key(out.as_str(), k.as_str());
                }
            },
        }
        i += 1;
    }
    assert(all.take(i as int) =~= all);
    out
}

/// Whether a character is JSON white space.
fn is_blank(c: char) -> (r: bool)
    ensures
        r == blank(c),
{
    c == ' ' || c == '\t' || c == '\r' || c == '\n'
}

/// Whether a character ends a scalar.
fn is_value_terminator(c: char) -> (r: bool)
    ensures
        r == terminator(c),
{
    is_blank(c) || c == ',' || c == '}' || c == ']' || c == '{' || c == '[' || c == ':' || c == '/'
}

/// What stands at position `i`.
fn piece_at(chars: &Vec<char>, i: usize) -> (r: Piece)
    requires
        i < chars@.len(),
    ensures
        r == piece(chars@.skip(i as int)),
{
    let n = chars.len();
    let c = chars[i];
    if c == '/' && i + 1 < n && chars[i + 1] == '/' {
        Piece::LineComment
    } else if c == '/' && i + 1 < n && chars[i + 1] == '*' {
        Piece::BlockComment
    } else if c == '"' {
        Piece::String
    } else if c == '{' {
        Piece::OpenObject
    } else if c == '[' {
        Piece::OpenArray
    } else if c == '}' || c == ']' {
        Piece::Close
    } else if c == ':' {
        Piece::Colon
    } else if c == ',' {
        Piece::Comma
    } else if is_blank(c) {
        Piece::Blank
    } else {
        Piece::Scalar
    }
}

/// Where what stands at position `i` ends.
fn piece_end(chars: &Vec<char>, i: usize, what: &Piece) -> (r: usize)
    requires
        i < chars@.len(),
        *what == piece(chars@.skip(i as int)),
    ensures
        r == i + piece_len(chars@.skip(i as int)),
        i < r <= chars@.len(),
{
    let n = chars.len();
    let ghost rest = chars@.skip(i as int);
    proof {
        lemma_piece_len(rest);
    }
    match what {
        Piece::LineComment => {
            proof {
                pointer::lemma_index_from_skip(chars@, '\n', i as int, 2);
            }
            text::find_from(chars, '\n', i + 2)
        },
        Piece::BlockComment => {
            let mut j: usize = i + 2;
            while j < n - 1 && !(chars[j] == '*' && chars[j + 1] == '/')
                invariant
                    rest == chars@.skip(i as int),
                    n == chars@.len(),
                    i + 2 <= j <= chars@.len(),
                    block_end(rest, j - i) == block_end(rest, 2),
                decreases chars@.len() - j,
            {
                j += 1;
            }
            if j < n - 1 {
                j + 2
            } else {
                n
            }
        },
        Piece::String => {
            let mut j: usize = i + 1;
            while j < n && chars[j] != '"'
                invariant
                    rest == chars@.skip(i as int),
                    n == chars@.len(),
                    i + 1 <= j <= chars@.len(),
                    string_end(rest, j - i) == string_end(rest, 1),
                decreases chars@.len() - j,
            {
                if chars[j] == '\\' && j + 1 < n {
                    j += 2;
                } else {
                    j += 1;
                }
            }
            if j < n {
                j + 1
            } else {
                n
            }
        },
        Piece::Scalar => {
            let mut j: usize = i + 1;
            while j < n && !is_value_terminator(chars[j])
                invariant
                    rest == chars@.skip(i as int),
                    n == chars@.len(),
                    i + 1 <= j <= chars@.len(),
                    scalar_end(rest, j - i) == scalar_end(rest, 1),
                decreases chars@.len() - j,
            {
                j += 1;
            }
            j
        },
        _ => i + 1,
    }
}

/// The contents of the string that starts at position `i`.
fn contents_at(chars: &Vec<char>, i: usize) -> (r: String)
    requires
        i < chars@.len(),
    ensures
        r@ == string_contents(chars@.skip(i as int), 1),
{
    let n = chars.len();
    let ghost rest = chars@.skip(i as int);
    let mut out = String::new();
    let mut j: usize = i + 1;
    assert(out@ + string_contents(rest, 1) =~= string_contents(rest, 1));
    while j < n && chars[j] != '"'
        invariant
            rest == chars@.skip(i as int),
            n == chars@.len(),
            i + 1 <= j <= chars@.len(),
            out@ + string_contents(rest, j - i) == string_contents(rest, 1),
        decreases chars@.len() - j,
    {
        let ghost before = out@;
        let ghost at = j - i;
        if chars[j] == '\\' {
            if j + 1 < n {
                let c = decode_escape(chars[j + 1]);
                out.push(c);
                j += 2;
                assert(out@ + string_contents(rest, at + 2) =~= before + (seq![c]
                    + string_contents(rest, at + 2)));
            } else {
                j += 1;
                assert(string_contents(rest, j - i) =~= Seq::<char>::empty());
            }
        } else {
            let c = chars[j];
            out.push(c);
            j += 1;
            assert(out@ + string_contents(rest, at + 1) =~= before + (seq![c] + string_contents(
                rest,
                at + 1,
            )));
        }
    }
    assert(out@ + string_contents(rest, j - i) =~= out@);
    out
}

/// The character that an escape stands for in a property name.
fn decode_escape(c: char) -> (r: char)
    ensures
        r == escape_char(c),
{
    match c {
        'n' => '\n',
        'r' => '\r',
        't' => '\t',
        other => other,
    }
}

/// Appends white space in the place of `chars[from..to]`.
fn push_blanks(out: &mut String, chars: &Vec<char>, from: usize, to: usize)
    requires
        from <= to <= chars@.len(),
    ensures
        final(out)@ == old(out)@ + blanked(chars@.subrange(from as int, to as int)),
{
    let ghost whole = chars@.subrange(from as int, to as int);
    let mut i: usize = from;
    assert(whole.skip(0) =~= whole);
    while i < to
        invariant
            from <= i <= to <= chars@.len(),
            whole == chars@.subrange(from as int, to as int),
            out@ + blanked(whole.skip(i - from)) == old(out)@ + blanked(whole),
        decreases to - i,
    {
        let ghost before = out@;
        let ghost at = i - from;
        let c = chars[i];
        assert(whole.skip(at)[0] == c);
        assert(whole.skip(at).drop_first() =~= whole.skip(at + 1));
        if c == '\n' || c == '\r' {
            out.push(c);
        } else {
            text::push_spaces(out, text::utf8_len(c));
        }
        assert(out@ =~= before + blanked_char(c));
        assert(out@ + blanked(whole.skip(at + 1)) =~= before + (blanked_char(c) + blanked(
            whole.skip(at + 1),
        )));
        i += 1;
    }
    assert(whole.skip(to - from).len() == 0);
    assert(out@ + blanked(whole.skip(to - from)) =~= out@);
}

/// A text with its comments taken out, and the comments.
struct Scan {
    stripped: String,
    comments: Vec<Comment>,
}

/// Takes the comments out of a text.
fn scan(input: &str) -> (r: Scan)
    ensures
        r.stripped@ == stripped(input@),
        comments::models(r.comments@) == comments_in(input@),
{
    let total: usize = input.as_bytes().len();
    let chars = text::chars_of(input);
    let mut out = String::new();
    let mut state = Scanner {
        stack: Vec::new(),
        expecting_key: false,
        pending: Vec::new(),
        comments: Vec::new(),
    };
    let mut i: usize = 0;
    let mut offset: usize = 0;
    proof {
        assert(chars@.skip(0) =~= input@);
        assert(out@ + stripped(input@) =~= stripped(input@));
        assert(frames(state.stack@) =~= Seq::<FrameModel>::empty());
        assert(waiting(state.pending@) =~= Seq::<Waiting>::empty());
        assert(comments::models(state.comments@) =~= Seq::<CommentModel>::empty());
    }
    while i < chars.len()
        invariant
            i <= chars@.len(),
            chars@ == input@,
            total == text::byte_len(chars@),
            offset == text::byte_len(chars@.take(i as int)),
            state.bounded(i as int),
            out@ + stripped(chars@.skip(i as int)) == stripped(input@),
            comments_from(state.model(), chars@.skip(i as int), offset as nat) == comments_in(
                input@,
            ),
        decreases chars@.len() - i,
    {
        let ghost rest = chars@.skip(i as int);
        let ghost before = out@;
        let ghost known = state.model();
        let what = piece_at(&chars, i);
        let end = piece_end(&chars, i, &what);
        let ghost head = rest.take(piece_len(rest));
        proof {
            assert(head =~= chars@.subrange(i as int, end as int));
            assert(rest.skip(piece_len(rest)) =~= chars@.skip(end as int));
            assert(chars@.take(end as int) =~= chars@.take(i as int) + head);
            text::lemma_byte_len_concat(chars@.take(i as int), head);
            text::lemma_byte_len_part(chars@, 0, end as int);
            assert(chars@.subrange(0, end as int) =~= chars@.take(end as int));
        }
        let next: usize = offset + text::bytes_between(&chars, i, end);
        match &what {
            Piece::LineComment | Piece::BlockComment => {
                let kind = if matches!(what, Piece::LineComment) {
                    CommentKind::Line
                } else {
                    CommentKind::Block
                };
                let pending = Pending {
                    text: text::slice(&chars, i, end),
                    kind,
                    source_range: TextRange::new(offset, next),
                };
                let ghost w = pending.model();
                state.pending.push(pending);
                push_blanks(&mut out, &chars, i, end);
                assert(waiting(state.pending@) =~= known.pending.push(w));
            },
            Piece::String => {
                if state.expecting_key {
                    let name = contents_at(&chars, i);
                    state.record_key(name);
                    state.expecting_key = false;
                } else {
                    state.flush();
                    state.advance_after_value(i);
                }
            },
            Piece::OpenObject => {
                state.flush();
                assert(state.bounded(i as int));
                state.enter(Frame::Object { key: None });
                state.expecting_key = true;
            },
            Piece::OpenArray => {
                state.flush();
                assert(state.bounded(i as int));
                state.enter(Frame::Array { index: 0 });
                state.expecting_key = false;
            },
            Piece::Close => {
                state.stack.pop();
                assert(frames(state.stack@) =~= left(known.stack));
                state.advance_after_value(i);
                state.expecting_key = false;
            },
            Piece::Colon => {
                state.expecting_key = false;
            },
            Piece::Comma => {
                if state.in_object() {
                    state.expecting_key = true;
                }
            },
            Piece::Blank => {},
            Piece::Scalar => {
                state.flush();
                state.advance_after_value(i);
            },
        }
        if !matches!(what, Piece::LineComment | Piece::BlockComment) {
            let kept = text::slice(&chars, i, end);
            out.push_str(kept.as_str());
        }
        proof {
            assert(state.model() == noted(known, rest, offset as nat));
            assert(state.bounded(i + 1));
            assert(state.bounded(end as int));
            assert(out@ =~= before + kept(rest));
            assert(out@ + stripped(chars@.skip(end as int)) =~= before + (kept(rest) + stripped(
                chars@.skip(end as int),
            )));
        }
        offset = next;
        i = end;
    }
    proof {
        assert(chars@.skip(i as int).len() == 0);
        assert(out@ + stripped(chars@.skip(i as int)) =~= out@);
        reveal_strlit("");
        assert(""@ =~= Seq::<char>::empty());
    }
    state.flush_pending("");
    Scan { stripped: out, comments: state.comments }
}

/// Why a text could not be read.
#[derive(Debug)]
pub enum JsoncError {
    /// The text without its comments is no JSON: the parser's message.
    InvalidJson(String),
}

impl JsoncError {
    /// The message for the user.
    pub fn message(&self) -> (r: String)
        ensures
            match self {
                JsoncError::InvalidJson(m) => r@ == "invalid JSON: "@ + m@,
            },
    {
        match self {
            JsoncError::InvalidJson(m) => {
                let mut r = String::new();
                r.push_str("invalid JSON: ");
                r.push_str(m.as_str());
                assert(r@ =~= "invalid JSON: "@ + m@);
                r
            },
        }
    }
}

/// A JSON value with the comments around it.
#[derive(Debug)]
pub struct JsoncDocument {
    pub value: Json,
    pub comments: Vec<Comment>,
}

/// Reads JSON with comments. It fails exactly when the text without its comments is
/// not JSON, with the parser's message.
pub fn parse_jsonc(input: &str) -> (r: Result<JsoncDocument, JsoncError>)
    ensures
        match json::parse_outcome(stripped(input@)) {
            Ok(value) => r matches Ok(doc) && doc.value.model() == value && comments::models(
                doc.comments@,
            ) == comments_in(input@),
            Err(message) => r matches Err(JsoncError::InvalidJson(m)) && m@ == message,
        },
{
    let scan = scan(input);
    match json::parse(scan.stripped.as_str()) {
        Ok(value) => Ok(JsoncDocument { value, comments: scan.comments }),
        Err(message) => Err(JsoncError::InvalidJson(message)),
    }
}

/// Whether a text holds comments.
pub fn has_inline_comments(input: &str) -> (r: bool)
    ensures
        r == (comments_in(input@).len() > 0),
{
    let scan = scan(input);
    assert(comments::models(scan.comments@).len() == scan.comments@.len());
    scan.comments.len() > 0
}

/// How many comments a text holds.
pub open spec fn comment_count(rest: Seq<char>) -> nat
    decreases rest.len(),
    via comment_count_decreases
{
    if rest.len() == 0 {
        0
    } else {
        (if piece(rest) is LineComment || piece(rest) is BlockComment {
            1nat
        } else {
            0
        }) + comment_count(rest.skip(piece_len(rest)))
    }
}

#[via_fn]
proof fn comment_count_decreases(rest: Seq<char>) {
    if rest.len() > 0 {
        lemma_piece_len(rest);
    }
}

proof fn lemma_all_comments_listed(t: Tracker, rest: Seq<char>, offset: nat)
    ensures
        comments_from(t, rest, offset).len() == t.comments.len() + t.pending.len() + comment_count(
            rest,
        ),
    decreases rest.len(),
{
    if rest.len() > 0 {
        lemma_piece_len(rest);
        lemma_all_comments_listed(
            noted(t, rest, offset),
            rest.skip(piece_len(rest)),
            offset + text::byte_len(rest.take(piece_len(rest))),
        );
    }
}

/// Every comment of a text is listed, once.
pub proof fn every_comment_is_listed(input: Seq<char>)
    ensures
        comments_in(input).len() == comment_count(input),
{
    lemma_all_comments_listed(untouched(), input, 0);
}

/// A text without comments is left as it is.
pub proof fn comment_free_text_is_untouched(input: Seq<char>)
    requires
        comment_count(input) == 0,
    ensures
        stripped(input) == input,
        comments_in(input).len() == 0,
    decreases input.len(),
{
    every_comment_is_listed(input);
    if input.len() > 0 {
        lemma_piece_len(input);
        let n = piece_len(input);
        comment_free_text_is_untouched(input.skip(n));
        assert(input =~= input.take(n) + input.skip(n));
    }
}

/// Taking comments out does not change how many bytes there are, so that offsets in
/// the stripped text are offsets in the text.
pub proof fn stripping_keeps_offsets(input: Seq<char>)
    ensures
        text::byte_len(stripped(input)) == text::byte_len(input),
    decreases input.len(),
{
    if input.len() > 0 {
        lemma_piece_len(input);
        let n = piece_len(input);
        stripping_keeps_offsets(input.skip(n));
        assert(input =~= input.take(n) + input.skip(n));
        text::lemma_byte_len_concat(input.take(n), input.skip(n));
        text::lemma_byte_len_concat(kept(input), stripped(input.skip(n)));
        lemma_blanked_len(input.take(n));
    }
}

proof fn lemma_blanked_len(comment: Seq<char>)
    ensures
        text::byte_len(blanked(comment)) == text::byte_len(comment),
    decreases comment.len(),
{
    if comment.len() > 0 {
        let rest = comment.drop_first();
        let c = comment[0];
        lemma_blanked_len(rest);
        assert(comment =~= seq![c] + rest);
        text::lemma_byte_len_concat(seq![c], rest);
        text::lemma_byte_len_concat(blanked_char(c), blanked(rest));
        text::lemma_byte_len_one(c);
        lemma_spaces_len(text::char_len(c));
    }
}

proof fn lemma_spaces_len(n: nat)
    ensures
        text::byte_len(text::spaces(n)) == n,
    decreases n,
{
    if n > 0 {
        lemma_spaces_len((n - 1) as nat);
        assert(text::spaces(n) =~= text::spaces((n - 1) as nat).push(' '));
        text::lemma_byte_len_push(text::spaces((n - 1) as nat), ' ');
        text::lemma_byte_len_one(' ');
    } else {
        assert(text::spaces(0) =~= Seq::<char>::empty());
    }
}

/// Whether a text is white space only.
spec fn all_blank(s: Seq<char>) -> bool {
    forall|i: int| 0 <= i < s.len() ==> blank(#[trigger] s[i])
}

proof fn lemma_blanked_is_blank(comment: Seq<char>)
    ensures
        all_blank(blanked(comment)),
        comment.len() > 0 ==> blanked(comment).len() > 0,
    decreases comment.len(),
{
    if comment.len() > 0 {
        lemma_blanked_is_blank(comment.drop_first());
        text::lemma_byte_len_one(comment[0]);
        assert(all_blank(blanked_char(comment[0])));
    }
}

proof fn lemma_leading_blanks(front: Seq<char>, back: Seq<char>)
    requires
        all_blank(front),
    ensures
        comment_count(front + back) == comment_count(back),
        stripped(front + back) == front + stripped(back),
    decreases front.len(),
{
    if front.len() == 0 {
        assert(front + back =~= back);
        assert(front + stripped(back) =~= stripped(back));
    } else {
        let whole = front + back;
        lemma_leading_blanks(front.drop_first(), back);
        assert(whole.skip(1) =~= front.drop_first() + back);
        assert(piece(whole) is Blank) by {
            assert(blank(front[0]));
        }
        assert(whole.take(1) =~= seq![front[0]]);
        assert(stripped(whole) =~= front + stripped(back));
    }
}

proof fn lemma_string_end_again(rest: Seq<char>, j: int, back: Seq<char>)
    requires
        1 <= j,
        j <= string_end(rest, j) < rest.len(),
    ensures
        string_end(rest.take(string_end(rest, j)) + back, j) == string_end(rest, j),
    decreases rest.len() - j,
{
    let n = string_end(rest, j);
    let whole = rest.take(n) + back;
    assert forall|k: int| 0 <= k < n implies #[trigger] whole[k] == rest[k] by {}
    lemma_string_end(rest, j + 1);
    lemma_string_end(rest, j + 2);
    if rest[j] == '\\' {
        lemma_string_end_again(rest, j + 2, back);
    } else if rest[j] != '"' {
        lemma_string_end_again(rest, j + 1, back);
    }
}

proof fn lemma_scalar_end_again(rest: Seq<char>, j: int, back: Seq<char>)
    requires
        1 <= j <= scalar_end(rest, j) <= rest.len(),
        back.len() == 0 || terminator(back[0]),
    ensures
        scalar_end(rest.take(scalar_end(rest, j)) + back, j) == scalar_end(rest, j),
    decreases rest.len() - j,
{
    let n = scalar_end(rest, j);
    let whole = rest.take(n) + back;
    assert forall|k: int| 0 <= k < n implies #[trigger] whole[k] == rest[k] by {}
    if j < n {
        lemma_scalar_end(rest, j + 1);
        lemma_scalar_end_again(rest, j + 1, back);
    } else if back.len() > 0 {
        assert(whole[n] == back[0]);
    }
}

proof fn lemma_first_kept(rest: Seq<char>)
    requires
        rest.len() > 0,
    ensures
        stripped(rest).len() > 0,
        terminator(rest[0]) ==> terminator(stripped(rest)[0]),
        !(piece(rest) is LineComment || piece(rest) is BlockComment) ==> stripped(rest)[0]
            == rest[0],
{
    lemma_piece_len(rest);
    lemma_blanked_is_blank(rest.take(piece_len(rest)));
    assert(kept(rest).len() > 0);
    assert(stripped(rest)[0] == kept(rest)[0]);
}

/// Stripped text holds no comments, and stripping it again changes nothing.
pub proof fn stripped_text_is_comment_free(input: Seq<char>)
    ensures
        comment_count(stripped(input)) == 0,
        stripped(stripped(input)) == stripped(input),
    decreases input.len(),
{
    if input.len() > 0 {
        lemma_piece_len(input);
        let n = piece_len(input);
        let head = input.take(n);
        let rest = input.skip(n);
        let back = stripped(rest);
        stripped_text_is_comment_free(rest);
        if piece(input) is LineComment || piece(input) is BlockComment {
            lemma_blanked_is_blank(head);
            lemma_leading_blanks(blanked(head), back);
        } else {
            let whole = head + back;
            assert(whole[0] == input[0]);
            if rest.len() > 0 {
                lemma_first_kept(rest);
                assert(rest[0] == input[n]);
            } else {
                assert(whole =~= input);
            }
            if piece(input) is String {
                if n < input.len() {
                    lemma_string_end_again(input, 1, back);
                }
            } else if piece(input) is Scalar {
                lemma_scalar_end(input, 1);
                lemma_scalar_end_again(input, 1, back);
                if n > 1 {
                    assert(whole[1] == input[1]);
                } else if rest.len() > 0 {
                    assert(whole[1] == back[0]);
                    assert(input[1] == rest[0]);
                }
            }
            assert(piece(whole) == piece(input));
            assert(piece_len(whole) == n);
            assert(whole.take(n) =~= head);
            assert(whole.skip(n) =~= back);
            assert(stripped(whole) == kept(whole) + stripped(whole.skip(n)));
        }
    }
}

/// Whether a text is what stands at a range of a longer text.
pub open spec fn quotes(input: Seq<char>, range: TextRange, quoted: Seq<char>) -> bool {
    range.start <= range.end <= text::byte_len(input) && vstd::utf8::encode_utf8(input).subrange(
        range.start as int,
        range.end as int,
    ) == vstd::utf8::encode_utf8(quoted)
}

/// A comment carries its verbatim text and the range where it stands.
pub proof fn comments_quote_the_text(input: Seq<char>, i: int)
    requires
        text::byte_len(input) <= usize::MAX,
        0 <= i < comments_in(input).len(),
    ensures
        quotes(input, comments_in(input)[i].source_range, comments_in(input)[i].text),
{
    assert(input =~= Seq::<char>::empty() + input);
    lemma_comments_quote(untouched(), Seq::empty(), input, i);
}

proof fn lemma_comments_quote(t: Tracker, done: Seq<char>, rest: Seq<char>, i: int)
    requires
        text::byte_len(done + rest) <= usize::MAX,
        forall|k: int|
            0 <= k < t.comments.len() ==> quotes(
                done + rest,
                (#[trigger] t.comments[k]).source_range,
                t.comments[k].text,
            ),
        forall|k: int|
            0 <= k < t.pending.len() ==> quotes(
                done + rest,
                (#[trigger] t.pending[k]).source_range,
                t.pending[k].text,
            ),
        0 <= i < comments_from(t, rest, text::byte_len(done)).len(),
    ensures
        ({
            let list = comments_from(t, rest, text::byte_len(done));
            quotes(done + rest, list[i].source_range, list[i].text)
        }),
    decreases rest.len(),
{
    let whole = done + rest;
    let offset = text::byte_len(done);
    if rest.len() == 0 {
        if i >= t.comments.len() {
            assert(quotes(
                whole,
                t.pending[i - t.comments.len()].source_range,
                t.pending[i - t.comments.len()].text,
            ));
        }
    } else {
        lemma_piece_len(rest);
        let n = piece_len(rest);
        let head = rest.take(n);
        let next = noted(t, rest, offset);
        let after = rest.skip(n);
        assert(whole =~= (done + head) + after);
        text::lemma_byte_len_concat(done, head);
        text::lemma_encode_concat(done + head, after);
        text::lemma_encode_concat(done, head);
        let range = TextRange {
            start: offset as usize,
            end: (offset + text::byte_len(head)) as usize,
        };
        assert(quotes(whole, range, head)) by {
            assert(vstd::utf8::encode_utf8(whole).subrange(range.start as int, range.end as int)
                =~= vstd::utf8::encode_utf8(head));
        }
        assert forall|k: int| 0 <= k < next.comments.len() implies quotes(
            whole,
            (#[trigger] next.comments[k]).source_range,
            next.comments[k].text,
        ) by {
            if k >= t.comments.len() {
                assert(quotes(
                    whole,
                    t.pending[k - t.comments.len()].source_range,
                    t.pending[k - t.comments.len()].text,
                ));
            } else {
                assert(next.comments[k] == t.comments[k]);
            }
        }
        assert forall|k: int| 0 <= k < next.pending.len() implies quotes(
            whole,
            (#[trigger] next.pending[k]).source_range,
            next.pending[k].text,
        ) by {
            if k < t.pending.len() {
                assert(next.pending[k] == t.pending[k]);
            }
        }
        lemma_comments_quote(next, done + head, after, i);
    }
}

} // verus!
