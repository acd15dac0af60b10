//! Comments carried through a conversion.
//!
//! Every comment of a document is collected once, in source order, and anchored to
//! the JSON Pointer of the value that follows it. The three ways to carry comments
//! (inline, in a sidecar, not at all) are projections of that one list.

use vstd::prelude::*;

use crate::interop::pointer;
use crate::syntax::{RonDocument, RonValue, Shape, SyntaxKind, TextRange, Token};
use crate::text;
use crate::text_map::TextMap;

verus! {

/// How comments travel with the converted document.
#[derive(Clone, Copy, Debug, PartialEq, Eq, Structural)]
pub enum CommentMode {
    /// Written inline, as JSON with comments.
    JsoncInline,
    /// Written to a sibling map from pointer to comments.
    Sidecar,
    /// Dropped.
    Dropped,
}

impl Default for CommentMode {
    fn default() -> (r: Self)
        ensures
            r is JsoncInline,
    {
        CommentMode::JsoncInline
    }
}

impl CommentMode {
    /// The stable label.
    pub fn as_str(self) -> (r: &'static str)
        ensures
            r@ == match self {
                CommentMode::JsoncInline => "jsonc-inline"@,
                CommentMode::Sidecar => "sidecar"@,
                CommentMode::Dropped => "none"@,
            },
    {
        match self {
            CommentMode::JsoncInline => "jsonc-inline",
            CommentMode::Sidecar => "sidecar",
            CommentMode::Dropped => "none",
        }
    }

    /// Whether comments survive the conversion.
    pub fn preserves_comments(self) -> (r: bool)
        ensures
            r == !(self is Dropped),
    {
        !matches!(self, CommentMode::Dropped)
    }
}

/// The form of a comment.
#[derive(Clone, Copy, Debug, PartialEq, Eq, Structural)]
pub enum CommentKind {
    /// `// ..` up to the end of the line.
    Line,
    /// `/* .. */`.
    Block,
}

impl CommentKind {
    /// The form of a comment token; nothing for any other token.
    pub open spec fn of_kind(kind: SyntaxKind) -> Option<CommentKind> {
        match kind {
            SyntaxKind::LineComment => Some(CommentKind::Line),
            SyntaxKind::BlockComment => Some(CommentKind::Block),
            _ => None,
        }
    }

    /// The form of a comment token; nothing for any other token.
    pub fn from_kind(kind: SyntaxKind) -> (r: Option<CommentKind>)
        ensures
            r == Self::of_kind(kind),
    {
        match kind {
            SyntaxKind::LineComment => Some(CommentKind::Line),
            SyntaxKind::BlockComment => Some(CommentKind::Block),
            _ => None,
        }
    }

    /// The stable label.
    pub fn as_str(self) -> (r: &'static str)
        ensures
            r@ == match self {
                CommentKind::Line => "line"@,
                CommentKind::Block => "block"@,
            },
    {
        match self {
            CommentKind::Line => "line",
            CommentKind::Block => "block",
        }
    }
}

/// A comment: its verbatim text, where it stands, and the pointer of the value it
/// belongs to.
#[derive(Debug, PartialEq, Eq)]
pub struct Comment {
    pub text: String,
    pub kind: CommentKind,
    pub source_range: TextRange,
    pub anchor_pointer: String,
}

/// The mathematical model of a comment.
pub struct CommentModel {
    pub text: Seq<char>,
    pub kind: CommentKind,
    pub source_range: TextRange,
    pub anchor: Seq<char>,
}

impl View for Comment {
    type V = CommentModel;

    open spec fn view(&self) -> CommentModel {
        CommentModel {
            text: self.text@,
            kind: self.kind,
            source_range: self.source_range,
            anchor: self.anchor_pointer@,
        }
    }
}

impl Clone for Comment {
    fn clone(&self) -> (r: Self)
        ensures
            r@ == self@,
    {
        Comment {
            text: self.text.clone(),
            kind: self.kind,
            source_range: self.source_range,
            anchor_pointer: self.anchor_pointer.clone(),
        }
    }
}

/// A list of comments as mathematical values.
pub open spec fn models(list: Seq<Comment>) -> Seq<CommentModel> {
    list.map_values(|c: Comment| c@)
}

/// The value in `values` that starts first at or after `offset`: its start and its
/// pointer.
pub open spec fn following_value(values: Seq<(TextRange, Seq<char>)>, offset: usize) -> Option<
    (usize, Seq<char>),
>
    decreases values.len(),
{
    if values.len() == 0 {
        None
    } else {
        let best = following_value(values.drop_last(), offset);
        let last = values.last();
        if last.0.start >= offset && (best is None || last.0.start < (best->0).0) {
            Some((last.0.start, last.1))
        } else {
            best
        }
    }
}

/// The pointer a comment that ends at `offset` is anchored to: that of the value
/// which follows it, or the root where none does.
pub open spec fn anchor_at(values: Seq<(TextRange, Seq<char>)>, offset: usize) -> Seq<char> {
    match following_value(values, offset) {
        Some(v) => v.1,
        None => Seq::empty(),
    }
}

/// The comments among the first `n` tokens.
pub open spec fn comments_in(
    tokens: Seq<Token>,
    values: Seq<(TextRange, Seq<char>)>,
    n: nat,
) -> Seq<CommentModel>
    decreases n,
{
    if n == 0 {
        Seq::empty()
    } else {
        let before = comments_in(tokens, values, (n - 1) as nat);
        let token = tokens[n - 1];
        match CommentKind::of_kind(token.kind) {
            Some(kind) => before.push(
                CommentModel {
                    text: token.text@,
                    kind,
                    source_range: token.range,
                    anchor: anchor_at(values, token.range.end),
                },
            ),
            None => before,
        }
    }
}

/// The comments of a document, in source order.
pub open spec fn document_comments(doc: RonDocument) -> Seq<CommentModel> {
    comments_in(doc.tokens@, pointer::document_pointers(doc), doc.tokens@.len())
}

/// The texts of the comments anchored to `pointer`, in order.
pub open spec fn texts_at(comments: Seq<CommentModel>, pointer: Seq<char>) -> Seq<Seq<char>>
    decreases comments.len(),
{
    if comments.len() == 0 {
        Seq::empty()
    } else {
        let before = texts_at(comments.drop_last(), pointer);
        if comments.last().anchor == pointer {
            before.push(comments.last().text)
        } else {
            before
        }
    }
}

/// A comment is anchored to a value that starts at or after its end; none of the
/// values of the document starts between the two.
pub proof fn anchor_is_the_nearest_following_value(
    values: Seq<(TextRange, Seq<char>)>,
    offset: usize,
)
    ensures
        match following_value(values, offset) {
            Some(v) => {
                &&& v.0 >= offset
                &&& exists|i: int|
                    0 <= i < values.len() && (#[trigger] values[i]).0.start == v.0 && values[i].1
                        == v.1
                &&& forall|i: int|
                    0 <= i < values.len() ==> (#[trigger] values[i]).0.start < offset
                        || values[i].0.start >= v.0
            },
            None => forall|i: int| 0 <= i < values.len() ==> (#[trigger] values[i]).0.start < offset,
        },
    decreases values.len(),
{
    if values.len() > 0 {
        let shorter = values.drop_last();
        anchor_is_the_nearest_following_value(shorter, offset);
        assert forall|i: int| 0 <= i < values.len() implies i == values.len() - 1 || #[trigger] values[i]
            == shorter[i] by {}
        match following_value(values, offset) {
            Some(v) => {
                if following_value(shorter, offset) == Some(v) {
                    let i = choose|i: int|
                        0 <= i < shorter.len() && (#[trigger] shorter[i]).0.start == v.0
                            && shorter[i].1 == v.1;
                    assert(values[i] == shorter[i]);
                } else {
                    assert(values[values.len() - 1].0.start == v.0);
                }
            },
            None => {},
        }
    }
}

/// The pointer a comment that ends at `offset` is anchored to.
pub fn nearest_following_pointer(values: &Vec<(TextRange, String)>, offset: usize) -> (r: String)
    ensures
        r@ == anchor_at(pointer::pairs(values@), offset),
{
    let ghost all = pointer::pairs(values@);
    let mut best: Option<usize> = None;
    let mut i: usize = 0;
    while i < values.len()
        invariant
            i <= values@.len(),
            all == pointer::pairs(values@),
            match best {
                Some(b) => b < values@.len() && following_value(all.take(i as int), offset) == Some(
                    (values@[b as int].0.start, values@[b as int].1@),
                ),
                None => following_value(all.take(i as int), offset) is None,
            },
        decreases values@.len() - i,
    {
        assert(all.take(i + 1).drop_last() =~= all.take(i as int));
        let start = values[i].0.start;
        let better: bool = match best {
            Some(b) => start < values[b].0.start,
            None => true,
        };
        if start >= offset && better {
            best = Some(i);
        }
        i += 1;
    }
    assert(all.take(i as int) =~= all);
    match best {
        Some(b) => values[b].1.clone(),
        None => {
            let r = String::new();
            assert(r@ =~= Seq::<char>::empty());
            r
        },
    }
}

/// The comments of a document, in source order.
pub fn collect_comments(doc: &RonDocument) -> (r: Vec<Comment>)
    ensures
        models(r@) == document_comments(*doc),
{
    let values = pointer::value_pointer_map(doc);
    let ghost all = pointer::document_pointers(*doc);
    let mut out: Vec<Comment> = Vec::new();
    let mut i: usize = 0;
    assert(models(out@) =~= Seq::<CommentModel>::empty());
    while i < doc.tokens.len()
        invariant
            i <= doc.tokens@.len(),
            pointer::pairs(values@) == all,
            models(out@) == comments_in(doc.tokens@, all, i as nat),
        decreases doc.tokens@.len() - i,
    {
        let token = &doc.tokens[i];
        if let Some(kind) = CommentKind::from_kind(token.kind) {
            let ghost before = models(out@);
            let anchor = nearest_following_pointer(&values, token.range.end);
            let comment = Comment {
                text: token.text.clone(),
                kind,
                source_range: token.range,
                anchor_pointer: anchor,
            };
            let ghost c = comment@;
            out.push(comment);
            assert(models(out@) =~= before.push(c));
        }
        i += 1;
    }
    out
}

/// Whether a document has a root value.
pub fn has_root_value(doc: &RonDocument) -> (r: bool)
    ensures
        r == (doc.root is Some),
{
    doc.root.is_some()
}

/// Whether a comment can be anchored to a value: any but an unreadable region.
pub fn is_anchorable(value: &RonValue) -> (r: bool)
    ensures
        r == !(value.shape is Error),
{
    !matches!(value.shape, Shape::Error)
}

/// The comments of one conversion and how they travel.
#[derive(Debug)]
pub struct CommentCarrier {
    pub carrier: CommentMode,
    pub comments: Vec<Comment>,
}

impl CommentCarrier {
    /// The comments of a document. The mode does not change which ones are collected.
    pub fn from_document(doc: &RonDocument, mode: CommentMode) -> (r: Self)
        ensures
            r.carrier == mode,
            models(r.comments@) == document_comments(*doc),
    {
        CommentCarrier { carrier: mode, comments: collect_comments(doc) }
    }

    /// No comments.
    pub fn empty(mode: CommentMode) -> (r: Self)
        ensures
            r.carrier == mode,
            r.comments@.len() == 0,
    {
        CommentCarrier { carrier: mode, comments: Vec::new() }
    }

    /// The given comments.
    pub fn from_comments(mode: CommentMode, comments: Vec<Comment>) -> (r: Self)
        ensures
            r.carrier == mode,
            r.comments == comments,
    {
        CommentCarrier { carrier: mode, comments }
    }

    /// How the comments travel.
    pub fn carrier(&self) -> (r: CommentMode)
        ensures
            r == self.carrier,
    {
        self.carrier
    }

    /// The comments, in source order.
    pub fn comments(&self) -> (r: &Vec<Comment>)
        ensures
            *r == self.comments,
    {
        &self.comments
    }

    /// Whether there are no comments.
    pub fn is_empty(&self) -> (r: bool)
        ensures
            r == (self.comments@.len() == 0),
    {
        self.comments.len() == 0
    }

    /// How many comments there are.
    pub fn len(&self) -> (r: usize)
        ensures
            r == self.comments@.len(),
    {
        self.comments.len()
    }

    /// The comments to write inline.
    pub open spec fn inline(&self) -> Seq<Comment> {
        if self.carrier is JsoncInline {
            self.comments@
        } else {
            Seq::empty()
        }
    }

    /// The comments that the conversion drops.
    pub open spec fn dropped(&self) -> Seq<Comment> {
        if self.carrier is Dropped {
            self.comments@
        } else {
            Seq::empty()
        }
    }

    /// The texts that the sidecar holds for `pointer`.
    pub open spec fn sidecar_texts(&self, pointer: Seq<char>) -> Seq<Seq<char>> {
        if self.carrier is Sidecar {
            texts_at(models(self.comments@), pointer)
        } else {
            Seq::empty()
        }
    }

    /// The comments to write inline: all of them in inline mode, none otherwise.
    pub fn inline_comments(&self) -> (r: &[Comment])
        ensures
            r@ == self.inline(),
    {
        if matches!(self.carrier, CommentMode::JsoncInline) {
            self.comments.as_slice()
        } else {
            let r = vstd::slice::slice_subrange(self.comments.as_slice(), 0, 0);
            assert(r@ =~= Seq::<Comment>::empty());
            r
        }
    }

    /// How many comments the conversion drops.
    pub fn dropped_count(&self) -> (r: usize)
        ensures
            r == self.dropped().len(),
    {
        if self.carrier.preserves_comments() {
            0
        } else {
            self.comments.len()
        }
    }

    /// The comments that the conversion drops: all of them where comments are not
    /// carried, none otherwise.
    pub fn dropped_comments(&self) -> (r: &[Comment])
        ensures
            r@ == self.dropped(),
    {
        if self.carrier.preserves_comments() {
            let r = vstd::slice::slice_subrange(self.comments.as_slice(), 0, 0);
            assert(r@ =~= Seq::<Comment>::empty());
            r
        } else {
            self.comments.as_slice()
        }
    }

    /// The texts of the comments anchored to `pointer`, in order.
    fn texts_for(&self, pointer: &str) -> (r: Vec<String>)
        ensures
            text::strings(r@) == texts_at(models(self.comments@), pointer@),
    {
        let ghost all = models(self.comments@);
        let mut r: Vec<String> = Vec::new();
        let mut i: usize = 0;
        assert(text::strings(r@) =~= texts_at(all.take(0), pointer@));
        while i < self.comments.len()
            invariant
                i <= self.comments@.len(),
                all == models(self.comments@),
                text::strings(r@) == texts_at(all.take(i as int), pointer@),
            decreases self.comments@.len() - i,
        {
            assert(all.take(i + 1).drop_last() =~= all.take(i as int));
            if text::same_text(self.comments[i].anchor_pointer.as_str(), pointer) {
                let ghost before = text::strings(r@);
                r.push(self.comments[i].text.clone());
                assert(text::strings(r@) =~= before.push(all[i as int].text));
            }
            i += 1;
        }
        assert(all.take(i as int) =~= all);
        r
    }

    /// The sidecar: under each pointer that has comments their texts, in order. Empty
    /// in the other modes.
    pub fn sidecar_map(&self) -> (r: TextMap<Vec<String>>)
        ensures
            r.wf(),
            forall|p: Seq<char>|
                match #[trigger] r.at(p) {
                    Some(texts) => self.sidecar_texts(p).len() > 0 && text::strings(texts@)
                        == self.sidecar_texts(p),
                    None => self.sidecar_texts(p).len() == 0,
                },
    {
        let mut map: TextMap<Vec<String>> = TextMap::new();
        if !matches!(self.carrier, CommentMode::Sidecar) {
            return map;
        }
        let ghost all = models(self.comments@);
        let mut i: usize = 0;
        while i < self.comments.len()
            invariant
                i <= self.comments@.len(),
                self.carrier is Sidecar,
                all == models(self.comments@),
                map.wf(),
                forall|p: Seq<char>|
                    match #[trigger] map.at(p) {
                        Some(texts) => texts_at(all.take(i as int), p).len() > 0 && text::strings(texts@)
                            == texts_at(all, p),
                        None => texts_at(all.take(i as int), p).len() == 0,
                    },
            decreases self.comments@.len() - i,
        {
            let ghost before = map;
            let anchor = self.comments[i].anchor_pointer.clone();
            let known: bool = map.get(anchor.as_str()).is_some();
            if !known {
                let texts = self.texts_for(anchor.as_str());
                map.insert(anchor, texts);
            }
            proof {
                assert(all.take(i + 1).drop_last() =~= all.take(i as int));
                assert(all.take(i + 1).last() == all[i as int]);
                assert forall|p: Seq<char>|
                    match #[trigger] map.at(p) {
                        Some(texts) => texts_at(all.take(i + 1), p).len() > 0 && text::strings(texts@)
                            == texts_at(all, p),
                        None => texts_at(all.take(i + 1), p).len() == 0,
                    } by {
                    assert(before.at(p) == map.at(p) || p == all[i as int].anchor);
                }
            }
            i += 1;
        }
        assert(all.take(i as int) =~= all);
        map
    }
}

/// Whatever the mode, a comment is written inline, kept in the sidecar or reported as
/// dropped, and only one of these.
pub proof fn every_comment_is_accounted_for(carrier: CommentCarrier, i: int)
    requires
        0 <= i < carrier.comments@.len(),
    ensures
        ({
            let inline = carrier.inline().contains(carrier.comments@[i]);
            let dropped = carrier.dropped().contains(carrier.comments@[i]);
            let sidecar = carrier.sidecar_texts(carrier.comments@[i]@.anchor).contains(
                carrier.comments@[i]@.text,
            );
            &&& inline <==> carrier.carrier is JsoncInline
            &&& sidecar <==> carrier.carrier is Sidecar
            &&& dropped <==> carrier.carrier is Dropped
        }),
{
    assert(carrier.comments@.contains(carrier.comments@[i]));
    let all = models(carrier.comments@);
    assert(all[i] == carrier.comments@[i]@);
    lemma_text_is_listed(all, i);
    assert(Seq::<Seq<char>>::empty().len() == 0);
}

proof fn lemma_text_is_listed(comments: Seq<CommentModel>, i: int)
    requires
        0 <= i < comments.len(),
    ensures
        texts_at(comments, comments[i].anchor).contains(comments[i].text),
    decreases comments.len(),
{
    let p = comments[i].anchor;
    let list = texts_at(comments, p);
    let before = texts_at(comments.drop_last(), p);
    if i == comments.len() - 1 {
        assert(list.last() == comments[i].text);
        assert(list[list.len() - 1] == comments[i].text);
    } else {
        lemma_text_is_listed(comments.drop_last(), i);
        let j = choose|j: int| 0 <= j < before.len() && before[j] == comments[i].text;
        assert(before.contains(comments[i].text));
        assert(list[j] == comments[i].text);
    }
}

} // verus!
