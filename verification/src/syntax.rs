//! The syntax tree of a RON document, as plain data.
//!
//! The parser hands the library a [`RonDocument`]: the value tree with every
//! value's source span, and the full token stream. Everything the conversions, the
//! highlighter and the panels read from a parse is here; nothing else of the parser
//! reaches the library.

use vstd::prelude::*;

use crate::text;

verus! {

/// A half-open byte range of the source text.
#[derive(Clone, Copy, Debug, PartialEq, Eq, Structural)]
pub struct TextRange {
    pub start: usize,
    pub end: usize,
}

impl TextRange {
    /// The range from `start` up to, but not including, `end`.
    pub fn new(start: usize, end: usize) -> (r: TextRange)
        ensures
            r == (TextRange { start, end }),
    {
        TextRange { start, end }
    }

    /// Whether the range holds no byte.
    pub fn is_empty(&self) -> (r: bool)
        ensures
            r == (self.start >= self.end),
    {
        self.start >= self.end
    }
}

/// The kind of a token.
#[derive(Clone, Copy, Debug, PartialEq, Eq, Structural)]
pub enum SyntaxKind {
    Ident,
    EnableKw,
    TrueKw,
    FalseKw,
    Integer,
    Float,
    String,
    RawString,
    Char,
    LParen,
    RParen,
    LBracket,
    RBracket,
    LBrace,
    RBrace,
    Colon,
    Comma,
    Hash,
    Bang,
    Whitespace,
    LineComment,
    BlockComment,
    LexError,
}

impl SyntaxKind {
    /// Whether a token of this kind carries no structure: white space or a comment.
    pub open spec fn trivia(self) -> bool {
        self is Whitespace || self is LineComment || self is BlockComment
    }

    /// Whether a token of this kind closes a collection.
    pub open spec fn closing(self) -> bool {
        self is RParen || self is RBracket || self is RBrace
    }

    /// Whether a token of this kind carries no structure.
    pub fn is_trivia(&self) -> (r: bool)
        ensures
            r == self.trivia(),
    {
        matches!(self, SyntaxKind::Whitespace | SyntaxKind::LineComment | SyntaxKind::BlockComment)
    }

    /// Whether a token of this kind closes a collection.
    pub fn is_closing(&self) -> (r: bool)
        ensures
            r == self.closing(),
    {
        matches!(self, SyntaxKind::RParen | SyntaxKind::RBracket | SyntaxKind::RBrace)
    }
}

/// One leaf of the token stream.
#[derive(Debug)]
pub struct Token {
    pub kind: SyntaxKind,
    pub range: TextRange,
    pub text: String,
}

/// A direct child of a collection, in source order.
#[derive(Clone, Copy, Debug)]
pub enum Element {
    /// A nested node: a value, a field or a map entry.
    Node,
    /// A token that stands directly under the collection.
    Token { kind: SyntaxKind, range: TextRange },
}

/// A RON value with its source span, its verbatim source text and its direct
/// children.
#[derive(Debug)]
pub struct RonValue {
    pub range: TextRange,
    pub text: String,
    pub layout: Vec<Element>,
    pub shape: Shape,
}

/// What a RON value is.
#[derive(Debug)]
pub enum Shape {
    /// `Name(field: value)` or `(field: value)`.
    Struct { name: Option<String>, fields: Vec<StructField> },
    /// `Name(a, b)` or `(a, b)`.
    Tuple { name: Option<String>, items: Vec<RonValue> },
    /// `[a, b]`.
    List { items: Vec<RonValue> },
    /// `{k: v}`.
    Dictionary { entries: Vec<MapEntry> },
    /// `Name`, `Name(a, b)` or `Name { field: value }`.
    EnumVariant { name: Option<String>, items: Vec<RonValue>, entries: Vec<MapEntry> },
    /// `()`.
    Unit,
    /// A scalar literal with its token.
    Literal { kind: Option<SyntaxKind>, text: Option<String> },
    /// A region the parser could not read.
    Error,
}

/// One field of a struct.
#[derive(Debug)]
pub struct StructField {
    pub name: Option<String>,
    pub value: Option<RonValue>,
}

/// One entry of a map, or of a brace-style variant.
#[derive(Debug)]
pub struct MapEntry {
    pub key: Option<RonValue>,
    pub value: Option<RonValue>,
}

/// A parsed RON document.
#[derive(Debug)]
pub struct RonDocument {
    pub root: Option<RonValue>,
    pub tokens: Vec<Token>,
    pub source: String,
}

/// The text of an optional name, empty when there is none.
pub open spec fn text_or_empty(name: Option<String>) -> Seq<char> {
    match name {
        Some(n) => n@,
        None => Seq::empty(),
    }
}

/// Whether an optional name is there and reads `text`.
pub open spec fn named(name: Option<String>, text: Seq<char>) -> bool {
    name matches Some(n) && n@ == text
}

/// Whether a left brace stands among the direct children.
pub open spec fn brace_among(layout: Seq<Element>) -> bool {
    exists|i: int|
        0 <= i < layout.len() && (#[trigger] layout[i] matches Element::Token { kind, .. }
            && kind is LBrace)
}

/// Whether a left brace stands among the direct children.
pub fn has_brace(layout: &Vec<Element>) -> (r: bool)
    ensures
        r == brace_among(layout@),
{
    let mut i: usize = 0;
    while i < layout.len()
        invariant
            i <= layout@.len(),
            forall|j: int|
                0 <= j < i ==> !(#[trigger] layout@[j] matches Element::Token { kind, .. }
                    && kind is LBrace),
        decreases layout@.len() - i,
    {
        if let Element::Token { kind, .. } = &layout[i] {
            if matches!(kind, SyntaxKind::LBrace) {
                assert(layout@[i as int] matches Element::Token { kind, .. } && kind is LBrace);
                return true;
            }
        }
        i += 1;
    }
    false
}

/// The text of an optional name, empty when there is none.
pub fn text_of(name: &Option<String>) -> (r: String)
    ensures
        r@ == text_or_empty(*name),
{
    match name {
        Some(n) => n.clone(),
        None => String::new(),
    }
}

/// Whether an optional name is there and reads `text`.
pub fn is_named(name: &Option<String>, text: &str) -> (r: bool)
    ensures
        r == named(*name, text@),
{
    match name {
        Some(n) => text::same_text(n.as_str(), text),
        None => false,
    }
}

} // verus!
