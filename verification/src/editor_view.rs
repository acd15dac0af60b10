//! What the editor shows: colours, line numbers, the completion list and the visit of
//! tab stops, as far as it is decided without the window.

use vstd::prelude::*;

use crate::diagnostics::{self, Severity};
use crate::reparse::ParseResult;
use crate::snippets::{self, SessionStop, SnippetSession, TabStopKind};
use crate::syntax::{SyntaxKind, Token};
use crate::text;

verus! {

/// How a part of the text is coloured.
#[derive(Debug, Clone, Copy, PartialEq, Eq, Hash, Structural)]
pub enum HighlightClass {
    Ident,
    Number,
    StringLit,
    Boolean,
    Punctuation,
    Comment,
    Error,
    Default,
}

/// A colour: red, green and blue.
#[derive(Debug, Clone, Copy, PartialEq, Eq, Structural)]
pub struct Rgb {
    pub r: u8,
    pub g: u8,
    pub b: u8,
}

impl HighlightClass {
    /// The class of a kind of token.
    pub open spec fn of_kind(kind: SyntaxKind) -> HighlightClass {
        match kind {
            SyntaxKind::Ident | SyntaxKind::EnableKw => HighlightClass::Ident,
            SyntaxKind::Integer | SyntaxKind::Float => HighlightClass::Number,
            SyntaxKind::String
            | SyntaxKind::RawString
            | SyntaxKind::Char => HighlightClass::StringLit,
            SyntaxKind::TrueKw | SyntaxKind::FalseKw => HighlightClass::Boolean,
            SyntaxKind::LParen
            | SyntaxKind::RParen
            | SyntaxKind::LBracket
            | SyntaxKind::RBracket
            | SyntaxKind::LBrace
            | SyntaxKind::RBrace
            | SyntaxKind::Colon
            | SyntaxKind::Comma
            | SyntaxKind::Hash
            | SyntaxKind::Bang => HighlightClass::Punctuation,
            SyntaxKind::LineComment | SyntaxKind::BlockComment => HighlightClass::Comment,
            SyntaxKind::LexError => HighlightClass::Error,
            _ => HighlightClass::Default,
        }
    }

    /// The class of a kind of token.
    pub fn from_kind(kind: SyntaxKind) -> (r: Self)
        ensures
            r == Self::of_kind(kind),
    {
        match kind {
            SyntaxKind::Ident | SyntaxKind::EnableKw => HighlightClass::Ident,
            SyntaxKind::Integer | SyntaxKind::Float => HighlightClass::Number,
            SyntaxKind::String
            | SyntaxKind::RawString
            | SyntaxKind::Char => HighlightClass::StringLit,
            SyntaxKind::TrueKw | SyntaxKind::FalseKw => HighlightClass::Boolean,
            SyntaxKind::LParen
            | SyntaxKind::RParen
            | SyntaxKind::LBracket
            | SyntaxKind::RBracket
            | SyntaxKind::LBrace
            | SyntaxKind::RBrace
            | SyntaxKind::Colon
            | SyntaxKind::Comma
            | SyntaxKind::Hash
            | SyntaxKind::Bang => HighlightClass::Punctuation,
            SyntaxKind::LineComment | SyntaxKind::BlockComment => HighlightClass::Comment,
            SyntaxKind::LexError => HighlightClass::Error,
            _ => HighlightClass::Default,
        }
    }

    /// The name of the class.
    pub open spec fn name(self) -> Seq<char> {
        match self {
            HighlightClass::Ident => "ident"@,
            HighlightClass::Number => "number"@,
            HighlightClass::StringLit => "string"@,
            HighlightClass::Boolean => "boolean"@,
            HighlightClass::Punctuation => "punctuation"@,
            HighlightClass::Comment => "comment"@,
            HighlightClass::Error => "error"@,
            HighlightClass::Default => "default"@,
        }
    }

    /// The name of the class.
    pub fn as_str(self) -> (r: &'static str)
        ensures
            r@ == self.name(),
    {
        match self {
            HighlightClass::Ident => "ident",
            HighlightClass::Number => "number",
            HighlightClass::StringLit => "string",
            HighlightClass::Boolean => "boolean",
            HighlightClass::Punctuation => "punctuation",
            HighlightClass::Comment => "comment",
            HighlightClass::Error => "error",
            HighlightClass::Default => "default",
        }
    }

    /// The class that a name stands for; [`HighlightClass::Default`] for any other.
    pub open spec fn named(name: Seq<char>) -> HighlightClass {
        if name == HighlightClass::Ident.name() {
            HighlightClass::Ident
        } else if name == HighlightClass::Number.name() {
            HighlightClass::Number
        } else if name == HighlightClass::StringLit.name() {
            HighlightClass::StringLit
        } else if name == HighlightClass::Boolean.name() {
            HighlightClass::Boolean
        } else if name == HighlightClass::Punctuation.name() {
            HighlightClass::Punctuation
        } else if name == HighlightClass::Comment.name() {
            HighlightClass::Comment
        } else if name == HighlightClass::Error.name() {
            HighlightClass::Error
        } else {
            HighlightClass::Default
        }
    }

    /// The class that a name stands for; [`HighlightClass::Default`] for any other.
    pub fn from_str_name(name: &str) -> (r: Self)
        ensures
            r == Self::named(name@),
    {
        if text::same_text(name, "ident") {
            HighlightClass::Ident
        } else if text::same_text(name, "number") {
            HighlightClass::Number
        } else if text::same_text(name, "string") {
            HighlightClass::StringLit
        } else if text::same_text(name, "boolean") {
            HighlightClass::Boolean
        } else if text::same_text(name, "punctuation") {
            HighlightClass::Punctuation
        } else if text::same_text(name, "comment") {
            HighlightClass::Comment
        } else if text::same_text(name, "error") {
            HighlightClass::Error
        } else {
            HighlightClass::Default
        }
    }

    /// The colour of the class on a dark or a light background.
    pub open spec fn painted(self, dark_mode: bool) -> Rgb {
        if dark_mode {
            match self {
                HighlightClass::Ident => rgb(0x9C, 0xDC, 0xFE),
                HighlightClass::Number => rgb(0xB5, 0xCE, 0xA8),
                HighlightClass::StringLit => rgb(0xCE, 0x91, 0x78),
                HighlightClass::Boolean => rgb(0x56, 0x9C, 0xD6),
                HighlightClass::Punctuation => rgb(0xD4, 0xD4, 0xD4),
                HighlightClass::Comment => rgb(0x6A, 0x99, 0x55),
                HighlightClass::Error => rgb(0xF4, 0x47, 0x47),
                HighlightClass::Default => rgb(0xD4, 0xD4, 0xD4),
            }
        } else {
            match self {
                HighlightClass::Ident => rgb(0x00, 0x55, 0x88),
                HighlightClass::Number => rgb(0x09, 0x86, 0x58),
                HighlightClass::StringLit => rgb(0xA3, 0x15, 0x15),
                HighlightClass::Boolean => rgb(0x00, 0x00, 0xFF),
                HighlightClass::Punctuation => rgb(0x20, 0x20, 0x20),
                HighlightClass::Comment => rgb(0x00, 0x80, 0x00),
                HighlightClass::Error => rgb(0xCD, 0x31, 0x31),
                HighlightClass::Default => rgb(0x20, 0x20, 0x20),
            }
        }
    }

    /// The colour of the class on a dark or a light background.
    pub fn color(self, dark_mode: bool) -> (r: Rgb)
        ensures
            r == self.painted(dark_mode),
    {
        if dark_mode {
            match self {
                HighlightClass::Ident => Rgb { r: 0x9C, g: 0xDC, b: 0xFE },
                HighlightClass::Number => Rgb { r: 0xB5, g: 0xCE, b: 0xA8 },
                HighlightClass::StringLit => Rgb { r: 0xCE, g: 0x91, b: 0x78 },
                HighlightClass::Boolean => Rgb { r: 0x56, g: 0x9C, b: 0xD6 },
                HighlightClass::Punctuation => Rgb { r: 0xD4, g: 0xD4, b: 0xD4 },
                HighlightClass::Comment => Rgb { r: 0x6A, g: 0x99, b: 0x55 },
                HighlightClass::Error => Rgb { r: 0xF4, g: 0x47, b: 0x47 },
                HighlightClass::Default => Rgb { r: 0xD4, g: 0xD4, b: 0xD4 },
            }
        } else {
            match self {
                HighlightClass::Ident => Rgb { r: 0x00, g: 0x55, b: 0x88 },
                HighlightClass::Number => Rgb { r: 0x09, g: 0x86, b: 0x58 },
                HighlightClass::StringLit => Rgb { r: 0xA3, g: 0x15, b: 0x15 },
                HighlightClass::Boolean => Rgb { r: 0x00, g: 0x00, b: 0xFF },
                HighlightClass::Punctuation => Rgb { r: 0x20, g: 0x20, b: 0x20 },
                HighlightClass::Comment => Rgb { r: 0x00, g: 0x80, b: 0x00 },
                HighlightClass::Error => Rgb { r: 0xCD, g: 0x31, b: 0x31 },
                HighlightClass::Default => Rgb { r: 0x20, g: 0x20, b: 0x20 },
            }
        }
    }
}

/// A colour.
pub open spec fn rgb(r: u8, g: u8, b: u8) -> Rgb {
    Rgb { r, g, b }
}

/// The name of a class stands for it.
pub proof fn names_stand_for_their_classes(class: HighlightClass)
    ensures
        HighlightClass::named(class.name()) == class,
{
    reveal_strlit("ident");
    reveal_strlit("number");
    reveal_strlit("string");
    reveal_strlit("boolean");
    reveal_strlit("punctuation");
    reveal_strlit("comment");
    reveal_strlit("error");
    reveal_strlit("default");
    let name = class.name();
    assert(name[0] == name[0] && name[1] == name[1]);
    match class {
        HighlightClass::Ident => {},
        HighlightClass::Number => {
            assert("number"@[0] != "ident"@[0]);
        },
        HighlightClass::StringLit => {
            assert("string"@[0] != "ident"@[0] && "string"@[0] != "number"@[0]);
        },
        HighlightClass::Boolean => {
            assert("boolean"@[0] != "ident"@[0] && "boolean"@[0] != "number"@[0] && "boolean"@[0]
                != "string"@[0]);
        },
        HighlightClass::Punctuation => {
            assert("punctuation"@[0] == 'p');
        },
        HighlightClass::Comment => {
            assert("comment"@[0] == 'c');
        },
        HighlightClass::Error => {
            assert("error"@[0] == 'e');
        },
        HighlightClass::Default => {
            assert("default"@[0] == 'd');
        },
    }
}

/// The coloured parts of a text.
#[derive(Debug, PartialEq, Eq)]
pub struct HighlightModel {
    /// The edit whose text they belong to.
    pub generation: Option<u64>,
    pub spans: Vec<HighlightSpan>,
}

/// A coloured part of a text, in characters.
#[derive(Debug, PartialEq, Eq)]
pub struct HighlightSpan {
    pub start: usize,
    pub end: usize,
    /// The name of its class.
    pub class: String,
}

/// A coloured part as a mathematical value.
pub struct Span {
    pub start: nat,
    pub end: nat,
    pub class: Seq<char>,
}

impl View for HighlightSpan {
    type V = Span;

    open spec fn view(&self) -> Span {
        Span { start: self.start as nat, end: self.end as nat, class: self.class@ }
    }
}

/// Coloured parts as mathematical values.
pub open spec fn spans(list: Seq<HighlightSpan>) -> Seq<Span> {
    list.map_values(|s: HighlightSpan| s@)
}

/// The coloured parts of a text with these first `n` tokens: one for each token that
/// has a colour of its own and covers a character.
pub open spec fn token_spans(tokens: Seq<Token>, s: Seq<char>, n: nat) -> Seq<Span>
    decreases n,
{
    if n == 0 {
        Seq::empty()
    } else {
        let before = token_spans(tokens, s, (n - 1) as nat);
        let token = tokens[n - 1];
        let class = HighlightClass::of_kind(token.kind);
        let start = diagnostics::chars_before(s, token.range.start as int);
        let end = diagnostics::chars_before(s, token.range.end as int);
        if class == HighlightClass::Default || start == end {
            before
        } else {
            before.push(Span { start, end, class: class.name() })
        }
    }
}

/// The coloured parts of the text that was parsed.
pub fn build_highlight_model(parse: &ParseResult, source: &str, generation: u64) -> (r:
    HighlightModel)
    ensures
        r.generation == Some(generation),
        spans(r.spans@) == token_spans(parse.tokens@, source@, parse.tokens@.len()),
{
    let chars = text::chars_of(source);
    let tokens = &parse.tokens;
    let mut list: Vec<HighlightSpan> = Vec::new();
    let mut i: usize = 0;
    assert(spans(list@) =~= token_spans(tokens@, source@, 0));
    while i < tokens.len()
        invariant
            i <= tokens@.len(),
            chars@ == source@,
            spans(list@) == token_spans(tokens@, source@, i as nat),
        decreases tokens@.len() - i,
    {
        let ghost before = spans(list@);
        let class = HighlightClass::from_kind(tokens[i].kind);
        if !matches!(class, HighlightClass::Default) {
            let start = diagnostics::byte_to_char(&chars, tokens[i].range.start);
            let end = diagnostics::byte_to_char(&chars, tokens[i].range.end);
            if start != end {
                let span = HighlightSpan { start, end, class: class.as_str().to_owned() };
                let ghost m = span@;
                list.push(span);
                assert(spans(list@) =~= before.push(m));
            }
        }
        i += 1;
    }
    HighlightModel { generation: Some(generation), spans: list }
}

/// A run of text in one colour.
#[derive(Debug, Clone, Copy, PartialEq, Eq, Structural)]
pub struct Run {
    pub start: usize,
    pub end: usize,
    pub class: HighlightClass,
}

/// The smaller of two numbers.
pub open spec fn least(a: nat, b: nat) -> nat {
    if a < b {
        a
    } else {
        b
    }
}

/// A run as a mathematical value.
pub open spec fn run(start: nat, end: nat, class: HighlightClass) -> Run {
    Run { start: start as usize, end: end as usize, class }
}

/// A run in the colour of plain text, unless it is empty.
pub open spec fn gap(start: nat, end: nat) -> Seq<Run> {
    if start < end {
        seq![run(start, end, HighlightClass::Default)]
    } else {
        Seq::empty()
    }
}

/// The runs of a text of `count` characters from `at` on, with the coloured parts from
/// `from` on. Parts that are empty or start too early are passed over.
pub open spec fn runs_from(parts: Seq<Span>, from: nat, at: nat, count: nat) -> Seq<Run>
    decreases parts.len() - from,
{
    if from >= parts.len() {
        gap(at, count)
    } else {
        let start = least(parts[from as int].start, count);
        let end = least(parts[from as int].end, count);
        if end <= start || start < at {
            runs_from(parts, from + 1, at, count)
        } else {
            gap(at, start) + seq![
                run(start, end, HighlightClass::named(parts[from as int].class)),
            ] + runs_from(parts, from + 1, end, count)
        }
    }
}

/// The runs of a text of `char_count` characters with these coloured parts.
pub fn layout_runs(parts: &Vec<HighlightSpan>, char_count: usize) -> (r: Vec<Run>)
    ensures
        r@ == runs_from(spans(parts@), 0, 0, char_count as nat),
{
    let ghost all = spans(parts@);
    let mut r: Vec<Run> = Vec::new();
    let mut at: usize = 0;
    let mut i: usize = 0;
    assert(r@ + runs_from(all, 0, 0, char_count as nat) =~= runs_from(all, 0, 0, char_count as nat));
    while i < parts.len()
        invariant
            i <= parts@.len(),
            at <= char_count,
            all == spans(parts@),
            r@ + runs_from(all, i as nat, at as nat, char_count as nat) == runs_from(
                all,
                0,
                0,
                char_count as nat,
            ),
        decreases parts@.len() - i,
    {
        let part = &parts[i];
        let start = if part.start < char_count {
            part.start
        } else {
            char_count
        };
        let end = if part.end < char_count {
            part.end
        } else {
            char_count
        };
        assert(all[i as int] == part@);
        if end > start && start >= at {
            let ghost before = r@;
            if start > at {
                r.push(Run { start: at, end: start, class: HighlightClass::Default });
            }
            r.push(
                Run { start, end, class: HighlightClass::from_str_name(part.class.as_str()) },
            );
            proof {
                let piece = seq![run(start as nat, end as nat, HighlightClass::named(part.class@))];
                let rest = runs_from(all, (i + 1) as nat, end as nat, char_count as nat);
                assert(r@ =~= before + gap(at as nat, start as nat) + piece);
                assert(before + (gap(at as nat, start as nat) + piece + rest) =~= r@ + rest);
            }
            at = end;
        }
        i += 1;
    }
    let ghost before = r@;
    if at < char_count {
        r.push(Run { start: at, end: char_count, class: HighlightClass::Default });
    }
    assert(r@ =~= before + gap(at as nat, char_count as nat));
    r
}

/// Whether runs follow each other without a gap from `from` to `to`, and none is empty.
pub open spec fn tile(runs: Seq<Run>, from: nat, to: nat) -> bool
    decreases runs.len(),
{
    if runs.len() == 0 {
        from == to
    } else {
        runs[0].start == from && runs[0].start < runs[0].end && tile(
            runs.drop_first(),
            runs[0].end as nat,
            to,
        )
    }
}

proof fn lemma_tile_concat(a: Seq<Run>, b: Seq<Run>, from: nat, mid: nat, to: nat)
    requires
        tile(a, from, mid),
        tile(b, mid, to),
    ensures
        tile(a + b, from, to),
    decreases a.len(),
{
    if a.len() == 0 {
        assert(a + b =~= b);
    } else {
        lemma_tile_concat(a.drop_first(), b, a[0].end as nat, mid, to);
        assert((a + b).drop_first() =~= a.drop_first() + b);
    }
}

proof fn lemma_tile_one(start: nat, end: nat, class: HighlightClass)
    requires
        start < end <= usize::MAX,
    ensures
        tile(seq![run(start, end, class)], start, end),
{
    let one = seq![run(start, end, class)];
    assert(one.drop_first() =~= Seq::<Run>::empty());
    reveal_with_fuel(tile, 2);
}

proof fn lemma_runs_tile(parts: Seq<Span>, from: nat, at: nat, count: nat)
    requires
        at <= count <= usize::MAX,
    ensures
        tile(runs_from(parts, from, at, count), at, count),
    decreases parts.len() - from,
{
    if from >= parts.len() {
        if at < count {
            lemma_tile_one(at, count, HighlightClass::Default);
        }
    } else {
        let start = least(parts[from as int].start, count);
        let end = least(parts[from as int].end, count);
        if end <= start || start < at {
            lemma_runs_tile(parts, from + 1, at, count);
        } else {
            let class = HighlightClass::named(parts[from as int].class);
            let piece = seq![run(start, end, class)];
            let rest = runs_from(parts, from + 1, end, count);
            lemma_runs_tile(parts, from + 1, end, count);
            lemma_tile_one(start, end, class);
            if at < start {
                lemma_tile_one(at, start, HighlightClass::Default);
            }
            lemma_tile_concat(gap(at, start), piece, at, start, end);
            lemma_tile_concat(gap(at, start) + piece, rest, at, end, count);
        }
    }
}

/// Whatever the coloured parts are, the runs cover every character of the text once, in
/// order.
pub proof fn runs_cover_the_text(parts: Seq<Span>, count: nat)
    requires
        count <= usize::MAX,
    ensures
        tile(runs_from(parts, 0, 0, count), 0, count),
{
    lemma_runs_tile(parts, 0, 0, count);
}

/// How many line ends a text has.
pub open spec fn newlines(s: Seq<char>) -> nat
    decreases s.len(),
{
    if s.len() == 0 {
        0
    } else {
        newlines(s.drop_last()) + (if s.last() == '\n' {
            1nat
        } else {
            0
        })
    }
}

/// How many line numbers to show: one for each line end and one more. An empty text has
/// one line, and a line end at the end starts another line.
pub fn line_count(buffer: &str) -> (r: usize)
    requires
        newlines(buffer@) < usize::MAX,
    ensures
        r == newlines(buffer@) + 1,
{
    let chars = text::chars_of(buffer);
    let mut n: usize = 0;
    let mut i: usize = 0;
    while i < chars.len()
        invariant
            i <= chars@.len(),
            n <= i,
            n == newlines(chars@.take(i as int)),
        decreases chars@.len() - i,
    {
        assert(chars@.take(i + 1).drop_last() =~= chars@.take(i as int));
        if chars[i] == '\n' {
            n += 1;
        }
        i += 1;
    }
    assert(chars@.take(i as int) =~= buffer@);
    n + 1
}

/// The line number `n` with spaces in front, so that it is as wide as that of the last
/// of `count` lines, and a space behind.
pub fn gutter_label(n: usize, count: usize) -> (r: String)
    ensures
        r@ == text::spaces(
            if text::decimal(count as nat).len() > text::decimal(n as nat).len() {
                (text::decimal(count as nat).len() - text::decimal(n as nat).len()) as nat
            } else {
                0
            },
        ) + text::decimal(n as nat) + seq![' '],
{
    let mut widest = String::new();
    text::push_decimal(&mut widest, count);
    let mut number = String::new();
    text::push_decimal(&mut number, n);
    assert(widest@ =~= text::decimal(count as nat));
    assert(number@ =~= text::decimal(n as nat));
    let width = text::char_count(widest.as_str());
    let own = text::char_count(number.as_str());
    let mut r = String::new();
    let ghost pad: nat = if width > own {
        (width - own) as nat
    } else {
        0
    };
    if width > own {
        text::push_spaces(&mut r, width - own);
    }
    assert(r@ =~= text::spaces(pad));
    r.push_str(number.as_str());
    r.push(' ');
    assert(r@ =~= text::spaces(pad) + text::decimal(n as nat) + seq![' ']);
    r
}

/// Whether completion runs: not in large files, and not during a visit of tab stops.
pub fn completion_enabled(oversize: bool, snippet_session_active: bool) -> (r: bool)
    ensures
        r == (!oversize && !snippet_session_active),
{
    !oversize && !snippet_session_active
}

/// What brings up the completion list.
#[derive(Debug, Clone, Copy, PartialEq, Eq, Structural)]
pub enum Trigger {
    /// Typing.
    Auto,
    /// A key.
    Manual,
}

/// What the completion list does next.
#[derive(Debug, Clone, Copy, PartialEq, Eq, Structural)]
pub enum PopupAction {
    /// It closes; what was typed stays.
    Dismiss,
    /// The highlighted item is taken.
    Accept,
    /// The candidates are looked up again.
    Recompute(Trigger),
}

/// What the completion list sees: whether there is a caret without a selection, whether
/// it is open, whether an item is highlighted, and which keys were pressed.
#[derive(Debug, Clone, Copy, PartialEq, Eq, Structural)]
pub struct PopupInput {
    pub collapsed_caret: bool,
    pub open: bool,
    pub highlighted: bool,
    pub escape: bool,
    pub enter_or_tab: bool,
    pub manual: bool,
}

/// What the completion list does next.
pub open spec fn action_on(input: PopupInput) -> PopupAction {
    if !input.collapsed_caret || (input.open && input.escape) {
        PopupAction::Dismiss
    } else if input.open && input.highlighted && input.enter_or_tab {
        PopupAction::Accept
    } else if input.manual {
        PopupAction::Recompute(Trigger::Manual)
    } else {
        PopupAction::Recompute(Trigger::Auto)
    }
}

/// What the completion list does next. An item is only taken if it was highlighted.
pub fn popup_action(input: PopupInput) -> (r: PopupAction)
    ensures
        r == action_on(input),
{
    if !input.collapsed_caret || (input.open && input.escape) {
        PopupAction::Dismiss
    } else if input.open && input.highlighted && input.enter_or_tab {
        PopupAction::Accept
    } else if input.manual {
        PopupAction::Recompute(Trigger::Manual)
    } else {
        PopupAction::Recompute(Trigger::Auto)
    }
}

/// What a completion is.
#[derive(Debug, Clone, Copy, PartialEq, Eq, Structural)]
pub enum CompletionKind {
    Field,
    Variant,
    MapKey,
    OptionValue,
    Delimiter,
}

/// The sign of a kind of completion.
pub open spec fn glyph(kind: CompletionKind) -> Seq<char> {
    match kind {
        CompletionKind::Field => "f"@,
        CompletionKind::Variant => "v"@,
        CompletionKind::MapKey => "k"@,
        CompletionKind::OptionValue => "o"@,
        CompletionKind::Delimiter => "."@,
    }
}

/// The sign of a kind of completion.
pub fn kind_glyph(kind: CompletionKind) -> (r: &'static str)
    ensures
        r@ == glyph(kind),
{
    match kind {
        CompletionKind::Field => "f",
        CompletionKind::Variant => "v",
        CompletionKind::MapKey => "k",
        CompletionKind::OptionValue => "o",
        CompletionKind::Delimiter => ".",
    }
}

/// A row of the completion list.
pub fn completion_label(kind: CompletionKind, label: &str) -> (r: String)
    ensures
        r@ == glyph(kind) + "  "@ + label@,
{
    let mut r = kind_glyph(kind).to_owned();
    r.push_str("  ");
    r.push_str(label);
    r
}

/// Where a character starts, in bytes; the end of the text behind its last character.
pub fn char_to_byte(buffer: &str, char_offset: usize) -> (r: usize)
    ensures
        r == text::byte_len(buffer@.take(least(char_offset as nat, buffer@.len()) as int)),
{
    let chars = text::chars_of(buffer);
    let whole = buffer.as_bytes().len();
    let to = if char_offset < chars.len() {
        char_offset
    } else {
        chars.len()
    };
    assert(chars@.subrange(0, to as int) =~= chars@.take(to as int));
    assert(text::byte_len(chars@) == whole);
    text::bytes_between(&chars, 0, to)
}

/// The character at a byte; the end of the text behind its last byte.
pub fn byte_to_char(buffer: &str, byte_offset: usize) -> (r: usize)
    ensures
        r == diagnostics::chars_before(buffer@, byte_offset as int),
        r <= buffer@.len(),
{
    let chars = text::chars_of(buffer);
    diagnostics::byte_to_char(&chars, byte_offset)
}

/// A character is found again at the byte where it starts.
pub proof fn characters_are_found_at_their_bytes(s: Seq<char>, at: nat)
    requires
        at <= s.len(),
    ensures
        diagnostics::chars_before(s, text::byte_len(s.take(at as int)) as int) == at,
    decreases at,
{
    if s.len() > 0 && at > 0 {
        let c = s[0];
        let rest = s.drop_first();
        let head = s.take(at as int);
        assert(head =~= seq![c] + rest.take(at - 1));
        text::lemma_byte_len_concat(seq![c], rest.take(at - 1));
        text::lemma_byte_len_one(c);
        characters_are_found_at_their_bytes(rest, (at - 1) as nat);
    } else {
        assert(s.take(0) =~= Seq::<char>::empty());
        assert(text::byte_len(s.take(at as int)) == 0);
        if s.len() > 0 {
            text::lemma_byte_len_one(s[0]);
        }
    }
}

/// The colour under a finding on a dark or a light background.
pub fn severity_squiggle_color(severity: Severity, dark_mode: bool) -> (r: Rgb)
    ensures
        r == (match (severity, dark_mode) {
            (Severity::Error, true) => rgb(0xF4, 0x47, 0x47),
            (Severity::Error, false) => rgb(0xCD, 0x31, 0x31),
            (Severity::Warning, true) => rgb(0xCC, 0xA7, 0x00),
            (Severity::Warning, false) => rgb(0xBF, 0x83, 0x03),
        }),
{
    match severity {
        Severity::Error => if dark_mode {
            Rgb { r: 0xF4, g: 0x47, b: 0x47 }
        } else {
            Rgb { r: 0xCD, g: 0x31, b: 0x31 }
        },
        Severity::Warning => if dark_mode {
            Rgb { r: 0xCC, g: 0xA7, b: 0x00 }
        } else {
            Rgb { r: 0xBF, g: 0x83, b: 0x03 }
        },
    }
}

/// A key that moves between tab stops.
#[derive(Debug, Clone, Copy, PartialEq, Eq, Structural)]
pub enum NavigationKey {
    Escape,
    ShiftTab,
    Tab,
    Other,
}

/// Whether a visit goes on in a text of `char_len` characters: it has not ended, and
/// the stop that is being visited is still in the text.
pub open spec fn goes_on(session: SnippetSession, char_len: nat) -> bool {
    session.active is Some && (session.current() matches Some(s) ==> s.char_start <= char_len
        && s.char_end <= char_len)
}

/// Whether a visit goes on, so that its keys are its own.
pub fn session_goes_on(session: &SnippetSession, char_len: usize) -> (r: bool)
    ensures
        r == goes_on(*session, char_len as nat),
{
    if !session.is_active() {
        return false;
    }
    match session.active_stop() {
        Some(s) => s.char_end <= char_len && s.char_start <= char_len,
        None => true,
    }
}

/// The position of the stop to be visited after a key.
pub open spec fn active_after(session: SnippetSession, key: NavigationKey) -> Option<usize> {
    match key {
        NavigationKey::Escape => None,
        NavigationKey::ShiftTab => snippets::after_prev(session.active, session.stops@.len()),
        NavigationKey::Tab => snippets::after_next(session.active, session.stops@.len()),
        NavigationKey::Other => session.active,
    }
}

/// What a key does to a visit of tab stops: the visit if it goes on, and what to select
/// if it has moved.
pub open spec fn navigated(session: SnippetSession, char_len: nat, key: NavigationKey) -> (
    Option<SnippetSession>,
    Option<(usize, usize)>,
) {
    let moved = SnippetSession { active: active_after(session, key), ..session };
    let moves = key == NavigationKey::ShiftTab || key == NavigationKey::Tab;
    if !goes_on(session, char_len) || key == NavigationKey::Escape || (moves && moved.current()
        is None) {
        (None, None)
    } else {
        (
            Some(moved),
            if moves {
                Some((moved.current()->0.char_start, moved.current()->0.char_end))
            } else {
                None
            },
        )
    }
}

/// What a key does to a visit of tab stops: the visit if it goes on, and what to select
/// if it has moved.
pub fn snippet_navigation(session: SnippetSession, char_len: usize, key: NavigationKey) -> (r: (
    Option<SnippetSession>,
    Option<(usize, usize)>,
))
    ensures
        r == navigated(session, char_len as nat, key),
{
    if !session_goes_on(&session, char_len) {
        return (None, None);
    }
    let mut session = session;
    match key {
        NavigationKey::Escape => return (None, None),
        NavigationKey::ShiftTab => {
            session.prev_stop();
        },
        NavigationKey::Tab => {
            session.next_stop();
        },
        NavigationKey::Other => return (Some(session), None),
    }
    let selected = match session.active_stop() {
        Some(s) => Some((s.char_start, s.char_end)),
        None => None,
    };
    if selected.is_none() {
        return (None, None);
    }
    (Some(session), selected)
}

/// The options to choose from at the stop that is being visited.
pub fn choices(session: &SnippetSession) -> (r: Option<(usize, usize, &Vec<String>)>)
    ensures
        match session.current() {
            Some(s) => match s.kind {
                TabStopKind::Choice { options } => r == Some((s.char_start, s.char_end, &options)),
                _ => r is None,
            },
            None => r is None,
        },
{
    match session.active_stop() {
        Some(s) => match &s.kind {
            TabStopKind::Choice { options } => Some((s.char_start, s.char_end, options)),
            _ => None,
        },
        None => None,
    }
}

/// The text with `choice` in place of the characters from `start` to `end`.
pub open spec fn replaced(buffer: Seq<char>, start: nat, end: nat, choice: Seq<char>) -> Seq<char> {
    buffer.take(least(start, buffer.len()) as int) + choice + buffer.skip(
        least(end, buffer.len()) as int,
    )
}

/// The text with `choice` in place of the characters from `start` to `end`; none if
/// they are the wrong way round.
pub fn chosen_text(buffer: &str, start: usize, end: usize, choice: &str) -> (r: Option<String>)
    ensures
        match r {
            Some(t) => least(start as nat, buffer@.len()) <= least(end as nat, buffer@.len()) && t@
                == replaced(buffer@, start as nat, end as nat, choice@),
            None => least(start as nat, buffer@.len()) > least(end as nat, buffer@.len()),
        },
{
    let chars = text::chars_of(buffer);
    let n = chars.len();
    let from = if start < n {
        start
    } else {
        n
    };
    let to = if end < n {
        end
    } else {
        n
    };
    if from > to {
        return None;
    }
    let mut r = text::slice(&chars, 0, from);
    r.push_str(choice);
    let tail = text::slice(&chars, to, n);
    r.push_str(tail.as_str());
    assert(r@ =~= replaced(buffer@, start as nat, end as nat, choice@));
    Some(r)
}

/// Chooses an option: the new text and the end of the option in it, where the text
/// before has `before` problems and the text after has `after`. A choice that would
/// add problems is refused.
pub fn take_choice(
    buffer: &str,
    start: usize,
    end: usize,
    choice: &str,
    before: usize,
    after: usize,
) -> (r: Option<(String, usize)>)
    requires
        start + choice@.len() <= usize::MAX,
    ensures
        r is Some <==> after <= before && least(start as nat, buffer@.len()) <= least(
            end as nat,
            buffer@.len(),
        ),
        r matches Some(c) ==> c.0@ == replaced(buffer@, start as nat, end as nat, choice@) && c.1
            == start + choice@.len(),
{
    if after > before {
        return None;
    }
    match chosen_text(buffer, start, end, choice) {
        Some(t) => Some((t, start + text::char_count(choice))),
        None => None,
    }
}

/// Whether coloured parts follow each other.
pub open spec fn in_order(parts: Seq<Span>) -> bool {
    &&& forall|k: int|
        0 <= k < parts.len() ==> (#[trigger] parts[k]).start <= parts[k].end
    &&& forall|j: int, k: int|
        0 <= j < k < parts.len() ==> (#[trigger] parts[j]).end <= (#[trigger] parts[k]).start
}

/// The class of the run that holds a character.
pub open spec fn class_at(runs: Seq<Run>, i: nat) -> HighlightClass
    decreases runs.len(),
{
    if runs.len() == 0 {
        HighlightClass::Default
    } else if runs[0].start <= i < runs[0].end {
        runs[0].class
    } else {
        class_at(runs.drop_first(), i)
    }
}

proof fn lemma_class_from(parts: Seq<Span>, from: nat, at: nat, count: nat, i: nat, k: int)
    requires
        in_order(parts),
        count <= usize::MAX,
        at <= i < count,
        from <= parts.len(),
        forall|j: int| from <= j < parts.len() ==> at <= (#[trigger] parts[j]).start,
        from <= k <= parts.len(),
        k < parts.len() ==> parts[k].start <= i < parts[k].end,
        k == parts.len() ==> forall|j: int|
            from <= j < parts.len() ==> !((#[trigger] parts[j]).start <= i < parts[j].end),
    ensures
        class_at(runs_from(parts, from, at, count), i) == if k < parts.len() {
            HighlightClass::named(parts[k].class)
        } else {
            HighlightClass::Default
        },
    decreases parts.len() - from,
{
    let runs = runs_from(parts, from, at, count);
    reveal_with_fuel(class_at, 3);
    if from < parts.len() {
        let part = parts[from as int];
        let start = least(part.start, count);
        let end = least(part.end, count);
        if end <= start {
            lemma_class_from(parts, from + 1, at, count, i, k);
        } else {
            let colour = run(start, end, HighlightClass::named(part.class));
            let rest = runs_from(parts, from + 1, end, count);
            if at < start {
                assert(runs =~= seq![run(at, start, HighlightClass::Default), colour] + rest);
                assert(runs.drop_first() =~= seq![colour] + rest);
            } else {
                assert(runs =~= seq![colour] + rest);
            }
            assert((seq![colour] + rest).drop_first() =~= rest);
            assert((seq![colour] + rest)[0] == colour);
            if i >= end {
                if k == from {
                    assert(false);
                }
                assert forall|j: int| from + 1 <= j < parts.len() implies end <= (
                #[trigger] parts[j]).start by {
                    assert(parts[from as int].end <= parts[j].start);
                }
                lemma_class_from(parts, from + 1, end, count, i, k);
            } else if i >= start {
                if k != from && k < parts.len() {
                    assert(parts[from as int].end <= parts[k].start);
                }
                assert(k == from);
            } else if k < parts.len() {
                if k > from {
                    assert(parts[from as int].end <= parts[k].start);
                }
            }
        }
    }
}

/// A character in a coloured part is shown in the colour of the part.
pub proof fn coloured_parts_keep_their_colour(parts: Seq<Span>, count: nat, i: nat, k: int)
    requires
        in_order(parts),
        i < count <= usize::MAX,
        0 <= k < parts.len(),
        parts[k].start <= i < parts[k].end,
    ensures
        class_at(runs_from(parts, 0, 0, count), i) == HighlightClass::named(parts[k].class),
{
    lemma_class_from(parts, 0, 0, count, i, k);
}

/// A character in no coloured part is shown as plain text.
pub proof fn other_text_is_plain(parts: Seq<Span>, count: nat, i: nat)
    requires
        in_order(parts),
        i < count <= usize::MAX,
        forall|k: int|
            0 <= k < parts.len() ==> !((#[trigger] parts[k]).start <= i < parts[k].end),
    ensures
        class_at(runs_from(parts, 0, 0, count), i) == HighlightClass::Default,
{
    lemma_class_from(parts, 0, 0, count, i, parts.len() as int);
}

/// Every token with a colour of its own gets a part, over the characters of its bytes.
pub proof fn tokens_are_coloured(tokens: Seq<Token>, s: Seq<char>, n: nat, k: int) -> (at: int)
    requires
        0 <= k < n <= tokens.len(),
        HighlightClass::of_kind(tokens[k].kind) != HighlightClass::Default,
        diagnostics::chars_before(s, tokens[k].range.start as int)
            < diagnostics::chars_before(s, tokens[k].range.end as int),
    ensures
        0 <= at < token_spans(tokens, s, n).len(),
        token_spans(tokens, s, n)[at] == (Span {
            start: diagnostics::chars_before(s, tokens[k].range.start as int),
            end: diagnostics::chars_before(s, tokens[k].range.end as int),
            class: HighlightClass::of_kind(tokens[k].kind).name(),
        }),
    decreases n,
{
    if k == n - 1 {
        token_spans(tokens, s, (n - 1) as nat).len() as int
    } else {
        tokens_are_coloured(tokens, s, (n - 1) as nat, k)
    }
}

/// Every part is that of a token.
pub proof fn coloured_parts_are_tokens(tokens: Seq<Token>, s: Seq<char>, n: nat, at: int) -> (k:
    int)
    requires
        n <= tokens.len(),
        0 <= at < token_spans(tokens, s, n).len(),
    ensures
        0 <= k < n,
        HighlightClass::of_kind(tokens[k].kind) != HighlightClass::Default,
        token_spans(tokens, s, n)[at] == (Span {
            start: diagnostics::chars_before(s, tokens[k].range.start as int),
            end: diagnostics::chars_before(s, tokens[k].range.end as int),
            class: HighlightClass::of_kind(tokens[k].kind).name(),
        }),
    decreases n,
{
    let before = token_spans(tokens, s, (n - 1) as nat);
    if at < before.len() {
        coloured_parts_are_tokens(tokens, s, (n - 1) as nat, at)
    } else {
        n - 1
    }
}

/// There is a line for each line end before the end of the text.
pub proof fn line_ends_are_lines(s: Seq<char>)
    ensures
        newlines(s) == diagnostics::position(s, s.len()).0,
    decreases s.len(),
{
    if s.len() > 0 {
        let t = s.drop_last();
        line_ends_are_lines(t);
        lemma_same_lines(t, s, t.len());
    }
}

proof fn lemma_same_lines(t: Seq<char>, s: Seq<char>, at: nat)
    requires
        at <= t.len() <= s.len(),
        t == s.take(t.len() as int),
    ensures
        diagnostics::line_of(t, at) == diagnostics::line_of(s, at),
    decreases at,
{
    if at > 0 {
        lemma_same_lines(t, s, (at - 1) as nat);
    }
}

/// A choice stands where the characters were that it replaces; the text before and after
/// them stays.
pub proof fn choices_replace_their_characters(
    buffer: Seq<char>,
    start: nat,
    end: nat,
    choice: Seq<char>,
)
    requires
        start <= end <= buffer.len(),
    ensures
        replaced(buffer, start, end, choice).take(start as int) == buffer.take(start as int),
        replaced(buffer, start, end, choice).subrange(start as int, (start + choice.len()) as int)
            == choice,
        replaced(buffer, start, end, choice).skip((start + choice.len()) as int) == buffer.skip(
            end as int,
        ),
{
    let r = replaced(buffer, start, end, choice);
    assert(r.take(start as int) =~= buffer.take(start as int));
    assert(r.subrange(start as int, (start + choice.len()) as int) =~= choice);
    assert(r.skip((start + choice.len()) as int) =~= buffer.skip(end as int));
}

/// An item is taken only if the list is open, the item is highlighted and the key for it
/// is pressed; the list closes on escape and where there is no caret; otherwise the
/// candidates are looked up again.
pub proof fn items_are_taken_on_purpose(input: PopupInput)
    ensures
        action_on(input) is Accept <==> input.collapsed_caret && input.open && input.highlighted
            && input.enter_or_tab && !input.escape,
        action_on(input) is Dismiss <==> !input.collapsed_caret || (input.open && input.escape),
        action_on(input) == PopupAction::Recompute(Trigger::Manual) ==> input.manual,
        action_on(input) == PopupAction::Recompute(Trigger::Auto) ==> !input.manual,
{
}

/// Keys move a visit along its stops and change none of them: escape ends the visit, a
/// move selects the stop it leads to, and going back undoes going on.
pub proof fn keys_move_along_the_stops(session: SnippetSession, char_len: nat)
    requires
        session.wf(),
        session.active is Some,
        goes_on(session, char_len),
        forall|i: int|
            0 <= i < session.stops@.len() ==> (#[trigger] session.stops@[i]).char_end <= char_len
                && session.stops@[i].char_start <= char_len,
    ensures
        navigated(session, char_len, NavigationKey::Escape).0 is None,
        navigated(session, char_len, NavigationKey::Other) == (Some(session), None::<
            (usize, usize),
        >),
        session.active->0 + 1 < session.stops@.len() ==> {
            let next = session.stops@[session.active->0 + 1];
            let on = navigated(session, char_len, NavigationKey::Tab);
            &&& on.1 == Some((next.char_start, next.char_end))
            &&& on.0 matches Some(s) && navigated(s, char_len, NavigationKey::ShiftTab).0 == Some(
                session,
            )
        },
        session.active->0 + 1 >= session.stops@.len() ==> navigated(
            session,
            char_len,
            NavigationKey::Tab,
        ).0 is None,
{
    if session.active->0 + 1 < session.stops@.len() {
        let next = session.stops@[session.active->0 + 1];
        let on = navigated(session, char_len, NavigationKey::Tab);
        assert(session.stops.len() == session.stops@.len());
        let moved = SnippetSession {
            active: active_after(session, NavigationKey::Tab),
            ..session
        };
        assert(moved.current() == Some(next));
        assert(next.char_end <= char_len);
        let back = SnippetSession {
            active: active_after(moved, NavigationKey::ShiftTab),
            ..moved
        };
        assert(back == session);
    }
}

} // verus!
