//! What a conversion from RON to JSON cannot represent.
//!
//! [`build_loss_report`] lists every construct that loses something, in source order,
//! each with its span. Being recoverable within the editor does not keep a construct
//! off the list: it is only marked so.

use vstd::prelude::*;

use crate::interop::comments::{Comment, CommentCarrier};
use crate::interop::pointer;
use crate::syntax::{
    self, Element, MapEntry, RonDocument, RonValue, Shape, StructField, SyntaxKind, TextRange,
};
use crate::text;

verus! {

/// The kinds of loss.
#[derive(Clone, Copy, Debug, PartialEq, Eq, PartialOrd, Ord, Hash, Structural)]
pub enum LossKind {
    /// The name of a struct is dropped: a JSON object is anonymous.
    StructName,
    /// A tuple becomes an array.
    TupleVsList,
    /// A character becomes a string.
    Char,
    /// An enum variant is expressed by tagging.
    EnumTagging,
    /// A map key that is no string is written as one.
    NonStringKey,
    /// A unit becomes `null`.
    UnitVsNull,
    /// A raw string becomes an ordinary one.
    RawString,
    /// A trailing comma is dropped.
    TrailingComma,
    /// A comment is dropped.
    DroppedComment,
    /// A region that could not be converted is replaced by a placeholder.
    UnparseableRegion,
}

impl LossKind {
    /// Every kind, in the order of the codes.
    pub fn all() -> (r: Vec<LossKind>)
        ensures
            r@ == seq![
                LossKind::StructName,
                LossKind::TupleVsList,
                LossKind::Char,
                LossKind::EnumTagging,
                LossKind::NonStringKey,
                LossKind::UnitVsNull,
                LossKind::RawString,
                LossKind::TrailingComma,
                LossKind::DroppedComment,
                LossKind::UnparseableRegion,
            ],
    {
        vec![
            LossKind::StructName,
            LossKind::TupleVsList,
            LossKind::Char,
            LossKind::EnumTagging,
            LossKind::NonStringKey,
            LossKind::UnitVsNull,
            LossKind::RawString,
            LossKind::TrailingComma,
            LossKind::DroppedComment,
            LossKind::UnparseableRegion,
        ]
    }

    /// The stable code.
    pub open spec fn code_text(self) -> Seq<char> {
        match self {
            LossKind::StructName => "RON-I0001"@,
            LossKind::TupleVsList => "RON-I0002"@,
            LossKind::Char => "RON-I0003"@,
            LossKind::EnumTagging => "RON-I0004"@,
            LossKind::NonStringKey => "RON-I0005"@,
            LossKind::UnitVsNull => "RON-I0006"@,
            LossKind::RawString => "RON-I0007"@,
            LossKind::TrailingComma => "RON-I0008"@,
            LossKind::DroppedComment => "RON-I0009"@,
            LossKind::UnparseableRegion => "RON-I0010"@,
        }
    }

    /// The human-readable label.
    pub open spec fn label_text(self) -> Seq<char> {
        match self {
            LossKind::StructName => "struct name dropped"@,
            LossKind::TupleVsList => "tuple emitted as array"@,
            LossKind::Char => "char emitted as string"@,
            LossKind::EnumTagging => "enum variant tagged"@,
            LossKind::NonStringKey => "non-string map key stringified"@,
            LossKind::UnitVsNull => "unit () emitted as null"@,
            LossKind::RawString => "raw string emitted as standard string"@,
            LossKind::TrailingComma => "trailing comma dropped"@,
            LossKind::DroppedComment => "comment dropped"@,
            LossKind::UnparseableRegion => "unparseable region placeholdered"@,
        }
    }

    /// The stable code.
    pub fn code(self) -> (r: &'static str)
        ensures
            r@ == self.code_text(),
    {
        match self {
            LossKind::StructName => "RON-I0001",
            LossKind::TupleVsList => "RON-I0002",
            LossKind::Char => "RON-I0003",
            LossKind::EnumTagging => "RON-I0004",
            LossKind::NonStringKey => "RON-I0005",
            LossKind::UnitVsNull => "RON-I0006",
            LossKind::RawString => "RON-I0007",
            LossKind::TrailingComma => "RON-I0008",
            LossKind::DroppedComment => "RON-I0009",
            LossKind::UnparseableRegion => "RON-I0010",
        }
    }

    /// The stable code under its other name.
    pub fn as_str(self) -> (r: &'static str)
        ensures
            r@ == self.code_text(),
    {
        self.code()
    }

    /// The human-readable label.
    pub fn label(self) -> (r: &'static str)
        ensures
            r@ == self.label_text(),
    {
        match self {
            LossKind::StructName => "struct name dropped",
            LossKind::TupleVsList => "tuple emitted as array",
            LossKind::Char => "char emitted as string",
            LossKind::EnumTagging => "enum variant tagged",
            LossKind::NonStringKey => "non-string map key stringified",
            LossKind::UnitVsNull => "unit () emitted as null",
            LossKind::RawString => "raw string emitted as standard string",
            LossKind::TrailingComma => "trailing comma dropped",
            LossKind::DroppedComment => "comment dropped",
            LossKind::UnparseableRegion => "unparseable region placeholdered",
        }
    }

    /// What reports a loss of any kind.
    pub fn source(self) -> (r: &'static str)
        ensures
            r@ == "ronin-interop"@,
    {
        "ronin-interop"
    }
}

/// No two kinds share a code.
pub proof fn codes_are_distinct(a: LossKind, b: LossKind)
    ensures
        a.code_text() == b.code_text() ==> a == b,
{
    reveal_strlit("RON-I0001");
    reveal_strlit("RON-I0002");
    reveal_strlit("RON-I0003");
    reveal_strlit("RON-I0004");
    reveal_strlit("RON-I0005");
    reveal_strlit("RON-I0006");
    reveal_strlit("RON-I0007");
    reveal_strlit("RON-I0008");
    reveal_strlit("RON-I0009");
    reveal_strlit("RON-I0010");
    assert(a.code_text()[8] == b.code_text()[8] && a.code_text()[7] == b.code_text()[7]
        || a.code_text() != b.code_text());
}

/// Whether converting back within the editor restores a construct.
#[derive(Clone, Copy, Debug, PartialEq, Eq, PartialOrd, Ord, Hash, Structural)]
pub enum LossRecovery {
    /// The construct is lost.
    LossyToExternal,
    /// The bound type restores the construct.
    RoundTripSafeWithinRonin,
}

impl LossRecovery {
    /// The stable label.
    pub fn as_str(self) -> (r: &'static str)
        ensures
            r@ == match self {
                LossRecovery::LossyToExternal => "lossy-to-external"@,
                LossRecovery::RoundTripSafeWithinRonin => "round-trip-safe-within-ronin"@,
            },
    {
        match self {
            LossRecovery::LossyToExternal => "lossy-to-external",
            LossRecovery::RoundTripSafeWithinRonin => "round-trip-safe-within-ronin",
        }
    }

    /// Whether the bound type restores the construct.
    pub fn is_round_trip_safe(self) -> (r: bool)
        ensures
            r == (self is RoundTripSafeWithinRonin),
    {
        matches!(self, LossRecovery::RoundTripSafeWithinRonin)
    }
}

/// A construct that loses something.
#[derive(Debug)]
pub struct LossyConstruct {
    pub kind: LossKind,
    pub source_range: TextRange,
    pub recovery: LossRecovery,
    pub detail: Option<String>,
}

/// The mathematical model of a construct that loses something.
pub struct Loss {
    pub kind: LossKind,
    pub source_range: TextRange,
    pub recovery: LossRecovery,
    pub detail: Option<Seq<char>>,
}

impl View for LossyConstruct {
    type V = Loss;

    open spec fn view(&self) -> Loss {
        Loss {
            kind: self.kind,
            source_range: self.source_range,
            recovery: self.recovery,
            detail: match self.detail {
                Some(d) => Some(d@),
                None => None,
            },
        }
    }
}

/// A loss with its explanation.
pub open spec fn loss(
    kind: LossKind,
    source_range: TextRange,
    recovery: LossRecovery,
    detail: Seq<char>,
) -> Loss {
    Loss { kind, source_range, recovery, detail: Some(detail) }
}

impl LossyConstruct {
    /// A loss without an explanation.
    pub fn new(kind: LossKind, source_range: TextRange, recovery: LossRecovery) -> (r: Self)
        ensures
            r@ == (Loss { kind, source_range, recovery, detail: None }),
    {
        LossyConstruct { kind, source_range, recovery, detail: None }
    }

    /// A loss with its explanation.
    pub fn with_detail(
        kind: LossKind,
        source_range: TextRange,
        recovery: LossRecovery,
        detail: &str,
    ) -> (r: Self)
        ensures
            r@ == loss(kind, source_range, recovery, detail@),
    {
        LossyConstruct { kind, source_range, recovery, detail: Some(detail.to_owned()) }
    }

    /// What kind of loss it is.
    pub fn kind(&self) -> (r: LossKind)
        ensures
            r == self@.kind,
    {
        self.kind
    }

    /// Where the construct stands.
    pub fn source_range(&self) -> (r: TextRange)
        ensures
            r == self@.source_range,
    {
        self.source_range
    }

    /// Whether the editor restores it.
    pub fn recovery(&self) -> (r: LossRecovery)
        ensures
            r == self@.recovery,
    {
        self.recovery
    }

    /// The explanation.
    pub fn detail(&self) -> (r: Option<&str>)
        ensures
            match r {
                Some(d) => self@.detail == Some(d@),
                None => self@.detail is None,
            },
    {
        match &self.detail {
            Some(d) => Some(d.as_str()),
            None => None,
        }
    }

    /// The stable code of its kind.
    pub fn code(&self) -> (r: &'static str)
        ensures
            r@ == self@.kind.code_text(),
    {
        self.kind.code()
    }
}

/// The one list of losses of a conversion.
#[derive(Debug)]
pub struct LossReport {
    pub constructs: Vec<LossyConstruct>,
}

impl View for LossReport {
    type V = Seq<Loss>;

    open spec fn view(&self) -> Seq<Loss> {
        self.constructs@.map_values(|c: LossyConstruct| c@)
    }
}

/// How many losses of `kind` a list holds.
pub open spec fn count_in(list: Seq<Loss>, kind: LossKind) -> nat
    decreases list.len(),
{
    if list.len() == 0 {
        0
    } else {
        count_in(list.drop_last(), kind) + (if list.last().kind == kind {
            1nat
        } else {
            0
        })
    }
}

impl LossReport {
    /// The empty report.
    pub fn new() -> (r: Self)
        ensures
            r@ == Seq::<Loss>::empty(),
    {
        let r = LossReport { constructs: Vec::new() };
        assert(r@ =~= Seq::<Loss>::empty());
        r
    }

    /// A report of the given losses, in their order.
    pub fn from_constructs(constructs: Vec<LossyConstruct>) -> (r: Self)
        ensures
            r@ == constructs@.map_values(|c: LossyConstruct| c@),
            r.constructs == constructs,
    {
        LossReport { constructs }
    }

    /// Adds a loss at the end.
    pub fn push(&mut self, construct: LossyConstruct)
        ensures
            final(self)@ == old(self)@.push(construct@),
    {
        self.constructs.push(construct);
        assert(self@ =~= old(self)@.push(construct@));
    }

    /// The losses, in source order.
    pub fn constructs(&self) -> (r: &Vec<LossyConstruct>)
        ensures
            r.view().map_values(|c: LossyConstruct| c@) == self@,
            *r == self.constructs,
    {
        &self.constructs
    }

    /// Whether nothing is lost.
    pub fn is_empty(&self) -> (r: bool)
        ensures
            r == (self@.len() == 0),
    {
        self.constructs.len() == 0
    }

    /// How many losses there are.
    pub fn len(&self) -> (r: usize)
        ensures
            r == self@.len(),
    {
        self.constructs.len()
    }

    /// Whether the user has to confirm the conversion: exactly when something is lost.
    pub fn requires_confirmation(&self) -> (r: bool)
        ensures
            r == (self@.len() > 0),
    {
        !self.is_empty()
    }

    /// How many losses of one kind there are.
    pub fn count_of(&self, kind: LossKind) -> (r: usize)
        ensures
            r == count_in(self@, kind),
    {
        let mut n: usize = 0;
        let mut i: usize = 0;
        while i < self.constructs.len()
            invariant
                i <= self.constructs@.len(),
                n <= i,
                n == count_in(self@.take(i as int), kind),
            decreases self.constructs@.len() - i,
        {
            assert(self@.take(i + 1).drop_last() =~= self@.take(i as int));
            if self.constructs[i].kind == kind {
                n += 1;
            }
            i += 1;
        }
        assert(self@.take(i as int) =~= self@);
        n
    }

    /// The kinds that occur, in the order of the codes, each with its count.
    pub fn counts_by_kind(&self) -> (r: Vec<(LossKind, usize)>)
        ensures
            forall|i: int|
                0 <= i < r@.len() ==> (#[trigger] r@[i]).1 == count_in(self@, r@[i].0) && r@[i].1
                    > 0,
            forall|i: int, j: int|
                0 <= i < j < r@.len() ==> kind_rank((#[trigger] r@[i]).0) < kind_rank(
                    (#[trigger] r@[j]).0,
                ),
            forall|k: LossKind|
                count_in(self@, k) > 0 ==> exists|i: int|
                    0 <= i < r@.len() && (#[trigger] r@[i]).0 == k,
    {
        let kinds = LossKind::all();
        let mut r: Vec<(LossKind, usize)> = Vec::new();
        let mut i: usize = 0;
        proof {
            lemma_kinds_are_ranked();
        }
        while i < kinds.len()
            invariant
                i <= kinds@.len(),
                kinds@.len() == 10,
                forall|a: int| 0 <= a < 10 ==> kind_rank(#[trigger] kinds@[a]) == a,
                forall|a: int|
                    0 <= a < r@.len() ==> (#[trigger] r@[a]).1 == count_in(self@, r@[a].0)
                        && r@[a].1 > 0 && kind_rank(r@[a].0) < i,
                forall|a: int, b: int|
                    0 <= a < b < r@.len() ==> kind_rank((#[trigger] r@[a]).0) < kind_rank(
                        (#[trigger] r@[b]).0,
                    ),
                forall|k: LossKind|
                    kind_rank(k) < i && count_in(self@, k) > 0 ==> exists|a: int|
                        0 <= a < r@.len() && (#[trigger] r@[a]).0 == k,
            decreases kinds@.len() - i,
        {
            let kind = kinds[i];
            let n = self.count_of(kind);
            let ghost before = r@;
            if n > 0 {
                r.push((kind, n));
            }
            proof {
                assert forall|k: LossKind|
                    kind_rank(k) < i + 1 && count_in(self@, k) > 0 implies exists|a: int|
                    0 <= a < r@.len() && (#[trigger] r@[a]).0 == k by {
                    if kind_rank(k) == i {
                        lemma_rank_is_injective(k, kind);
                        assert(r@[r@.len() - 1].0 == k);
                    } else {
                        let a = choose|a: int| 0 <= a < before.len() && (#[trigger] before[a]).0 == k;
                        assert(r@[a].0 == k);
                    }
                }
            }
            i += 1;
        }
        r
    }
}

/// The position of a kind in the order of the codes.
pub open spec fn kind_rank(kind: LossKind) -> int {
    match kind {
        LossKind::StructName => 0,
        LossKind::TupleVsList => 1,
        LossKind::Char => 2,
        LossKind::EnumTagging => 3,
        LossKind::NonStringKey => 4,
        LossKind::UnitVsNull => 5,
        LossKind::RawString => 6,
        LossKind::TrailingComma => 7,
        LossKind::DroppedComment => 8,
        LossKind::UnparseableRegion => 9,
    }
}

proof fn lemma_kinds_are_ranked()
    ensures
        forall|k: LossKind| 0 <= #[trigger] kind_rank(k) < 10,
{
}

proof fn lemma_rank_is_injective(a: LossKind, b: LossKind)
    ensures
        kind_rank(a) == kind_rank(b) ==> a == b,
{
}

/// Over all kinds the counts add up to the length of the list: no loss is counted
/// twice and none is left out.
pub proof fn counts_add_up(list: Seq<Loss>)
    ensures
        count_in(list, LossKind::StructName) + count_in(list, LossKind::TupleVsList) + count_in(
            list,
            LossKind::Char,
        ) + count_in(list, LossKind::EnumTagging) + count_in(list, LossKind::NonStringKey)
            + count_in(list, LossKind::UnitVsNull) + count_in(list, LossKind::RawString) + count_in(
            list,
            LossKind::TrailingComma,
        ) + count_in(list, LossKind::DroppedComment) + count_in(list, LossKind::UnparseableRegion)
            == list.len(),
    decreases list.len(),
{
    if list.len() > 0 {
        counts_add_up(list.drop_last());
    }
}

/// Where the values and the keys of a converted document come from, by pointer.
#[derive(Debug)]
pub struct PointerRangeIndex {
    pub values: Vec<(String, TextRange)>,
    pub keys: Vec<(String, TextRange)>,
}

/// The span listed for `pointer` at or after position `from`.
pub open spec fn range_at(list: Seq<(String, TextRange)>, pointer: Seq<char>, from: nat) -> Option<
    TextRange,
>
    decreases list.len() - from,
{
    if from >= list.len() {
        None
    } else if list[from as int].0@ == pointer {
        Some(list[from as int].1)
    } else {
        range_at(list, pointer, from + 1)
    }
}

/// The span listed for `pointer`.
fn find_range(list: &Vec<(String, TextRange)>, pointer: &str) -> (r: Option<TextRange>)
    ensures
        r == range_at(list@, pointer@, 0),
{
    let mut i: usize = 0;
    while i < list.len()
        invariant
            i <= list@.len(),
            range_at(list@, pointer@, i as nat) == range_at(list@, pointer@, 0),
        decreases list@.len() - i,
    {
        if text::same_text(list[i].0.as_str(), pointer) {
            return Some(list[i].1);
        }
        i += 1;
    }
    None
}

impl PointerRangeIndex {
    /// The span of the value at `pointer`.
    pub fn value_range(&self, pointer: &str) -> (r: Option<TextRange>)
        ensures
            r == range_at(self.values@, pointer@, 0),
    {
        find_range(&self.values, pointer)
    }

    /// The span of the key at `pointer`.
    pub fn key_range(&self, pointer: &str) -> (r: Option<TextRange>)
        ensures
            r == range_at(self.keys@, pointer@, 0),
    {
        find_range(&self.keys, pointer)
    }
}

/// The span to report for the value at `pointer`: the indexed one, or the value's own.
pub open spec fn reported_range(index: PointerRangeIndex, pointer: Seq<char>, own: TextRange) -> TextRange {
    match range_at(index.values@, pointer, 0) {
        Some(r) => r,
        None => own,
    }
}

/// The span to report for the key at `pointer`: the indexed one, or the key's own.
pub open spec fn reported_key_range(
    index: PointerRangeIndex,
    pointer: Seq<char>,
    own: TextRange,
) -> TextRange {
    match range_at(index.keys@, pointer, 0) {
        Some(r) => r,
        None => own,
    }
}

/// How a construct fares that a bound type restores.
pub open spec fn recovery_when(bound: bool) -> LossRecovery {
    if bound {
        LossRecovery::RoundTripSafeWithinRonin
    } else {
        LossRecovery::LossyToExternal
    }
}

/// The comma that stands before position `n`, trivia aside, among the direct children
/// of a collection.
pub open spec fn comma_before(layout: Seq<Element>, n: nat) -> Option<TextRange>
    decreases n,
{
    if n == 0 {
        None
    } else {
        match layout[n - 1] {
            Element::Node => None,
            Element::Token { kind, range } => if kind.trivia() {
                comma_before(layout, (n - 1) as nat)
            } else if kind is Comma {
                Some(range)
            } else {
                None
            },
        }
    }
}

/// The trailing commas among the first `n` direct children of a collection: each
/// comma that a closing delimiter follows, trivia aside.
pub open spec fn trailing_commas(layout: Seq<Element>, n: nat) -> Seq<Loss>
    decreases n,
{
    if n == 0 {
        Seq::empty()
    } else {
        let before = trailing_commas(layout, (n - 1) as nat);
        match (layout[n - 1], comma_before(layout, (n - 1) as nat)) {
            (Element::Token { kind, .. }, Some(comma)) => if kind.closing() {
                before.push(
                    loss(
                        LossKind::TrailingComma,
                        comma,
                        LossRecovery::LossyToExternal,
                        "trailing comma dropped \u{2014} no JSON representation"@,
                    ),
                )
            } else {
                before
            },
            _ => before,
        }
    }
}

/// The trailing commas of a collection.
pub open spec fn commas(layout: Seq<Element>) -> Seq<Loss> {
    trailing_commas(layout, layout.len())
}

/// Whether a map key is a string in JSON as well.
pub open spec fn string_key(key: RonValue) -> bool {
    key.shape matches Shape::Literal { kind: Some(kind), .. } && (kind is String || kind
        is RawString)
}

/// The losses of `value`, which stands at `pointer`, and of all values inside it.
pub open spec fn losses(
    value: RonValue,
    pointer: Seq<char>,
    index: PointerRangeIndex,
    bound: bool,
) -> Seq<Loss>
    decreases value, 0nat,
{
    let range = reported_range(index, pointer, value.range);
    match value.shape {
        Shape::Struct { name, fields } => (if name is Some {
            seq![
                loss(
                    LossKind::StructName,
                    range,
                    LossRecovery::LossyToExternal,
                    "struct name dropped \u{2014} JSON object is anonymous"@,
                ),
            ]
        } else {
            Seq::empty()
        }) + commas(value.layout@) + field_losses(fields@, pointer, index, bound, 0),
        Shape::Tuple { name, items } => if syntax::named(name, "Some"@) {
            if items@.len() > 0 {
                losses(items@[0], pointer, index, bound)
            } else {
                Seq::empty()
            }
        } else {
            match name {
                Some(n) => seq![
                    loss(
                        LossKind::EnumTagging,
                        range,
                        recovery_when(bound),
                        "named tuple variant \u{2014} emitted via serde tagging"@,
                    ),
                ] + commas(value.layout@) + payload_losses(
                    items@,
                    pointer::key_pointer(pointer, n@),
                    index,
                    bound,
                ),
                None => seq![
                    loss(
                        LossKind::TupleVsList,
                        range,
                        recovery_when(bound),
                        "tuple emitted as JSON array"@,
                    ),
                ] + commas(value.layout@) + item_losses(items@, pointer, index, bound, 0),
            }
        },
        Shape::List { items } => commas(value.layout@) + item_losses(
            items@,
            pointer,
            index,
            bound,
            0,
        ),
        Shape::Dictionary { entries } => commas(value.layout@) + map_losses(
            entries@,
            pointer,
            index,
            bound,
            0,
        ),
        Shape::EnumVariant { name, items, entries } => if pointer::is_bare_none(
            name,
            items@,
            entries@,
        ) {
            Seq::empty()
        } else if pointer::is_some_of(name, items@) {
            losses(items@[0], pointer, index, bound)
        } else {
            let under = pointer::key_pointer(pointer, syntax::text_or_empty(name));
            seq![
                loss(
                    LossKind::EnumTagging,
                    range,
                    recovery_when(bound),
                    "enum variant emitted via serde tagging"@,
                ),
            ] + commas(value.layout@) + (if entries@.len() > 0 || syntax::brace_among(
                value.layout@,
            ) {
                entry_losses(entries@, under, index, bound, 0)
            } else {
                payload_losses(items@, under, index, bound)
            })
        },
        Shape::Unit => seq![
            loss(
                LossKind::UnitVsNull,
                range,
                LossRecovery::LossyToExternal,
                "unit () emitted as JSON null"@,
            ),
        ],
        Shape::Literal { kind: Some(SyntaxKind::Char), .. } => seq![
            loss(
                LossKind::Char,
                range,
                recovery_when(bound),
                "char emitted as one-character JSON string"@,
            ),
        ],
        Shape::Literal { kind: Some(SyntaxKind::RawString), .. } => seq![
            loss(
                LossKind::RawString,
                range,
                LossRecovery::LossyToExternal,
                "raw string emitted as standard JSON string"@,
            ),
        ],
        Shape::Literal { .. } | Shape::Error => Seq::empty(),
    }
}

/// The losses of the fields from position `from` on.
pub open spec fn field_losses(
    fields: Seq<StructField>,
    pointer: Seq<char>,
    index: PointerRangeIndex,
    bound: bool,
    from: nat,
) -> Seq<Loss>
    decreases fields, fields.len() - from,
{
    if from >= fields.len() {
        Seq::empty()
    } else {
        (match (fields[from as int].name, fields[from as int].value) {
            (Some(name), Some(value)) => losses(
                value,
                pointer::key_pointer(pointer, name@),
                index,
                bound,
            ),
            _ => Seq::empty(),
        }) + field_losses(fields, pointer, index, bound, from + 1)
    }
}

/// The losses of the items from position `from` on.
pub open spec fn item_losses(
    items: Seq<RonValue>,
    pointer: Seq<char>,
    index: PointerRangeIndex,
    bound: bool,
    from: nat,
) -> Seq<Loss>
    decreases items, items.len() - from,
{
    if from >= items.len() {
        Seq::empty()
    } else {
        losses(items[from as int], pointer::index_pointer(pointer, from), index, bound)
            + item_losses(items, pointer, index, bound, from + 1)
    }
}

/// The losses of a variant's positional payload.
pub open spec fn payload_losses(
    items: Seq<RonValue>,
    pointer: Seq<char>,
    index: PointerRangeIndex,
    bound: bool,
) -> Seq<Loss>
    decreases items, items.len() + 1,
{
    if items.len() == 1 {
        losses(items[0], pointer, index, bound)
    } else {
        item_losses(items, pointer, index, bound, 0)
    }
}

/// The losses of the map entries from position `from` on: of each key that is no
/// string, and of each value.
pub open spec fn map_losses(
    entries: Seq<MapEntry>,
    pointer: Seq<char>,
    index: PointerRangeIndex,
    bound: bool,
    from: nat,
) -> Seq<Loss>
    decreases entries, entries.len() - from,
{
    if from >= entries.len() {
        Seq::empty()
    } else {
        (match entries[from as int].key {
            Some(key) => {
                let under = pointer::key_pointer(pointer, pointer::key_text(key));
                (if string_key(key) {
                    Seq::empty()
                } else {
                    seq![
                        loss(
                            LossKind::NonStringKey,
                            reported_key_range(index, under, key.range),
                            recovery_when(bound),
                            "non-string map key stringified to canonical RON literal"@,
                        ),
                    ]
                }) + (match entries[from as int].value {
                    Some(value) => losses(value, under, index, bound),
                    None => Seq::empty(),
                })
            },
            None => Seq::empty(),
        }) + map_losses(entries, pointer, index, bound, from + 1)
    }
}

/// The losses of a brace-style variant's entries from position `from` on.
pub open spec fn entry_losses(
    entries: Seq<MapEntry>,
    pointer: Seq<char>,
    index: PointerRangeIndex,
    bound: bool,
    from: nat,
) -> Seq<Loss>
    decreases entries, entries.len() - from,
{
    if from >= entries.len() {
        Seq::empty()
    } else {
        (match (pointer::entry_name(entries[from as int]), entries[from as int].value) {
            (Some(name), Some(value)) => losses(
                value,
                pointer::key_pointer(pointer, name),
                index,
                bound,
            ),
            _ => Seq::empty(),
        }) + entry_losses(entries, pointer, index, bound, from + 1)
    }
}

/// The losses of dropping `comments`.
pub open spec fn comment_losses(comments: Seq<Comment>) -> Seq<Loss> {
    comments.map_values(
        |c: Comment|
            loss(
                LossKind::DroppedComment,
                c.source_range,
                LossRecovery::LossyToExternal,
                "comment dropped \u{2014} pure standard JSON, sidecar declined"@,
            ),
    )
}

/// All losses of converting a document: those of its values, then the dropped comments.
pub open spec fn document_losses(
    doc: RonDocument,
    index: PointerRangeIndex,
    comments: CommentCarrier,
    bound: bool,
) -> Seq<Loss> {
    (match doc.root {
        Some(root) => losses(root, Seq::empty(), index, bound),
        None => Seq::empty(),
    }) + comment_losses(comments.dropped())
}

/// Whether a map key is a string in JSON as well.
pub fn is_string_key(key: &RonValue) -> (r: bool)
    ensures
        r == string_key(*key),
{
    match &key.shape {
        Shape::Literal { kind: Some(SyntaxKind::String), .. } => true,
        Shape::Literal { kind: Some(SyntaxKind::RawString), .. } => true,
        _ => false,
    }
}

/// Walks a value tree and reports its losses.
struct LossWalker<'a> {
    index: &'a PointerRangeIndex,
    bound: bool,
}

impl<'a> LossWalker<'a> {
    fn expanded_recovery(&self) -> (r: LossRecovery)
        ensures
            r == recovery_when(self.bound),
    {
        if self.bound {
            LossRecovery::RoundTripSafeWithinRonin
        } else {
            LossRecovery::LossyToExternal
        }
    }

    fn value_range(&self, pointer: &str, own: TextRange) -> (r: TextRange)
        ensures
            r == reported_range(*self.index, pointer@, own),
    {
        match self.index.value_range(pointer) {
            Some(range) => range,
            None => own,
        }
    }

    fn walk(&self, value: &RonValue, pointer: &str, report: &mut LossReport)
        ensures
            final(report)@ == old(report)@ + losses(*value, pointer@, *self.index, self.bound),
        decreases value, 0nat,
    {
        let ghost start = report@;
        let range = self.value_range(pointer, value.range);
        match &value.shape {
            Shape::Struct { name, fields } => {
                if name.is_some() {
                    report.push(
                        LossyConstruct::with_detail(
                            LossKind::StructName,
                            range,
                            LossRecovery::LossyToExternal,
                            "struct name dropped \u{2014} JSON object is anonymous",
                        ),
                    );
                }
                detect_trailing_comma(&value.layout, report);
                self.walk_struct(fields, pointer, report);
            },
            Shape::Tuple { name, items } => {
                if syntax::is_named(name, "Some") {
                    if items.len() > 0 {
                        self.walk(&items[0], pointer, report);
                    }
                } else {
                    match name {
                        Some(n) => {
                            report.push(
                                LossyConstruct::with_detail(
                                    LossKind::EnumTagging,
                                    range,
                                    self.expanded_recovery(),
                                    "named tuple variant \u{2014} emitted via serde tagging",
                                ),
                            );
                            detect_trailing_comma(&value.layout, report);
                            let under = pointer::push_key(pointer, n.as_str());
                            self.walk_payload(items, under.as_str(), report);
                        },
                        None => {
                            report.push(
                                LossyConstruct::with_detail(
                                    LossKind::TupleVsList,
                                    range,
                                    self.expanded_recovery(),
                                    "tuple emitted as JSON array",
                                ),
                            );
                            detect_trailing_comma(&value.layout, report);
                            self.walk_items(items, pointer, report);
                        },
                    }
                }
            },
            Shape::List { items } => {
                detect_trailing_comma(&value.layout, report);
                self.walk_items(items, pointer, report);
            },
            Shape::Dictionary { entries } => {
                detect_trailing_comma(&value.layout, report);
                self.walk_map(entries, pointer, report);
            },
            Shape::EnumVariant { name, items, entries } => {
                let name_text = syntax::text_of(name);
                if text::same_text(name_text.as_str(), "None") && items.len() == 0
                    && entries.len() == 0 {
                } else if text::same_text(name_text.as_str(), "Some") && items.len() > 0 {
                    self.walk(&items[0], pointer, report);
                } else {
                    report.push(
                        LossyConstruct::with_detail(
                            LossKind::EnumTagging,
                            range,
                            self.expanded_recovery(),
                            "enum variant emitted via serde tagging",
                        ),
                    );
                    detect_trailing_comma(&value.layout, report);
                    let under = pointer::push_key(pointer, name_text.as_str());
                    if entries.len() > 0 || syntax::has_brace(&value.layout) {
                        self.walk_entries(entries, under.as_str(), report);
                    } else {
                        self.walk_payload(items, under.as_str(), report);
                    }
                }
            },
            Shape::Unit => {
                report.push(
                    LossyConstruct::with_detail(
                        LossKind::UnitVsNull,
                        range,
                        LossRecovery::LossyToExternal,
                        "unit () emitted as JSON null",
                    ),
                );
            },
            Shape::Literal { kind: Some(SyntaxKind::Char), .. } => {
                report.push(
                    LossyConstruct::with_detail(
                        LossKind::Char,
                        range,
                        self.expanded_recovery(),
                        "char emitted as one-character JSON string",
                    ),
                );
            },
            Shape::Literal { kind: Some(SyntaxKind::RawString), .. } => {
                report.push(
                    LossyConstruct::with_detail(
                        LossKind::RawString,
                        range,
                        LossRecovery::LossyToExternal,
                        "raw string emitted as standard JSON string",
                    ),
                );
            },
            Shape::Literal { .. } | Shape::Error => {},
        }
        assert(report@ =~= start + losses(*value, pointer@, *self.index, self.bound));
    }

    fn walk_struct(&self, fields: &Vec<StructField>, pointer: &str, report: &mut LossReport)
        ensures
            final(report)@ == old(report)@ + field_losses(
                fields@,
                pointer@,
                *self.index,
                self.bound,
                0,
            ),
        decreases fields@, fields@.len(),
    {
        let mut i: usize = 0;
        while i < fields.len()
            invariant
                i <= fields@.len(),
                report@ + field_losses(fields@, pointer@, *self.index, self.bound, i as nat) == old(
                    report,
                )@ + field_losses(fields@, pointer@, *self.index, self.bound, 0),
            decreases fields@.len() - i,
        {
            let ghost before = report@;
            let field = &fields[i];
            if let (Some(name), Some(value)) = (&field.name, &field.value) {
                let child = pointer::push_key(pointer, name.as_str());
                assert(decreases_to!(fields@ => fields@[i as int]));
                self.walk(value, child.as_str(), report);
            }
            assert(report@ + field_losses(
                fields@,
                pointer@,
                *self.index,
                self.bound,
                i as nat + 1,
            ) =~= before + field_losses(fields@, pointer@, *self.index, self.bound, i as nat));
            i += 1;
        }
        assert(report@ + field_losses(fields@, pointer@, *self.index, self.bound, i as nat)
            =~= report@);
    }

    fn walk_items(&self, items: &Vec<RonValue>, pointer: &str, report: &mut LossReport)
        ensures
            final(report)@ == old(report)@ + item_losses(
                items@,
                pointer@,
                *self.index,
                self.bound,
                0,
            ),
        decreases items@, items@.len(),
    {
        let mut i: usize = 0;
        while i < items.len()
            invariant
                i <= items@.len(),
                report@ + item_losses(items@, pointer@, *self.index, self.bound, i as nat) == old(
                    report,
                )@ + item_losses(items@, pointer@, *self.index, self.bound, 0),
            decreases items@.len() - i,
        {
            let ghost before = report@;
            let child = pointer::push_index(pointer, i);
            self.walk(&items[i], child.as_str(), report);
            assert(report@ + item_losses(items@, pointer@, *self.index, self.bound, i as nat + 1)
                =~= before + item_losses(items@, pointer@, *self.index, self.bound, i as nat));
            i += 1;
        }
        assert(report@ + item_losses(items@, pointer@, *self.index, self.bound, i as nat)
            =~= report@);
    }

    fn walk_payload(&self, items: &Vec<RonValue>, pointer: &str, report: &mut LossReport)
        ensures
            final(report)@ == old(report)@ + payload_losses(
                items@,
                pointer@,
                *self.index,
                self.bound,
            ),
        decreases items@, items@.len() + 1,
    {
        if items.len() == 1 {
            self.walk(&items[0], pointer, report);
        } else {
            self.walk_items(items, pointer, report);
        }
    }

    fn walk_map(&self, entries: &Vec<MapEntry>, pointer: &str, report: &mut LossReport)
        ensures
            final(report)@ == old(report)@ + map_losses(
                entries@,
                pointer@,
                *self.index,
                self.bound,
                0,
            ),
        decreases entries@, entries@.len(),
    {
        let mut i: usize = 0;
        while i < entries.len()
            invariant
                i <= entries@.len(),
                report@ + map_losses(entries@, pointer@, *self.index, self.bound, i as nat) == old(
                    report,
                )@ + map_losses(entries@, pointer@, *self.index, self.bound, 0),
            decreases entries@.len() - i,
        {
            let ghost before = report@;
            let entry = &entries[i];
            if let Some(key) = &entry.key {
                let key_text = pointer::projection_key_string(key);
                let under = pointer::push_key(pointer, key_text.as_str());
                if !is_string_key(key) {
                    let range = match self.index.key_range(under.as_str()) {
                        Some(range) => range,
                        None => key.range,
                    };
                    report.push(
                        LossyConstruct::with_detail(
                            LossKind::NonStringKey,
                            range,
                            self.expanded_recovery(),
                            "non-string map key stringified to canonical RON literal",
                        ),
                    );
                }
                if let Some(value) = &entry.value {
                    assert(decreases_to!(entries@ => entries@[i as int]));
                    self.walk(value, under.as_str(), report);
                }
            }
            assert(report@ + map_losses(entries@, pointer@, *self.index, self.bound, i as nat + 1)
                =~= before + map_losses(entries@, pointer@, *self.index, self.bound, i as nat));
            i += 1;
        }
        assert(report@ + map_losses(entries@, pointer@, *self.index, self.bound, i as nat)
            =~= report@);
    }

    fn walk_entries(&self, entries: &Vec<MapEntry>, pointer: &str, report: &mut LossReport)
        ensures
            final(report)@ == old(report)@ + entry_losses(
                entries@,
                pointer@,
                *self.index,
                self.bound,
                0,
            ),
        decreases entries@, entries@.len(),
    {
        let mut i: usize = 0;
        while i < entries.len()
            invariant
                i <= entries@.len(),
                report@ + entry_losses(entries@, pointer@, *self.index, self.bound, i as nat)
                    == old(report)@ + entry_losses(entries@, pointer@, *self.index, self.bound, 0),
            decreases entries@.len() - i,
        {
            let ghost before = report@;
            let entry = &entries[i];
            if let (Some(name), Some(value)) = (pointer::entry_key_name(entry), &entry.value) {
                let child = pointer::push_key(pointer, name.as_str());
                assert(decreases_to!(entries@ => entries@[i as int]));
                self.walk(value, child.as_str(), report);
            }
            assert(report@ + entry_losses(
                entries@,
                pointer@,
                *self.index,
                self.bound,
                i as nat + 1,
            ) =~= before + entry_losses(entries@, pointer@, *self.index, self.bound, i as nat));
            i += 1;
        }
        assert(report@ + entry_losses(entries@, pointer@, *self.index, self.bound, i as nat)
            =~= report@);
    }
}

/// Reports the trailing commas of a collection.
fn detect_trailing_comma(layout: &Vec<Element>, report: &mut LossReport)
    ensures
        final(report)@ == old(report)@ + commas(layout@),
{
    let mut candidate: Option<TextRange> = None;
    let mut i: usize = 0;
    assert(report@ =~= old(report)@ + trailing_commas(layout@, 0));
    while i < layout.len()
        invariant
            i <= layout@.len(),
            candidate == comma_before(layout@, i as nat),
            report@ == old(report)@ + trailing_commas(layout@, i as nat),
        decreases layout@.len() - i,
    {
        match &layout[i] {
            Element::Node => {
                candidate = None;
            },
            Element::Token { kind, range } => {
                if !kind.is_trivia() {
                    if matches!(kind, SyntaxKind::Comma) {
                        candidate = Some(*range);
                    } else {
                        if kind.is_closing() {
                            if let Some(comma) = candidate {
                                report.push(
                                    LossyConstruct::with_detail(
                                        LossKind::TrailingComma,
                                        comma,
                                        LossRecovery::LossyToExternal,
                                        "trailing comma dropped \u{2014} no JSON representation",
                                    ),
                                );
                            }
                        }
                        candidate = None;
                    }
                }
            },
        }
        assert(report@ =~= old(report)@ + trailing_commas(layout@, i as nat + 1));
        i += 1;
    }
}

/// Lists what converting a document to JSON loses.
///
/// `index` gives the span of each value and key of the converted document, `comments`
/// says which comments are dropped, and `bound` whether a type is bound to the
/// document, which makes tuples, characters, enum tagging and non-string keys
/// recoverable.
pub fn build_loss_report(
    doc: &RonDocument,
    index: &PointerRangeIndex,
    comments: &CommentCarrier,
    bound: bool,
) -> (r: LossReport)
    ensures
        r@ == document_losses(*doc, *index, *comments, bound),
{
    let mut report = LossReport::new();
    if let Some(root) = &doc.root {
        let walker = LossWalker { index, bound };
        walker.walk(root, "", &mut report);
        proof {
            reveal_strlit("");
            assert(""@ =~= Seq::<char>::empty());
        }
    }
    let ghost values = report@;
    let dropped = comments.dropped_comments();
    let mut i: usize = 0;
    assert(report@ =~= values + comment_losses(dropped@.take(0)));
    while i < dropped.len()
        invariant
            i <= dropped@.len(),
            dropped@ == comments.dropped(),
            report@ == values + comment_losses(dropped@.take(i as int)),
        decreases dropped@.len() - i,
    {
        report.push(
            LossyConstruct::with_detail(
                LossKind::DroppedComment,
                dropped[i].source_range,
                LossRecovery::LossyToExternal,
                "comment dropped \u{2014} pure standard JSON, sidecar declined",
            ),
        );
        assert(report@ =~= values + comment_losses(dropped@.take(i + 1)));
        i += 1;
    }
    assert(dropped@.take(i as int) =~= dropped@);
    assert(report@ =~= document_losses(*doc, *index, *comments, bound));
    report
}

/// Whether a value and all it holds belong to the part of RON that JSON expresses
/// without loss: numbers, booleans, plain strings, lists, anonymous structs, maps with
/// string keys and options of these, without trailing commas.
pub open spec fn base_tier(value: RonValue) -> bool
    decreases value, 0nat,
{
    match value.shape {
        Shape::Struct { name, fields } => name is None && commas(value.layout@).len() == 0
            && base_fields(fields@, 0),
        Shape::List { items } => commas(value.layout@).len() == 0 && base_items(items@, 0),
        Shape::Dictionary { entries } => commas(value.layout@).len() == 0 && base_entries(
            entries@,
            0,
        ),
        Shape::Tuple { name, items } => syntax::named(name, "Some"@) && items@.len() > 0
            && base_tier(items@[0]),
        Shape::EnumVariant { name, items, entries } => pointer::is_bare_none(name, items@, entries@)
            || (pointer::is_some_of(name, items@) && base_tier(items@[0])),
        Shape::Literal { kind, .. } => kind != Some(SyntaxKind::Char) && kind != Some(
            SyntaxKind::RawString,
        ),
        Shape::Unit | Shape::Error => false,
    }
}

/// Whether the fields from position `from` on belong to that part.
pub open spec fn base_fields(fields: Seq<StructField>, from: nat) -> bool
    decreases fields, fields.len() - from,
{
    from >= fields.len() || ((fields[from as int].value matches Some(value) ==> base_tier(value))
        && base_fields(fields, from + 1))
}

/// Whether the items from position `from` on belong to that part.
pub open spec fn base_items(items: Seq<RonValue>, from: nat) -> bool
    decreases items, items.len() - from,
{
    from >= items.len() || (base_tier(items[from as int]) && base_items(items, from + 1))
}

/// Whether the map entries from position `from` on belong to that part.
pub open spec fn base_entries(entries: Seq<MapEntry>, from: nat) -> bool
    decreases entries, entries.len() - from,
{
    from >= entries.len() || ((entries[from as int].key matches Some(key) ==> string_key(key)) && (
    entries[from as int].value matches Some(value) ==> base_tier(value)) && base_entries(
        entries,
        from + 1,
    ))
}

/// Converting a document of the base tier loses nothing, so it needs no confirmation,
/// as long as its comments are carried.
pub proof fn base_tier_loses_nothing(
    doc: RonDocument,
    index: PointerRangeIndex,
    comments: CommentCarrier,
    bound: bool,
)
    requires
        doc.root matches Some(root) ==> base_tier(root),
        comments.dropped().len() == 0,
    ensures
        document_losses(doc, index, comments, bound).len() == 0,
{
    match doc.root {
        Some(root) => lemma_base_value(root, Seq::empty(), index, bound),
        None => {},
    }
}

proof fn lemma_base_value(
    value: RonValue,
    pointer: Seq<char>,
    index: PointerRangeIndex,
    bound: bool,
)
    requires
        base_tier(value),
    ensures
        losses(value, pointer, index, bound).len() == 0,
    decreases value, 0nat,
{
    match value.shape {
        Shape::Struct { name, fields } => lemma_base_fields(fields@, pointer, index, bound, 0),
        Shape::List { items } => lemma_base_items(items@, pointer, index, bound, 0),
        Shape::Dictionary { entries } => lemma_base_entries(entries@, pointer, index, bound, 0),
        Shape::Tuple { name, items } => lemma_base_value(items@[0], pointer, index, bound),
        Shape::EnumVariant { name, items, entries } => {
            if !pointer::is_bare_none(name, items@, entries@) {
                lemma_base_value(items@[0], pointer, index, bound);
            }
        },
        _ => {},
    }
}

proof fn lemma_base_fields(
    fields: Seq<StructField>,
    pointer: Seq<char>,
    index: PointerRangeIndex,
    bound: bool,
    from: nat,
)
    requires
        base_fields(fields, from),
    ensures
        field_losses(fields, pointer, index, bound, from).len() == 0,
    decreases fields, fields.len() - from,
{
    if from < fields.len() {
        if let (Some(name), Some(value)) = (fields[from as int].name, fields[from as int].value) {
            lemma_base_value(value, pointer::key_pointer(pointer, name@), index, bound);
        }
        lemma_base_fields(fields, pointer, index, bound, from + 1);
    }
}

proof fn lemma_base_items(
    items: Seq<RonValue>,
    pointer: Seq<char>,
    index: PointerRangeIndex,
    bound: bool,
    from: nat,
)
    requires
        base_items(items, from),
    ensures
        item_losses(items, pointer, index, bound, from).len() == 0,
    decreases items, items.len() - from,
{
    if from < items.len() {
        lemma_base_value(
            items[from as int],
            pointer::index_pointer(pointer, from),
            index,
            bound,
        );
        lemma_base_items(items, pointer, index, bound, from + 1);
    }
}

proof fn lemma_base_entries(
    entries: Seq<MapEntry>,
    pointer: Seq<char>,
    index: PointerRangeIndex,
    bound: bool,
    from: nat,
)
    requires
        base_entries(entries, from),
    ensures
        map_losses(entries, pointer, index, bound, from).len() == 0,
    decreases entries, entries.len() - from,
{
    if from < entries.len() {
        if let (Some(key), Some(value)) = (entries[from as int].key, entries[from as int].value) {
            lemma_base_value(
                value,
                pointer::key_pointer(pointer, pointer::key_text(key)),
                index,
                bound,
            );
        }
        lemma_base_entries(entries, pointer, index, bound, from + 1);
    }
}

/// Whether a bound type restores a construct of this kind.
pub open spec fn restored_by_type(kind: LossKind) -> bool {
    kind is TupleVsList || kind is Char || kind is EnumTagging || kind is NonStringKey
}

/// Whether every loss of a list is marked as its kind and the binding demand.
pub open spec fn marked(list: Seq<Loss>, bound: bool) -> bool {
    forall|i: int|
        0 <= i < list.len() ==> (#[trigger] list[i]).recovery == if restored_by_type(list[i].kind) {
            recovery_when(bound)
        } else {
            LossRecovery::LossyToExternal
        }
}

/// A loss is marked recoverable exactly when a type is bound and its kind is one that
/// the type restores. It is listed either way.
pub proof fn losses_are_marked(
    doc: RonDocument,
    index: PointerRangeIndex,
    comments: CommentCarrier,
    bound: bool,
)
    ensures
        marked(document_losses(doc, index, comments, bound), bound),
{
    if let Some(root) = doc.root {
        lemma_marked_value(root, Seq::empty(), index, bound);
    }
}

proof fn lemma_marked_commas(layout: Seq<Element>, n: nat, bound: bool)
    ensures
        marked(trailing_commas(layout, n), bound),
    decreases n,
{
    if n > 0 {
        lemma_marked_commas(layout, (n - 1) as nat, bound);
    }
}

proof fn lemma_marked_value(
    value: RonValue,
    pointer: Seq<char>,
    index: PointerRangeIndex,
    bound: bool,
)
    ensures
        marked(losses(value, pointer, index, bound), bound),
    decreases value, 0nat,
{
    lemma_marked_commas(value.layout@, value.layout@.len(), bound);
    match value.shape {
        Shape::Struct { name, fields } => lemma_marked_fields(fields@, pointer, index, bound, 0),
        Shape::List { items } => lemma_marked_items(items@, pointer, index, bound, 0),
        Shape::Dictionary { entries } => lemma_marked_map(entries@, pointer, index, bound, 0),
        Shape::Tuple { name, items } => {
            if syntax::named(name, "Some"@) {
                if items@.len() > 0 {
                    lemma_marked_value(items@[0], pointer, index, bound);
                }
            } else {
                match name {
                    Some(n) => lemma_marked_payload(
                        items@,
                        pointer::key_pointer(pointer, n@),
                        index,
                        bound,
                    ),
                    None => lemma_marked_items(items@, pointer, index, bound, 0),
                }
            }
        },
        Shape::EnumVariant { name, items, entries } => {
            let under = pointer::key_pointer(pointer, syntax::text_or_empty(name));
            if pointer::is_some_of(name, items@) {
                lemma_marked_value(items@[0], pointer, index, bound);
            }
            lemma_marked_entries(entries@, under, index, bound, 0);
            lemma_marked_payload(items@, under, index, bound);
        },
        _ => {},
    }
}

proof fn lemma_marked_fields(
    fields: Seq<StructField>,
    pointer: Seq<char>,
    index: PointerRangeIndex,
    bound: bool,
    from: nat,
)
    ensures
        marked(field_losses(fields, pointer, index, bound, from), bound),
    decreases fields, fields.len() - from,
{
    if from < fields.len() {
        if let (Some(name), Some(value)) = (fields[from as int].name, fields[from as int].value) {
            lemma_marked_value(value, pointer::key_pointer(pointer, name@), index, bound);
        }
        lemma_marked_fields(fields, pointer, index, bound, from + 1);
    }
}

proof fn lemma_marked_items(
    items: Seq<RonValue>,
    pointer: Seq<char>,
    index: PointerRangeIndex,
    bound: bool,
    from: nat,
)
    ensures
        marked(item_losses(items, pointer, index, bound, from), bound),
    decreases items, items.len() - from,
{
    if from < items.len() {
        lemma_marked_value(
            items[from as int],
            pointer::index_pointer(pointer, from),
            index,
            bound,
        );
        lemma_marked_items(items, pointer, index, bound, from + 1);
    }
}

proof fn lemma_marked_payload(
    items: Seq<RonValue>,
    pointer: Seq<char>,
    index: PointerRangeIndex,
    bound: bool,
)
    ensures
        marked(payload_losses(items, pointer, index, bound), bound),
    decreases items, items.len() + 1,
{
    if items.len() == 1 {
        lemma_marked_value(items[0], pointer, index, bound);
    } else {
        lemma_marked_items(items, pointer, index, bound, 0);
    }
}

proof fn lemma_marked_map(
    entries: Seq<MapEntry>,
    pointer: Seq<char>,
    index: PointerRangeIndex,
    bound: bool,
    from: nat,
)
    ensures
        marked(map_losses(entries, pointer, index, bound, from), bound),
    decreases entries, entries.len() - from,
{
    if from < entries.len() {
        if let (Some(key), Some(value)) = (entries[from as int].key, entries[from as int].value) {
            lemma_marked_value(
                value,
                pointer::key_pointer(pointer, pointer::key_text(key)),
                index,
                bound,
            );
        }
        lemma_marked_map(entries, pointer, index, bound, from + 1);
    }
}

proof fn lemma_marked_entries(
    entries: Seq<MapEntry>,
    pointer: Seq<char>,
    index: PointerRangeIndex,
    bound: bool,
    from: nat,
)
    ensures
        marked(entry_losses(entries, pointer, index, bound, from), bound),
    decreases entries, entries.len() - from,
{
    if from < entries.len() {
        if let (Some(name), Some(value)) = (
            pointer::entry_name(entries[from as int]),
            entries[from as int].value,
        ) {
            lemma_marked_value(value, pointer::key_pointer(pointer, name), index, bound);
        }
        lemma_marked_entries(entries, pointer, index, bound, from + 1);
    }
}

/// Only a type makes a loss recoverable: without one nothing is safe, and with one the
/// tuples, characters, variants and map keys are, which it tells apart, and nothing else.
pub proof fn only_a_type_makes_losses_recoverable(
    doc: RonDocument,
    index: PointerRangeIndex,
    comments: CommentCarrier,
    bound: bool,
    i: int,
)
    requires
        0 <= i < document_losses(doc, index, comments, bound).len(),
    ensures
        document_losses(doc, index, comments, bound)[i].recovery
            == LossRecovery::RoundTripSafeWithinRonin <==> bound && {
            let kind = document_losses(doc, index, comments, bound)[i].kind;
            kind == LossKind::TupleVsList || kind == LossKind::Char || kind
                == LossKind::EnumTagging || kind == LossKind::NonStringKey
        },
{
    losses_are_marked(doc, index, comments, bound);
}

} // verus!
