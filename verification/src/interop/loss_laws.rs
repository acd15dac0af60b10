//! What a loss report holds.
//!
//! A report is complete: whatever stands in a document, at whatever depth, and has no
//! equal in JSON is reported with its span. And it is sound: it holds nothing else.

use vstd::prelude::*;

use crate::interop::comments::CommentCarrier;
use crate::interop::loss::{self, Loss, LossKind, PointerRangeIndex};
use crate::interop::pointer;
use crate::syntax::{
    self, Element, MapEntry, RonDocument, RonValue, Shape, StructField, SyntaxKind, TextRange,
};

verus! {

/// Whether `v`, which stands at `place`, is the value `root` at `pointer` or stands
/// somewhere inside it.
pub open spec fn part_of(
    root: RonValue,
    pointer: Seq<char>,
    v: RonValue,
    place: Seq<char>,
) -> bool
    decreases root, 0nat,
{
    v == root && place == pointer || match root.shape {
        Shape::Struct { fields, .. } => exists|k: int|
            0 <= k < fields@.len() && part_of_field(#[trigger] fields@[k], pointer, v, place),
        Shape::Tuple { name, items } => if syntax::named(name, "Some"@) {
            items@.len() > 0 && part_of(items@[0], pointer, v, place)
        } else {
            match name {
                Some(n) => part_of_payload(items@, pointer::key_pointer(pointer, n@), v, place),
                None => part_of_items(items@, pointer, v, place),
            }
        },
        Shape::List { items } => part_of_items(items@, pointer, v, place),
        Shape::Dictionary { entries } => exists|k: int|
            0 <= k < entries@.len() && part_of_entry(#[trigger] entries@[k], pointer, v, place),
        Shape::EnumVariant { name, items, entries } => if pointer::is_bare_none(
            name,
            items@,
            entries@,
        ) {
            false
        } else if pointer::is_some_of(name, items@) {
            part_of(items@[0], pointer, v, place)
        } else {
            let under = pointer::key_pointer(pointer, syntax::text_or_empty(name));
            if entries@.len() > 0 || syntax::brace_among(root.layout@) {
                exists|k: int|
                    0 <= k < entries@.len() && part_of_member(
                        #[trigger] entries@[k],
                        under,
                        v,
                        place,
                    )
            } else {
                part_of_payload(items@, under, v, place)
            }
        },
        Shape::Unit | Shape::Literal { .. } | Shape::Error => false,
    }
}

/// Whether `v` stands in one of the items, each under its index.
pub open spec fn part_of_items(
    items: Seq<RonValue>,
    pointer: Seq<char>,
    v: RonValue,
    place: Seq<char>,
) -> bool
    decreases items, 0nat,
{
    exists|k: int|
        0 <= k < items.len() && part_of(
            #[trigger] items[k],
            pointer::index_pointer(pointer, k as nat),
            v,
            place,
        )
}

/// Whether `v` stands in what a variant holds: a single value, or items.
pub open spec fn part_of_payload(
    items: Seq<RonValue>,
    pointer: Seq<char>,
    v: RonValue,
    place: Seq<char>,
) -> bool
    decreases items, 1nat,
{
    if items.len() == 1 {
        part_of(items[0], pointer, v, place)
    } else {
        part_of_items(items, pointer, v, place)
    }
}

/// Whether `v` stands in a field.
pub open spec fn part_of_field(
    field: StructField,
    pointer: Seq<char>,
    v: RonValue,
    place: Seq<char>,
) -> bool
    decreases field, 0nat,
{
    match (field.name, field.value) {
        (Some(name), Some(value)) => part_of(
            value,
            pointer::key_pointer(pointer, name@),
            v,
            place,
        ),
        _ => false,
    }
}

/// Whether `v` stands in the value of a map entry.
pub open spec fn part_of_entry(
    entry: MapEntry,
    pointer: Seq<char>,
    v: RonValue,
    place: Seq<char>,
) -> bool
    decreases entry, 0nat,
{
    match (entry.key, entry.value) {
        (Some(key), Some(value)) => part_of(
            value,
            pointer::key_pointer(pointer, pointer::key_text(key)),
            v,
            place,
        ),
        _ => false,
    }
}

/// Whether `v` stands in a field of a brace-style variant.
pub open spec fn part_of_member(
    entry: MapEntry,
    pointer: Seq<char>,
    v: RonValue,
    place: Seq<char>,
) -> bool
    decreases entry, 0nat,
{
    match (pointer::entry_name(entry), entry.value) {
        (Some(name), Some(value)) => part_of(value, pointer::key_pointer(pointer, name), v, place),
        _ => false,
    }
}

/// What a value itself loses in JSON, whatever it holds.
pub open spec fn own_loss(v: RonValue) -> Option<LossKind> {
    match v.shape {
        Shape::Struct { name: Some(_), .. } => Some(LossKind::StructName),
        Shape::Tuple { name: None, .. } => Some(LossKind::TupleVsList),
        Shape::Tuple { name, .. } => if syntax::named(name, "Some"@) {
            None
        } else {
            Some(LossKind::EnumTagging)
        },
        Shape::EnumVariant { name, items, entries } => if pointer::is_bare_none(
            name,
            items@,
            entries@,
        ) || pointer::is_some_of(name, items@) {
            None
        } else {
            Some(LossKind::EnumTagging)
        },
        Shape::Unit => Some(LossKind::UnitVsNull),
        Shape::Literal { kind: Some(SyntaxKind::Char), .. } => Some(LossKind::Char),
        Shape::Literal { kind: Some(SyntaxKind::RawString), .. } => Some(LossKind::RawString),
        _ => None,
    }
}

/// Whether a value is a collection of its own, and not an option.
pub open spec fn is_collection(v: RonValue) -> bool {
    match v.shape {
        Shape::Struct { .. } | Shape::List { .. } | Shape::Dictionary { .. } => true,
        Shape::Tuple { .. } | Shape::EnumVariant { .. } => own_loss(v) is Some,
        _ => false,
    }
}

/// Whether an element is a token that carries no structure.
pub open spec fn is_trivia(element: Element) -> bool {
    element matches Element::Token { kind, .. } && kind.trivia()
}

/// Whether an element is a comma with a span.
pub open spec fn is_comma(element: Element, range: TextRange) -> bool {
    element matches Element::Token { kind, range: own } && kind is Comma && own == range
}

/// Whether an element closes a collection.
pub open spec fn is_closing(element: Element) -> bool {
    element matches Element::Token { kind, .. } && kind.closing()
}

/// Whether a comma with a span stands before position `n`, with nothing but trivia
/// between.
pub open spec fn comma_stands_before(layout: Seq<Element>, range: TextRange, n: int) -> bool {
    exists|i: int|
        0 <= i < n && is_comma(#[trigger] layout[i], range) && forall|j: int|
            i < j < n ==> is_trivia(#[trigger] layout[j])
}

/// Whether a comma with a span is a trailing one: a closing bracket follows it, with
/// nothing but trivia between.
pub open spec fn is_trailing(layout: Seq<Element>, range: TextRange) -> bool {
    exists|n: int|
        0 <= n < layout.len() && is_closing(#[trigger] layout[n]) && comma_stands_before(
            layout,
            range,
            n,
        )
}

/// Whether a loss is one of the value `v` at `place`: of what it is, of one of its keys,
/// or of its trailing comma.
pub open spec fn loses(
    v: RonValue,
    place: Seq<char>,
    index: PointerRangeIndex,
    kind: LossKind,
    range: TextRange,
) -> bool {
    ||| own_loss(v) == Some(kind) && range == loss::reported_range(index, place, v.range)
    ||| kind is NonStringKey && (v.shape matches Shape::Dictionary { entries } && exists|k: int|
        0 <= k < entries@.len() && is_lossy_key(#[trigger] entries@[k], place, index, range))
    ||| kind is TrailingComma && is_collection(v) && is_trailing(v.layout@, range)
}

/// Whether the key of a map entry is no string and has a span.
pub open spec fn is_lossy_key(
    entry: MapEntry,
    place: Seq<char>,
    index: PointerRangeIndex,
    range: TextRange,
) -> bool {
    entry.key matches Some(key) && !loss::string_key(key) && range == loss::reported_key_range(
        index,
        pointer::key_pointer(place, pointer::key_text(key)),
        key.range,
    )
}

/// Whether a report holds a loss of a kind with a span.
pub open spec fn reports(list: Seq<Loss>, kind: LossKind, range: TextRange) -> bool {
    exists|i: int|
        0 <= i < list.len() && (#[trigger] list[i]).kind == kind && list[i].source_range == range
}

proof fn lemma_reports_left(a: Seq<Loss>, b: Seq<Loss>, kind: LossKind, range: TextRange)
    ensures
        reports(a, kind, range) ==> reports(a + b, kind, range),
        reports(b, kind, range) ==> reports(a + b, kind, range),
        reports(a + b, kind, range) ==> reports(a, kind, range) || reports(b, kind, range),
{
    if reports(a, kind, range) {
        let i = choose|i: int|
            0 <= i < a.len() && (#[trigger] a[i]).kind == kind && a[i].source_range == range;
        assert((a + b)[i] == a[i]);
    }
    if reports(b, kind, range) {
        let i = choose|i: int|
            0 <= i < b.len() && (#[trigger] b[i]).kind == kind && b[i].source_range == range;
        assert((a + b)[a.len() + i] == b[i]);
    }
    if reports(a + b, kind, range) {
        let i = choose|i: int|
            0 <= i < (a + b).len() && (#[trigger] (a + b)[i]).kind == kind && (a
                + b)[i].source_range == range;
        if i < a.len() {
            assert(a[i] == (a + b)[i]);
        } else {
            assert(b[i - a.len()] == (a + b)[i]);
        }
    }
}

proof fn lemma_comma_before(layout: Seq<Element>, n: nat, range: TextRange)
    requires
        n <= layout.len(),
    ensures
        loss::comma_before(layout, n) == Some(range) <==> comma_stands_before(
            layout,
            range,
            n as int,
        ),
    decreases n,
{
    if n > 0 {
        let m = (n - 1) as nat;
        let last = layout[m as int];
        lemma_comma_before(layout, m, range);
        if comma_stands_before(layout, range, n as int) {
            let i = choose|i: int|
                0 <= i < n && is_comma(#[trigger] layout[i], range) && forall|j: int|
                    i < j < n ==> is_trivia(#[trigger] layout[j]);
            if i < m {
                assert(is_trivia(layout[m as int]));
                assert(is_comma(layout[i], range));
                assert(comma_stands_before(layout, range, m as int));
            }
        }
        if comma_stands_before(layout, range, m as int) && is_trivia(last) {
            let i = choose|i: int|
                0 <= i < m && is_comma(#[trigger] layout[i], range) && forall|j: int|
                    i < j < m ==> is_trivia(#[trigger] layout[j]);
            assert(is_comma(layout[i], range));
            assert forall|j: int| i < j < n implies is_trivia(#[trigger] layout[j]) by {}
            assert(comma_stands_before(layout, range, n as int));
        }
        if is_comma(last, range) {
            assert(is_comma(layout[m as int], range));
            assert(comma_stands_before(layout, range, n as int));
        }
    }
}

proof fn lemma_commas(layout: Seq<Element>, n: nat, kind: LossKind, range: TextRange)
    requires
        n <= layout.len(),
    ensures
        reports(loss::trailing_commas(layout, n), kind, range) <==> kind is TrailingComma
            && exists|m: int|
            0 <= m < n && is_closing(#[trigger] layout[m]) && comma_stands_before(layout, range, m),
    decreases n,
{
    if n > 0 {
        let m = (n - 1) as nat;
        let before = loss::trailing_commas(layout, m);
        let all = loss::trailing_commas(layout, n);
        lemma_commas(layout, m, kind, range);
        lemma_comma_before(layout, m, range);
        match (layout[m as int], loss::comma_before(layout, m)) {
            (Element::Token { kind: own, .. }, Some(comma)) => {
                if own.closing() {
                    let last = all.last();
                    assert(all =~= before + seq![last]);
                    lemma_reports_left(before, seq![last], kind, range);
                    if kind is TrailingComma && comma == range {
                        assert(seq![last][0].kind == kind);
                        assert(is_closing(layout[m as int]));
                    }
                }
            },
            _ => {},
        }
        if exists|k: int|
            0 <= k < n && is_closing(#[trigger] layout[k]) && comma_stands_before(layout, range, k) {
            let k = choose|k: int|
                0 <= k < n && is_closing(#[trigger] layout[k]) && comma_stands_before(
                    layout,
                    range,
                    k,
                );
            if k < m {
                assert(is_closing(layout[k]));
            }
        }
    }
}

/// What a field loses is lost with the fields.
proof fn lemma_field_up(
    fields: Seq<StructField>,
    pointer: Seq<char>,
    index: PointerRangeIndex,
    bound: bool,
    from: nat,
    k: int,
    kind: LossKind,
    range: TextRange,
)
    requires
        from <= k < fields.len(),
        (fields[k].name matches Some(name) && (fields[k].value matches Some(value) && reports(
            loss::losses(value, pointer::key_pointer(pointer, name@), index, bound),
            kind,
            range,
        ))),
    ensures
        reports(loss::field_losses(fields, pointer, index, bound, from), kind, range),
    decreases k - from,
{
    let field = fields[from as int];
    let first = match (field.name, field.value) {
        (Some(name), Some(value)) => loss::losses(
            value,
            pointer::key_pointer(pointer, name@),
            index,
            bound,
        ),
        _ => Seq::empty(),
    };
    let rest = loss::field_losses(fields, pointer, index, bound, from + 1);
    lemma_reports_left(first, rest, kind, range);
    if from < k {
        lemma_field_up(fields, pointer, index, bound, from + 1, k, kind, range);
    }
}

/// What an item loses is lost with the items.
proof fn lemma_item_up(
    items: Seq<RonValue>,
    pointer: Seq<char>,
    index: PointerRangeIndex,
    bound: bool,
    from: nat,
    k: int,
    kind: LossKind,
    range: TextRange,
)
    requires
        from <= k < items.len(),
        reports(
            loss::losses(items[k], pointer::index_pointer(pointer, k as nat), index, bound),
            kind,
            range,
        ),
    ensures
        reports(loss::item_losses(items, pointer, index, bound, from), kind, range),
    decreases k - from,
{
    let first = loss::losses(
        items[from as int],
        pointer::index_pointer(pointer, from),
        index,
        bound,
    );
    let rest = loss::item_losses(items, pointer, index, bound, from + 1);
    lemma_reports_left(first, rest, kind, range);
    if from < k {
        lemma_item_up(items, pointer, index, bound, from + 1, k, kind, range);
    }
}

/// What a map entry loses.
spec fn entry_loses(
    entry: MapEntry,
    pointer: Seq<char>,
    index: PointerRangeIndex,
    bound: bool,
    kind: LossKind,
    range: TextRange,
) -> bool {
    ||| kind is NonStringKey && is_lossy_key(entry, pointer, index, range)
    ||| (entry.key matches Some(key) && (entry.value matches Some(value) && reports(
        loss::losses(
            value,
            pointer::key_pointer(pointer, pointer::key_text(key)),
            index,
            bound,
        ),
        kind,
        range,
    )))
}

/// What the map entries from position `from` on report is what they lose.
proof fn lemma_map(
    entries: Seq<MapEntry>,
    pointer: Seq<char>,
    index: PointerRangeIndex,
    bound: bool,
    from: nat,
    kind: LossKind,
    range: TextRange,
)
    ensures
        reports(loss::map_losses(entries, pointer, index, bound, from), kind, range)
            <==> exists|k: int|
            from <= k < entries.len() && entry_loses(
                #[trigger] entries[k],
                pointer,
                index,
                bound,
                kind,
                range,
            ),
    decreases entries.len() - from,
{
    if from < entries.len() {
        let entry = entries[from as int];
        let rest = loss::map_losses(entries, pointer, index, bound, from + 1);
        lemma_map(entries, pointer, index, bound, from + 1, kind, range);
        match entry.key {
            Some(key) => {
                let under = pointer::key_pointer(pointer, pointer::key_text(key));
                let own: Seq<Loss> = if loss::string_key(key) {
                    Seq::empty()
                } else {
                    seq![
                        loss::loss(
                            LossKind::NonStringKey,
                            loss::reported_key_range(index, under, key.range),
                            loss::recovery_when(bound),
                            "non-string map key stringified to canonical RON literal"@,
                        ),
                    ]
                };
                let inner = match entry.value {
                    Some(value) => loss::losses(value, under, index, bound),
                    None => Seq::empty(),
                };
                lemma_reports_left(own, inner, kind, range);
                lemma_reports_left(own + inner, rest, kind, range);
                if kind is NonStringKey && is_lossy_key(entry, pointer, index, range) {
                    assert(own[0].kind == kind);
                }
                assert(reports(own + inner, kind, range) <==> entry_loses(
                    entry,
                    pointer,
                    index,
                    bound,
                    kind,
                    range,
                ));
            },
            None => {
                assert(Seq::<Loss>::empty() + rest =~= rest);
            },
        }
        if exists|k: int|
            from <= k < entries.len() && entry_loses(
                #[trigger] entries[k],
                pointer,
                index,
                bound,
                kind,
                range,
            ) {
            let k = choose|k: int|
                from <= k < entries.len() && entry_loses(
                    #[trigger] entries[k],
                    pointer,
                    index,
                    bound,
                    kind,
                    range,
                );
            if k > from {
                assert(entry_loses(entries[k], pointer, index, bound, kind, range));
            }
        }
    }
}

/// What a field of a brace-style variant loses is lost with its fields.
proof fn lemma_member_up(
    entries: Seq<MapEntry>,
    pointer: Seq<char>,
    index: PointerRangeIndex,
    bound: bool,
    from: nat,
    k: int,
    kind: LossKind,
    range: TextRange,
)
    requires
        from <= k < entries.len(),
        (pointer::entry_name(entries[k]) matches Some(name) && (entries[k].value matches Some(value)
            && reports(
            loss::losses(value, pointer::key_pointer(pointer, name), index, bound),
            kind,
            range,
        ))),
    ensures
        reports(loss::entry_losses(entries, pointer, index, bound, from), kind, range),
    decreases k - from,
{
    let entry = entries[from as int];
    let first = match (pointer::entry_name(entry), entry.value) {
        (Some(name), Some(value)) => loss::losses(
            value,
            pointer::key_pointer(pointer, name),
            index,
            bound,
        ),
        _ => Seq::empty(),
    };
    let rest = loss::entry_losses(entries, pointer, index, bound, from + 1);
    lemma_reports_left(first, rest, kind, range);
    if from < k {
        lemma_member_up(entries, pointer, index, bound, from + 1, k, kind, range);
    }
}

/// The losses of a value: what it itself loses, its trailing commas, and what it holds.
spec fn head_losses(v: RonValue, place: Seq<char>, index: PointerRangeIndex, bound: bool) -> Seq<Loss> {
    let range = loss::reported_range(index, place, v.range);
    match v.shape {
        Shape::Struct { name, .. } => if name is Some {
            seq![
                loss::loss(
                    LossKind::StructName,
                    range,
                    loss::LossRecovery::LossyToExternal,
                    "struct name dropped \u{2014} JSON object is anonymous"@,
                ),
            ]
        } else {
            Seq::empty()
        },
        Shape::Tuple { name, .. } => match name {
            Some(_) => seq![
                loss::loss(
                    LossKind::EnumTagging,
                    range,
                    loss::recovery_when(bound),
                    "named tuple variant \u{2014} emitted via serde tagging"@,
                ),
            ],
            None => seq![
                loss::loss(
                    LossKind::TupleVsList,
                    range,
                    loss::recovery_when(bound),
                    "tuple emitted as JSON array"@,
                ),
            ],
        },
        Shape::EnumVariant { .. } => seq![
            loss::loss(
                LossKind::EnumTagging,
                range,
                loss::recovery_when(bound),
                "enum variant emitted via serde tagging"@,
            ),
        ],
        _ => Seq::empty(),
    }
}

/// What the items, the entries or the payload of a value report.
spec fn held_losses(v: RonValue, place: Seq<char>, index: PointerRangeIndex, bound: bool) -> Seq<Loss> {
    match v.shape {
        Shape::Struct { fields, .. } => loss::field_losses(fields@, place, index, bound, 0),
        Shape::Tuple { name, items } => match name {
            Some(n) => loss::payload_losses(
                items@,
                pointer::key_pointer(place, n@),
                index,
                bound,
            ),
            None => loss::item_losses(items@, place, index, bound, 0),
        },
        Shape::List { items } => loss::item_losses(items@, place, index, bound, 0),
        Shape::Dictionary { entries } => loss::map_losses(entries@, place, index, bound, 0),
        Shape::EnumVariant { name, items, entries } => {
            let under = pointer::key_pointer(place, syntax::text_or_empty(name));
            if entries@.len() > 0 || syntax::brace_among(v.layout@) {
                loss::entry_losses(entries@, under, index, bound, 0)
            } else {
                loss::payload_losses(items@, under, index, bound)
            }
        },
        _ => Seq::empty(),
    }
}

/// The report of a collection is what it itself loses, its trailing commas and what it
/// holds.
proof fn lemma_collection(
    v: RonValue,
    place: Seq<char>,
    index: PointerRangeIndex,
    bound: bool,
    kind: LossKind,
    range: TextRange,
)
    requires
        is_collection(v),
    ensures
        reports(loss::losses(v, place, index, bound), kind, range) <==> (own_loss(v) == Some(kind)
            && range == loss::reported_range(index, place, v.range) || kind is TrailingComma
            && is_trailing(v.layout@, range) || reports(
            held_losses(v, place, index, bound),
            kind,
            range,
        )),
{
    let head = head_losses(v, place, index, bound);
    let commas = loss::commas(v.layout@);
    let held = held_losses(v, place, index, bound);
    assert(loss::losses(v, place, index, bound) =~= head + commas + held);
    lemma_reports_left(head, commas, kind, range);
    lemma_reports_left(head + commas, held, kind, range);
    lemma_commas(v.layout@, v.layout@.len(), kind, range);
    if own_loss(v) == Some(kind) && range == loss::reported_range(index, place, v.range) {
        assert(head[0].kind == kind);
    }
}

/// What a value itself loses is reported.
proof fn lemma_own(
    v: RonValue,
    place: Seq<char>,
    index: PointerRangeIndex,
    bound: bool,
    kind: LossKind,
    range: TextRange,
)
    requires
        loses(v, place, index, kind, range),
    ensures
        reports(loss::losses(v, place, index, bound), kind, range),
{
    if is_collection(v) {
        lemma_collection(v, place, index, bound, kind, range);
        if let Shape::Dictionary { entries } = v.shape {
            lemma_map(entries@, place, index, bound, 0, kind, range);
            if exists|k: int|
                0 <= k < entries@.len() && is_lossy_key(#[trigger] entries@[k], place, index, range) {
                let k = choose|k: int|
                    0 <= k < entries@.len() && is_lossy_key(
                        #[trigger] entries@[k],
                        place,
                        index,
                        range,
                    );
                if kind is NonStringKey {
                    assert(entry_loses(entries@[k], place, index, bound, kind, range));
                }
            }
        }
    } else {
        assert(loss::losses(v, place, index, bound)[0].kind == kind);
    }
}

/// What a part of a value loses, the value loses.
proof fn lemma_up(
    root: RonValue,
    pointer: Seq<char>,
    v: RonValue,
    place: Seq<char>,
    index: PointerRangeIndex,
    bound: bool,
    kind: LossKind,
    range: TextRange,
)
    requires
        part_of(root, pointer, v, place),
        reports(loss::losses(v, place, index, bound), kind, range),
    ensures
        reports(loss::losses(root, pointer, index, bound), kind, range),
    decreases root, 0nat,
{
    if !(v == root && place == pointer) {
        match root.shape {
            Shape::Struct { fields, .. } => {
                let k = choose|k: int|
                    0 <= k < fields@.len() && part_of_field(
                        #[trigger] fields@[k],
                        pointer,
                        v,
                        place,
                    );
                let field = fields@[k];
                assert(part_of_field(field, pointer, v, place));
                assert(decreases_to!(fields@ => field));
                let under = pointer::key_pointer(pointer, field.name->0@);
                lemma_up(field.value->0, under, v, place, index, bound, kind, range);
                lemma_field_up(fields@, pointer, index, bound, 0, k, kind, range);
                lemma_collection(root, pointer, index, bound, kind, range);
            },
            Shape::Tuple { name, items } => {
                if syntax::named(name, "Some"@) {
                    lemma_up(items@[0], pointer, v, place, index, bound, kind, range);
                } else {
                    match name {
                        Some(n) => {
                            let under = pointer::key_pointer(pointer, n@);
                            lemma_payload_up(items@, under, v, place, index, bound, kind, range);
                        },
                        None => {
                            lemma_items_up(items@, pointer, v, place, index, bound, kind, range);
                        },
                    }
                    lemma_collection(root, pointer, index, bound, kind, range);
                }
            },
            Shape::List { items } => {
                lemma_items_up(items@, pointer, v, place, index, bound, kind, range);
                lemma_collection(root, pointer, index, bound, kind, range);
            },
            Shape::Dictionary { entries } => {
                let k = choose|k: int|
                    0 <= k < entries@.len() && part_of_entry(
                        #[trigger] entries@[k],
                        pointer,
                        v,
                        place,
                    );
                let entry = entries@[k];
                assert(part_of_entry(entry, pointer, v, place));
                assert(decreases_to!(entries@ => entry));
                let under = pointer::key_pointer(pointer, pointer::key_text(entry.key->0));
                lemma_up(entry.value->0, under, v, place, index, bound, kind, range);
                lemma_map(entries@, pointer, index, bound, 0, kind, range);
                assert(entry_loses(entry, pointer, index, bound, kind, range));
                lemma_collection(root, pointer, index, bound, kind, range);
            },
            Shape::EnumVariant { name, items, entries } => {
                if pointer::is_some_of(name, items@) {
                    lemma_up(items@[0], pointer, v, place, index, bound, kind, range);
                } else {
                    let under = pointer::key_pointer(pointer, syntax::text_or_empty(name));
                    if entries@.len() > 0 || syntax::brace_among(root.layout@) {
                        let k = choose|k: int|
                            0 <= k < entries@.len() && part_of_member(
                                #[trigger] entries@[k],
                                under,
                                v,
                                place,
                            );
                        let entry = entries@[k];
                        assert(part_of_member(entry, under, v, place));
                        assert(decreases_to!(entries@ => entry));
                        let inner = pointer::key_pointer(under, pointer::entry_name(entry)->0);
                        lemma_up(entry.value->0, inner, v, place, index, bound, kind, range);
                        lemma_member_up(entries@, under, index, bound, 0, k, kind, range);
                    } else {
                        lemma_payload_up(items@, under, v, place, index, bound, kind, range);
                    }
                    lemma_collection(root, pointer, index, bound, kind, range);
                }
            },
            _ => {},
        }
    }
}

proof fn lemma_items_up(
    items: Seq<RonValue>,
    pointer: Seq<char>,
    v: RonValue,
    place: Seq<char>,
    index: PointerRangeIndex,
    bound: bool,
    kind: LossKind,
    range: TextRange,
)
    requires
        part_of_items(items, pointer, v, place),
        reports(loss::losses(v, place, index, bound), kind, range),
    ensures
        reports(loss::item_losses(items, pointer, index, bound, 0), kind, range),
    decreases items, 0nat,
{
    let k = choose|k: int|
        0 <= k < items.len() && part_of(
            #[trigger] items[k],
            pointer::index_pointer(pointer, k as nat),
            v,
            place,
        );
    let under = pointer::index_pointer(pointer, k as nat);
    lemma_up(items[k], under, v, place, index, bound, kind, range);
    lemma_item_up(items, pointer, index, bound, 0, k, kind, range);
}

proof fn lemma_payload_up(
    items: Seq<RonValue>,
    pointer: Seq<char>,
    v: RonValue,
    place: Seq<char>,
    index: PointerRangeIndex,
    bound: bool,
    kind: LossKind,
    range: TextRange,
)
    requires
        part_of_payload(items, pointer, v, place),
        reports(loss::losses(v, place, index, bound), kind, range),
    ensures
        reports(loss::payload_losses(items, pointer, index, bound), kind, range),
    decreases items, 1nat,
{
    if items.len() == 1 {
        lemma_up(items[0], pointer, v, place, index, bound, kind, range);
    } else {
        lemma_items_up(items, pointer, v, place, index, bound, kind, range);
    }
}

/// A report is complete: whatever a value of a document, at whatever depth, loses is
/// reported with its kind and its span.
pub proof fn losses_are_all_reported(
    doc: RonDocument,
    root: RonValue,
    index: PointerRangeIndex,
    comments: CommentCarrier,
    bound: bool,
    v: RonValue,
    place: Seq<char>,
    kind: LossKind,
    range: TextRange,
)
    requires
        doc.root == Some(root),
        part_of(root, Seq::empty(), v, place),
        loses(v, place, index, kind, range),
    ensures
        reports(loss::document_losses(doc, index, comments, bound), kind, range),
{
    lemma_own(v, place, index, bound, kind, range);
    lemma_up(root, Seq::empty(), v, place, index, bound, kind, range);
    lemma_reports_left(
        loss::losses(root, Seq::empty(), index, bound),
        loss::comment_losses(comments.dropped()),
        kind,
        range,
    );
}

/// Every comment that is dropped is reported with its span.
pub proof fn dropped_comments_are_reported(
    doc: RonDocument,
    index: PointerRangeIndex,
    comments: CommentCarrier,
    bound: bool,
    i: int,
)
    requires
        comments.carrier is Dropped,
        0 <= i < comments.comments@.len(),
    ensures
        reports(
            loss::document_losses(doc, index, comments, bound),
            LossKind::DroppedComment,
            comments.comments@[i].source_range,
        ),
{
    let values = match doc.root {
        Some(root) => loss::losses(root, Seq::empty(), index, bound),
        None => Seq::empty(),
    };
    let own = loss::comment_losses(comments.dropped());
    let range = comments.comments@[i].source_range;
    assert(own[i].kind is DroppedComment && own[i].source_range == range);
    lemma_reports_left(values, own, LossKind::DroppedComment, range);
}

/// Whether a loss is one of a value inside `root`.
pub open spec fn is_cause(
    root: RonValue,
    pointer: Seq<char>,
    index: PointerRangeIndex,
    kind: LossKind,
    range: TextRange,
    v: RonValue,
    place: Seq<char>,
) -> bool {
    part_of(root, pointer, v, place) && loses(v, place, index, kind, range)
}

/// The value that a reported loss is one of.
proof fn lemma_down(
    root: RonValue,
    pointer: Seq<char>,
    index: PointerRangeIndex,
    bound: bool,
    kind: LossKind,
    range: TextRange,
) -> (r: (RonValue, Seq<char>))
    requires
        reports(loss::losses(root, pointer, index, bound), kind, range),
    ensures
        is_cause(root, pointer, index, kind, range, r.0, r.1),
    decreases root, 0nat,
{
    let here = (root, pointer);
    if is_collection(root) {
        lemma_collection(root, pointer, index, bound, kind, range);
    }
    if loses(root, pointer, index, kind, range) {
        here
    } else {
        match root.shape {
            Shape::Struct { fields, .. } => {
                let (k, r) = lemma_fields_down(fields@, pointer, index, bound, 0, kind, range);
                assert(part_of_field(fields@[k], pointer, r.0, r.1));
                r
            },
            Shape::Tuple { name, items } => if syntax::named(name, "Some"@) {
                lemma_down(items@[0], pointer, index, bound, kind, range)
            } else {
                match name {
                    Some(n) => lemma_payload_down(
                        items@,
                        pointer::key_pointer(pointer, n@),
                        index,
                        bound,
                        kind,
                        range,
                    ),
                    None => lemma_items_down(items@, pointer, index, bound, 0, kind, range),
                }
            },
            Shape::List { items } => lemma_items_down(
                items@,
                pointer,
                index,
                bound,
                0,
                kind,
                range,
            ),
            Shape::Dictionary { entries } => {
                lemma_map(entries@, pointer, index, bound, 0, kind, range);
                let k = choose|k: int|
                    0 <= k < entries@.len() && entry_loses(
                        #[trigger] entries@[k],
                        pointer,
                        index,
                        bound,
                        kind,
                        range,
                    );
                let entry = entries@[k];
                assert(!(kind is NonStringKey && is_lossy_key(entry, pointer, index, range)));
                assert(decreases_to!(entries@ => entry));
                let under = pointer::key_pointer(pointer, pointer::key_text(entry.key->0));
                let r = lemma_down(entry.value->0, under, index, bound, kind, range);
                assert(part_of_entry(entry, pointer, r.0, r.1));
                r
            },
            Shape::EnumVariant { name, items, entries } => if pointer::is_bare_none(
                name,
                items@,
                entries@,
            ) {
                here
            } else if pointer::is_some_of(name, items@) {
                lemma_down(items@[0], pointer, index, bound, kind, range)
            } else {
                let under = pointer::key_pointer(pointer, syntax::text_or_empty(name));
                if entries@.len() > 0 || syntax::brace_among(root.layout@) {
                    let (k, r) = lemma_members_down(entries@, under, index, bound, 0, kind, range);
                    assert(part_of_member(entries@[k], under, r.0, r.1));
                    r
                } else {
                    lemma_payload_down(items@, under, index, bound, kind, range)
                }
            },
            _ => here,
        }
    }
}

proof fn lemma_fields_down(
    fields: Seq<StructField>,
    pointer: Seq<char>,
    index: PointerRangeIndex,
    bound: bool,
    from: nat,
    kind: LossKind,
    range: TextRange,
) -> (r: (int, (RonValue, Seq<char>)))
    requires
        reports(loss::field_losses(fields, pointer, index, bound, from), kind, range),
    ensures
        0 <= r.0 < fields.len(),
        part_of_field(fields[r.0], pointer, r.1.0, r.1.1),
        loses(r.1.0, r.1.1, index, kind, range),
    decreases fields, fields.len() - from,
{
    let field = fields[from as int];
    let rest = loss::field_losses(fields, pointer, index, bound, from + 1);
    match (field.name, field.value) {
        (Some(name), Some(value)) => {
            let under = pointer::key_pointer(pointer, name@);
            let first = loss::losses(value, under, index, bound);
            lemma_reports_left(first, rest, kind, range);
            if reports(first, kind, range) {
                assert(decreases_to!(fields => field));
                (from as int, lemma_down(value, under, index, bound, kind, range))
            } else {
                lemma_fields_down(fields, pointer, index, bound, from + 1, kind, range)
            }
        },
        _ => {
            assert(Seq::<Loss>::empty() + rest =~= rest);
            lemma_fields_down(fields, pointer, index, bound, from + 1, kind, range)
        },
    }
}

proof fn lemma_members_down(
    entries: Seq<MapEntry>,
    pointer: Seq<char>,
    index: PointerRangeIndex,
    bound: bool,
    from: nat,
    kind: LossKind,
    range: TextRange,
) -> (r: (int, (RonValue, Seq<char>)))
    requires
        reports(loss::entry_losses(entries, pointer, index, bound, from), kind, range),
    ensures
        0 <= r.0 < entries.len(),
        part_of_member(entries[r.0], pointer, r.1.0, r.1.1),
        loses(r.1.0, r.1.1, index, kind, range),
    decreases entries, entries.len() - from,
{
    let entry = entries[from as int];
    let rest = loss::entry_losses(entries, pointer, index, bound, from + 1);
    match (pointer::entry_name(entry), entry.value) {
        (Some(name), Some(value)) => {
            let under = pointer::key_pointer(pointer, name);
            let first = loss::losses(value, under, index, bound);
            lemma_reports_left(first, rest, kind, range);
            if reports(first, kind, range) {
                assert(decreases_to!(entries => entry));
                (from as int, lemma_down(value, under, index, bound, kind, range))
            } else {
                lemma_members_down(entries, pointer, index, bound, from + 1, kind, range)
            }
        },
        _ => {
            assert(Seq::<Loss>::empty() + rest =~= rest);
            lemma_members_down(entries, pointer, index, bound, from + 1, kind, range)
        },
    }
}

proof fn lemma_items_down(
    items: Seq<RonValue>,
    pointer: Seq<char>,
    index: PointerRangeIndex,
    bound: bool,
    from: nat,
    kind: LossKind,
    range: TextRange,
) -> (r: (RonValue, Seq<char>))
    requires
        reports(loss::item_losses(items, pointer, index, bound, from), kind, range),
    ensures
        part_of_items(items, pointer, r.0, r.1),
        loses(r.0, r.1, index, kind, range),
    decreases items, items.len() - from,
{
    let under = pointer::index_pointer(pointer, from);
    let first = loss::losses(items[from as int], under, index, bound);
    let rest = loss::item_losses(items, pointer, index, bound, from + 1);
    lemma_reports_left(first, rest, kind, range);
    if reports(first, kind, range) {
        let r = lemma_down(items[from as int], under, index, bound, kind, range);
        assert(part_of(
            items[from as int],
            pointer::index_pointer(pointer, (from as int) as nat),
            r.0,
            r.1,
        ));
        r
    } else {
        lemma_items_down(items, pointer, index, bound, from + 1, kind, range)
    }
}

proof fn lemma_payload_down(
    items: Seq<RonValue>,
    pointer: Seq<char>,
    index: PointerRangeIndex,
    bound: bool,
    kind: LossKind,
    range: TextRange,
) -> (r: (RonValue, Seq<char>))
    requires
        reports(loss::payload_losses(items, pointer, index, bound), kind, range),
    ensures
        part_of_payload(items, pointer, r.0, r.1),
        loses(r.0, r.1, index, kind, range),
    decreases items, items.len() + 1,
{
    if items.len() == 1 {
        lemma_down(items[0], pointer, index, bound, kind, range)
    } else {
        lemma_items_down(items, pointer, index, bound, 0, kind, range)
    }
}

/// A report is sound: what it holds is a loss of a value of the document, or a comment
/// that is dropped.
pub proof fn reported_losses_have_a_cause(
    doc: RonDocument,
    index: PointerRangeIndex,
    comments: CommentCarrier,
    bound: bool,
    kind: LossKind,
    range: TextRange,
)
    requires
        reports(loss::document_losses(doc, index, comments, bound), kind, range),
    ensures
        (doc.root matches Some(root) && exists|v: RonValue, place: Seq<char>| #[trigger]
            is_cause(root, Seq::empty(), index, kind, range, v, place)) || (kind is DroppedComment
            && comments.carrier is Dropped && exists|i: int|
            0 <= i < comments.comments@.len() && (#[trigger] comments.comments@[i]).source_range
                == range),
{
    let values = match doc.root {
        Some(root) => loss::losses(root, Seq::empty(), index, bound),
        None => Seq::empty(),
    };
    let own = loss::comment_losses(comments.dropped());
    lemma_reports_left(values, own, kind, range);
    if reports(values, kind, range) {
        let root = doc.root->0;
        let r = lemma_down(root, Seq::empty(), index, bound, kind, range);
        assert(is_cause(root, Seq::empty(), index, kind, range, r.0, r.1));
    } else {
        let i = choose|i: int|
            0 <= i < own.len() && (#[trigger] own[i]).kind == kind && own[i].source_range == range;
        assert(comments.comments@[i].source_range == range);
    }
}

} // verus!
