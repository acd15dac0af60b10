//! What comes back from JSON.
//!
//! A value is a [`Tree`]: what it is, without how it is written. [`json_of`] is its
//! JSON, with the conventions of the type it is bound to. [`denotes`] says that a RON
//! text stands for it. The law of this module is that rebuilding RON from the JSON of a
//! value gives a text that stands for the value: without a type for numbers, booleans,
//! strings, lists, records and absent options, and with a type for tuples, characters,
//! units, options, maps with other keys and enum variants as well. The comments come
//! back with the values, each right before its own.

use vstd::prelude::*;

use crate::interop::comments::CommentModel;
use crate::interop::json::{self, JsonModel};
use crate::interop::json_to_ron::{self, EntryTypes, ItemTypes, KeyStyle, MAX_JSON_DEPTH};
use crate::interop::pointer;
use crate::interop::ron_to_json;
use crate::interop::tagging;
use crate::syntax::{self, MapEntry, RonValue, Shape, StructField};
use crate::text;
use crate::text_map;
use crate::types::{Discriminator, NodeKind, RonKind, TypeModel, TypeNode, Variant, VariantShape};

verus! {

/// A value.
pub enum Tree {
    /// `None`.
    Nothing,
    /// `()`.
    Unit,
    Boolean(bool),
    /// A number as it is written.
    Number(Seq<char>),
    Text(Seq<char>),
    Character(char),
    /// `Some(..)`.
    Present(Box<Tree>),
    List(Seq<Tree>),
    Tuple(Seq<Tree>),
    /// A struct or a map with strings for keys.
    Record(Seq<(Seq<char>, Tree)>),
    /// A map with other keys, each as its literal.
    Keyed(Seq<(Seq<char>, Tree)>),
    Variant(Seq<char>, Payload),
}

/// What an enum variant holds.
pub enum Payload {
    Empty,
    One(Box<Tree>),
    Many(Seq<Tree>),
    Fields(Seq<(Seq<char>, Tree)>),
}

/// The JSON of a value of a type.
pub open spec fn json_of(model: Option<TypeModel>, t: Tree, node: Option<TypeNode>) -> JsonModel
    decreases t, 0nat,
{
    match t {
        Tree::Nothing => JsonModel::Null,
        Tree::Unit => JsonModel::Null,
        Tree::Boolean(b) => JsonModel::Bool(b),
        Tree::Number(n) => JsonModel::Number(n),
        Tree::Text(s) => JsonModel::Str(s),
        Tree::Character(c) => JsonModel::Str(seq![c]),
        Tree::Present(inner) => json_of(model, *inner, json_to_ron::option_type(model, node)),
        Tree::List(items) => JsonModel::Array(json_items(model, items, json_to_ron::item_types(model, node))),
        Tree::Tuple(items) => JsonModel::Array(json_items(model, items, json_to_ron::item_types(model, node))),
        Tree::Record(entries) => JsonModel::Object(
            json_entries(model, entries, json_to_ron::entry_types(model, node)),
        ),
        Tree::Keyed(entries) => JsonModel::Object(
            json_entries(model, entries, json_to_ron::entry_types(model, node)),
        ),
        Tree::Variant(name, payload) => {
            let object = JsonModel::Object(
                seq![(name, json_payload(model, payload, json_to_ron::declared(node, name)))],
            );
            match ron_to_json::enum_tagging(node) {
                Some(d) => ron_to_json::retagged(object, d),
                None => object,
            }
        },
    }
}

/// The JSON of the items of a list or a tuple.
pub open spec fn json_items(model: Option<TypeModel>, items: Seq<Tree>, types: ItemTypes) -> Seq<
    JsonModel,
>
    decreases items, 0nat,
{
    Seq::new(
        items.len(),
        |i: int|
            if 0 <= i < items.len() {
                json_of(model, items[i], json_to_ron::item_type(model, types, i as nat))
            } else {
                JsonModel::Null
            },
    )
}

/// The JSON of the entries of a record or a map.
pub open spec fn json_entries(
    model: Option<TypeModel>,
    entries: Seq<(Seq<char>, Tree)>,
    types: EntryTypes,
) -> Seq<(Seq<char>, JsonModel)>
    decreases entries, 0nat,
{
    Seq::new(
        entries.len(),
        |i: int|
            if 0 <= i < entries.len() {
                (
                    entries[i].0,
                    json_of(
                        model,
                        entries[i].1,
                        json_to_ron::entry_type(model, types, entries[i].0),
                    ),
                )
            } else {
                (Seq::empty(), JsonModel::Null)
            },
    )
}

/// The JSON of what an enum variant holds.
pub open spec fn json_payload(
    model: Option<TypeModel>,
    payload: Payload,
    variant: Option<Variant>,
) -> JsonModel
    decreases payload, 0nat,
{
    match payload {
        Payload::Empty => JsonModel::Null,
        Payload::One(inner) => json_of(model, *inner, json_to_ron::newtype_type(model, variant)),
        Payload::Many(items) => JsonModel::Array(json_items(model, items, json_to_ron::element_types(variant))),
        Payload::Fields(entries) => JsonModel::Object(
            json_entries(model, entries, json_to_ron::field_types(variant)),
        ),
    }
}

/// Texts one after the other from position `from` on, with commas between them.
pub open spec fn listing(pieces: Seq<Seq<char>>, from: nat) -> Seq<char>
    decreases pieces.len() - from,
{
    if from >= pieces.len() {
        Seq::empty()
    } else {
        (if from > 0 {
            ", "@
        } else {
            Seq::empty()
        }) + pieces[from as int] + listing(pieces, from + 1)
    }
}

/// Keys with their values from position `from` on, with commas between them.
pub open spec fn key_listing(keys: Seq<Seq<char>>, values: Seq<Seq<char>>, from: nat) -> Seq<char>
    decreases keys.len() - from,
{
    if from >= keys.len() {
        Seq::empty()
    } else {
        (if from > 0 {
            ", "@
        } else {
            Seq::empty()
        }) + keys[from as int] + ": "@ + values[from as int] + key_listing(keys, values, from + 1)
    }
}

/// A text behind an opening and before a closing bracket.
pub open spec fn wrapped(opening: Seq<char>, piece: Seq<char>) -> Seq<char> {
    opening + piece + seq![')']
}

/// Texts between brackets.
pub open spec fn enclosed(open: char, pieces: Seq<Seq<char>>, close: char) -> Seq<char> {
    seq![open] + listing(pieces, 0) + seq![close]
}

/// Keys with their values between brackets.
pub open spec fn key_enclosed(
    open: char,
    keys: Seq<Seq<char>>,
    values: Seq<Seq<char>>,
    close: char,
) -> Seq<char> {
    seq![open] + key_listing(keys, values, 0) + seq![close]
}

/// Whether a text is a literal in quotes for `s`.
pub open spec fn quotes(text: Seq<char>, s: Seq<char>, quote: char) -> bool {
    &&& text.len() >= 2
    &&& text[0] == quote
    &&& text.last() == quote
    &&& pointer::resolved(pointer::unquoted(text, quote)) == s
}

/// Whether the keys of a struct are written as they are.
pub open spec fn names(keys: Seq<Seq<char>>, entries: Seq<(Seq<char>, Tree)>) -> bool {
    keys.len() == entries.len() && forall|i: int|
        0 <= i < keys.len() ==> (#[trigger] keys[i]) == entries[i].0 && json_to_ron::ron_ident(
            keys[i],
        )
}

/// Whether the keys of a map are written as strings.
pub open spec fn quoted_names(keys: Seq<Seq<char>>, entries: Seq<(Seq<char>, Tree)>) -> bool {
    keys.len() == entries.len() && forall|i: int|
        0 <= i < keys.len() ==> quotes(#[trigger] keys[i], entries[i].0, '"')
}

/// Whether the keys of a map are written as the literals they are.
pub open spec fn literal_names(keys: Seq<Seq<char>>, entries: Seq<(Seq<char>, Tree)>) -> bool {
    keys.len() == entries.len() && forall|i: int|
        0 <= i < keys.len() ==> (#[trigger] keys[i]) == entries[i].0
}

/// Whether a RON text stands for a value.
pub open spec fn denotes(text: Seq<char>, t: Tree) -> bool
    decreases t, 0nat,
{
    match t {
        Tree::Nothing => text == "None"@,
        Tree::Unit => text == "()"@,
        Tree::Boolean(b) => text == (if b {
            "true"@
        } else {
            "false"@
        }),
        Tree::Number(n) => text == n,
        Tree::Text(s) => quotes(text, s, '"'),
        Tree::Character(c) => quotes(text, seq![c], '\''),
        Tree::Present(inner) => exists|piece: Seq<char>|
            text == #[trigger] wrapped("Some("@, piece) && denotes(piece, *inner),
        Tree::List(items) => exists|pieces: Seq<Seq<char>>|
            text == #[trigger] enclosed('[', pieces, ']') && all_denote(pieces, items),
        Tree::Tuple(items) => exists|pieces: Seq<Seq<char>>|
            text == #[trigger] enclosed('(', pieces, ')') && all_denote(pieces, items),
        Tree::Record(entries) => {
            ||| exists|keys: Seq<Seq<char>>, values: Seq<Seq<char>>|
                text == #[trigger] key_enclosed('(', keys, values, ')') && names(keys, entries)
                    && values_denote(values, entries)
            ||| exists|keys: Seq<Seq<char>>, values: Seq<Seq<char>>|
                text == #[trigger] key_enclosed('{', keys, values, '}') && quoted_names(
                    keys,
                    entries,
                ) && values_denote(values, entries)
        },
        Tree::Keyed(entries) => exists|keys: Seq<Seq<char>>, values: Seq<Seq<char>>|
            text == #[trigger] key_enclosed('{', keys, values, '}') && literal_names(keys, entries)
                && values_denote(values, entries),
        Tree::Variant(name, payload) => text.len() >= name.len() && text.take(name.len() as int)
            == name && payload_denotes(text.skip(name.len() as int), payload),
    }
}

/// Whether texts stand for values, one by one.
pub open spec fn all_denote(pieces: Seq<Seq<char>>, items: Seq<Tree>) -> bool
    decreases items, 0nat,
{
    pieces.len() == items.len() && forall|i: int|
        0 <= i < items.len() ==> denotes(#[trigger] pieces[i], items[i])
}

/// Whether texts stand for the values of entries, one by one.
pub open spec fn values_denote(values: Seq<Seq<char>>, entries: Seq<(Seq<char>, Tree)>) -> bool
    decreases entries, 0nat,
{
    values.len() == entries.len() && forall|i: int|
        0 <= i < entries.len() ==> denotes(#[trigger] values[i], entries[i].1)
}

/// Whether the text behind the name of a variant stands for what it holds.
pub open spec fn payload_denotes(text: Seq<char>, payload: Payload) -> bool
    decreases payload, 0nat,
{
    match payload {
        Payload::Empty => text.len() == 0,
        Payload::One(inner) => exists|piece: Seq<char>|
            text == #[trigger] wrapped(seq!['('], piece) && denotes(piece, *inner),
        Payload::Many(items) => exists|pieces: Seq<Seq<char>>|
            text == #[trigger] enclosed('(', pieces, ')') && all_denote(pieces, items),
        Payload::Fields(entries) => exists|keys: Seq<Seq<char>>, values: Seq<Seq<char>>|
            text == #[trigger] key_enclosed('(', keys, values, ')') && names(keys, entries)
                && values_denote(values, entries),
    }
}

/// Whether a value of a type comes back from its JSON at nesting depth `depth`. Without
/// a type only that comes back which JSON tells apart by itself.
pub open spec fn comes_back(
    model: Option<TypeModel>,
    t: Tree,
    node: Option<TypeNode>,
    depth: nat,
) -> bool
    decreases t, 1nat,
{
    &&& depth < MAX_JSON_DEPTH
    &&& match node {
        None => comes_back_untyped(model, t, depth),
        Some(n) => match n.kind {
            NodeKind::Unknown => comes_back_untyped(model, t, depth),
            NodeKind::Optional { inner } => match t {
                Tree::Nothing => true,
                Tree::Present(x) => comes_back(
                    model,
                    *x,
                    json_to_ron::target(model, inner),
                    depth + 1,
                ) && !(json_of(model, *x, json_to_ron::target(model, inner)) is Null),
                _ => false,
            },
            NodeKind::Primitive { .. } => match t {
                Tree::Unit => n.ron_kind == Some(RonKind::Unit),
                Tree::Character(_) => n.ron_kind == Some(RonKind::Char),
                Tree::Boolean(_) | Tree::Number(_) | Tree::Text(_) => n.ron_kind != Some(
                    RonKind::Unit,
                ) && n.ron_kind != Some(RonKind::Char),
                _ => false,
            },
            NodeKind::Sequence { .. } => t matches Tree::List(items) && items_come_back(
                model,
                items,
                json_to_ron::item_types(model, node),
                depth,
            ),
            NodeKind::Tuple { .. } => t matches Tree::Tuple(items) && items_come_back(
                model,
                items,
                json_to_ron::item_types(model, node),
                depth,
            ),
            NodeKind::Object { .. } => t matches Tree::Record(entries) && all_names(entries)
                && entries_come_back(model, entries, json_to_ron::entry_types(model, node), depth),
            NodeKind::Dictionary { .. } => match t {
                Tree::Record(entries) => n.ron_kind != Some(RonKind::NonStringKeyMap)
                    && entries_come_back(model, entries, json_to_ron::entry_types(model, node), depth),
                Tree::Keyed(entries) => n.ron_kind == Some(RonKind::NonStringKeyMap)
                    && entries_come_back(model, entries, json_to_ron::entry_types(model, node), depth),
                _ => false,
            },
            NodeKind::Enum { discriminator, .. } => match t {
                Tree::Variant(name, payload) => payload_comes_back(
                    model,
                    payload,
                    json_to_ron::declared(node, name),
                    depth,
                ) && tag_comes_back(
                    json_payload(model, payload, json_to_ron::declared(node, name)),
                    payload is Empty,
                    discriminator,
                ),
                _ => false,
            },
        },
    }
}

/// Whether a value without a type comes back from its JSON.
pub open spec fn comes_back_untyped(model: Option<TypeModel>, t: Tree, depth: nat) -> bool
    decreases t, 0nat,
{
    match t {
        Tree::Nothing | Tree::Boolean(_) | Tree::Number(_) | Tree::Text(_) => true,
        Tree::List(items) => items_come_back(model, items, ItemTypes::Same(None), depth),
        Tree::Record(entries) => !(entries.len() == 1 && json_to_ron::variant_like(entries[0].0))
            && entries_come_back(model, entries, EntryTypes::Same(None), depth),
        Tree::Variant(name, payload) => json_to_ron::variant_like(name) && match payload {
            Payload::Empty => true,
            Payload::One(inner) => comes_back(model, *inner, None, depth + 1) && !(json_of(
                model,
                *inner,
                None,
            ) is Null),
            _ => false,
        },
        _ => false,
    }
}

/// Whether items come back from their JSON.
pub open spec fn items_come_back(
    model: Option<TypeModel>,
    items: Seq<Tree>,
    types: ItemTypes,
    depth: nat,
) -> bool
    decreases items, 0nat,
{
    forall|i: int|
        0 <= i < items.len() ==> comes_back(
            model,
            #[trigger] items[i],
            json_to_ron::item_type(model, types, i as nat),
            depth + 1,
        )
}

/// Whether entries come back from their JSON.
pub open spec fn entries_come_back(
    model: Option<TypeModel>,
    entries: Seq<(Seq<char>, Tree)>,
    types: EntryTypes,
    depth: nat,
) -> bool
    decreases entries, 0nat,
{
    forall|i: int|
        0 <= i < entries.len() ==> comes_back(
            model,
            (#[trigger] entries[i]).1,
            json_to_ron::entry_type(model, types, entries[i].0),
            depth + 1,
        )
}

/// Whether all keys are identifiers.
pub open spec fn all_names(entries: Seq<(Seq<char>, Tree)>) -> bool {
    forall|i: int| 0 <= i < entries.len() ==> json_to_ron::ron_ident((#[trigger] entries[i]).0)
}

/// Whether what a declared variant holds comes back from its JSON.
pub open spec fn payload_comes_back(
    model: Option<TypeModel>,
    payload: Payload,
    variant: Option<Variant>,
    depth: nat,
) -> bool
    decreases payload, 0nat,
{
    match variant {
        None => false,
        Some(v) => match (v.shape, payload) {
            (VariantShape::Unit, Payload::Empty) => true,
            (VariantShape::Newtype(inner), Payload::One(x)) => comes_back(
                model,
                *x,
                json_to_ron::target(model, inner),
                depth + 1,
            ),
            (VariantShape::Tuple(_), Payload::Many(items)) => items_come_back(
                model,
                items,
                json_to_ron::element_types(variant),
                depth,
            ),
            (VariantShape::Struct(_), Payload::Fields(entries)) => all_names(entries)
                && entries_come_back(model, entries, json_to_ron::field_types(variant), depth),
            _ => false,
        },
    }
}

/// Whether a way of tagging keeps a variant apart from what it holds.
pub open spec fn tag_comes_back(
    payload: JsonModel,
    empty: bool,
    discriminator: Discriminator,
) -> bool {
    match discriminator {
        Discriminator::External => true,
        Discriminator::Internal { tag } => match payload {
            JsonModel::Object(entries) => entries.len() > 0 && json::value_of(entries, tag@) is None,
            JsonModel::Null => empty,
            _ => false,
        },
        Discriminator::Adjacent { tag, content } => tag@ != content@,
        Discriminator::Untagged => false,
    }
}

/// Where what a variant holds stands in the JSON of a variant at `pointer`.
pub open spec fn payload_pointer(
    discriminator: Discriminator,
    name: Seq<char>,
    pointer: Seq<char>,
) -> Seq<char> {
    match discriminator {
        Discriminator::External => pointer::key_pointer(pointer, name),
        Discriminator::Internal { .. } => pointer,
        Discriminator::Adjacent { content, .. } => pointer::key_pointer(pointer, content@),
        Discriminator::Untagged => pointer,
    }
}

proof fn lemma_found_at(entries: Seq<(Seq<char>, JsonModel)>, key: Seq<char>, from: nat, k: nat)
    requires
        from <= k < entries.len(),
        entries[k as int].0 == key,
        forall|j: int| from <= j < k ==> (#[trigger] entries[j]).0 != key,
    ensures
        json::key_position(entries, key, from) == Some(k),
    decreases k - from,
{
    if from < k {
        lemma_found_at(entries, key, from + 1, k);
    }
}

proof fn lemma_not_found(entries: Seq<(Seq<char>, JsonModel)>, key: Seq<char>, from: nat)
    ensures
        json::key_position(entries, key, from) is None <==> forall|j: int|
            from <= j < entries.len() ==> (#[trigger] entries[j]).0 != key,
        json::key_position(entries, key, from) matches Some(k) ==> from <= k < entries.len()
            && entries[k as int].0 == key && forall|j: int|
            from <= j < k ==> (#[trigger] entries[j]).0 != key,
    decreases entries.len() - from,
{
    if from < entries.len() && entries[from as int].0 != key {
        lemma_not_found(entries, key, from + 1);
    }
}

/// An entry that was put in is found, and taking it out again leaves the rest.
proof fn lemma_with_entry(
    entries: Seq<(Seq<char>, JsonModel)>,
    key: Seq<char>,
    value: JsonModel,
)
    requires
        forall|j: int| 0 <= j < entries.len() ==> (#[trigger] entries[j]).0 != key,
    ensures
        json::value_of(json::with_entry(entries, key, value), key) == Some(value),
        json::without_key(json::with_entry(entries, key, value), key) == entries,
        exists|k: int|
            0 <= k <= entries.len() && json::with_entry(entries, key, value)
                == #[trigger] entries.insert(k, (key, value)),
{
    lemma_with_entry_inserts(entries, key, value);
    let k = choose|k: int|
        0 <= k <= entries.len() && json::with_entry(entries, key, value)
            == #[trigger] entries.insert(k, (key, value));
    let all = entries.insert(k, (key, value));
    assert forall|j: int| 0 <= j < k implies (#[trigger] all[j]).0 != key by {
        assert(all[j] == entries[j]);
    }
    lemma_found_at(all, key, 0, k as nat);
    lemma_without_inserted(entries, key, value, k);
}

proof fn lemma_with_entry_inserts(
    entries: Seq<(Seq<char>, JsonModel)>,
    key: Seq<char>,
    value: JsonModel,
)
    requires
        forall|j: int| 0 <= j < entries.len() ==> (#[trigger] entries[j]).0 != key,
    ensures
        exists|k: int|
            0 <= k <= entries.len() && json::with_entry(entries, key, value)
                == #[trigger] entries.insert(k, (key, value)),
    decreases entries.len(),
{
    if entries.len() == 0 {
        assert(json::with_entry(entries, key, value) =~= entries.insert(0, (key, value)));
    } else {
        assert(entries[0].0 != key);
        if text_map::precedes(key, entries[0].0) {
            assert(json::with_entry(entries, key, value) =~= entries.insert(0, (key, value)));
        } else {
            let rest = entries.drop_first();
            assert forall|j: int| 0 <= j < rest.len() implies (#[trigger] rest[j]).0 != key by {
                assert(rest[j] == entries[j + 1]);
            }
            lemma_with_entry_inserts(rest, key, value);
            let k = choose|k: int|
                0 <= k <= rest.len() && json::with_entry(rest, key, value) == #[trigger] rest.insert(
                    k,
                    (key, value),
                );
            assert(json::with_entry(entries, key, value) =~= entries.insert(k + 1, (key, value)));
        }
    }
}

proof fn lemma_without_absent(entries: Seq<(Seq<char>, JsonModel)>, key: Seq<char>)
    requires
        forall|j: int| 0 <= j < entries.len() ==> (#[trigger] entries[j]).0 != key,
    ensures
        json::without_key(entries, key) == entries,
    decreases entries.len(),
{
    if entries.len() > 0 {
        let rest = entries.drop_last();
        assert forall|j: int| 0 <= j < rest.len() implies (#[trigger] rest[j]).0 != key by {
            assert(rest[j] == entries[j]);
        }
        lemma_without_absent(rest, key);
        assert(entries.last().0 != key) by {
            assert(entries[entries.len() - 1].0 != key);
        }
        assert(rest.push(entries.last()) =~= entries);
    }
}

proof fn lemma_without_inserted(
    entries: Seq<(Seq<char>, JsonModel)>,
    key: Seq<char>,
    value: JsonModel,
    k: int,
)
    requires
        0 <= k <= entries.len(),
        forall|j: int| 0 <= j < entries.len() ==> (#[trigger] entries[j]).0 != key,
    ensures
        json::without_key(entries.insert(k, (key, value)), key) == entries,
    decreases entries.len(),
{
    let all = entries.insert(k, (key, value));
    if k == entries.len() {
        assert(all.drop_last() =~= entries);
        lemma_without_absent(entries, key);
    } else {
        let rest = entries.drop_last();
        assert forall|j: int| 0 <= j < rest.len() implies (#[trigger] rest[j]).0 != key by {
            assert(rest[j] == entries[j]);
        }
        lemma_without_inserted(rest, key, value, k);
        assert(all.drop_last() =~= rest.insert(k, (key, value)));
        assert(all.last() == entries.last());
        assert(entries.last().0 != key) by {
            assert(entries[entries.len() - 1].0 != key);
        }
        assert(rest.push(entries.last()) =~= entries);
    }
}

/// The name and the payload of a variant come back from its tagged form, for each way
/// of tagging that keeps them apart. Where the tag stands inside, nothing held is no
/// payload.
pub proof fn tags_come_back(
    name: Seq<char>,
    payload: JsonModel,
    empty: bool,
    discriminator: Discriminator,
    pointer: Seq<char>,
)
    requires
        tag_comes_back(payload, empty, discriminator),
    ensures
        json_to_ron::tagged(
            ron_to_json::retagged(JsonModel::Object(seq![(name, payload)]), discriminator),
            discriminator,
            pointer,
        ) matches Some(t) && t.name == name && t.payload == (if discriminator is Internal
            && payload is Null {
            None::<JsonModel>
        } else {
            Some(payload)
        }) && t.pointer == payload_pointer(discriminator, name, pointer) && t.own == !(
        discriminator is Internal),
{
    let entries = seq![(name, payload)];
    match discriminator {
        Discriminator::External => {},
        Discriminator::Internal { tag } => match payload {
            JsonModel::Object(inner) => {
                lemma_not_found(inner, tag@, 0);
                lemma_with_entry(inner, tag@, JsonModel::Str(name));
            },
            _ => {
                let one = seq![(tag@, JsonModel::Str(name))];
                lemma_found_at(one, tag@, 0, 0);
                assert(one.drop_last() =~= Seq::<(Seq<char>, JsonModel)>::empty());
                reveal_with_fuel(json::without_key, 2);
            },
        },
        Discriminator::Adjacent { tag, content } => {
            let one = seq![(tag@, JsonModel::Str(name))];
            assert forall|j: int| 0 <= j < one.len() implies (#[trigger] one[j]).0
                != content@ by {}
            lemma_with_entry(one, content@, payload);
            let all = json::with_entry(one, content@, payload);
            let k = choose|k: int|
                0 <= k <= one.len() && all == #[trigger] one.insert(k, (content@, payload));
            if k == 0 {
                assert(all[0] == (content@, payload) && all[1] == one[0]);
                lemma_found_at(all, tag@, 0, 1);
            } else {
                assert(all[0] == one[0]);
                lemma_found_at(all, tag@, 0, 0);
            }
        },
        Discriminator::Untagged => {},
    }
}

pub proof fn lemma_quotes(s: Seq<char>, quote: char)
    requires
        quote == '"' || quote == '\'',
    ensures
        quotes(json_to_ron::literal(s, quote), s, quote),
{
    json_to_ron::literals_read_back(s, quote);
}

/// The texts that the items of a list are rebuilt as.
spec fn item_pieces(
    model: Option<TypeModel>,
    items: Seq<Tree>,
    types: ItemTypes,
    pointer: Seq<char>,
    depth: nat,
) -> Seq<Seq<char>> {
    Seq::new(
        items.len(),
        |i: int|
            json_to_ron::value_emission(
                model,
                Seq::empty(),
                json_items(model, items, types)[i],
                json_to_ron::item_type(model, types, i as nat),
                pointer::index_pointer(pointer, i as nat),
                depth + 1,
            ).text,
    )
}

/// The texts that the values of entries are rebuilt as.
spec fn entry_pieces(
    model: Option<TypeModel>,
    entries: Seq<(Seq<char>, Tree)>,
    types: EntryTypes,
    pointer: Seq<char>,
    depth: nat,
) -> Seq<Seq<char>> {
    Seq::new(
        entries.len(),
        |i: int|
            json_to_ron::value_emission(
                model,
                Seq::empty(),
                json_entries(model, entries, types)[i].1,
                json_to_ron::entry_type(model, types, entries[i].0),
                pointer::key_pointer(pointer, entries[i].0),
                depth + 1,
            ).text,
    )
}

/// The keys of entries as they are written.
spec fn key_pieces(entries: Seq<(Seq<char>, Tree)>, style: KeyStyle) -> Seq<Seq<char>> {
    Seq::new(entries.len(), |i: int| json_to_ron::key_written(entries[i].0, style))
}

proof fn lemma_items_text(
    model: Option<TypeModel>,
    items: Seq<Tree>,
    types: ItemTypes,
    pointer: Seq<char>,
    depth: nat,
    from: nat,
)
    requires
        depth < MAX_JSON_DEPTH,
    ensures
        json_to_ron::items_emission(
            model,
            Seq::empty(),
            json_items(model, items, types),
            types,
            pointer,
            depth,
            from,
        ).text == listing(item_pieces(model, items, types, pointer, depth), from),
    decreases items.len() - from,
{
    let pieces = item_pieces(model, items, types, pointer, depth);
    if from < items.len() {
        lemma_items_text(model, items, types, pointer, depth, from + 1);
        let rest = listing(pieces, from + 1);
        let sep: Seq<char> = if from > 0 {
            ", "@
        } else {
            Seq::empty()
        };
        assert(sep + Seq::<char>::empty() + pieces[from as int] + rest =~= sep
            + pieces[from as int] + rest);
    }
}

proof fn lemma_entries_text(
    model: Option<TypeModel>,
    entries: Seq<(Seq<char>, Tree)>,
    types: EntryTypes,
    style: KeyStyle,
    pointer: Seq<char>,
    depth: nat,
    from: nat,
)
    requires
        depth < MAX_JSON_DEPTH,
    ensures
        json_to_ron::entries_emission(
            model,
            Seq::empty(),
            json_entries(model, entries, types),
            types,
            style,
            pointer,
            depth,
            from,
        ).text == key_listing(
            key_pieces(entries, style),
            entry_pieces(model, entries, types, pointer, depth),
            from,
        ),
    decreases entries.len() - from,
{
    let keys = key_pieces(entries, style);
    let values = entry_pieces(model, entries, types, pointer, depth);
    if from < entries.len() {
        lemma_entries_text(model, entries, types, style, pointer, depth, from + 1);
        let rest = key_listing(keys, values, from + 1);
        let sep: Seq<char> = if from > 0 {
            ", "@
        } else {
            Seq::empty()
        };
        assert(sep + Seq::<char>::empty() + (keys[from as int] + ": "@) + values[from as int] + rest
            =~= sep + keys[from as int] + ": "@ + values[from as int] + rest);
    }
}

proof fn lemma_items_denote(
    model: Option<TypeModel>,
    items: Seq<Tree>,
    types: ItemTypes,
    pointer: Seq<char>,
    depth: nat,
)
    requires
        items_come_back(model, items, types, depth),
    ensures
        all_denote(item_pieces(model, items, types, pointer, depth), items),
    decreases items, 0nat,
{
    let pieces = item_pieces(model, items, types, pointer, depth);
    assert forall|i: int| 0 <= i < items.len() implies denotes(#[trigger] pieces[i], items[i]) by {
        assert(comes_back(
            model,
            items[i],
            json_to_ron::item_type(model, types, i as nat),
            depth + 1,
        ));
        lemma_value(
            model,
            items[i],
            json_to_ron::item_type(model, types, i as nat),
            pointer::index_pointer(pointer, i as nat),
            depth + 1,
        );
    }
}

proof fn lemma_entries_denote(
    model: Option<TypeModel>,
    entries: Seq<(Seq<char>, Tree)>,
    types: EntryTypes,
    pointer: Seq<char>,
    depth: nat,
)
    requires
        entries_come_back(model, entries, types, depth),
    ensures
        values_denote(entry_pieces(model, entries, types, pointer, depth), entries),
    decreases entries, 0nat,
{
    let values = entry_pieces(model, entries, types, pointer, depth);
    assert forall|i: int| 0 <= i < entries.len() implies denotes(
        #[trigger] values[i],
        entries[i].1,
    ) by {
        assert(decreases_to!(entries => entries[i]));
        assert(comes_back(
            model,
            entries[i].1,
            json_to_ron::entry_type(model, types, entries[i].0),
            depth + 1,
        ));
        lemma_value(
            model,
            entries[i].1,
            json_to_ron::entry_type(model, types, entries[i].0),
            pointer::key_pointer(pointer, entries[i].0),
            depth + 1,
        );
    }
}

/// A record is rebuilt as a struct with names for keys.
proof fn lemma_struct(
    model: Option<TypeModel>,
    entries: Seq<(Seq<char>, Tree)>,
    types: EntryTypes,
    pointer: Seq<char>,
    depth: nat,
) -> (text: Seq<char>)
    requires
        depth < MAX_JSON_DEPTH,
        all_names(entries),
        values_denote(entry_pieces(model, entries, types, pointer, depth), entries),
    ensures
        text == seq!['('] + json_to_ron::entries_emission(
            model,
            Seq::empty(),
            json_entries(model, entries, types),
            types,
            KeyStyle::Name,
            pointer,
            depth,
            0,
        ).text + seq![')'],
        text == key_enclosed(
            '(',
            key_pieces(entries, KeyStyle::Name),
            entry_pieces(model, entries, types, pointer, depth),
            ')',
        ),
        names(key_pieces(entries, KeyStyle::Name), entries),
        denotes(text, Tree::Record(entries)),
{
    lemma_entries_text(model, entries, types, KeyStyle::Name, pointer, depth, 0);
    let keys = key_pieces(entries, KeyStyle::Name);
    let values = entry_pieces(model, entries, types, pointer, depth);
    assert forall|i: int| 0 <= i < keys.len() implies (#[trigger] keys[i]) == entries[i].0
        && json_to_ron::ron_ident(keys[i]) by {
        assert(json_to_ron::ron_ident(entries[i].0));
    }
    let text = key_enclosed('(', keys, values, ')');
    assert(denotes(text, Tree::Record(entries)));
    text
}

/// A record is rebuilt as a map with strings for keys.
proof fn lemma_string_map(
    model: Option<TypeModel>,
    entries: Seq<(Seq<char>, Tree)>,
    types: EntryTypes,
    pointer: Seq<char>,
    depth: nat,
) -> (text: Seq<char>)
    requires
        depth < MAX_JSON_DEPTH,
        values_denote(entry_pieces(model, entries, types, pointer, depth), entries),
    ensures
        text == seq!['{'] + json_to_ron::entries_emission(
            model,
            Seq::empty(),
            json_entries(model, entries, types),
            types,
            KeyStyle::Quoted,
            pointer,
            depth,
            0,
        ).text + seq!['}'],
        denotes(text, Tree::Record(entries)),
{
    lemma_entries_text(model, entries, types, KeyStyle::Quoted, pointer, depth, 0);
    let keys = key_pieces(entries, KeyStyle::Quoted);
    let values = entry_pieces(model, entries, types, pointer, depth);
    assert forall|i: int| 0 <= i < keys.len() implies quotes(#[trigger] keys[i], entries[i].0, '"') by {
        lemma_quotes(entries[i].0, '"');
    }
    let text = key_enclosed('{', keys, values, '}');
    assert(denotes(text, Tree::Record(entries)));
    text
}

/// A map with other keys is rebuilt with the literals for keys.
proof fn lemma_literal_map(
    model: Option<TypeModel>,
    entries: Seq<(Seq<char>, Tree)>,
    types: EntryTypes,
    pointer: Seq<char>,
    depth: nat,
) -> (text: Seq<char>)
    requires
        depth < MAX_JSON_DEPTH,
        values_denote(entry_pieces(model, entries, types, pointer, depth), entries),
    ensures
        text == seq!['{'] + json_to_ron::entries_emission(
            model,
            Seq::empty(),
            json_entries(model, entries, types),
            types,
            KeyStyle::Verbatim,
            pointer,
            depth,
            0,
        ).text + seq!['}'],
        denotes(text, Tree::Keyed(entries)),
{
    lemma_entries_text(model, entries, types, KeyStyle::Verbatim, pointer, depth, 0);
    let keys = key_pieces(entries, KeyStyle::Verbatim);
    let values = entry_pieces(model, entries, types, pointer, depth);
    assert(literal_names(keys, entries));
    let text = key_enclosed('{', keys, values, '}');
    assert(denotes(text, Tree::Keyed(entries)));
    text
}

proof fn lemma_value(
    model: Option<TypeModel>,
    t: Tree,
    node: Option<TypeNode>,
    pointer: Seq<char>,
    depth: nat,
)
    requires
        comes_back(model, t, node, depth),
    ensures
        denotes(
            json_to_ron::value_emission(
                model,
                Seq::empty(),
                json_of(model, t, node),
                node,
                pointer,
                depth,
            ).text,
            t,
        ),
    decreases t, 3nat,
{
    match node {
        None => lemma_plain(model, t, node, pointer, depth),
        Some(n) => match n.kind {
            NodeKind::Unknown => lemma_plain(model, t, node, pointer, depth),
            NodeKind::Enum { .. } => lemma_enum(model, t, n, pointer, depth),
            _ => lemma_typed(model, t, n, pointer, depth),
        },
    }
}

proof fn lemma_plain(
    model: Option<TypeModel>,
    t: Tree,
    node: Option<TypeNode>,
    pointer: Seq<char>,
    depth: nat,
)
    requires
        depth < MAX_JSON_DEPTH,
        comes_back_untyped(model, t, depth),
        node is None || node->0.kind is Unknown,
    ensures
        denotes(
            json_to_ron::plain_emission(
                model,
                Seq::empty(),
                json_of(model, t, node),
                pointer,
                depth,
            ).text,
            t,
        ),
    decreases t, 2nat,
{
    let j = json_of(model, t, node);
    let e = json_to_ron::plain_emission(model, Seq::empty(), j, pointer, depth);
    match t {
        Tree::Text(s) => lemma_quotes(s, '"'),
        Tree::List(items) => {
            let types = ItemTypes::Same(None);
            lemma_items_denote(model, items, types, pointer, depth);
            lemma_items_text(model, items, types, pointer, depth, 0);
            let pieces = item_pieces(model, items, types, pointer, depth);
            assert(e.text =~= enclosed('[', pieces, ']'));
        },
        Tree::Record(entries) => {
            let types = EntryTypes::Same(None);
            lemma_entries_denote(model, entries, types, pointer, depth);
            let object = json_entries(model, entries, types);
            if json_to_ron::all_idents(object) {
                assert forall|i: int| 0 <= i < entries.len() implies json_to_ron::ron_ident(
                    (#[trigger] entries[i]).0,
                ) by {
                    assert(object[i].0 == entries[i].0);
                }
                let text = lemma_struct(model, entries, types, pointer, depth);
                assert(e.text =~= text);
            } else {
                let text = lemma_string_map(model, entries, types, pointer, depth);
                assert(e.text =~= text);
            }
        },
        Tree::Variant(name, payload) => {
            let under = pointer::key_pointer(pointer, name);
            let held = json_payload(model, payload, json_to_ron::declared(node, name));
            assert(j == JsonModel::Object(seq![(name, held)]));
            match payload {
                Payload::Empty => {
                    assert(e.text =~= name);
                    assert(e.text.take(name.len() as int) =~= name);
                    assert(e.text.skip(name.len() as int) =~= Seq::<char>::empty());
                    assert(payload_denotes(e.text.skip(name.len() as int), payload));
                },
                Payload::One(inner) => {
                    lemma_value(model, *inner, None, under, depth + 1);
                    let piece = json_to_ron::value_emission(
                        model,
                        Seq::empty(),
                        json_of(model, *inner, None),
                        None,
                        under,
                        depth + 1,
                    ).text;
                    assert(e.text =~= name + wrapped(seq!['('], piece));
                    assert(e.text.take(name.len() as int) =~= name);
                    assert(e.text.skip(name.len() as int) =~= wrapped(seq!['('], piece));
                    assert(payload_denotes(e.text.skip(name.len() as int), payload));
                },
                _ => {},
            }
        },
        _ => {},
    }
}

proof fn lemma_typed(
    model: Option<TypeModel>,
    t: Tree,
    n: TypeNode,
    pointer: Seq<char>,
    depth: nat,
)
    requires
        comes_back(model, t, Some(n), depth),
        !(n.kind is Unknown),
        !(n.kind is Enum),
    ensures
        json_to_ron::typed_emission(
            model,
            Seq::empty(),
            json_of(model, t, Some(n)),
            n,
            pointer,
            depth,
        ) matches Some(e) && denotes(e.text, t),
    decreases t, 2nat,
{
    let j = json_of(model, t, Some(n));
    let e = json_to_ron::typed_emission(model, Seq::empty(), j, n, pointer, depth)->0;
    match n.kind {
        NodeKind::Optional { inner } => match t {
            Tree::Present(x) => {
                let of = json_to_ron::target(model, inner);
                lemma_value(model, *x, of, pointer, depth + 1);
                let piece = json_to_ron::value_emission(
                    model,
                    Seq::empty(),
                    json_of(model, *x, of),
                    of,
                    pointer,
                    depth + 1,
                ).text;
                assert(e.text =~= wrapped("Some("@, piece));
            },
            _ => {},
        },
        NodeKind::Primitive { .. } => match t {
            Tree::Text(s) => lemma_quotes(s, '"'),
            Tree::Character(c) => lemma_quotes(seq![c], '\''),
            _ => {},
        },
        NodeKind::Sequence { .. } => {
            let items = t->List_0;
            let types = json_to_ron::item_types(model, Some(n));
            lemma_items_denote(model, items, types, pointer, depth);
            lemma_items_text(model, items, types, pointer, depth, 0);
            let pieces = item_pieces(model, items, types, pointer, depth);
            assert(e.text =~= enclosed('[', pieces, ']'));
        },
        NodeKind::Tuple { .. } => {
            let items = t->Tuple_0;
            let types = json_to_ron::item_types(model, Some(n));
            lemma_items_denote(model, items, types, pointer, depth);
            lemma_items_text(model, items, types, pointer, depth, 0);
            let pieces = item_pieces(model, items, types, pointer, depth);
            assert(e.text =~= enclosed('(', pieces, ')'));
        },
        NodeKind::Object { .. } => {
            let entries = t->Record_0;
            let types = json_to_ron::entry_types(model, Some(n));
            lemma_entries_denote(model, entries, types, pointer, depth);
            let text = lemma_struct(model, entries, types, pointer, depth);
            assert(e.text =~= text);
        },
        NodeKind::Dictionary { .. } => {
            let types = json_to_ron::entry_types(model, Some(n));
            match t {
                Tree::Record(entries) => {
                    lemma_entries_denote(model, entries, types, pointer, depth);
                    let text = lemma_string_map(model, entries, types, pointer, depth);
                    assert(e.text =~= text);
                },
                Tree::Keyed(entries) => {
                    lemma_entries_denote(model, entries, types, pointer, depth);
                    let text = lemma_literal_map(model, entries, types, pointer, depth);
                    assert(e.text =~= text);
                },
                _ => {},
            }
        },
        _ => {},
    }
}

proof fn lemma_enum(
    model: Option<TypeModel>,
    t: Tree,
    n: TypeNode,
    pointer: Seq<char>,
    depth: nat,
)
    requires
        comes_back(model, t, Some(n), depth),
        n.kind is Enum,
    ensures
        denotes(
            json_to_ron::value_emission(
                model,
                Seq::empty(),
                json_of(model, t, Some(n)),
                Some(n),
                pointer,
                depth,
            ).text,
            t,
        ),
    decreases t, 2nat,
{
    let (name, payload) = match t {
        Tree::Variant(name, payload) => (name, payload),
        _ => (Seq::empty(), Payload::Empty),
    };
    let variant = json_to_ron::declared(Some(n), name);
    let d = n.kind->discriminator;
    let p = json_payload(model, payload, variant);
    tags_come_back(name, p, payload is Empty, d, pointer);
    assert(payload_comes_back(model, payload, variant, depth));
    let j = json_of(model, t, Some(n));
    let tagged = json_to_ron::tagged(j, d, pointer)->0;
    lemma_payload(model, payload, variant->0, tagged.pointer, tagged.own, depth);
    let body = json_to_ron::payload_emission(
        model,
        Seq::empty(),
        p,
        variant,
        tagged.pointer,
        tagged.own,
        depth,
    ).text;
    let e = json_to_ron::value_emission(model, Seq::empty(), j, Some(n), pointer, depth);
    assert(json_to_ron::typed_emission(model, Seq::empty(), j, n, pointer, depth) == Some(
        json_to_ron::enum_emission(model, Seq::empty(), j, n.kind->variants@, d, pointer, depth),
    ));
    if tagged.payload is None {
        assert(e.text =~= name);
        assert(payload is Empty);
        assert(e.text.skip(name.len() as int) =~= Seq::<char>::empty());
    } else {
        assert(e.text =~= name + body);
        assert(e.text.skip(name.len() as int) =~= body);
    }
    assert(e.text.take(name.len() as int) =~= name);
}

proof fn lemma_payload(
    model: Option<TypeModel>,
    payload: Payload,
    variant: Variant,
    pointer: Seq<char>,
    own: bool,
    depth: nat,
)
    requires
        depth < MAX_JSON_DEPTH,
        payload_comes_back(model, payload, Some(variant), depth),
    ensures
        payload_denotes(
            json_to_ron::payload_emission(
                model,
                Seq::empty(),
                json_payload(model, payload, Some(variant)),
                Some(variant),
                pointer,
                own,
                depth,
            ).text,
            payload,
        ),
    decreases payload, 0nat,
{
    let p = json_payload(model, payload, Some(variant));
    let e = json_to_ron::payload_emission(
        model,
        Seq::empty(),
        p,
        Some(variant),
        pointer,
        own,
        depth,
    );
    match payload {
        Payload::Empty => {},
        Payload::One(x) => {
            let of = json_to_ron::newtype_type(model, Some(variant));
            lemma_value(model, *x, of, pointer, depth + 1);
            let piece = json_to_ron::value_emission(
                model,
                Seq::empty(),
                json_of(model, *x, of),
                of,
                pointer,
                depth + 1,
            ).text;
            assert(e.text =~= wrapped(seq!['('], piece));
        },
        Payload::Many(items) => {
            let types = json_to_ron::element_types(Some(variant));
            lemma_items_denote(model, items, types, pointer, depth);
            lemma_items_text(model, items, types, pointer, depth, 0);
            let pieces = item_pieces(model, items, types, pointer, depth);
            assert(e.text =~= enclosed('(', pieces, ')'));
        },
        Payload::Fields(entries) => {
            let types = json_to_ron::field_types(Some(variant));
            lemma_entries_denote(model, entries, types, pointer, depth);
            let text = lemma_struct(model, entries, types, pointer, depth);
            assert(e.text =~= text);
        },
    }
}

/// The RON text that is rebuilt from the JSON of a value stands for the value: without
/// a type for what JSON tells apart by itself, and with its type for the rest.
pub proof fn values_come_back(model: Option<TypeModel>, t: Tree, node: Option<TypeNode>)
    requires
        comes_back(model, t, node, 0),
    ensures
        ({
            let text = json_to_ron::document_emission(
                json_of(model, t, node),
                model,
                node,
                Seq::empty(),
            ).text;
            text.len() > 0 && text.last() == '\n' && denotes(text.drop_last(), t)
        }),
{
    lemma_value(model, t, node, Seq::empty(), 0);
    let value = json_to_ron::value_emission(
        model,
        Seq::empty(),
        json_of(model, t, node),
        node,
        Seq::empty(),
        0,
    ).text;
    let text = json_to_ron::document_emission(
        json_of(model, t, node),
        model,
        node,
        Seq::empty(),
    ).text;
    assert(text =~= value.push('\n'));
    assert(text.drop_last() =~= value);
}

/// Whether the JSON value that the parser gives for a source value needs no rewriting:
/// every map key is a string, or is written as its canonical literal.
pub open spec fn written_canonically(source: RonValue, value: JsonModel) -> bool
    decreases source, 0nat,
{
    match (source.shape, value) {
        (Shape::Dictionary { entries }, JsonModel::Object(object)) => json::keys_ascend(object)
            && entries_canonical(entries@, object) && forall|i: int|
            0 <= i < object.len() ==> is_key(entries@, (#[trigger] object[i]).0, entries@.len()),
        (Shape::Struct { name, fields }, JsonModel::Object(object)) => if ron_to_json::tags_fields(
            name,
            fields@,
            object,
        ) {
            object[0].1 matches JsonModel::Object(inner) ==> fields_canonical(fields@, inner)
        } else {
            fields_canonical(fields@, object)
        },
        (Shape::List { items }, JsonModel::Array(array)) => items_canonical(items@, array),
        (Shape::Tuple { name, items }, _) => if syntax::named(name, "Some"@) {
            items@.len() > 0 ==> written_canonically(items@[0], value)
        } else {
            match value {
                JsonModel::Array(array) => items_canonical(items@, array),
                JsonModel::Object(object) => name is Some && object.len() == 1
                    ==> payload_canonical(items@, object[0].1),
                _ => true,
            }
        },
        (Shape::EnumVariant { name, items, .. }, _) => if pointer::is_some_of(name, items@) {
            written_canonically(items@[0], value)
        } else {
            value matches JsonModel::Object(object) ==> object.len() == 1 ==> payload_canonical(
                items@,
                object[0].1,
            )
        },
        _ => true,
    }
}

/// Whether what a variant holds needs no rewriting.
pub open spec fn payload_canonical(items: Seq<RonValue>, payload: JsonModel) -> bool
    decreases items, 1nat,
{
    if items.len() == 1 {
        written_canonically(items[0], payload)
    } else {
        payload matches JsonModel::Array(array) ==> items_canonical(items, array)
    }
}

/// Whether `key` is the property name of one of the first `n` entries.
pub open spec fn is_key(entries: Seq<MapEntry>, key: Seq<char>, n: nat) -> bool {
    exists|j: int|
        0 <= j < n && j < entries.len() && (#[trigger] entries[j].key matches Some(k)
            && pointer::key_text(k) == key)
}

/// Whether the items need no rewriting.
pub open spec fn items_canonical(items: Seq<RonValue>, array: Seq<JsonModel>) -> bool
    decreases items, 0nat,
{
    forall|i: int|
        0 <= i < items.len() && i < array.len() ==> written_canonically(#[trigger] items[i], array[i])
}

/// Whether the fields need no rewriting.
pub open spec fn fields_canonical(
    fields: Seq<StructField>,
    object: Seq<(Seq<char>, JsonModel)>,
) -> bool
    decreases fields, 0nat,
{
    forall|k: int, i: int|
        0 <= k < fields.len() && 0 <= i < object.len() ==> field_canonical(
            #[trigger] fields[k],
            #[trigger] object[i],
        )
}

/// Whether a field needs no rewriting if it is the one of a property.
pub open spec fn field_canonical(field: StructField, property: (Seq<char>, JsonModel)) -> bool
    decreases field, 0nat,
{
    match (field.name, field.value) {
        (Some(name), Some(source)) => name@ == property.0 ==> written_canonically(
            source,
            property.1,
        ),
        _ => true,
    }
}

/// Whether the entries of a map need no rewriting.
pub open spec fn entries_canonical(
    entries: Seq<MapEntry>,
    object: Seq<(Seq<char>, JsonModel)>,
) -> bool
    decreases entries, 0nat,
{
    forall|k: int| 0 <= k < entries.len() ==> entry_canonical(#[trigger] entries[k], object)
}

/// Whether an entry of a map needs no rewriting.
pub open spec fn entry_canonical(entry: MapEntry, object: Seq<(Seq<char>, JsonModel)>) -> bool
    decreases entry, 0nat,
{
    match entry.key {
        Some(key) => ron_to_json::final_key(key) == pointer::key_text(key) && match (
            entry.value,
            json::value_of(object, pointer::key_text(key)),
        ) {
            (Some(source), Some(value)) => written_canonically(source, value),
            _ => true,
        },
        None => true,
    }
}

proof fn lemma_value_of_cons(
    first: (Seq<char>, JsonModel),
    rest: Seq<(Seq<char>, JsonModel)>,
    key: Seq<char>,
)
    ensures
        json::value_of(seq![first] + rest, key) == (if first.0 == key {
            Some(first.1)
        } else {
            json::value_of(rest, key)
        }),
{
    let all = seq![first] + rest;
    lemma_not_found(all, key, 0);
    lemma_not_found(rest, key, 0);
    if first.0 == key {
        lemma_found_at(all, key, 0, 0);
    } else if let Some(k) = json::key_position(rest, key, 0) {
        assert forall|j: int| 0 <= j < k + 1 implies (#[trigger] all[j]).0 != key by {
            if j > 0 {
                assert(all[j] == rest[j - 1]);
            }
        }
        lemma_found_at(all, key, 0, k + 1);
    } else {
        assert forall|j: int| 0 <= j < all.len() implies (#[trigger] all[j]).0 != key by {
            if j > 0 {
                assert(all[j] == rest[j - 1]);
            }
        }
    }
}

pub proof fn lemma_value_of_entry(entries: Seq<(Seq<char>, JsonModel)>, i: int)
    requires
        json::keys_ascend(entries),
        0 <= i < entries.len(),
    ensures
        json::value_of(entries, entries[i].0) == Some(entries[i].1),
{
    assert forall|j: int| 0 <= j < i implies (#[trigger] entries[j]).0 != entries[i].0 by {
        text_map::lemma_precedes_total(entries[j].0, entries[i].0);
    }
    lemma_found_at(entries, entries[i].0, 0, i as nat);
}

/// What is stored under the keys after one more entry is stored.
pub proof fn lemma_stored(
    entries: Seq<(Seq<char>, JsonModel)>,
    key: Seq<char>,
    value: JsonModel,
    other: Seq<char>,
)
    ensures
        json::value_of(json::with_entry(entries, key, value), other) == (if other == key {
            Some(value)
        } else {
            json::value_of(entries, other)
        }),
    decreases entries.len(),
{
    if entries.len() == 0 {
        assert(seq![(key, value)] =~= seq![(key, value)] + entries);
        lemma_value_of_cons((key, value), entries, other);
    } else {
        let rest = entries.drop_first();
        assert(entries =~= seq![entries[0]] + rest);
        lemma_value_of_cons(entries[0], rest, other);
        lemma_value_of_cons((key, value), rest, other);
        lemma_value_of_cons((key, value), entries, other);
        lemma_value_of_cons(entries[0], json::with_entry(rest, key, value), other);
        if entries[0].0 != key && !text_map::precedes(key, entries[0].0) {
            lemma_stored(rest, key, value, other);
        }
    }
}

proof fn lemma_stored_keys(entries: Seq<(Seq<char>, JsonModel)>, key: Seq<char>, value: JsonModel)
    ensures
        forall|i: int|
            0 <= i < json::with_entry(entries, key, value).len() ==> ((
            #[trigger] json::with_entry(entries, key, value)[i]).0 == key || exists|j: int|
                0 <= j < entries.len() && (#[trigger] entries[j]).0 == json::with_entry(
                    entries,
                    key,
                    value,
                )[i].0),
    decreases entries.len(),
{
    let all = json::with_entry(entries, key, value);
    if entries.len() > 0 {
        let rest = entries.drop_first();
        lemma_stored_keys(rest, key, value);
        let below = json::with_entry(rest, key, value);
        assert forall|i: int| 0 <= i < all.len() implies (#[trigger] all[i]).0 == key
            || exists|j: int| 0 <= j < entries.len() && (#[trigger] entries[j]).0 == all[i].0 by {
            if entries[0].0 == key {
                if i > 0 {
                    assert(all[i] == entries[i]);
                }
            } else if text_map::precedes(key, entries[0].0) {
                if i > 0 {
                    assert(all[i] == entries[i - 1]);
                }
            } else if i == 0 {
                assert(all[0] == entries[0]);
            } else {
                assert(all[i] == below[i - 1]);
                if below[i - 1].0 != key {
                    let j = choose|j: int|
                        0 <= j < rest.len() && (#[trigger] rest[j]).0 == below[i - 1].0;
                    assert(entries[j + 1].0 == all[i].0);
                }
            }
        }
    }
}

proof fn lemma_stored_ascend(entries: Seq<(Seq<char>, JsonModel)>, key: Seq<char>, value: JsonModel)
    requires
        json::keys_ascend(entries),
    ensures
        json::keys_ascend(json::with_entry(entries, key, value)),
    decreases entries.len(),
{
    let all = json::with_entry(entries, key, value);
    if entries.len() > 0 {
        let rest = entries.drop_first();
        assert forall|i: int, j: int| 0 <= i < j < rest.len() implies text_map::precedes(
            (#[trigger] rest[i]).0,
            (#[trigger] rest[j]).0,
        ) by {
            assert(rest[i] == entries[i + 1] && rest[j] == entries[j + 1]);
        }
        text_map::lemma_precedes_total(key, entries[0].0);
        lemma_stored_ascend(rest, key, value);
        lemma_stored_keys(rest, key, value);
        let below = json::with_entry(rest, key, value);
        assert forall|i: int, j: int| 0 <= i < j < all.len() implies text_map::precedes(
            (#[trigger] all[i]).0,
            (#[trigger] all[j]).0,
        ) by {
            if entries[0].0 == key {
                assert(all[j] == entries[j]);
                assert(all[i].0 == entries[i].0);
            } else if text_map::precedes(key, entries[0].0) {
                assert(all[j] == entries[j - 1]);
                if i > 0 {
                    assert(all[i] == entries[i - 1]);
                } else if j > 1 {
                    text_map::lemma_precedes_transitive(key, entries[0].0, entries[j - 1].0);
                }
            } else {
                assert(all[j] == below[j - 1]);
                if i > 0 {
                    assert(all[i] == below[i - 1]);
                } else if below[j - 1].0 != key {
                    let k = choose|k: int|
                        0 <= k < rest.len() && (#[trigger] rest[k]).0 == below[j - 1].0;
                    assert(rest[k] == entries[k + 1]);
                }
            }
        }
    }
}

/// Objects whose keys ascend are the same if they store the same.
proof fn lemma_same_object(a: Seq<(Seq<char>, JsonModel)>, b: Seq<(Seq<char>, JsonModel)>)
    requires
        json::keys_ascend(a),
        json::keys_ascend(b),
        forall|key: Seq<char>| #[trigger] json::value_of(a, key) == json::value_of(b, key),
    ensures
        a == b,
    decreases a.len(),
{
    if a.len() == 0 {
        if b.len() > 0 {
            lemma_value_of_entry(b, 0);
            assert(json::value_of(a, b[0].0) is None);
        }
        assert(a =~= b);
    } else {
        lemma_value_of_entry(a, 0);
        lemma_not_found(b, a[0].0, 0);
        assert(json::value_of(a, a[0].0) == json::value_of(b, a[0].0));
        lemma_value_of_entry(b, 0);
        lemma_not_found(a, b[0].0, 0);
        assert(json::value_of(a, b[0].0) == json::value_of(b, b[0].0));
        text_map::lemma_precedes_total(a[0].0, b[0].0);
        let i = json::key_position(b, a[0].0, 0)->0;
        let j = json::key_position(a, b[0].0, 0)->0;
        if i > 0 && j > 0 {
            assert(text_map::precedes(b[0].0, b[i as int].0));
            assert(text_map::precedes(a[0].0, a[j as int].0));
        }
        assert(a[0] == b[0]);
        let x = a.drop_first();
        let y = b.drop_first();
        assert(a =~= seq![a[0]] + x);
        assert(b =~= seq![b[0]] + y);
        assert forall|key: Seq<char>| #[trigger] json::value_of(x, key) == json::value_of(y, key) by {
            lemma_value_of_cons(a[0], x, key);
            lemma_value_of_cons(b[0], y, key);
            assert(json::value_of(a, key) == json::value_of(b, key));
            if key == a[0].0 {
                assert forall|k: int| 0 <= k < x.len() implies (#[trigger] x[k]).0 != key by {
                    text_map::lemma_precedes_total(a[0].0, a[k + 1].0);
                }
                assert forall|k: int| 0 <= k < y.len() implies (#[trigger] y[k]).0 != key by {
                    text_map::lemma_precedes_total(b[0].0, b[k + 1].0);
                }
                lemma_not_found(x, key, 0);
                lemma_not_found(y, key, 0);
            }
        }
        assert forall|k: int, l: int| 0 <= k < l < x.len() implies text_map::precedes(
            (#[trigger] x[k]).0,
            (#[trigger] x[l]).0,
        ) by {
            assert(x[k] == a[k + 1] && x[l] == a[l + 1]);
        }
        assert forall|k: int, l: int| 0 <= k < l < y.len() implies text_map::precedes(
            (#[trigger] y[k]).0,
            (#[trigger] y[l]).0,
        ) by {
            assert(y[k] == b[k + 1] && y[l] == b[l + 1]);
        }
        lemma_same_object(x, y);
    }
}

proof fn lemma_fields_stay(
    fields: Seq<StructField>,
    object: Seq<(Seq<char>, JsonModel)>,
    i: int,
    from: nat,
)
    requires
        fields_canonical(fields, object),
        0 <= i < object.len(),
    ensures
        ron_to_json::field_with_final_keys(object[i].1, object[i].0, fields, from) == object[i].1,
    decreases fields, fields.len() - from,
{
    if from < fields.len() {
        assert(field_canonical(fields[from as int], object[i]));
        let field = fields[from as int];
        match (field.name, field.value) {
            (Some(name), Some(source)) => {
                assert(decreases_to!(fields => field));
                if name@ == object[i].0 {
                    values_stay(source, object[i].1);
                }
            },
            _ => {},
        }
        lemma_fields_stay(fields, object, i, from + 1);
    }
}

proof fn lemma_entries_stay(
    entries: Seq<MapEntry>,
    object: Seq<(Seq<char>, JsonModel)>,
    built: Seq<(Seq<char>, JsonModel)>,
    from: nat,
)
    requires
        entries_canonical(entries, object),
        from <= entries.len(),
        json::keys_ascend(built),
        forall|key: Seq<char>| #[trigger]
            json::value_of(built, key) == (if is_key(entries, key, from) {
                json::value_of(object, key)
            } else {
                None
            }),
    ensures
        json::keys_ascend(ron_to_json::rekeyed(entries, object, built, from)),
        forall|key: Seq<char>| #[trigger]
            json::value_of(ron_to_json::rekeyed(entries, object, built, from), key) == (if is_key(
                entries,
                key,
                entries.len(),
            ) {
                json::value_of(object, key)
            } else {
                None
            }),
    decreases entries, entries.len() - from,
{
    if from < entries.len() {
        let entry = entries[from as int];
        assert(entry_canonical(entry, object));
        let next = match entry.key {
            Some(key) => match json::value_of(object, pointer::key_text(key)) {
                Some(value) => if ron_to_json::first_of_its_key(entries, from as int) {
                    match entry.value {
                        Some(source) => {
                            assert(decreases_to!(entries => entry));
                            values_stay(source, value);
                        },
                        None => {},
                    }
                    lemma_stored_ascend(built, pointer::key_text(key), value);
                    json::with_entry(built, pointer::key_text(key), value)
                } else {
                    built
                },
                None => built,
            },
            None => built,
        };
        assert forall|key: Seq<char>| #[trigger]
            json::value_of(next, key) == (if is_key(entries, key, from + 1) {
                json::value_of(object, key)
            } else {
                None
            }) by {
            assert(json::value_of(built, key) == (if is_key(entries, key, from) {
                json::value_of(object, key)
            } else {
                None
            }));
            if is_key(entries, key, from) {
                let j = choose|j: int|
                    0 <= j < from && j < entries.len() && (#[trigger] entries[j].key matches Some(k)
                        && pointer::key_text(k) == key);
                assert(is_key(entries, key, from + 1)) by {
                    assert(entries[j].key is Some);
                }
            }
            match entry.key {
                Some(k) => {
                    let own = pointer::key_text(k);
                    if own == key {
                        assert(entries[from as int].key matches Some(k) && pointer::key_text(k)
                            == key);
                        assert(is_key(entries, key, from + 1));
                    }
                    match json::value_of(object, own) {
                        Some(value) => {
                            if ron_to_json::first_of_its_key(entries, from as int) {
                                lemma_stored(built, own, value, key);
                            } else {
                                let j = choose|j: int|
                                    0 <= j < from && !(#[trigger] entries[j].key matches Some(key)
                                        ==> pointer::key_text(key) != own);
                                assert(entries[j].key matches Some(k) && pointer::key_text(k)
                                    == own);
                                assert(is_key(entries, own, from));
                            }
                        },
                        None => {},
                    }
                },
                None => {},
            }
            if is_key(entries, key, from + 1) && !is_key(entries, key, from) {
                let j = choose|j: int|
                    0 <= j < from + 1 && j < entries.len() && (#[trigger] entries[j].key matches Some(
                        k,
                    ) && pointer::key_text(k) == key);
                if j < from {
                    assert(entries[j].key is Some);
                    assert(is_key(entries, key, from));
                }
                assert(j == from);
            }
        }
        lemma_entries_stay(entries, object, next, from + 1);
    }
}

/// A document that is written canonically has its final keys already, as the parser maps
/// it.
pub proof fn values_stay(source: RonValue, value: JsonModel)
    requires
        written_canonically(source, value),
    ensures
        ron_to_json::with_final_keys(value, source) == value,
    decreases source, 0nat,
{
    match (source.shape, value) {
        (Shape::Dictionary { entries }, JsonModel::Object(object)) => {
            let none = Seq::<(Seq<char>, JsonModel)>::empty();
            lemma_entries_stay(entries@, object, none, 0);
            let all = ron_to_json::rekeyed(entries@, object, none, 0);
            assert forall|key: Seq<char>| #[trigger]
                json::value_of(all, key) == json::value_of(object, key) by {
                lemma_not_found(object, key, 0);
                if let Some(i) = json::key_position(object, key, 0) {
                    assert(is_key(entries@, object[i as int].0, entries@.len()));
                }
            }
            lemma_same_object(all, object);
        },
        (Shape::Struct { name, fields }, JsonModel::Object(object)) => {
            if ron_to_json::tags_fields(name, fields@, object) {
                if let JsonModel::Object(inner) = object[0].1 {
                    lemma_struct_stays(fields@, inner);
                    assert(object =~= seq![(object[0].0, object[0].1)]);
                }
            } else {
                lemma_struct_stays(fields@, object);
            }
        },
        (Shape::List { items }, JsonModel::Array(array)) => {
            lemma_items_stay(items@, array);
        },
        (Shape::Tuple { name, items }, _) => {
            if syntax::named(name, "Some"@) {
                if items@.len() > 0 {
                    values_stay(items@[0], value);
                }
            } else if let JsonModel::Array(array) = value {
                lemma_items_stay(items@, array);
            } else if let JsonModel::Object(object) = value {
                if name is Some && object.len() == 1 {
                    lemma_payload_stays(items@, object[0].1);
                    assert(object =~= seq![(object[0].0, object[0].1)]);
                }
            }
        },
        (Shape::EnumVariant { name, items, .. }, _) => {
            if pointer::is_some_of(name, items@) {
                values_stay(items@[0], value);
            } else if let JsonModel::Object(object) = value {
                if object.len() == 1 {
                    lemma_payload_stays(items@, object[0].1);
                    assert(object =~= seq![(object[0].0, object[0].1)]);
                }
            }
        },
        _ => {},
    }
}

proof fn lemma_payload_stays(items: Seq<RonValue>, payload: JsonModel)
    requires
        payload_canonical(items, payload),
    ensures
        ron_to_json::payload_with_final_keys(payload, items) == payload,
    decreases items, 1nat,
{
    if items.len() == 1 {
        values_stay(items[0], payload);
    } else if let JsonModel::Array(array) = payload {
        lemma_items_stay(items, array);
    }
}

proof fn lemma_struct_stays(fields: Seq<StructField>, object: Seq<(Seq<char>, JsonModel)>)
    requires
        fields_canonical(fields, object),
    ensures
        ron_to_json::fields_with_final_keys(object, fields) == object,
    decreases fields, fields.len() + 1,
{
    assert forall|i: int| 0 <= i < object.len() implies ron_to_json::fields_with_final_keys(
        object,
        fields,
    )[i] == #[trigger] object[i] by {
        lemma_fields_stay(fields, object, i, 0);
    }
    assert(ron_to_json::fields_with_final_keys(object, fields) =~= object);
}

proof fn lemma_items_stay(items: Seq<RonValue>, array: Seq<JsonModel>)
    requires
        items_canonical(items, array),
    ensures
        ron_to_json::items_with_final_keys(array, items) == array,
    decreases items, 0nat,
{
    assert forall|i: int| 0 <= i < array.len() implies ron_to_json::items_with_final_keys(
        array,
        items,
    )[i] == #[trigger] array[i] by {
        if i < items.len() {
            values_stay(items[i], array[i]);
        }
    }
    assert(ron_to_json::items_with_final_keys(array, items) =~= array);
}

/// Whether the property names of a map's entries are all there and tell them apart,
/// before and after the conventions.
pub open spec fn keys_tell_apart(
    entries: Seq<MapEntry>,
    object: Seq<(Seq<char>, JsonModel)>,
) -> bool {
    &&& forall|i: int|
        0 <= i < entries.len() ==> (#[trigger] entries[i].key is Some) && json::value_of(
            object,
            pointer::key_text(entries[i].key->0),
        ) is Some
    &&& forall|i: int, j: int|
        0 <= i < j < entries.len() ==> pointer::key_text(#[trigger] entries[i].key->0)
            != pointer::key_text(#[trigger] entries[j].key->0)
    &&& forall|i: int, j: int|
        0 <= i < j < entries.len() ==> ron_to_json::final_key(#[trigger] entries[i].key->0)
            != ron_to_json::final_key(#[trigger] entries[j].key->0)
}

/// The JSON value of entry `i` of a map, with the conventions applied.
pub open spec fn entry_value(
    entries: Seq<MapEntry>,
    object: Seq<(Seq<char>, JsonModel)>,
    i: int,
) -> JsonModel {
    let value = json::value_of(object, pointer::key_text(entries[i].key->0))->0;
    match entries[i].value {
        Some(source) => ron_to_json::with_final_keys(value, source),
        None => value,
    }
}

pub proof fn lemma_rekeyed(
    entries: Seq<MapEntry>,
    object: Seq<(Seq<char>, JsonModel)>,
    built: Seq<(Seq<char>, JsonModel)>,
    from: nat,
)
    requires
        keys_tell_apart(entries, object),
        from <= entries.len(),
        forall|i: int|
            0 <= i < from ==> json::value_of(
                built,
                ron_to_json::final_key(#[trigger] entries[i].key->0),
            ) == Some(entry_value(entries, object, i)),
    ensures
        forall|i: int|
            0 <= i < entries.len() ==> json::value_of(
                ron_to_json::rekeyed(entries, object, built, from),
                ron_to_json::final_key(#[trigger] entries[i].key->0),
            ) == Some(entry_value(entries, object, i)),
    decreases entries, entries.len() - from,
{
    if from < entries.len() {
        let key = entries[from as int].key->0;
        assert(entries[from as int].key is Some);
        assert forall|j: int| 0 <= j < from implies (#[trigger] entries[j].key matches Some(
            k,
        ) ==> pointer::key_text(k) != pointer::key_text(key)) by {
            assert(pointer::key_text(entries[j].key->0) != pointer::key_text(
                entries[from as int].key->0,
            ));
        }
        let value = entry_value(entries, object, from as int);
        let next = json::with_entry(built, ron_to_json::final_key(key), value);
        assert forall|i: int| 0 <= i < from + 1 implies json::value_of(
            next,
            ron_to_json::final_key(#[trigger] entries[i].key->0),
        ) == Some(entry_value(entries, object, i)) by {
            lemma_stored(
                built,
                ron_to_json::final_key(key),
                value,
                ron_to_json::final_key(entries[i].key->0),
            );
            if i < from {
                assert(ron_to_json::final_key(entries[i].key->0) != ron_to_json::final_key(
                    entries[from as int].key->0,
                ));
            }
        }
        lemma_rekeyed(entries, object, next, from + 1);
    }
}

/// Every value of a map is found under its final key: a string key as it is, any other
/// key as its canonical literal.
pub proof fn values_are_under_their_final_keys(
    source: RonValue,
    entries: Seq<MapEntry>,
    object: Seq<(Seq<char>, JsonModel)>,
    i: int,
)
    requires
        source.shape matches Shape::Dictionary { entries: list } && list@ == entries,
        keys_tell_apart(entries, object),
        0 <= i < entries.len(),
    ensures
        ron_to_json::with_final_keys(JsonModel::Object(object), source) matches JsonModel::Object(
            after,
        ) && json::value_of(after, ron_to_json::final_key(entries[i].key->0)) == Some(
            entry_value(entries, object, i),
        ),
{
    lemma_rekeyed(entries, object, Seq::empty(), 0);
}

/// Whether a source value stands for `t`, and `value` is what the parser's mapping gives
/// for it: map keys as they are written, every variant tagged externally, and a struct
/// as the object of its fields. A struct variant, which is written like a named struct,
/// is mapped like one or tagged like the other variants.
pub open spec fn maps_to(source: RonValue, value: JsonModel, t: Tree) -> bool
    decreases t, 1nat,
{
    match t {
        Tree::Nothing => value is Null && (source.shape matches Shape::EnumVariant {
            name,
            items,
            entries,
        } && pointer::is_bare_none(name, items@, entries@)),
        Tree::Unit => value is Null && source.shape is Unit,
        Tree::Boolean(b) => value == JsonModel::Bool(b) && source.shape is Literal,
        Tree::Number(n) => value == JsonModel::Number(n) && source.shape is Literal,
        Tree::Text(s) => value == JsonModel::Str(s) && source.shape is Literal,
        Tree::Character(c) => value == JsonModel::Str(seq![c]) && source.shape is Literal,
        Tree::Present(x) => match source.shape {
            Shape::Tuple { name, items } => syntax::named(name, "Some"@) && items@.len() > 0
                && maps_to(items@[0], value, *x),
            Shape::EnumVariant { name, items, .. } => pointer::is_some_of(name, items@) && maps_to(
                items@[0],
                value,
                *x,
            ),
            _ => false,
        },
        Tree::List(ts) => match (source.shape, value) {
            (Shape::List { items }, JsonModel::Array(array)) => items_map_to(items@, array, ts),
            _ => false,
        },
        Tree::Tuple(ts) => match (source.shape, value) {
            (Shape::Tuple { name, items }, JsonModel::Array(array)) => name is None && items_map_to(
                items@,
                array,
                ts,
            ),
            _ => false,
        },
        Tree::Record(ts) => match (source.shape, value) {
            (Shape::Struct { name, fields }, JsonModel::Object(object)) => !ron_to_json::tags_fields(
                name,
                fields@,
                object,
            ) && fields_map_to(fields@, object, ts),
            (Shape::Dictionary { entries }, JsonModel::Object(object)) => entries_map_to(
                entries@,
                object,
                ts,
            ),
            _ => false,
        },
        Tree::Keyed(ts) => match (source.shape, value) {
            (Shape::Dictionary { entries }, JsonModel::Object(object)) => entries_map_to(
                entries@,
                object,
                ts,
            ),
            _ => false,
        },
        Tree::Variant(variant, payload) => match (source.shape, value) {
            (Shape::Tuple { name, items }, JsonModel::Object(object)) => syntax::named(name, variant)
                && variant != "Some"@ && object.len() == 1 && object[0].0 == variant
                && payload_maps_to(items@, object[0].1, payload),
            (Shape::EnumVariant { name, items, entries }, JsonModel::Object(object)) => syntax::named(
                name,
                variant,
            ) && !pointer::is_bare_none(name, items@, entries@) && !pointer::is_some_of(name, items@)
                && entries@.len() == 0 && object.len() == 1 && object[0].0 == variant
                && payload_maps_to(items@, object[0].1, payload),
            (Shape::Struct { name, fields }, JsonModel::Object(object)) => syntax::named(name, variant)
                && (payload matches Payload::Fields(ts) && if ron_to_json::tags_fields(
                name,
                fields@,
                object,
            ) {
                object[0].1 matches JsonModel::Object(inner) && fields_map_to(fields@, inner, ts)
            } else {
                fields_map_to(fields@, object, ts)
            }),
            _ => false,
        },
    }
}

/// Whether the positional payload of a variant is mapped to what the variant holds.
pub open spec fn payload_maps_to(items: Seq<RonValue>, value: JsonModel, payload: Payload) -> bool
    decreases payload, 1nat,
{
    match payload {
        Payload::Empty => items.len() == 0 && value is Null,
        Payload::One(x) => items.len() == 1 && maps_to(items[0], value, *x),
        Payload::Many(ts) => items.len() != 1 && (value matches JsonModel::Array(array)
            && items_map_to(items, array, ts)),
        Payload::Fields(_) => false,
    }
}

/// Whether items are mapped to a list, one by one.
pub open spec fn items_map_to(items: Seq<RonValue>, array: Seq<JsonModel>, ts: Seq<Tree>) -> bool
    decreases ts, 0nat,
{
    items.len() == ts.len() && array.len() == ts.len() && forall|i: int|
        0 <= i < ts.len() ==> maps_to(items[i], array[i], #[trigger] ts[i])
}

/// Whether fields are mapped to the properties of an object, each to the one of its name.
/// The values are listed by their names.
pub open spec fn fields_map_to(
    fields: Seq<StructField>,
    object: Seq<(Seq<char>, JsonModel)>,
    ts: Seq<(Seq<char>, Tree)>,
) -> bool
    decreases ts, 0nat,
{
    &&& object.len() == ts.len()
    &&& forall|k: int, l: int|
        0 <= k < l < fields.len() ==> (#[trigger] fields[k].name is Some ==> !syntax::named(
            #[trigger] fields[l].name,
            fields[k].name->0@,
        ))
    &&& forall|i: int, j: int|
        0 <= i < j < ts.len() ==> text_map::precedes((#[trigger] ts[i]).0, (#[trigger] ts[j]).0)
    &&& forall|k: int|
        0 <= k < fields.len() && (#[trigger] fields[k]).name is Some ==> name_listed(
            fields[k].name->0@,
            ts,
        )
    &&& forall|i: int|
        0 <= i < ts.len() ==> object[i].0 == (#[trigger] ts[i]).0 && exists|k: int|
            0 <= k < fields.len() && field_maps_to(#[trigger] fields[k], object[i], ts[i].1)
}

/// Whether a name is listed.
pub open spec fn name_listed(name: Seq<char>, ts: Seq<(Seq<char>, Tree)>) -> bool {
    exists|i: int| 0 <= i < ts.len() && (#[trigger] ts[i]).0 == name
}

/// Whether a field is mapped to a property.
pub open spec fn field_maps_to(field: StructField, property: (Seq<char>, JsonModel), t: Tree) -> bool
    decreases t, 2nat,
{
    syntax::named(field.name, property.0) && (field.value matches Some(source) && maps_to(
        source,
        property.1,
        t,
    ))
}

/// Whether the entries of a map are mapped to the properties of an object. The values are
/// listed by their final keys.
pub open spec fn entries_map_to(
    entries: Seq<MapEntry>,
    object: Seq<(Seq<char>, JsonModel)>,
    ts: Seq<(Seq<char>, Tree)>,
) -> bool
    decreases ts, 0nat,
{
    &&& keys_tell_apart(entries, object)
    &&& forall|i: int, j: int|
        0 <= i < j < ts.len() ==> text_map::precedes((#[trigger] ts[i]).0, (#[trigger] ts[j]).0)
    &&& forall|k: int|
        0 <= k < entries.len() ==> is_listed(#[trigger] entries[k], ts)
    &&& forall|j: int|
        0 <= j < ts.len() ==> exists|k: int|
            0 <= k < entries.len() && entry_maps_to(#[trigger] entries[k], object, ts[j].0, (
            #[trigger] ts[j]).1)
}

/// Whether the final key of a map entry is listed.
pub open spec fn is_listed(entry: MapEntry, ts: Seq<(Seq<char>, Tree)>) -> bool {
    exists|j: int|
        0 <= j < ts.len() && (#[trigger] ts[j]).0 == ron_to_json::final_key(entry.key->0)
}

/// Whether a map entry is mapped to a property.
pub open spec fn entry_maps_to(
    entry: MapEntry,
    object: Seq<(Seq<char>, JsonModel)>,
    key: Seq<char>,
    t: Tree,
) -> bool
    decreases t, 2nat,
{
    match (entry.key, entry.value) {
        (Some(k), Some(source)) => ron_to_json::final_key(k) == key && (json::value_of(
            object,
            pointer::key_text(k),
        ) matches Some(v) && maps_to(source, v, t)),
        _ => false,
    }
}

/// Every key of a rewritten map is the final key of one of its entries.
proof fn lemma_final_keys(
    entries: Seq<MapEntry>,
    object: Seq<(Seq<char>, JsonModel)>,
    built: Seq<(Seq<char>, JsonModel)>,
    from: nat,
)
    requires
        json::keys_ascend(built),
        forall|key: Seq<char>|
            (#[trigger] json::value_of(built, key)) is Some ==> exists|k: int|
                0 <= k < entries.len() && #[trigger] entries[k].key is Some
                    && ron_to_json::final_key(entries[k].key->0) == key,
    ensures
        json::keys_ascend(ron_to_json::rekeyed(entries, object, built, from)),
        forall|key: Seq<char>|
            (#[trigger] json::value_of(ron_to_json::rekeyed(entries, object, built, from), key))
                is Some ==> exists|k: int|
                0 <= k < entries.len() && #[trigger] entries[k].key is Some
                    && ron_to_json::final_key(entries[k].key->0) == key,
    decreases entries.len() - from,
{
    if from < entries.len() {
        let entry = entries[from as int];
        let next = match entry.key {
            Some(key) => match json::value_of(object, pointer::key_text(key)) {
                Some(value) => if ron_to_json::first_of_its_key(entries, from as int) {
                    let own = ron_to_json::final_key(key);
                    let child = match entry.value {
                        Some(source) => ron_to_json::with_final_keys(value, source),
                        None => value,
                    };
                    lemma_stored_ascend(built, own, child);
                    assert forall|other: Seq<char>|
                        (#[trigger] json::value_of(json::with_entry(built, own, child), other))
                            is Some implies exists|k: int|
                        0 <= k < entries.len() && #[trigger] entries[k].key is Some
                            && ron_to_json::final_key(entries[k].key->0) == other by {
                        lemma_stored(built, own, child, other);
                        if other == own {
                            assert(entries[from as int].key is Some);
                        } else {
                            assert(json::value_of(built, other) is Some);
                        }
                    }
                    json::with_entry(built, own, child)
                } else {
                    built
                },
                None => built,
            },
            None => built,
        };
        lemma_final_keys(entries, object, next, from + 1);
    }
}

/// Whether `keyed` is the value of a source under its final keys, and the source stands
/// for `t`.
pub open spec fn keyed_from(source: Option<RonValue>, keyed: JsonModel, t: Tree) -> bool {
    source matches Some(s) && exists|value: JsonModel|
        keyed == #[trigger] ron_to_json::with_final_keys(value, s) && maps_to(s, value, t)
}

/// Whether properties are the values of the parts of a source, which stand for the values
/// in `ts`, under their final keys.
pub open spec fn all_keyed(
    source: RonValue,
    keyed: Seq<(Seq<char>, JsonModel)>,
    ts: Seq<(Seq<char>, Tree)>,
) -> bool {
    keyed.len() == ts.len() && forall|i: int|
        0 <= i < ts.len() ==> keyed[i].0 == (#[trigger] ts[i]).0 && keyed_from(
            tagging::entry_source(Some(source), ts[i].0),
            keyed[i].1,
            ts[i].1,
        )
}

/// Only the field `k` has its name.
pub proof fn lemma_one_field(
    fields: Seq<StructField>,
    value: JsonModel,
    key: Seq<char>,
    k: int,
    from: nat,
)
    requires
        0 <= k < fields.len(),
        syntax::named(fields[k].name, key),
        fields[k].value is Some,
        forall|l: int|
            0 <= l < fields.len() && l != k ==> !syntax::named(#[trigger] fields[l].name, key),
    ensures
        from <= k ==> ron_to_json::field_with_final_keys(value, key, fields, from)
            == ron_to_json::with_final_keys(value, fields[k].value->0),
        from > k ==> ron_to_json::field_with_final_keys(value, key, fields, from) == value,
    decreases fields.len() - from,
{
    if from < fields.len() {
        if from == k {
            lemma_one_field(
                fields,
                ron_to_json::with_final_keys(value, fields[k].value->0),
                key,
                k,
                from + 1,
            );
        } else {
            assert(!syntax::named(fields[from as int].name, key));
            lemma_one_field(fields, value, key, k, from + 1);
        }
    }
}

pub proof fn lemma_field_source(fields: Seq<StructField>, key: Seq<char>, k: int, from: nat)
    requires
        from <= k < fields.len(),
        syntax::named(fields[k].name, key),
        forall|l: int|
            0 <= l < fields.len() && l != k ==> !syntax::named(#[trigger] fields[l].name, key),
    ensures
        tagging::field_source(fields, key, from) == fields[k].value,
    decreases k - from,
{
    if from < k {
        assert(!syntax::named(fields[from as int].name, key));
        lemma_field_source(fields, key, k, from + 1);
    }
}

pub proof fn lemma_map_source(entries: Seq<MapEntry>, key: Seq<char>, k: int, from: nat)
    requires
        from <= k < entries.len(),
        entries[k].key matches Some(own) && ron_to_json::final_key(own) == key,
        forall|l: int|
            0 <= l < k ==> (#[trigger] entries[l].key matches Some(own) ==> ron_to_json::final_key(
                own,
            ) != key),
    ensures
        tagging::map_source(entries, key, from) == entries[k].value,
    decreases k - from,
{
    if from < k {
        assert(entries[from as int].key matches Some(own) ==> ron_to_json::final_key(own) != key);
        lemma_map_source(entries, key, k, from + 1);
    }
}

pub proof fn lemma_fields_keyed(
    source: RonValue,
    fields: Seq<StructField>,
    object: Seq<(Seq<char>, JsonModel)>,
    ts: Seq<(Seq<char>, Tree)>,
)
    requires
        source.shape matches Shape::Struct { fields: list, .. } && list@ == fields,
        fields_map_to(fields, object, ts),
    ensures
        all_keyed(source, ron_to_json::fields_with_final_keys(object, fields), ts),
{
    let after = ron_to_json::fields_with_final_keys(object, fields);
    assert forall|i: int| 0 <= i < ts.len() implies after[i].0 == (#[trigger] ts[i]).0
        && keyed_from(tagging::entry_source(Some(source), ts[i].0), after[i].1, ts[i].1) by {
        assert(object[i].0 == ts[i].0);
        let k = choose|k: int|
            0 <= k < fields.len() && field_maps_to(#[trigger] fields[k], object[i], ts[i].1);
        assert forall|l: int| 0 <= l < fields.len() && l != k implies !syntax::named(
            #[trigger] fields[l].name,
            object[i].0,
        ) by {
            assert(fields[k].name is Some);
            if l < k {
                assert(fields[l].name is Some ==> !syntax::named(
                    fields[k].name,
                    fields[l].name->0@,
                ));
            }
        }
        lemma_one_field(fields, object[i].1, object[i].0, k, 0);
        lemma_field_source(fields, object[i].0, k, 0);
        assert(after[i].1 == ron_to_json::with_final_keys(object[i].1, fields[k].value->0));
    }
}

pub proof fn lemma_entries_keyed(
    source: RonValue,
    entries: Seq<MapEntry>,
    object: Seq<(Seq<char>, JsonModel)>,
    ts: Seq<(Seq<char>, Tree)>,
)
    requires
        source.shape matches Shape::Dictionary { entries: list } && list@ == entries,
        entries_map_to(entries, object, ts),
    ensures
        all_keyed(source, ron_to_json::rekeyed(entries, object, Seq::empty(), 0), ts),
{
    let none = Seq::<(Seq<char>, JsonModel)>::empty();
    let after = ron_to_json::rekeyed(entries, object, none, 0);
    let wanted = Seq::new(
        ts.len(),
        |j: int| (ts[j].0, json::value_of(after, ts[j].0)->0),
    );
    lemma_rekeyed(entries, object, none, 0);
    lemma_final_keys(entries, object, none, 0);
    assert forall|i: int, j: int| 0 <= i < j < wanted.len() implies text_map::precedes(
        (#[trigger] wanted[i]).0,
        (#[trigger] wanted[j]).0,
    ) by {
        assert(wanted[i].0 == ts[i].0 && wanted[j].0 == ts[j].0);
    }
    assert(json::keys_ascend(wanted));
    assert forall|j: int| 0 <= j < ts.len() implies json::value_of(after, (#[trigger] ts[j]).0)
        == Some(wanted[j].1) && json::value_of(wanted, ts[j].0) == Some(wanted[j].1) && keyed_from(
        tagging::entry_source(Some(source), ts[j].0),
        wanted[j].1,
        ts[j].1,
    ) by {
        let k = choose|k: int|
            0 <= k < entries.len() && entry_maps_to(#[trigger] entries[k], object, ts[j].0, ts[j].1);
        assert(entry_maps_to(entries[k], object, ts[j].0, ts[j].1));
        assert(entries[k].key is Some);
        assert forall|l: int| 0 <= l < k implies (#[trigger] entries[l].key matches Some(own)
            ==> ron_to_json::final_key(own) != ts[j].0) by {
            assert(ron_to_json::final_key(entries[l].key->0) != ron_to_json::final_key(
                entries[k].key->0,
            ));
        }
        lemma_map_source(entries, ts[j].0, k, 0);
        let own = entries[k].value->0;
        let value = json::value_of(object, pointer::key_text(entries[k].key->0))->0;
        assert(entry_value(entries, object, k) == ron_to_json::with_final_keys(value, own));
        lemma_value_of_entry(wanted, j);
    }
    assert forall|key: Seq<char>| #[trigger] json::value_of(after, key) == json::value_of(
        wanted,
        key,
    ) by {
        lemma_not_found(wanted, key, 0);
        match json::key_position(wanted, key, 0) {
            Some(j) => {
                assert(ts[j as int].0 == key);
            },
            None => {
                if json::value_of(after, key) is Some {
                    let k = choose|k: int|
                        0 <= k < entries.len() && #[trigger] entries[k].key is Some
                            && ron_to_json::final_key(entries[k].key->0) == key;
                    assert(is_listed(entries[k], ts));
                    let j = choose|j: int|
                        0 <= j < ts.len() && (#[trigger] ts[j]).0 == ron_to_json::final_key(
                            entries[k].key->0,
                        );
                    assert(wanted[j].0 == key);
                }
            },
        }
    }
    lemma_same_object(after, wanted);
}

/// The value of a record or a map under its final keys.
proof fn lemma_record_keyed(
    source: RonValue,
    value: JsonModel,
    t: Tree,
) -> (keyed: Seq<(Seq<char>, JsonModel)>)
    requires
        maps_to(source, value, t),
        t is Record || t is Keyed,
    ensures
        ron_to_json::with_final_keys(value, source) == JsonModel::Object(keyed),
        all_keyed(
            source,
            keyed,
            match t {
                Tree::Record(ts) => ts,
                Tree::Keyed(ts) => ts,
                _ => Seq::empty(),
            },
        ),
{
    let ts = match t {
        Tree::Record(ts) => ts,
        Tree::Keyed(ts) => ts,
        _ => Seq::empty(),
    };
    match (source.shape, value) {
        (Shape::Struct { fields, .. }, JsonModel::Object(object)) => {
            lemma_fields_keyed(source, fields@, object, ts);
            ron_to_json::fields_with_final_keys(object, fields@)
        },
        (Shape::Dictionary { entries }, JsonModel::Object(object)) => {
            lemma_entries_keyed(source, entries@, object, ts);
            ron_to_json::rekeyed(entries@, object, Seq::empty(), 0)
        },
        _ => Seq::empty(),
    }
}

/// Without a type, what the parser maps a source value to is, under its final keys, the
/// JSON of the value it stands for.
proof fn lemma_untyped(
    model: Option<TypeModel>,
    t: Tree,
    node: Option<TypeNode>,
    depth: nat,
    source: RonValue,
    value: JsonModel,
)
    requires
        comes_back_untyped(model, t, depth),
        node matches Some(n) ==> n.kind is Unknown,
        maps_to(source, value, t),
    ensures
        ron_to_json::with_final_keys(value, source) == json_of(model, t, node),
    decreases t, 0nat,
{
    let none: Option<TypeNode> = None;
    match t {
        Tree::List(ts) => {
            if let (Shape::List { items }, JsonModel::Array(array)) = (source.shape, value) {
                assert(items_map_to(items@, array, ts));
                let after = ron_to_json::items_with_final_keys(array, items@);
                let wanted = json_items(model, ts, ItemTypes::Same(None));
                assert forall|i: int| 0 <= i < ts.len() implies (#[trigger] after[i])
                    == wanted[i] by {
                    assert(comes_back(
                        model,
                        ts[i],
                        json_to_ron::item_type(model, ItemTypes::Same(None), i as nat),
                        depth + 1,
                    ));
                    lemma_untyped(model, ts[i], none, depth + 1, items@[i], array[i]);
                }
                assert(after =~= wanted);
            }
        },
        Tree::Record(ts) => {
            let keyed = lemma_record_keyed(source, value, t);
            let wanted = json_entries(model, ts, EntryTypes::Same(None));
            assert forall|i: int| 0 <= i < ts.len() implies (#[trigger] keyed[i]) == wanted[i] by {
                assert(comes_back(
                    model,
                    ts[i].1,
                    json_to_ron::entry_type(model, EntryTypes::Same(None), ts[i].0),
                    depth + 1,
                ));
                assert(decreases_to!(ts => ts[i]));
                let own = tagging::entry_source(Some(source), ts[i].0)->0;
                let held = choose|held: JsonModel|
                    keyed[i].1 == #[trigger] ron_to_json::with_final_keys(held, own) && maps_to(
                        own,
                        held,
                        ts[i].1,
                    );
                lemma_untyped(model, ts[i].1, none, depth + 1, own, held);
            }
            assert(keyed =~= wanted);
        },
        Tree::Variant(name, payload) => {
            let variant: Option<Variant> = None;
            assert(json_to_ron::declared(node, name) == variant);
            if let JsonModel::Object(object) = value {
                let items = tagging::source_items(Some(source));
                let held = object[0].1;
                assert(payload_maps_to(items, held, payload));
                if let Payload::One(inner) = payload {
                    lemma_untyped(model, *inner, none, depth + 1, items[0], held);
                }
                assert(ron_to_json::payload_with_final_keys(held, items) == json_payload(
                    model,
                    payload,
                    variant,
                ));
            }
        },
        _ => {},
    }
}

proof fn lemma_null_tags(
    model: Option<TypeModel>,
    source: Option<RonValue>,
    node: Option<TypeNode>,
    depth: nat,
)
    ensures
        tagging::typed_tags(model, JsonModel::Null, source, node, depth) == JsonModel::Null,
    decreases MAX_JSON_DEPTH + 1 - depth,
{
    if depth < MAX_JSON_DEPTH {
        if let Some(n) = node {
            if let NodeKind::Optional { inner } = n.kind {
                lemma_null_tags(
                    model,
                    tagging::option_source(source),
                    json_to_ron::target(model, inner),
                    depth + 1,
                );
            }
            if let NodeKind::Enum { discriminator, .. } = n.kind {
                let none = JsonModel::Null;
                assert(tagging::variant_tags(model, none, source, n, discriminator, depth) == none);
            }
        }
    }
}

/// Tagging what the parser maps a source value to, under its final keys, by the type of
/// the value gives the JSON of the value.
proof fn lemma_tags(
    model: Option<TypeModel>,
    t: Tree,
    node: Option<TypeNode>,
    depth: nat,
    source: RonValue,
    value: JsonModel,
)
    requires
        comes_back(model, t, node, depth),
        maps_to(source, value, t),
    ensures
        tagging::typed_tags(
            model,
            ron_to_json::with_final_keys(value, source),
            Some(source),
            node,
            depth,
        ) == json_of(model, t, node),
    decreases t, 1nat,
{
    match node {
        None => {
            lemma_untyped(model, t, node, depth, source, value);
        },
        Some(n) => match n.kind {
            NodeKind::Unknown => {
                lemma_untyped(model, t, node, depth, source, value);
            },
            NodeKind::Optional { inner } => {
                let held = tagging::option_source(Some(source));
                let of = json_to_ron::target(model, inner);
                if let Tree::Present(x) = t {
                    let items = tagging::source_items(Some(source));
                    lemma_tags(model, *x, of, depth + 1, items[0], value);
                } else {
                    lemma_null_tags(model, held, of, depth + 1);
                }
            },
            NodeKind::Primitive { .. } => {},
            NodeKind::Sequence { .. } | NodeKind::Tuple { .. } => {
                if let JsonModel::Array(array) = value {
                    let items = tagging::source_items(Some(source));
                    let types = json_to_ron::item_types(model, node);
                    match t {
                        Tree::List(ts) => {
                            lemma_item_tags(model, ts, types, depth, source, items, array);
                        },
                        Tree::Tuple(ts) => {
                            lemma_item_tags(model, ts, types, depth, source, items, array);
                        },
                        _ => {},
                    }
                }
            },
            NodeKind::Object { .. } | NodeKind::Dictionary { .. } => {
                let keyed = lemma_record_keyed(source, value, t);
                let types = json_to_ron::entry_types(model, node);
                match t {
                    Tree::Record(ts) => {
                        lemma_entry_tags(model, ts, types, depth, source, keyed);
                    },
                    Tree::Keyed(ts) => {
                        lemma_entry_tags(model, ts, types, depth, source, keyed);
                    },
                    _ => {},
                }
            },
            NodeKind::Enum { .. } => {
                if let Tree::Variant(name, payload) = t {
                    lemma_variant_tags(model, name, payload, n, depth, source, value);
                }
            },
        },
    }
}

proof fn lemma_item_tags(
    model: Option<TypeModel>,
    ts: Seq<Tree>,
    types: ItemTypes,
    depth: nat,
    source: RonValue,
    items: Seq<RonValue>,
    array: Seq<JsonModel>,
)
    requires
        depth < MAX_JSON_DEPTH,
        items_come_back(model, ts, types, depth),
        items_map_to(items, array, ts),
        tagging::source_items(Some(source)) == items,
    ensures
        tagging::item_tags(
            model,
            ron_to_json::items_with_final_keys(array, items),
            Some(source),
            types,
            depth,
        ) == json_items(model, ts, types),
    decreases ts, 0nat,
{
    let keyed = ron_to_json::items_with_final_keys(array, items);
    let after = tagging::item_tags(model, keyed, Some(source), types, depth);
    assert forall|i: int| 0 <= i < ts.len() implies (#[trigger] after[i]) == json_items(
        model,
        ts,
        types,
    )[i] by {
        let node = json_to_ron::item_type(model, types, i as nat);
        assert(comes_back(model, ts[i], node, depth + 1));
        lemma_tags(model, ts[i], node, depth + 1, items[i], array[i]);
        assert(keyed[i] == ron_to_json::with_final_keys(array[i], items[i]));
        assert(tagging::item_source(Some(source), i as nat) == Some(items[i]));
    }
    assert(after =~= json_items(model, ts, types));
}

pub proof fn lemma_entry_tags(
    model: Option<TypeModel>,
    ts: Seq<(Seq<char>, Tree)>,
    types: EntryTypes,
    depth: nat,
    source: RonValue,
    keyed: Seq<(Seq<char>, JsonModel)>,
)
    requires
        depth < MAX_JSON_DEPTH,
        entries_come_back(model, ts, types, depth),
        all_keyed(source, keyed, ts),
    ensures
        tagging::entry_tags(model, keyed, Some(source), types, depth) == json_entries(
            model,
            ts,
            types,
        ),
    decreases ts, 0nat,
{
    let after = tagging::entry_tags(model, keyed, Some(source), types, depth);
    assert forall|i: int| 0 <= i < ts.len() implies (#[trigger] after[i]) == json_entries(
        model,
        ts,
        types,
    )[i] by {
        let node = json_to_ron::entry_type(model, types, ts[i].0);
        assert(comes_back(model, ts[i].1, node, depth + 1));
        assert(decreases_to!(ts => ts[i]));
        let own = tagging::entry_source(Some(source), ts[i].0)->0;
        let held = choose|held: JsonModel|
            keyed[i].1 == #[trigger] ron_to_json::with_final_keys(held, own) && maps_to(
                own,
                held,
                ts[i].1,
            );
        lemma_tags(model, ts[i].1, node, depth + 1, own, held);
    }
    assert(after =~= json_entries(model, ts, types));
}

proof fn lemma_variant_tags(
    model: Option<TypeModel>,
    name: Seq<char>,
    payload: Payload,
    node: TypeNode,
    depth: nat,
    source: RonValue,
    value: JsonModel,
)
    requires
        depth < MAX_JSON_DEPTH,
        node.kind is Enum,
        payload_comes_back(model, payload, json_to_ron::declared(Some(node), name), depth),
        maps_to(source, value, Tree::Variant(name, payload)),
    ensures
        tagging::typed_tags(
            model,
            ron_to_json::with_final_keys(value, source),
            Some(source),
            Some(node),
            depth,
        ) == json_of(model, Tree::Variant(name, payload), Some(node)),
    decreases payload, 1nat,
{
    let variant = json_to_ron::declared(Some(node), name);
    let keyed = ron_to_json::with_final_keys(value, source);
    let form = tagging::variant_form(keyed, Some(source));
    let held = match (source.shape, value) {
        (Shape::Struct { name: own, fields }, JsonModel::Object(object)) => {
            let inner = if ron_to_json::tags_fields(own, fields@, object) {
                match object[0].1 {
                    JsonModel::Object(inner) => inner,
                    _ => Seq::empty(),
                }
            } else {
                object
            };
            let after = ron_to_json::fields_with_final_keys(inner, fields@);
            if let Payload::Fields(ts) = payload {
                lemma_fields_keyed(source, fields@, inner, ts);
                lemma_entry_tags(
                    model,
                    ts,
                    json_to_ron::field_types(variant),
                    depth,
                    source,
                    after,
                );
            }
            if !ron_to_json::tags_fields(own, fields@, object) {
                assert(after.len() == object.len());
                assert(object.len() == 1 ==> after[0].0 == object[0].0);
                assert(!ron_to_json::tags_fields(own, fields@, after));
            } else {
                assert(ron_to_json::tags_fields(
                    own,
                    fields@,
                    seq![(object[0].0, JsonModel::Object(after))],
                ));
            }
            JsonModel::Object(after)
        },
        (_, JsonModel::Object(object)) => {
            let items = tagging::source_items(Some(source));
            lemma_payload_tags(model, payload, variant, depth, source, items, object[0].1);
            ron_to_json::payload_with_final_keys(object[0].1, items)
        },
        _ => JsonModel::Null,
    };
    assert(form == JsonModel::Object(seq![(name, held)]));
    assert(tagging::payload_tags(model, held, Some(source), variant, depth) == json_payload(
        model,
        payload,
        variant,
    ));
    let d = node.kind->discriminator;
    assert(tagging::variant_tags(model, form, Some(source), node, d, depth)
        == ron_to_json::retagged(
        JsonModel::Object(seq![(name, json_payload(model, payload, variant))]),
        d,
    ));
}

pub proof fn lemma_payload_tags(
    model: Option<TypeModel>,
    payload: Payload,
    variant: Option<Variant>,
    depth: nat,
    source: RonValue,
    items: Seq<RonValue>,
    value: JsonModel,
)
    requires
        depth < MAX_JSON_DEPTH,
        payload_comes_back(model, payload, variant, depth),
        payload_maps_to(items, value, payload),
        tagging::source_items(Some(source)) == items,
    ensures
        tagging::payload_tags(
            model,
            ron_to_json::payload_with_final_keys(value, items),
            Some(source),
            variant,
            depth,
        ) == json_payload(model, payload, variant),
    decreases payload, 0nat,
{
    let v = variant->0;
    match (v.shape, payload) {
        (VariantShape::Newtype(inner), Payload::One(x)) => {
            lemma_tags(model, *x, json_to_ron::target(model, inner), depth + 1, items[0], value);
        },
        (VariantShape::Tuple(_), Payload::Many(ts)) => {
            if let JsonModel::Array(array) = value {
                let types = json_to_ron::element_types(variant);
                lemma_item_tags(model, ts, types, depth, source, items, array);
            }
        },
        _ => {},
    }
}

/// A document is converted to the JSON of the value it stands for: every map has its
/// final keys, and every variant, at whatever depth, is tagged as its type says.
pub proof fn documents_are_tagged(
    model: Option<TypeModel>,
    t: Tree,
    node: Option<TypeNode>,
    value: JsonModel,
    source: RonValue,
)
    requires
        comes_back(model, t, node, 0),
        maps_to(source, value, t),
    ensures
        ron_to_json::conventional(model, value, source, node) == json_of(model, t, node),
{
    lemma_tags(model, t, node, 0, source, value);
}

/// A document comes back from JSON: converting it and rebuilding RON from the result
/// gives a text that stands for the same value. `value` is what the parser maps the
/// source to. Without a type the law holds of what JSON tells apart by itself, and with
/// the type of the document of the rest; every variant, at whatever depth, is tagged as
/// its type says and recovered from the tag.
pub proof fn documents_come_back(
    model: Option<TypeModel>,
    t: Tree,
    node: Option<TypeNode>,
    value: JsonModel,
    source: RonValue,
)
    requires
        comes_back(model, t, node, 0),
        maps_to(source, value, t),
    ensures
        ({
            let json = ron_to_json::conventional(model, value, source, node);
            let text = json_to_ron::document_emission(json, model, node, Seq::empty()).text;
            text.len() > 0 && text.last() == '\n' && denotes(text.drop_last(), t)
        }),
{
    documents_are_tagged(model, t, node, value, source);
    values_come_back(model, t, node);
}

/// The way the variants of a type are tagged; externally without a type.
pub open spec fn tagging(node: Option<TypeNode>) -> Discriminator {
    match ron_to_json::enum_tagging(node) {
        Some(d) => d,
        None => Discriminator::External,
    }
}

/// The comments anchored to `place`, as they are written before its value.
pub open spec fn comment_block(comments: Seq<CommentModel>, place: Seq<char>) -> Seq<char> {
    json_to_ron::anchored(comments, place).text
}

/// How the keys of a record or a map are written.
pub open spec fn key_style(
    model: Option<TypeModel>,
    entries: Seq<(Seq<char>, Tree)>,
    node: Option<TypeNode>,
) -> KeyStyle {
    match node {
        Some(n) => match n.kind {
            NodeKind::Object { .. } => KeyStyle::Name,
            NodeKind::Dictionary { .. } => if n.ron_kind == Some(RonKind::NonStringKeyMap) {
                KeyStyle::Verbatim
            } else {
                KeyStyle::Quoted
            },
            _ => untyped_style(model, entries),
        },
        None => untyped_style(model, entries),
    }
}

/// How the keys of a record without a type are written.
pub open spec fn untyped_style(
    model: Option<TypeModel>,
    entries: Seq<(Seq<char>, Tree)>,
) -> KeyStyle {
    if json_to_ron::all_idents(json_entries(model, entries, EntryTypes::Same(None))) {
        KeyStyle::Name
    } else {
        KeyStyle::Quoted
    }
}

/// The text of what a variant holds, without the brackets round it.
pub open spec fn payload_text(
    model: Option<TypeModel>,
    comments: Seq<CommentModel>,
    payload: Payload,
    variant: Option<Variant>,
    pointer: Seq<char>,
    depth: nat,
) -> Seq<char> {
    match payload {
        Payload::Empty => Seq::empty(),
        Payload::One(x) => json_to_ron::value_emission(
            model,
            comments,
            json_payload(model, payload, variant),
            json_to_ron::newtype_type(model, variant),
            pointer,
            depth + 1,
        ).text,
        Payload::Many(items) => json_to_ron::items_emission(
            model,
            comments,
            json_items(model, items, json_to_ron::element_types(variant)),
            json_to_ron::element_types(variant),
            pointer,
            depth,
            0,
        ).text,
        Payload::Fields(entries) => json_to_ron::entries_emission(
            model,
            comments,
            json_entries(model, entries, json_to_ron::field_types(variant)),
            json_to_ron::field_types(variant),
            KeyStyle::Name,
            pointer,
            depth,
            0,
        ).text,
    }
}

/// Whether a value inside `t`, which stands at `pointer`, stands at `place` and is
/// written as `written`: the text of an item, a key with the text of its value, or the
/// text of what a variant holds.
pub open spec fn written_at(
    model: Option<TypeModel>,
    comments: Seq<CommentModel>,
    t: Tree,
    node: Option<TypeNode>,
    pointer: Seq<char>,
    depth: nat,
    place: Seq<char>,
    written: Seq<char>,
) -> bool
    decreases t, 0nat,
{
    match t {
        Tree::Present(inner) => written_at(
            model,
            comments,
            *inner,
            json_to_ron::option_type(model, node),
            pointer,
            depth + 1,
            place,
            written,
        ),
        Tree::List(items) | Tree::Tuple(items) => item_written_at(
            model,
            comments,
            items,
            json_to_ron::item_types(model, node),
            pointer,
            depth,
            place,
            written,
        ),
        Tree::Record(entries) | Tree::Keyed(entries) => entry_written_at(
            model,
            comments,
            entries,
            json_to_ron::entry_types(model, node),
            key_style(model, entries, node),
            pointer,
            depth,
            place,
            written,
        ),
        Tree::Variant(name, payload) => {
            let under = payload_pointer(tagging(node), name, pointer);
            let variant = json_to_ron::declared(node, name);
            !(payload is Empty) && under == place && !(tagging(node) is Internal) && written
                == payload_text(model, comments, payload, variant, under, depth)
                || payload_written_at(
                model,
                comments,
                payload,
                variant,
                under,
                depth,
                place,
                written,
            )
        },
        _ => false,
    }
}

/// The text of an item of a list or a tuple at `pointer`.
pub open spec fn item_text(
    model: Option<TypeModel>,
    comments: Seq<CommentModel>,
    items: Seq<JsonModel>,
    types: ItemTypes,
    pointer: Seq<char>,
    depth: nat,
    k: nat,
) -> Seq<char> {
    json_to_ron::value_emission(
        model,
        comments,
        items[k as int],
        json_to_ron::item_type(model, types, k),
        pointer::index_pointer(pointer, k),
        depth + 1,
    ).text
}

/// The key and the text of the value of an entry of a record or a map at `pointer`.
pub open spec fn entry_text(
    model: Option<TypeModel>,
    comments: Seq<CommentModel>,
    entries: Seq<(Seq<char>, JsonModel)>,
    types: EntryTypes,
    style: KeyStyle,
    pointer: Seq<char>,
    depth: nat,
    k: nat,
) -> Seq<char> {
    let key = entries[k as int].0;
    json_to_ron::key_written(key, style) + ": "@ + json_to_ron::value_emission(
        model,
        comments,
        entries[k as int].1,
        json_to_ron::entry_type(model, types, key),
        pointer::key_pointer(pointer, key),
        depth + 1,
    ).text
}

/// Whether one of the items, or a value inside one, stands at `place` and is written as
/// `written`.
pub open spec fn item_written_at(
    model: Option<TypeModel>,
    comments: Seq<CommentModel>,
    items: Seq<Tree>,
    types: ItemTypes,
    pointer: Seq<char>,
    depth: nat,
    place: Seq<char>,
    written: Seq<char>,
) -> bool
    decreases items, 0nat,
{
    exists|k: int|
        0 <= k < items.len() && (place == #[trigger] pointer::index_pointer(pointer, k as nat)
            && written == item_text(
            model,
            comments,
            json_items(model, items, types),
            types,
            pointer,
            depth,
            k as nat,
        ) || written_at(
            model,
            comments,
            items[k],
            json_to_ron::item_type(model, types, k as nat),
            pointer::index_pointer(pointer, k as nat),
            depth + 1,
            place,
            written,
        ))
}

/// Whether one of the entries, or a value inside one, stands at `place` and is written as
/// `written`.
pub open spec fn entry_written_at(
    model: Option<TypeModel>,
    comments: Seq<CommentModel>,
    entries: Seq<(Seq<char>, Tree)>,
    types: EntryTypes,
    style: KeyStyle,
    pointer: Seq<char>,
    depth: nat,
    place: Seq<char>,
    written: Seq<char>,
) -> bool
    decreases entries, 0nat,
{
    exists|k: int|
        0 <= k < entries.len() && (pointer::key_pointer(pointer, entries[k].0) == place && written
            == entry_text(
            model,
            comments,
            json_entries(model, entries, types),
            types,
            style,
            pointer,
            depth,
            k as nat,
        ) || written_at(
            model,
            comments,
            (#[trigger] entries[k]).1,
            json_to_ron::entry_type(model, types, entries[k].0),
            pointer::key_pointer(pointer, entries[k].0),
            depth + 1,
            place,
            written,
        ))
}

/// Whether a value inside what a variant holds stands at `place` and is written as
/// `written`.
pub open spec fn payload_written_at(
    model: Option<TypeModel>,
    comments: Seq<CommentModel>,
    payload: Payload,
    variant: Option<Variant>,
    pointer: Seq<char>,
    depth: nat,
    place: Seq<char>,
    written: Seq<char>,
) -> bool
    decreases payload, 0nat,
{
    match payload {
        Payload::Empty => false,
        Payload::One(inner) => written_at(
            model,
            comments,
            *inner,
            json_to_ron::newtype_type(model, variant),
            pointer,
            depth + 1,
            place,
            written,
        ),
        Payload::Many(items) => item_written_at(
            model,
            comments,
            items,
            json_to_ron::element_types(variant),
            pointer,
            depth,
            place,
            written,
        ),
        Payload::Fields(entries) => entry_written_at(
            model,
            comments,
            entries,
            json_to_ron::field_types(variant),
            KeyStyle::Name,
            pointer,
            depth,
            place,
            written,
        ),
    }
}

proof fn lemma_comment_is_written(comments: Seq<CommentModel>, n: nat, i: int)
    requires
        0 <= i < n <= comments.len(),
    ensures
        text::holds(json_to_ron::comment_text(comments, comments[i].anchor, n), comments[i].text),
    decreases n,
{
    let before = json_to_ron::comment_text(comments, comments[i].anchor, (n - 1) as nat);
    let c = comments[n - 1];
    let end = if c.kind is Line {
        '\n'
    } else {
        ' '
    };
    if i == n - 1 {
        assert((before + c.text).push(end) =~= (before + c.text) + seq![end]);
    } else {
        lemma_comment_is_written(comments, (n - 1) as nat, i);
        if c.anchor == comments[i].anchor {
            text::lemma_holds(Seq::empty(), before, c.text + seq![end], comments[i].text);
            assert((before + c.text).push(end) =~= before + (c.text + seq![end]));
        }
    }
}

proof fn lemma_item_inside(
    model: Option<TypeModel>,
    comments: Seq<CommentModel>,
    items: Seq<JsonModel>,
    types: ItemTypes,
    pointer: Seq<char>,
    depth: nat,
    from: nat,
    k: nat,
    part: Seq<char>,
)
    requires
        depth < MAX_JSON_DEPTH,
        from <= k < items.len(),
        part == comment_block(comments, pointer::index_pointer(pointer, k)) + item_text(
            model,
            comments,
            items,
            types,
            pointer,
            depth,
            k,
        ) || text::holds(
            json_to_ron::value_emission(
                model,
                comments,
                items[k as int],
                json_to_ron::item_type(model, types, k),
                pointer::index_pointer(pointer, k),
                depth + 1,
            ).text,
            part,
        ),
    ensures
        text::holds(
            json_to_ron::items_emission(model, comments, items, types, pointer, depth, from).text,
            part,
        ),
    decreases k - from,
{
    let under = pointer::index_pointer(pointer, from);
    let sep = json_to_ron::separator(from).text;
    let before = json_to_ron::anchored(comments, under).text;
    let value = json_to_ron::value_emission(
        model,
        comments,
        items[from as int],
        json_to_ron::item_type(model, types, from),
        under,
        depth + 1,
    ).text;
    let rest = json_to_ron::items_emission(
        model,
        comments,
        items,
        types,
        pointer,
        depth,
        from + 1,
    ).text;
    let all = json_to_ron::items_emission(model, comments, items, types, pointer, depth, from).text;
    assert(all == sep + before + value + rest);
    if from < k {
        lemma_item_inside(model, comments, items, types, pointer, depth, from + 1, k, part);
        text::lemma_holds(sep + before + value, rest, Seq::empty(), part);
    } else if part == before + value {
        assert(all =~= sep + part + rest);
    } else {
        text::lemma_holds(sep + before, value, rest, part);
    }
}

proof fn lemma_entry_inside(
    model: Option<TypeModel>,
    comments: Seq<CommentModel>,
    entries: Seq<(Seq<char>, JsonModel)>,
    types: EntryTypes,
    style: KeyStyle,
    pointer: Seq<char>,
    depth: nat,
    from: nat,
    k: nat,
    part: Seq<char>,
)
    requires
        depth < MAX_JSON_DEPTH,
        from <= k < entries.len(),
        part == comment_block(comments, pointer::key_pointer(pointer, entries[k as int].0))
            + entry_text(model, comments, entries, types, style, pointer, depth, k) || text::holds(
            json_to_ron::value_emission(
                model,
                comments,
                entries[k as int].1,
                json_to_ron::entry_type(model, types, entries[k as int].0),
                pointer::key_pointer(pointer, entries[k as int].0),
                depth + 1,
            ).text,
            part,
        ),
    ensures
        text::holds(
            json_to_ron::entries_emission(
                model,
                comments,
                entries,
                types,
                style,
                pointer,
                depth,
                from,
            ).text,
            part,
        ),
    decreases k - from,
{
    let key = entries[from as int].0;
    let under = pointer::key_pointer(pointer, key);
    let sep = json_to_ron::separator(from).text;
    let before = json_to_ron::anchored(comments, under).text;
    let name = json_to_ron::key_written(key, style) + ": "@;
    let value = json_to_ron::value_emission(
        model,
        comments,
        entries[from as int].1,
        json_to_ron::entry_type(model, types, key),
        under,
        depth + 1,
    ).text;
    let rest = json_to_ron::entries_emission(
        model,
        comments,
        entries,
        types,
        style,
        pointer,
        depth,
        from + 1,
    ).text;
    let all = json_to_ron::entries_emission(
        model,
        comments,
        entries,
        types,
        style,
        pointer,
        depth,
        from,
    ).text;
    assert(all == sep + before + name + value + rest);
    if from < k {
        lemma_entry_inside(model, comments, entries, types, style, pointer, depth, from + 1, k, part);
        text::lemma_holds(sep + before + name + value, rest, Seq::empty(), part);
    } else if part == before + (name + value) {
        assert(all =~= sep + part + rest);
    } else {
        text::lemma_holds(sep + before + name, value, rest, part);
    }
}

proof fn lemma_items_hold(
    model: Option<TypeModel>,
    comments: Seq<CommentModel>,
    items: Seq<Tree>,
    types: ItemTypes,
    pointer: Seq<char>,
    depth: nat,
    place: Seq<char>,
    written: Seq<char>,
)
    requires
        depth < MAX_JSON_DEPTH,
        items_come_back(model, items, types, depth),
        item_written_at(model, comments, items, types, pointer, depth, place, written),
    ensures
        text::holds(
            json_to_ron::items_emission(
                model,
                comments,
                json_items(model, items, types),
                types,
                pointer,
                depth,
                0,
            ).text,
            comment_block(comments, place) + written,
        ),
    decreases items, 0nat,
{
    let part = comment_block(comments, place) + written;
    let k = choose|k: int|
        0 <= k < items.len() && (place == #[trigger] pointer::index_pointer(pointer, k as nat)
            && written == item_text(
            model,
            comments,
            json_items(model, items, types),
            types,
            pointer,
            depth,
            k as nat,
        ) || written_at(
            model,
            comments,
            items[k],
            json_to_ron::item_type(model, types, k as nat),
            pointer::index_pointer(pointer, k as nat),
            depth + 1,
            place,
            written,
        ));
    let under = pointer::index_pointer(pointer, k as nat);
    if !(under == place && written == item_text(
        model,
        comments,
        json_items(model, items, types),
        types,
        pointer,
        depth,
        k as nat,
    )) {
        lemma_value_holds(
            model,
            comments,
            items[k],
            json_to_ron::item_type(model, types, k as nat),
            under,
            depth + 1,
            place,
            written,
        );
    }
    lemma_item_inside(
        model,
        comments,
        json_items(model, items, types),
        types,
        pointer,
        depth,
        0,
        k as nat,
        part,
    );
}

proof fn lemma_entries_hold(
    model: Option<TypeModel>,
    comments: Seq<CommentModel>,
    entries: Seq<(Seq<char>, Tree)>,
    types: EntryTypes,
    style: KeyStyle,
    pointer: Seq<char>,
    depth: nat,
    place: Seq<char>,
    written: Seq<char>,
)
    requires
        depth < MAX_JSON_DEPTH,
        entries_come_back(model, entries, types, depth),
        entry_written_at(
            model,
            comments,
            entries,
            types,
            style,
            pointer,
            depth,
            place,
            written,
        ),
    ensures
        text::holds(
            json_to_ron::entries_emission(
                model,
                comments,
                json_entries(model, entries, types),
                types,
                style,
                pointer,
                depth,
                0,
            ).text,
            comment_block(comments, place) + written,
        ),
    decreases entries, 0nat,
{
    let part = comment_block(comments, place) + written;
    let k = choose|k: int|
        0 <= k < entries.len() && (pointer::key_pointer(pointer, entries[k].0) == place && written
            == entry_text(
            model,
            comments,
            json_entries(model, entries, types),
            types,
            style,
            pointer,
            depth,
            k as nat,
        ) || written_at(
            model,
            comments,
            (#[trigger] entries[k]).1,
            json_to_ron::entry_type(model, types, entries[k].0),
            pointer::key_pointer(pointer, entries[k].0),
            depth + 1,
            place,
            written,
        ));
    let under = pointer::key_pointer(pointer, entries[k].0);
    assert(decreases_to!(entries => entries[k]));
    if !(under == place && written == entry_text(
        model,
        comments,
        json_entries(model, entries, types),
        types,
        style,
        pointer,
        depth,
        k as nat,
    )) {
        lemma_value_holds(
            model,
            comments,
            entries[k].1,
            json_to_ron::entry_type(model, types, entries[k].0),
            under,
            depth + 1,
            place,
            written,
        );
    }
    lemma_entry_inside(
        model,
        comments,
        json_entries(model, entries, types),
        types,
        style,
        pointer,
        depth,
        0,
        k as nat,
        part,
    );
}

proof fn lemma_value_holds(
    model: Option<TypeModel>,
    comments: Seq<CommentModel>,
    t: Tree,
    node: Option<TypeNode>,
    pointer: Seq<char>,
    depth: nat,
    place: Seq<char>,
    written: Seq<char>,
)
    requires
        comes_back(model, t, node, depth),
        written_at(model, comments, t, node, pointer, depth, place, written),
    ensures
        text::holds(
            json_to_ron::value_emission(
                model,
                comments,
                json_of(model, t, node),
                node,
                pointer,
                depth,
            ).text,
            comment_block(comments, place) + written,
        ),
    decreases t, 3nat,
{
    match node {
        None => lemma_plain_holds(model, comments, t, node, pointer, depth, place, written),
        Some(n) => match n.kind {
            NodeKind::Unknown => lemma_plain_holds(model, comments, t, node, pointer, depth, place, written),
            NodeKind::Enum { .. } => lemma_enum_holds(model, comments, t, n, pointer, depth, place, written),
            _ => lemma_typed_holds(model, comments, t, n, pointer, depth, place, written),
        },
    }
}

proof fn lemma_plain_holds(
    model: Option<TypeModel>,
    comments: Seq<CommentModel>,
    t: Tree,
    node: Option<TypeNode>,
    pointer: Seq<char>,
    depth: nat,
    place: Seq<char>,
    written: Seq<char>,
)
    requires
        depth < MAX_JSON_DEPTH,
        comes_back_untyped(model, t, depth),
        node is None || node->0.kind is Unknown,
        written_at(model, comments, t, node, pointer, depth, place, written),
    ensures
        text::holds(
            json_to_ron::plain_emission(
                model,
                comments,
                json_of(model, t, node),
                pointer,
                depth,
            ).text,
            comment_block(comments, place) + written,
        ),
    decreases t, 2nat,
{
    let part = comment_block(comments, place) + written;
    let j = json_of(model, t, node);
    let e = json_to_ron::plain_emission(model, comments, j, pointer, depth).text;
    match t {
        Tree::List(items) => {
            let types = ItemTypes::Same(None);
            lemma_items_hold(model, comments, items, types, pointer, depth, place, written);
            let inner = json_to_ron::items_emission(
                model,
                comments,
                json_items(model, items, types),
                types,
                pointer,
                depth,
                0,
            ).text;
            text::lemma_holds(seq!['['], inner, seq![']'], part);
            assert(e =~= seq!['['] + inner + seq![']']);
        },
        Tree::Record(entries) => {
            let types = EntryTypes::Same(None);
            let object = json_entries(model, entries, types);
            let style = if json_to_ron::all_idents(object) {
                KeyStyle::Name
            } else {
                KeyStyle::Quoted
            };
            lemma_entries_hold(model, comments, entries, types, style, pointer, depth, place, written);
            let inner = json_to_ron::entries_emission(
                model,
                comments,
                object,
                types,
                style,
                pointer,
                depth,
                0,
            ).text;
            if json_to_ron::all_idents(object) {
                text::lemma_holds(seq!['('], inner, seq![')'], part);
                assert(e =~= seq!['('] + inner + seq![')']);
            } else {
                text::lemma_holds(seq!['{'], inner, seq!['}'], part);
                assert(e =~= seq!['{'] + inner + seq!['}']);
            }
        },
        Tree::Variant(name, payload) => {
            let under = pointer::key_pointer(pointer, name);
            let held = json_payload(model, payload, json_to_ron::declared(node, name));
            assert(j == JsonModel::Object(seq![(name, held)]));
            match payload {
                Payload::One(inner) => {
                    let before = json_to_ron::anchored(comments, under).text;
                    let value = json_to_ron::value_emission(
                        model,
                        comments,
                        held,
                        None,
                        under,
                        depth + 1,
                    ).text;
                    assert(e =~= name + seq!['('] + before + value + seq![')']);
                    if under == place && written == value {
                        assert(e =~= name + seq!['('] + part + seq![')']);
                    } else {
                        assert(payload_written_at(
                            model,
                            comments,
                            payload,
                            json_to_ron::declared(node, name),
                            under,
                            depth,
                            place,
                            written,
                        ));
                        lemma_value_holds(model, comments, *inner, None, under, depth + 1, place, written);
                        text::lemma_holds(name + seq!['('] + before, value, seq![')'], part);
                    }
                },
                _ => {
                    assert(!payload_written_at(
                        model,
                        comments,
                        payload,
                        json_to_ron::declared(node, name),
                        under,
                        depth,
                        place,
                        written,
                    ));
                },
            }
        },
        _ => {},
    }
}

proof fn lemma_typed_holds(
    model: Option<TypeModel>,
    comments: Seq<CommentModel>,
    t: Tree,
    n: TypeNode,
    pointer: Seq<char>,
    depth: nat,
    place: Seq<char>,
    written: Seq<char>,
)
    requires
        comes_back(model, t, Some(n), depth),
        !(n.kind is Unknown),
        !(n.kind is Enum),
        written_at(model, comments, t, Some(n), pointer, depth, place, written),
    ensures
        json_to_ron::typed_emission(
            model,
            comments,
            json_of(model, t, Some(n)),
            n,
            pointer,
            depth,
        ) matches Some(e) && text::holds(e.text, comment_block(comments, place) + written),
    decreases t, 2nat,
{
    let part = comment_block(comments, place) + written;
    let j = json_of(model, t, Some(n));
    let e = json_to_ron::typed_emission(model, comments, j, n, pointer, depth)->0.text;
    match t {
        Tree::Present(x) => {
            let of = json_to_ron::option_type(model, Some(n));
            lemma_value_holds(model, comments, *x, of, pointer, depth + 1, place, written);
            let inner = json_to_ron::value_emission(
                model,
                comments,
                json_of(model, *x, of),
                of,
                pointer,
                depth + 1,
            ).text;
            text::lemma_holds("Some("@, inner, seq![')'], part);
            assert(e =~= "Some("@ + inner + seq![')']);
        },
        Tree::List(items) | Tree::Tuple(items) => {
            let types = json_to_ron::item_types(model, Some(n));
            lemma_items_hold(model, comments, items, types, pointer, depth, place, written);
            let inner = json_to_ron::items_emission(
                model,
                comments,
                json_items(model, items, types),
                types,
                pointer,
                depth,
                0,
            ).text;
            if t is List {
                text::lemma_holds(seq!['['], inner, seq![']'], part);
                assert(e =~= seq!['['] + inner + seq![']']);
            } else {
                text::lemma_holds(seq!['('], inner, seq![')'], part);
                assert(e =~= seq!['('] + inner + seq![')']);
            }
        },
        Tree::Record(entries) | Tree::Keyed(entries) => {
            let types = json_to_ron::entry_types(model, Some(n));
            let style = if n.kind is Object {
                KeyStyle::Name
            } else if n.ron_kind == Some(RonKind::NonStringKeyMap) {
                KeyStyle::Verbatim
            } else {
                KeyStyle::Quoted
            };
            lemma_entries_hold(model, comments, entries, types, style, pointer, depth, place, written);
            let inner = json_to_ron::entries_emission(
                model,
                comments,
                json_entries(model, entries, types),
                types,
                style,
                pointer,
                depth,
                0,
            ).text;
            if n.kind is Object {
                text::lemma_holds(seq!['('], inner, seq![')'], part);
                assert(e =~= seq!['('] + inner + seq![')']);
            } else {
                text::lemma_holds(seq!['{'], inner, seq!['}'], part);
                assert(e =~= seq!['{'] + inner + seq!['}']);
            }
        },
        _ => {},
    }
}

proof fn lemma_enum_holds(
    model: Option<TypeModel>,
    comments: Seq<CommentModel>,
    t: Tree,
    n: TypeNode,
    pointer: Seq<char>,
    depth: nat,
    place: Seq<char>,
    written: Seq<char>,
)
    requires
        comes_back(model, t, Some(n), depth),
        n.kind is Enum,
        written_at(model, comments, t, Some(n), pointer, depth, place, written),
    ensures
        text::holds(
            json_to_ron::value_emission(
                model,
                comments,
                json_of(model, t, Some(n)),
                Some(n),
                pointer,
                depth,
            ).text,
            comment_block(comments, place) + written,
        ),
    decreases t, 2nat,
{
    let (name, payload) = match t {
        Tree::Variant(name, payload) => (name, payload),
        _ => (Seq::empty(), Payload::Empty),
    };
    let variant = json_to_ron::declared(Some(n), name);
    let d = n.kind->discriminator;
    let p = json_payload(model, payload, variant);
    let under = payload_pointer(d, name, pointer);
    tags_come_back(name, p, payload is Empty, d, pointer);
    assert(payload_comes_back(model, payload, variant, depth));
    assert(payload is Empty ==> !payload_written_at(
        model,
        comments,
        payload,
        variant,
        under,
        depth,
        place,
        written,
    ));
    let part = comment_block(comments, place) + written;
    let j = json_of(model, t, Some(n));
    let tagged = json_to_ron::tagged(j, d, pointer)->0;
    lemma_payload_holds(model, comments, payload, variant->0, under, tagged.own, depth, place, written);
    let body = json_to_ron::payload_emission(
        model,
        comments,
        p,
        variant,
        under,
        tagged.own,
        depth,
    ).text;
    let e = json_to_ron::value_emission(model, comments, j, Some(n), pointer, depth);
    assert(json_to_ron::typed_emission(model, comments, j, n, pointer, depth) == Some(
        json_to_ron::enum_emission(model, comments, j, n.kind->variants@, d, pointer, depth),
    ));
    assert(tagged.payload == Some(p));
    text::lemma_holds(name, body, Seq::empty(), part);
    assert(e.text =~= name + body);
}

proof fn lemma_payload_holds(
    model: Option<TypeModel>,
    comments: Seq<CommentModel>,
    payload: Payload,
    variant: Variant,
    pointer: Seq<char>,
    own: bool,
    depth: nat,
    place: Seq<char>,
    written: Seq<char>,
)
    requires
        depth < MAX_JSON_DEPTH,
        !(payload is Empty),
        payload_comes_back(model, payload, Some(variant), depth),
        own && pointer == place && written == payload_text(
            model,
            comments,
            payload,
            Some(variant),
            pointer,
            depth,
        ) || payload_written_at(
            model,
            comments,
            payload,
            Some(variant),
            pointer,
            depth,
            place,
            written,
        ),
    ensures
        text::holds(
            json_to_ron::payload_emission(
                model,
                comments,
                json_payload(model, payload, Some(variant)),
                Some(variant),
                pointer,
                own,
                depth,
            ).text,
            comment_block(comments, place) + written,
        ),
    decreases payload, 0nat,
{
    let part = comment_block(comments, place) + written;
    let p = json_payload(model, payload, Some(variant));
    let e = json_to_ron::payload_emission(
        model,
        comments,
        p,
        Some(variant),
        pointer,
        own,
        depth,
    ).text;
    let before: Seq<char> = if own {
        json_to_ron::anchored(comments, pointer).text
    } else {
        Seq::empty()
    };
    let inner = payload_text(model, comments, payload, Some(variant), pointer, depth);
    assert(e =~= seq!['('] + before + inner + seq![')']);
    if own && pointer == place && written == inner {
        assert(e =~= seq!['('] + part + seq![')']);
    } else {
        match payload {
            Payload::Empty => {},
            Payload::One(x) => lemma_value_holds(
                model,
                comments,
                *x,
                json_to_ron::newtype_type(model, Some(variant)),
                pointer,
                depth + 1,
                place,
                written,
            ),
            Payload::Many(items) => lemma_items_hold(
                model,
                comments,
                items,
                json_to_ron::element_types(Some(variant)),
                pointer,
                depth,
                place,
                written,
            ),
            Payload::Fields(entries) => lemma_entries_hold(
                model,
                comments,
                entries,
                json_to_ron::field_types(Some(variant)),
                KeyStyle::Name,
                pointer,
                depth,
                place,
                written,
            ),
        }
        text::lemma_holds(seq!['('] + before, inner, seq![')'], part);
    }
}

/// Comments come back: those that are anchored to the document or to a value inside it
/// are written, word for word and in order, right before that value, or before its key.
pub proof fn comments_come_back(
    model: Option<TypeModel>,
    t: Tree,
    node: Option<TypeNode>,
    comments: Seq<CommentModel>,
    place: Seq<char>,
    written: Seq<char>,
)
    requires
        comes_back(model, t, node, 0),
        place == Seq::<char>::empty() && written == json_to_ron::value_emission(
            model,
            comments,
            json_of(model, t, node),
            node,
            Seq::empty(),
            0,
        ).text || written_at(model, comments, t, node, Seq::empty(), 0, place, written),
    ensures
        text::holds(
            json_to_ron::document_emission(json_of(model, t, node), model, node, comments).text,
            comment_block(comments, place) + written,
        ),
        forall|i: int|
            0 <= i < comments.len() && (#[trigger] comments[i]).anchor == place ==> text::holds(
                comment_block(comments, place),
                comments[i].text,
            ),
{
    let part = comment_block(comments, place) + written;
    let all = json_to_ron::document_emission(json_of(model, t, node), model, node, comments).text;
    let before = json_to_ron::anchored(comments, Seq::empty()).text;
    let value = json_to_ron::value_emission(
        model,
        comments,
        json_of(model, t, node),
        node,
        Seq::empty(),
        0,
    ).text;
    assert(all =~= before + value + seq!['\n']);
    if place == Seq::<char>::empty() && written == value {
        assert(all =~= Seq::<char>::empty() + part + seq!['\n']);
    } else {
        lemma_value_holds(model, comments, t, node, Seq::empty(), 0, place, written);
        text::lemma_holds(before, value, seq!['\n'], part);
    }
    assert forall|i: int|
        0 <= i < comments.len() && (#[trigger] comments[i]).anchor == place implies text::holds(
        comment_block(comments, place),
        comments[i].text,
    ) by {
        lemma_comment_is_written(comments, comments.len(), i);
    }
}

} // verus!
