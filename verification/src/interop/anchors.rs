//! Where the values of a document stand after the conversion.
//!
//! The parser's value mapping and the converted document differ in the names of map
//! keys and in the tags of enum variants. A pointer into the one becomes a pointer into
//! the other: segment by segment, as the keys and the tags on the way are rewritten.

use vstd::prelude::*;

use crate::interop::comments::{self, Comment, CommentModel};
use crate::interop::emit;
use crate::interop::json::{self, Entry, Json, JsonModel};
use crate::interop::json_to_ron::{
    self, EntryTypes, ItemTypes, Items, Properties, MAX_JSON_DEPTH,
};
use crate::interop::jsonc;
use crate::interop::pointer;
use crate::interop::read_back;
use crate::interop::ron_to_json;
use crate::interop::round_trip;
use crate::interop::tagging;
use crate::syntax::{self, MapEntry, RonDocument, RonValue, Shape, StructField, Token};
use crate::text;
use crate::types::{Discriminator, NodeKind, TypeModel, TypeNode, Variant, VariantShape};

verus! {

/// The segments of a pointer, each as the key or index it stands for.
pub open spec fn segments(pointer: Seq<char>) -> Seq<Seq<char>>
    decreases pointer.len(),
    via segments_decreases
{
    if pointer.len() == 0 {
        Seq::empty()
    } else {
        let end = text::index_from(pointer, '/', 1);
        seq![pointer::unescaped(pointer.subrange(1, end))] + segments(pointer.skip(end))
    }
}

#[via_fn]
proof fn segments_decreases(pointer: Seq<char>) {
    if pointer.len() > 0 {
        lemma_index_from(pointer, '/', 1);
    }
}

proof fn lemma_index_from(s: Seq<char>, c: char, from: int)
    requires
        0 <= from <= s.len(),
    ensures
        from <= text::index_from(s, c, from) <= s.len(),
    decreases s.len() - from,
{
    if from < s.len() && s[from] != c {
        lemma_index_from(s, c, from + 1);
    }
}

/// The pointer of what stands at `path` inside the value at `pointer`.
pub open spec fn pointer_from(pointer: Seq<char>, path: Seq<Seq<char>>) -> Seq<char>
    decreases path.len(),
{
    if path.len() == 0 {
        pointer
    } else {
        pointer_from(pointer::key_pointer(pointer, path[0]), path.drop_first())
    }
}

/// The pointer with the given segments.
pub open spec fn pointer_text(path: Seq<Seq<char>>) -> Seq<char> {
    pointer_from(Seq::empty(), path)
}

/// The first index below `n`, from `from` on, that is written as `segment`.
pub open spec fn index_named(n: nat, segment: Seq<char>, from: nat) -> Option<nat>
    decreases n - from,
{
    if from >= n {
        None
    } else if text::decimal(from) == segment {
        Some(from)
    } else {
        index_named(n, segment, from + 1)
    }
}

/// The value that stands at a path inside `value`.
pub open spec fn at(value: JsonModel, path: Seq<Seq<char>>) -> Option<JsonModel>
    decreases path.len(),
{
    if path.len() == 0 {
        Some(value)
    } else {
        match value {
            JsonModel::Array(items) => match index_named(items.len(), path[0], 0) {
                Some(i) => at(items[i as int], path.drop_first()),
                None => None,
            },
            JsonModel::Object(entries) => match json::value_of(entries, path[0]) {
                Some(v) => at(v, path.drop_first()),
                None => None,
            },
            _ => None,
        }
    }
}

/// A path behind one more segment.
pub open spec fn behind(segment: Seq<char>, path: Seq<Seq<char>>) -> Seq<Seq<char>> {
    seq![segment] + path
}

/// The first map entry from position `from` on with the property name `name`.
pub open spec fn entry_of(entries: Seq<MapEntry>, name: Seq<char>, from: nat) -> Option<nat>
    decreases entries.len() - from,
{
    if from >= entries.len() {
        None
    } else if entries[from as int].key matches Some(key) && pointer::key_text(key) == name {
        Some(from)
    } else {
        entry_of(entries, name, from + 1)
    }
}

/// Where the value at `path` stands when every map has its final keys.
pub open spec fn under_final_keys(
    value: JsonModel,
    source: RonValue,
    path: Seq<Seq<char>>,
) -> Seq<Seq<char>>
    decreases source, 0nat,
{
    if path.len() == 0 {
        path
    } else {
        match (source.shape, value) {
            (Shape::Dictionary { entries }, JsonModel::Object(object)) => in_entries(
                object,
                entries@,
                path,
            ),
            (Shape::Struct { name, fields }, JsonModel::Object(object)) => if ron_to_json::tags_fields(
                name,
                fields@,
                object,
            ) {
                match object[0].1 {
                    JsonModel::Object(inner) => behind(
                        path[0],
                        in_fields(inner, fields@, path.drop_first()),
                    ),
                    _ => path,
                }
            } else {
                in_fields(object, fields@, path)
            },
            (Shape::List { items }, JsonModel::Array(array)) => in_items(array, items@, path),
            (Shape::Tuple { name, items }, _) => if syntax::named(name, "Some"@) {
                if items@.len() > 0 {
                    under_final_keys(value, items@[0], path)
                } else {
                    path
                }
            } else {
                match value {
                    JsonModel::Array(array) => in_items(array, items@, path),
                    JsonModel::Object(object) => if name is Some && object.len() == 1 {
                        behind(path[0], in_payload(object[0].1, items@, path.drop_first()))
                    } else {
                        path
                    },
                    _ => path,
                }
            },
            (Shape::EnumVariant { name, items, .. }, _) => if pointer::is_some_of(name, items@) {
                under_final_keys(value, items@[0], path)
            } else {
                match value {
                    JsonModel::Object(object) => if object.len() == 1 {
                        behind(path[0], in_payload(object[0].1, items@, path.drop_first()))
                    } else {
                        path
                    },
                    _ => path,
                }
            },
            _ => path,
        }
    }
}

/// Where the value at `path` stands when the maps in the payload of a variant have their
/// final keys.
pub open spec fn in_payload(
    payload: JsonModel,
    items: Seq<RonValue>,
    path: Seq<Seq<char>>,
) -> Seq<Seq<char>>
    decreases items, 1nat,
{
    if items.len() == 1 {
        under_final_keys(payload, items[0], path)
    } else {
        match payload {
            JsonModel::Array(array) => in_items(array, items, path),
            _ => path,
        }
    }
}

/// Where the value at `path` stands when the maps in the items have their final keys.
pub open spec fn in_items(
    array: Seq<JsonModel>,
    items: Seq<RonValue>,
    path: Seq<Seq<char>>,
) -> Seq<Seq<char>>
    decreases items, 0nat,
{
    if path.len() == 0 {
        path
    } else {
        match index_named(array.len(), path[0], 0) {
            Some(i) => if i < items.len() {
                behind(
                    path[0],
                    under_final_keys(array[i as int], items[i as int], path.drop_first()),
                )
            } else {
                path
            },
            None => path,
        }
    }
}

/// Where the value at `path` stands when the maps in the fields have their final keys.
pub open spec fn in_fields(
    object: Seq<(Seq<char>, JsonModel)>,
    fields: Seq<StructField>,
    path: Seq<Seq<char>>,
) -> Seq<Seq<char>>
    decreases fields, fields.len() + 1,
{
    if path.len() == 0 {
        path
    } else {
        match json::value_of(object, path[0]) {
            Some(value) => behind(path[0], in_field(value, path[0], fields, 0, path.drop_first())),
            None => path,
        }
    }
}

/// Where the value at `path` stands when the maps in the fields called `key`, from
/// position `from` on, have their final keys.
pub open spec fn in_field(
    value: JsonModel,
    key: Seq<char>,
    fields: Seq<StructField>,
    from: nat,
    path: Seq<Seq<char>>,
) -> Seq<Seq<char>>
    decreases fields, fields.len() - from,
{
    if from >= fields.len() {
        path
    } else {
        match (fields[from as int].name, fields[from as int].value) {
            (Some(name), Some(source)) => if name@ == key {
                in_field(
                    ron_to_json::with_final_keys(value, source),
                    key,
                    fields,
                    from + 1,
                    under_final_keys(value, source, path),
                )
            } else {
                in_field(value, key, fields, from + 1, path)
            },
            _ => in_field(value, key, fields, from + 1, path),
        }
    }
}

/// Where the value at `path` stands when a map has its final keys.
pub open spec fn in_entries(
    object: Seq<(Seq<char>, JsonModel)>,
    entries: Seq<MapEntry>,
    path: Seq<Seq<char>>,
) -> Seq<Seq<char>>
    decreases entries, 0nat,
{
    if path.len() == 0 {
        path
    } else {
        match (entry_of(entries, path[0], 0), json::value_of(object, path[0])) {
            (Some(k), Some(value)) => if k < entries.len() {
                let entry = entries[k as int];
                behind(
                    ron_to_json::final_key(entry.key->0),
                    match entry.value {
                        Some(source) => under_final_keys(value, source, path.drop_first()),
                        None => path.drop_first(),
                    },
                )
            } else {
                path
            },
            _ => path,
        }
    }
}

/// Where the value at `path` stands when every variant is tagged by its type.
pub open spec fn under_typed_tags(
    model: Option<TypeModel>,
    value: JsonModel,
    source: Option<RonValue>,
    node: Option<TypeNode>,
    depth: nat,
    path: Seq<Seq<char>>,
) -> Seq<Seq<char>>
    decreases MAX_JSON_DEPTH + 1 - depth, 3nat,
{
    if depth >= MAX_JSON_DEPTH || path.len() == 0 {
        path
    } else {
        match node {
            None => path,
            Some(n) => match (n.kind, value) {
                (NodeKind::Optional { inner }, _) => under_typed_tags(
                    model,
                    value,
                    tagging::option_source(source),
                    json_to_ron::target(model, inner),
                    depth + 1,
                    path,
                ),
                (NodeKind::Sequence { .. }, JsonModel::Array(items)) => in_typed_items(
                    model,
                    items,
                    source,
                    json_to_ron::item_types(model, node),
                    depth,
                    path,
                ),
                (NodeKind::Tuple { .. }, JsonModel::Array(items)) => in_typed_items(
                    model,
                    items,
                    source,
                    json_to_ron::item_types(model, node),
                    depth,
                    path,
                ),
                (NodeKind::Object { .. }, JsonModel::Object(entries)) => in_typed_entries(
                    model,
                    entries,
                    source,
                    json_to_ron::entry_types(model, node),
                    depth,
                    path,
                ),
                (NodeKind::Dictionary { .. }, JsonModel::Object(entries)) => in_typed_entries(
                    model,
                    entries,
                    source,
                    json_to_ron::entry_types(model, node),
                    depth,
                    path,
                ),
                (NodeKind::Enum { discriminator, .. }, _) => in_variant(
                    model,
                    tagging::variant_form(value, source),
                    source,
                    n,
                    discriminator,
                    depth,
                    match tagging::struct_name(value, source) {
                        Some(name) => behind(name, path),
                        None => path,
                    },
                ),
                _ => path,
            },
        }
    }
}

/// Where the value at `path` inside an externally tagged variant stands when the variant
/// is tagged by its type.
pub open spec fn in_variant(
    model: Option<TypeModel>,
    value: JsonModel,
    source: Option<RonValue>,
    node: TypeNode,
    discriminator: Discriminator,
    depth: nat,
    path: Seq<Seq<char>>,
) -> Seq<Seq<char>>
    decreases MAX_JSON_DEPTH + 1 - depth, 2nat,
{
    match value {
        JsonModel::Object(entries) => if entries.len() == 1 && path.len() > 0 && entries[0].0
            == path[0] {
            let variant = json_to_ron::declared(Some(node), path[0]);
            behind_tag(
                discriminator,
                path[0],
                tagging::payload_tags(model, entries[0].1, source, variant, depth),
                in_typed_payload(model, entries[0].1, source, variant, depth, path.drop_first()),
            )
        } else {
            path
        },
        _ => path,
    }
}

/// Where the value at `path` inside what a variant holds stands in the tagged variant.
pub open spec fn behind_tag(
    discriminator: Discriminator,
    name: Seq<char>,
    payload: JsonModel,
    path: Seq<Seq<char>>,
) -> Seq<Seq<char>> {
    match discriminator {
        Discriminator::External => behind(name, path),
        Discriminator::Internal { .. } => if payload is Object || payload is Null {
            path
        } else {
            behind(name, path)
        },
        Discriminator::Adjacent { content, .. } => behind(content@, path),
        Discriminator::Untagged => path,
    }
}

/// Where the value at `path` stands when the items are tagged by their types.
pub open spec fn in_typed_items(
    model: Option<TypeModel>,
    items: Seq<JsonModel>,
    source: Option<RonValue>,
    types: ItemTypes,
    depth: nat,
    path: Seq<Seq<char>>,
) -> Seq<Seq<char>>
    decreases MAX_JSON_DEPTH + 1 - depth, 0nat,
{
    if depth >= MAX_JSON_DEPTH || path.len() == 0 {
        path
    } else {
        match index_named(items.len(), path[0], 0) {
            Some(i) => behind(
                path[0],
                under_typed_tags(
                    model,
                    items[i as int],
                    tagging::item_source(source, i),
                    json_to_ron::item_type(model, types, i),
                    depth + 1,
                    path.drop_first(),
                ),
            ),
            None => path,
        }
    }
}

/// Where the value at `path` stands when the properties are tagged by their types.
pub open spec fn in_typed_entries(
    model: Option<TypeModel>,
    entries: Seq<(Seq<char>, JsonModel)>,
    source: Option<RonValue>,
    types: EntryTypes,
    depth: nat,
    path: Seq<Seq<char>>,
) -> Seq<Seq<char>>
    decreases MAX_JSON_DEPTH + 1 - depth, 0nat,
{
    if depth >= MAX_JSON_DEPTH || path.len() == 0 {
        path
    } else {
        match json::value_of(entries, path[0]) {
            Some(value) => behind(
                path[0],
                under_typed_tags(
                    model,
                    value,
                    tagging::entry_source(source, path[0]),
                    json_to_ron::entry_type(model, types, path[0]),
                    depth + 1,
                    path.drop_first(),
                ),
            ),
            None => path,
        }
    }
}

/// Where the value at `path` stands when what a variant holds is tagged by its types.
pub open spec fn in_typed_payload(
    model: Option<TypeModel>,
    payload: JsonModel,
    source: Option<RonValue>,
    variant: Option<Variant>,
    depth: nat,
    path: Seq<Seq<char>>,
) -> Seq<Seq<char>>
    decreases MAX_JSON_DEPTH + 1 - depth, 1nat,
{
    match variant {
        None => path,
        Some(v) => match (v.shape, payload) {
            (VariantShape::Newtype(inner), _) => if depth < MAX_JSON_DEPTH {
                under_typed_tags(
                    model,
                    payload,
                    tagging::sole_source(source),
                    json_to_ron::target(model, inner),
                    depth + 1,
                    path,
                )
            } else {
                path
            },
            (VariantShape::Tuple(_), JsonModel::Array(items)) => in_typed_items(
                model,
                items,
                source,
                json_to_ron::element_types(variant),
                depth,
                path,
            ),
            (VariantShape::Struct(_), JsonModel::Object(entries)) => in_typed_entries(
                model,
                entries,
                source,
                json_to_ron::field_types(variant),
                depth,
                path,
            ),
            _ => path,
        },
    }
}

/// Where the value at `path` in the parser's mapping stands in the converted document.
pub open spec fn converted_path(
    model: Option<TypeModel>,
    value: JsonModel,
    source: RonValue,
    bound: Option<TypeNode>,
    path: Seq<Seq<char>>,
) -> Seq<Seq<char>> {
    under_typed_tags(
        model,
        ron_to_json::with_final_keys(value, source),
        Some(source),
        bound,
        0,
        under_final_keys(value, source, path),
    )
}

/// A comment anchored where its value stands in the converted document.
pub open spec fn converted_comment(
    model: Option<TypeModel>,
    value: JsonModel,
    source: RonValue,
    bound: Option<TypeNode>,
    comment: CommentModel,
) -> CommentModel {
    CommentModel {
        anchor: pointer_text(converted_path(model, value, source, bound, segments(comment.anchor))),
        ..comment
    }
}

/// Comments anchored where their values stand in the converted document.
pub open spec fn converted_comments(
    model: Option<TypeModel>,
    value: JsonModel,
    source: RonValue,
    bound: Option<TypeNode>,
    list: Seq<CommentModel>,
) -> Seq<CommentModel> {
    list.map_values(|c: CommentModel| converted_comment(model, value, source, bound, c))
}

/// Whether the property names of every map in a value are all there and tell its entries
/// apart, before and after they become final.
pub open spec fn keys_apart(value: JsonModel, source: RonValue) -> bool
    decreases source, 0nat,
{
    match (source.shape, value) {
        (Shape::Dictionary { entries }, JsonModel::Object(object)) => entries_apart(
            object,
            entries@,
        ),
        (Shape::Struct { name, fields }, JsonModel::Object(object)) => if ron_to_json::tags_fields(
            name,
            fields@,
            object,
        ) {
            object[0].1 matches JsonModel::Object(inner) ==> fields_apart(inner, fields@)
        } else {
            fields_apart(object, fields@)
        },
        (Shape::List { items }, JsonModel::Array(array)) => items_apart(array, items@),
        (Shape::Tuple { name, items }, _) => if syntax::named(name, "Some"@) {
            items@.len() > 0 ==> keys_apart(value, items@[0])
        } else {
            match value {
                JsonModel::Array(array) => items_apart(array, items@),
                JsonModel::Object(object) => name is Some && object.len() == 1 ==> payload_apart(
                    object[0].1,
                    items@,
                ),
                _ => true,
            }
        },
        (Shape::EnumVariant { name, items, .. }, _) => if pointer::is_some_of(name, items@) {
            keys_apart(value, items@[0])
        } else {
            value matches JsonModel::Object(object) ==> object.len() == 1 ==> payload_apart(
                object[0].1,
                items@,
            )
        },
        _ => true,
    }
}

/// Whether the maps in the payload of a variant tell their entries apart.
pub open spec fn payload_apart(payload: JsonModel, items: Seq<RonValue>) -> bool
    decreases items, 1nat,
{
    if items.len() == 1 {
        keys_apart(payload, items[0])
    } else {
        payload matches JsonModel::Array(array) ==> items_apart(array, items)
    }
}

/// Whether the maps in the items tell their entries apart.
pub open spec fn items_apart(array: Seq<JsonModel>, items: Seq<RonValue>) -> bool
    decreases items, 0nat,
{
    forall|i: int|
        0 <= i < items.len() && i < array.len() ==> keys_apart(array[i], #[trigger] items[i])
}

/// Whether the maps in the fields tell their entries apart.
pub open spec fn fields_apart(object: Seq<(Seq<char>, JsonModel)>, fields: Seq<StructField>) -> bool
    decreases fields, fields.len() + 1,
{
    forall|i: int|
        0 <= i < object.len() ==> field_apart((#[trigger] object[i]).1, object[i].0, fields, 0)
}

/// Whether the maps in the fields called `key`, from position `from` on, tell their
/// entries apart.
pub open spec fn field_apart(
    value: JsonModel,
    key: Seq<char>,
    fields: Seq<StructField>,
    from: nat,
) -> bool
    decreases fields, fields.len() - from,
{
    if from >= fields.len() {
        true
    } else {
        match (fields[from as int].name, fields[from as int].value) {
            (Some(name), Some(source)) => if name@ == key {
                keys_apart(value, source) && field_apart(
                    ron_to_json::with_final_keys(value, source),
                    key,
                    fields,
                    from + 1,
                )
            } else {
                field_apart(value, key, fields, from + 1)
            },
            _ => field_apart(value, key, fields, from + 1),
        }
    }
}

/// Whether a map and the maps in it tell their entries apart.
pub open spec fn entries_apart(object: Seq<(Seq<char>, JsonModel)>, entries: Seq<MapEntry>) -> bool
    decreases entries, 0nat,
{
    &&& round_trip::keys_tell_apart(entries, object)
    &&& forall|i: int|
        0 <= i < object.len() ==> entry_of(entries, (#[trigger] object[i]).0, 0) is Some
    &&& forall|k: int| 0 <= k < entries.len() ==> entry_apart(object, #[trigger] entries[k])
}

/// Whether the maps in an entry tell their entries apart.
pub open spec fn entry_apart(object: Seq<(Seq<char>, JsonModel)>, entry: MapEntry) -> bool
    decreases entry, 0nat,
{
    match (entry.key, entry.value) {
        (Some(key), Some(source)) => json::value_of(object, pointer::key_text(key)) matches Some(v)
            ==> keys_apart(v, source),
        _ => true,
    }
}

pub proof fn lemma_behind(segment: Seq<char>, path: Seq<Seq<char>>)
    ensures
        behind(segment, path).len() == path.len() + 1,
        behind(segment, path)[0] == segment,
        behind(segment, path).drop_first() == path,
{
    assert(behind(segment, path).drop_first() =~= path);
}

proof fn lemma_index_named(n: nat, segment: Seq<char>, from: nat)
    ensures
        index_named(n, segment, from) matches Some(i) ==> from <= i < n && text::decimal(i)
            == segment,
    decreases n - from,
{
    if from < n && text::decimal(from) != segment {
        lemma_index_named(n, segment, from + 1);
    }
}

proof fn lemma_entry_of(entries: Seq<MapEntry>, name: Seq<char>, from: nat)
    ensures
        entry_of(entries, name, from) matches Some(k) ==> from <= k < entries.len() && (
        entries[k as int].key matches Some(key) && pointer::key_text(key) == name),
    decreases entries.len() - from,
{
    if from < entries.len() {
        lemma_entry_of(entries, name, from + 1);
    }
}

proof fn lemma_key_position(entries: Seq<(Seq<char>, JsonModel)>, key: Seq<char>, from: nat)
    ensures
        json::key_position(entries, key, from) matches Some(k) ==> from <= k < entries.len()
            && entries[k as int].0 == key,
    decreases entries.len() - from,
{
    if from < entries.len() && entries[from as int].0 != key {
        lemma_key_position(entries, key, from + 1);
    }
}

/// Two lists of properties with the same keys find the same property.
proof fn lemma_same_position(
    a: Seq<(Seq<char>, JsonModel)>,
    b: Seq<(Seq<char>, JsonModel)>,
    key: Seq<char>,
    from: nat,
)
    requires
        a.len() == b.len(),
        forall|i: int| 0 <= i < a.len() ==> (#[trigger] a[i]).0 == (#[trigger] b[i]).0,
    ensures
        json::key_position(a, key, from) == json::key_position(b, key, from),
    decreases a.len() - from,
{
    if from < a.len() {
        assert(a[from as int].0 == b[from as int].0);
        lemma_same_position(a, b, key, from + 1);
    }
}

proof fn lemma_keys_move(value: JsonModel, source: RonValue, path: Seq<Seq<char>>)
    requires
        keys_apart(value, source),
        at(value, path) is Some,
    ensures
        at(ron_to_json::with_final_keys(value, source), under_final_keys(value, source, path))
            is Some,
    decreases source, 0nat,
{
    if path.len() > 0 {
        match (source.shape, value) {
            (Shape::Dictionary { entries }, JsonModel::Object(object)) => {
                lemma_entries_move(source, object, entries@, path);
            },
            (Shape::Struct { name, fields }, JsonModel::Object(object)) => {
                if ron_to_json::tags_fields(name, fields@, object) {
                    if let JsonModel::Object(inner) = object[0].1 {
                        lemma_key_position(object, path[0], 0);
                        lemma_fields_move(inner, fields@, path.drop_first());
                        let moved = in_fields(inner, fields@, path.drop_first());
                        lemma_behind(path[0], moved);
                        let after = seq![
                            (
                                object[0].0,
                                JsonModel::Object(
                                    ron_to_json::fields_with_final_keys(inner, fields@),
                                ),
                            ),
                        ];
                        assert(json::key_position(after, path[0], 0) == Some(0nat));
                    }
                } else {
                    lemma_fields_move(object, fields@, path);
                }
            },
            (Shape::List { items }, JsonModel::Array(array)) => {
                lemma_items_move(array, items@, path);
            },
            (Shape::Tuple { name, items }, _) => {
                if syntax::named(name, "Some"@) {
                    if items@.len() > 0 {
                        lemma_keys_move(value, items@[0], path);
                    }
                } else if let JsonModel::Array(array) = value {
                    lemma_items_move(array, items@, path);
                } else if let JsonModel::Object(object) = value {
                    if name is Some && object.len() == 1 {
                        lemma_tagged_move(object, items@, path);
                    }
                }
            },
            (Shape::EnumVariant { name, items, .. }, _) => {
                if pointer::is_some_of(name, items@) {
                    lemma_keys_move(value, items@[0], path);
                } else if let JsonModel::Object(object) = value {
                    if object.len() == 1 {
                        lemma_tagged_move(object, items@, path);
                    }
                }
            },
            _ => {},
        }
    }
}

proof fn lemma_tagged_move(
    object: Seq<(Seq<char>, JsonModel)>,
    items: Seq<RonValue>,
    path: Seq<Seq<char>>,
)
    requires
        object.len() == 1,
        path.len() > 0,
        payload_apart(object[0].1, items),
        at(JsonModel::Object(object), path) is Some,
    ensures
        at(
            JsonModel::Object(
                seq![(object[0].0, ron_to_json::payload_with_final_keys(object[0].1, items))],
            ),
            behind(path[0], in_payload(object[0].1, items, path.drop_first())),
        ) is Some,
    decreases items, 2nat,
{
    let payload = object[0].1;
    let rest = path.drop_first();
    lemma_key_position(object, path[0], 0);
    if items.len() == 1 {
        lemma_keys_move(payload, items[0], rest);
    } else if let JsonModel::Array(array) = payload {
        lemma_items_move(array, items, rest);
    }
    let after = seq![(object[0].0, ron_to_json::payload_with_final_keys(payload, items))];
    lemma_behind(path[0], in_payload(payload, items, rest));
    assert(json::key_position(after, path[0], 0) == Some(0nat));
}

proof fn lemma_items_move(array: Seq<JsonModel>, items: Seq<RonValue>, path: Seq<Seq<char>>)
    requires
        items_apart(array, items),
        at(JsonModel::Array(array), path) is Some,
    ensures
        at(
            JsonModel::Array(ron_to_json::items_with_final_keys(array, items)),
            in_items(array, items, path),
        ) is Some,
    decreases items, 0nat,
{
    if path.len() > 0 {
        lemma_index_named(array.len(), path[0], 0);
        let i = index_named(array.len(), path[0], 0)->0;
        let rest = path.drop_first();
        let after = ron_to_json::items_with_final_keys(array, items);
        if i < items.len() {
            lemma_keys_move(array[i as int], items[i as int], rest);
            lemma_behind(path[0], under_final_keys(array[i as int], items[i as int], rest));
        }
        assert(index_named(after.len(), path[0], 0) == Some(i));
    }
}

proof fn lemma_fields_move(
    object: Seq<(Seq<char>, JsonModel)>,
    fields: Seq<StructField>,
    path: Seq<Seq<char>>,
)
    requires
        fields_apart(object, fields),
        at(JsonModel::Object(object), path) is Some,
    ensures
        at(
            JsonModel::Object(ron_to_json::fields_with_final_keys(object, fields)),
            in_fields(object, fields, path),
        ) is Some,
    decreases fields, fields.len() + 1,
{
    if path.len() > 0 {
        let after = ron_to_json::fields_with_final_keys(object, fields);
        lemma_key_position(object, path[0], 0);
        lemma_same_position(object, after, path[0], 0);
        let k = json::key_position(object, path[0], 0)->0;
        let rest = path.drop_first();
        assert(field_apart(object[k as int].1, object[k as int].0, fields, 0));
        lemma_field_moves(object[k as int].1, path[0], fields, 0, rest);
        lemma_behind(path[0], in_field(object[k as int].1, path[0], fields, 0, rest));
    }
}

proof fn lemma_field_moves(
    value: JsonModel,
    key: Seq<char>,
    fields: Seq<StructField>,
    from: nat,
    path: Seq<Seq<char>>,
)
    requires
        field_apart(value, key, fields, from),
        at(value, path) is Some,
    ensures
        at(
            ron_to_json::field_with_final_keys(value, key, fields, from),
            in_field(value, key, fields, from, path),
        ) is Some,
    decreases fields, fields.len() - from,
{
    if from < fields.len() {
        let field = fields[from as int];
        match (field.name, field.value) {
            (Some(name), Some(source)) => {
                if name@ == key {
                    assert(decreases_to!(fields => field));
                    lemma_keys_move(value, source, path);
                    lemma_field_moves(
                        ron_to_json::with_final_keys(value, source),
                        key,
                        fields,
                        from + 1,
                        under_final_keys(value, source, path),
                    );
                } else {
                    lemma_field_moves(value, key, fields, from + 1, path);
                }
            },
            _ => {
                lemma_field_moves(value, key, fields, from + 1, path);
            },
        }
    }
}

proof fn lemma_entries_move(
    source: RonValue,
    object: Seq<(Seq<char>, JsonModel)>,
    entries: Seq<MapEntry>,
    path: Seq<Seq<char>>,
)
    requires
        source.shape matches Shape::Dictionary { entries: list } && list@ == entries,
        entries_apart(object, entries),
        path.len() > 0,
        at(JsonModel::Object(object), path) is Some,
    ensures
        at(
            ron_to_json::with_final_keys(JsonModel::Object(object), source),
            in_entries(object, entries, path),
        ) is Some,
    decreases entries, 1nat,
{
    let rest = path.drop_first();
    lemma_key_position(object, path[0], 0);
    let i = json::key_position(object, path[0], 0)->0;
    assert(entry_of(entries, object[i as int].0, 0) is Some);
    lemma_entry_of(entries, path[0], 0);
    let k = entry_of(entries, path[0], 0)->0;
    let entry = entries[k as int];
    let value = json::value_of(object, path[0])->0;
    assert(entry_apart(object, entry));
    round_trip::values_are_under_their_final_keys(source, entries, object, k as int);
    assert(decreases_to!(entries => entry));
    let moved = match entry.value {
        Some(inner) => {
            lemma_keys_move(value, inner, rest);
            under_final_keys(value, inner, rest)
        },
        None => rest,
    };
    lemma_behind(ron_to_json::final_key(entry.key->0), moved);
}


/// Whether no internally tagged variant in a value holds a property that is called like
/// its tag.
pub open spec fn tags_apart(
    model: Option<TypeModel>,
    value: JsonModel,
    source: Option<RonValue>,
    node: Option<TypeNode>,
    depth: nat,
) -> bool
    decreases MAX_JSON_DEPTH + 1 - depth, 3nat,
{
    if depth >= MAX_JSON_DEPTH {
        true
    } else {
        match node {
            None => true,
            Some(n) => match (n.kind, value) {
                (NodeKind::Optional { inner }, _) => tags_apart(
                    model,
                    value,
                    tagging::option_source(source),
                    json_to_ron::target(model, inner),
                    depth + 1,
                ),
                (NodeKind::Sequence { .. }, JsonModel::Array(items)) => item_tags_apart(
                    model,
                    items,
                    source,
                    json_to_ron::item_types(model, node),
                    depth,
                ),
                (NodeKind::Tuple { .. }, JsonModel::Array(items)) => item_tags_apart(
                    model,
                    items,
                    source,
                    json_to_ron::item_types(model, node),
                    depth,
                ),
                (NodeKind::Object { .. }, JsonModel::Object(entries)) => entry_tags_apart(
                    model,
                    entries,
                    source,
                    json_to_ron::entry_types(model, node),
                    depth,
                ),
                (NodeKind::Dictionary { .. }, JsonModel::Object(entries)) => entry_tags_apart(
                    model,
                    entries,
                    source,
                    json_to_ron::entry_types(model, node),
                    depth,
                ),
                (NodeKind::Enum { discriminator, .. }, _) => variant_tags_apart(
                    model,
                    tagging::variant_form(value, source),
                    source,
                    n,
                    discriminator,
                    depth,
                ),
                _ => true,
            },
        }
    }
}

/// Whether an internal tag is apart from what its variant holds, and the tags in that.
pub open spec fn variant_tags_apart(
    model: Option<TypeModel>,
    value: JsonModel,
    source: Option<RonValue>,
    node: TypeNode,
    discriminator: Discriminator,
    depth: nat,
) -> bool
    decreases MAX_JSON_DEPTH + 1 - depth, 2nat,
{
    value matches JsonModel::Object(entries) ==> entries.len() == 1 ==> {
        let variant = json_to_ron::declared(Some(node), entries[0].0);
        &&& payload_tags_apart(model, entries[0].1, source, variant, depth)
        &&& discriminator matches Discriminator::Internal { tag } ==> (tagging::payload_tags(
            model,
            entries[0].1,
            source,
            variant,
            depth,
        ) matches JsonModel::Object(inner) ==> json::value_of(inner, tag@) is None)
    }
}

/// Whether the internal tags in the items are apart from what their variants hold.
pub open spec fn item_tags_apart(
    model: Option<TypeModel>,
    items: Seq<JsonModel>,
    source: Option<RonValue>,
    types: ItemTypes,
    depth: nat,
) -> bool
    decreases MAX_JSON_DEPTH + 1 - depth, 0nat,
{
    depth < MAX_JSON_DEPTH ==> forall|i: int|
        0 <= i < items.len() ==> tags_apart(
            model,
            #[trigger] items[i],
            tagging::item_source(source, i as nat),
            json_to_ron::item_type(model, types, i as nat),
            depth + 1,
        )
}

/// Whether the internal tags in the properties are apart from what their variants hold.
pub open spec fn entry_tags_apart(
    model: Option<TypeModel>,
    entries: Seq<(Seq<char>, JsonModel)>,
    source: Option<RonValue>,
    types: EntryTypes,
    depth: nat,
) -> bool
    decreases MAX_JSON_DEPTH + 1 - depth, 0nat,
{
    depth < MAX_JSON_DEPTH ==> forall|i: int|
        0 <= i < entries.len() ==> tags_apart(
            model,
            (#[trigger] entries[i]).1,
            tagging::entry_source(source, entries[i].0),
            json_to_ron::entry_type(model, types, entries[i].0),
            depth + 1,
        )
}

/// Whether the internal tags in the payload of a variant are apart from what their
/// variants hold.
pub open spec fn payload_tags_apart(
    model: Option<TypeModel>,
    payload: JsonModel,
    source: Option<RonValue>,
    variant: Option<Variant>,
    depth: nat,
) -> bool
    decreases MAX_JSON_DEPTH + 1 - depth, 1nat,
{
    match variant {
        None => true,
        Some(v) => match (v.shape, payload) {
            (VariantShape::Newtype(inner), _) => depth < MAX_JSON_DEPTH ==> tags_apart(
                model,
                payload,
                tagging::sole_source(source),
                json_to_ron::target(model, inner),
                depth + 1,
            ),
            (VariantShape::Tuple(_), JsonModel::Array(items)) => item_tags_apart(
                model,
                items,
                source,
                json_to_ron::element_types(variant),
                depth,
            ),
            (VariantShape::Struct(_), JsonModel::Object(entries)) => entry_tags_apart(
                model,
                entries,
                source,
                json_to_ron::field_types(variant),
                depth,
            ),
            _ => true,
        },
    }
}

proof fn lemma_tags_move(
    model: Option<TypeModel>,
    value: JsonModel,
    source: Option<RonValue>,
    node: Option<TypeNode>,
    depth: nat,
    path: Seq<Seq<char>>,
)
    requires
        tags_apart(model, value, source, node, depth),
        at(value, path) is Some,
    ensures
        at(
            tagging::typed_tags(model, value, source, node, depth),
            under_typed_tags(model, value, source, node, depth, path),
        ) is Some,
    decreases MAX_JSON_DEPTH + 1 - depth, 3nat,
{
    if depth < MAX_JSON_DEPTH && path.len() > 0 && node is Some {
        match (node->0.kind, value) {
            (NodeKind::Optional { inner }, _) => {
                lemma_tags_move(
                    model,
                    value,
                    tagging::option_source(source),
                    json_to_ron::target(model, inner),
                    depth + 1,
                    path,
                );
            },
            (NodeKind::Sequence { .. }, JsonModel::Array(items)) => {
                lemma_typed_items_move(
                    model,
                    items,
                    source,
                    json_to_ron::item_types(model, node),
                    depth,
                    path,
                );
            },
            (NodeKind::Tuple { .. }, JsonModel::Array(items)) => {
                lemma_typed_items_move(
                    model,
                    items,
                    source,
                    json_to_ron::item_types(model, node),
                    depth,
                    path,
                );
            },
            (NodeKind::Object { .. }, JsonModel::Object(entries)) => {
                lemma_typed_entries_move(
                    model,
                    entries,
                    source,
                    json_to_ron::entry_types(model, node),
                    depth,
                    path,
                );
            },
            (NodeKind::Dictionary { .. }, JsonModel::Object(entries)) => {
                lemma_typed_entries_move(
                    model,
                    entries,
                    source,
                    json_to_ron::entry_types(model, node),
                    depth,
                    path,
                );
            },
            (NodeKind::Enum { discriminator, .. }, _) => {
                let form = tagging::variant_form(value, source);
                let tagged_path = match tagging::struct_name(value, source) {
                    Some(name) => {
                        lemma_behind(name, path);
                        assert(json::key_position(seq![(name, value)], name, 0) == Some(0nat));
                        behind(name, path)
                    },
                    None => path,
                };
                assert(at(form, tagged_path) is Some);
                lemma_variant_moves(
                    model,
                    form,
                    source,
                    node->0,
                    discriminator,
                    depth,
                    tagged_path,
                );
            },
            _ => {},
        }
    }
}

proof fn lemma_variant_moves(
    model: Option<TypeModel>,
    value: JsonModel,
    source: Option<RonValue>,
    node: TypeNode,
    discriminator: Discriminator,
    depth: nat,
    path: Seq<Seq<char>>,
)
    requires
        variant_tags_apart(model, value, source, node, discriminator, depth),
        path.len() > 0,
        at(value, path) is Some,
    ensures
        at(
            tagging::variant_tags(model, value, source, node, discriminator, depth),
            in_variant(model, value, source, node, discriminator, depth, path),
        ) is Some,
    decreases MAX_JSON_DEPTH + 1 - depth, 2nat,
{
    if let JsonModel::Object(entries) = value {
        lemma_key_position(entries, path[0], 0);
        if entries.len() == 1 {
            let name = entries[0].0;
            let variant = json_to_ron::declared(Some(node), name);
            let rest = path.drop_first();
            lemma_typed_payload_moves(model, entries[0].1, source, variant, depth, rest);
            lemma_tag_moves(
                discriminator,
                name,
                tagging::payload_tags(model, entries[0].1, source, variant, depth),
                in_typed_payload(model, entries[0].1, source, variant, depth, rest),
            );
        }
    }
}

proof fn lemma_tag_moves(
    discriminator: Discriminator,
    name: Seq<char>,
    payload: JsonModel,
    path: Seq<Seq<char>>,
)
    requires
        at(payload, path) is Some,
        discriminator matches Discriminator::Internal { tag } ==> (payload matches JsonModel::Object(
            inner,
        ) ==> json::value_of(inner, tag@) is None),
    ensures
        at(
            ron_to_json::retagged(JsonModel::Object(seq![(name, payload)]), discriminator),
            behind_tag(discriminator, name, payload, path),
        ) is Some,
{
    let object = seq![(name, payload)];
    assert(json::key_position(object, name, 0) == Some(0nat));
    lemma_behind(name, path);
    assert(at(JsonModel::Object(object), behind(name, path)) is Some);
    match discriminator {
        Discriminator::Internal { tag } => {
            if let JsonModel::Object(inner) = payload {
                if path.len() > 0 {
                    round_trip::lemma_stored(inner, tag@, JsonModel::Str(name), path[0]);
                }
            }
        },
        Discriminator::Adjacent { tag, content } => {
            lemma_behind(content@, path);
            round_trip::lemma_stored(
                seq![(tag@, JsonModel::Str(name))],
                content@,
                payload,
                content@,
            );
        },
        _ => {},
    }
}

proof fn lemma_typed_items_move(
    model: Option<TypeModel>,
    items: Seq<JsonModel>,
    source: Option<RonValue>,
    types: ItemTypes,
    depth: nat,
    path: Seq<Seq<char>>,
)
    requires
        item_tags_apart(model, items, source, types, depth),
        at(JsonModel::Array(items), path) is Some,
    ensures
        at(
            JsonModel::Array(tagging::item_tags(model, items, source, types, depth)),
            in_typed_items(model, items, source, types, depth, path),
        ) is Some,
    decreases MAX_JSON_DEPTH + 1 - depth, 0nat,
{
    if path.len() > 0 {
        lemma_index_named(items.len(), path[0], 0);
        let i = index_named(items.len(), path[0], 0)->0;
        let rest = path.drop_first();
        let after = tagging::item_tags(model, items, source, types, depth);
        assert(index_named(after.len(), path[0], 0) == Some(i));
        if depth < MAX_JSON_DEPTH {
            let node = json_to_ron::item_type(model, types, i);
            let own = tagging::item_source(source, i);
            assert(tags_apart(
                model,
                items[i as int],
                tagging::item_source(source, (i as int) as nat),
                json_to_ron::item_type(model, types, (i as int) as nat),
                depth + 1,
            ));
            lemma_tags_move(model, items[i as int], own, node, depth + 1, rest);
            lemma_behind(
                path[0],
                under_typed_tags(model, items[i as int], own, node, depth + 1, rest),
            );
        } else {
            assert(after =~= items);
        }
    }
}

proof fn lemma_typed_entries_move(
    model: Option<TypeModel>,
    entries: Seq<(Seq<char>, JsonModel)>,
    source: Option<RonValue>,
    types: EntryTypes,
    depth: nat,
    path: Seq<Seq<char>>,
)
    requires
        entry_tags_apart(model, entries, source, types, depth),
        at(JsonModel::Object(entries), path) is Some,
    ensures
        at(
            JsonModel::Object(tagging::entry_tags(model, entries, source, types, depth)),
            in_typed_entries(model, entries, source, types, depth, path),
        ) is Some,
    decreases MAX_JSON_DEPTH + 1 - depth, 0nat,
{
    if path.len() > 0 {
        let after = tagging::entry_tags(model, entries, source, types, depth);
        lemma_key_position(entries, path[0], 0);
        lemma_same_position(entries, after, path[0], 0);
        let k = json::key_position(entries, path[0], 0)->0;
        let rest = path.drop_first();
        if depth < MAX_JSON_DEPTH {
            let node = json_to_ron::entry_type(model, types, path[0]);
            let own = tagging::entry_source(source, path[0]);
            lemma_tags_move(model, entries[k as int].1, own, node, depth + 1, rest);
            lemma_behind(
                path[0],
                under_typed_tags(model, entries[k as int].1, own, node, depth + 1, rest),
            );
        } else {
            assert(after =~= entries);
        }
    }
}

proof fn lemma_typed_payload_moves(
    model: Option<TypeModel>,
    payload: JsonModel,
    source: Option<RonValue>,
    variant: Option<Variant>,
    depth: nat,
    path: Seq<Seq<char>>,
)
    requires
        payload_tags_apart(model, payload, source, variant, depth),
        at(payload, path) is Some,
    ensures
        at(
            tagging::payload_tags(model, payload, source, variant, depth),
            in_typed_payload(model, payload, source, variant, depth, path),
        ) is Some,
    decreases MAX_JSON_DEPTH + 1 - depth, 1nat,
{
    if let Some(v) = variant {
        match (v.shape, payload) {
            (VariantShape::Newtype(inner), _) => {
                if depth < MAX_JSON_DEPTH {
                    lemma_tags_move(
                        model,
                        payload,
                        tagging::sole_source(source),
                        json_to_ron::target(model, inner),
                        depth + 1,
                        path,
                    );
                }
            },
            (VariantShape::Tuple(_), JsonModel::Array(items)) => {
                lemma_typed_items_move(
                    model,
                    items,
                    source,
                    json_to_ron::element_types(variant),
                    depth,
                    path,
                );
            },
            (VariantShape::Struct(_), JsonModel::Object(entries)) => {
                lemma_typed_entries_move(
                    model,
                    entries,
                    source,
                    json_to_ron::field_types(variant),
                    depth,
                    path,
                );
            },
            _ => {},
        }
    }
}

proof fn lemma_item_stands(
    items: Seq<JsonModel>,
    pointer: Seq<char>,
    place: Seq<char>,
    from: nat,
    i: nat,
)
    requires
        from <= i < items.len(),
        place == pointer::index_pointer(pointer, i) || emit::stands_at(
            items[i as int],
            pointer::index_pointer(pointer, i),
            place,
        ),
    ensures
        emit::item_stands_at(items, pointer, place, from),
    decreases i - from,
{
    if from < i {
        lemma_item_stands(items, pointer, place, from + 1, i);
    }
}

proof fn lemma_entry_stands(
    entries: Seq<(Seq<char>, JsonModel)>,
    pointer: Seq<char>,
    place: Seq<char>,
    from: nat,
    i: nat,
)
    requires
        from <= i < entries.len(),
        place == pointer::key_pointer(pointer, entries[i as int].0) || emit::stands_at(
            entries[i as int].1,
            pointer::key_pointer(pointer, entries[i as int].0),
            place,
        ),
    ensures
        emit::entry_stands_at(entries, pointer, place, from),
    decreases i - from,
{
    if from < i {
        lemma_entry_stands(entries, pointer, place, from + 1, i);
    }
}

/// What is found at a path stands at its pointer.
proof fn lemma_stands(value: JsonModel, pointer: Seq<char>, path: Seq<Seq<char>>)
    requires
        path.len() > 0,
        at(value, path) is Some,
    ensures
        emit::stands_at(value, pointer, pointer_from(pointer, path)),
    decreases path.len(),
{
    let place = pointer_from(pointer, path);
    let rest = path.drop_first();
    let under = pointer::key_pointer(pointer, path[0]);
    assert(place == pointer_from(under, rest));
    match value {
        JsonModel::Array(items) => {
            lemma_index_named(items.len(), path[0], 0);
            let i = index_named(items.len(), path[0], 0)->0;
            pointer::lemma_decimal(i);
            assert(under == pointer::index_pointer(pointer, i));
            if rest.len() > 0 {
                lemma_stands(items[i as int], under, rest);
            }
            lemma_item_stands(items, pointer, place, 0, i);
        },
        JsonModel::Object(entries) => {
            lemma_key_position(entries, path[0], 0);
            let k = json::key_position(entries, path[0], 0)->0;
            if rest.len() > 0 {
                lemma_stands(entries[k as int].1, under, rest);
            }
            lemma_entry_stands(entries, pointer, place, 0, k);
        },
        _ => {},
    }
}

/// The anchors of the comments move with their values: what stands in the parser's
/// mapping of a document stands, at the moved pointer, in the converted document.
pub proof fn anchors_stand(
    model: Option<TypeModel>,
    value: JsonModel,
    source: RonValue,
    bound: Option<TypeNode>,
    comment: CommentModel,
)
    requires
        at(value, segments(comment.anchor)) is Some,
        keys_apart(value, source),
        tags_apart(
            model,
            ron_to_json::with_final_keys(value, source),
            Some(source),
            bound,
            0,
        ),
    ensures
        ({
            let anchor = converted_comment(model, value, source, bound, comment).anchor;
            let json = ron_to_json::conventional(model, value, source, bound);
            anchor == Seq::<char>::empty() || emit::stands_at(json, Seq::empty(), anchor)
        }),
{
    let path = segments(comment.anchor);
    let keyed = ron_to_json::with_final_keys(value, source);
    let moved = under_final_keys(value, source, path);
    lemma_keys_move(value, source, path);
    lemma_tags_move(model, keyed, Some(source), bound, 0, moved);
    let last = under_typed_tags(model, keyed, Some(source), bound, 0, moved);
    if last.len() > 0 {
        lemma_stands(ron_to_json::conventional(model, value, source, bound), Seq::empty(), last);
    }
}

/// The text of a path without a pointer before it.
spec fn joined(path: Seq<Seq<char>>) -> Seq<char>
    decreases path.len(),
{
    if path.len() == 0 {
        Seq::empty()
    } else {
        seq!['/'] + pointer::escaped(path[0]) + joined(path.drop_first())
    }
}

proof fn lemma_joined(pointer: Seq<char>, path: Seq<Seq<char>>)
    ensures
        pointer_from(pointer, path) == pointer + joined(path),
    decreases path.len(),
{
    if path.len() == 0 {
        assert(pointer + joined(path) =~= pointer);
    } else {
        lemma_joined(pointer::key_pointer(pointer, path[0]), path.drop_first());
        assert(pointer::key_pointer(pointer, path[0]) + joined(path.drop_first()) =~= pointer
            + joined(path));
    }
}

proof fn lemma_segment_ends(s: Seq<char>, from: int, end: int)
    requires
        0 <= from <= end <= s.len(),
        forall|i: int| from <= i < end ==> #[trigger] s[i] != '/',
        end < s.len() ==> s[end] == '/',
    ensures
        text::index_from(s, '/', from) == end,
    decreases end - from,
{
    if from < end {
        lemma_segment_ends(s, from + 1, end);
    }
}

proof fn lemma_split(path: Seq<Seq<char>>)
    ensures
        segments(joined(path)) == path,
    decreases path.len(),
{
    if path.len() == 0 {
        assert(segments(joined(path)) =~= path);
    } else {
        let head = pointer::escaped(path[0]);
        let rest = joined(path.drop_first());
        let all = joined(path);
        let end = 1 + head.len() as int;
        pointer::lemma_escaped(path[0]);
        assert forall|i: int| 1 <= i < end implies #[trigger] all[i] != '/' by {
            assert(all[i] == head[i - 1]);
        }
        if path.drop_first().len() > 0 {
            assert(rest[0] == '/');
        }
        lemma_segment_ends(all, 1, end);
        assert(all.subrange(1, end) =~= head);
        assert(all.skip(end) =~= rest);
        pointer::unescaping_undoes_escaping(path[0]);
        lemma_split(path.drop_first());
        assert(segments(all) =~= path);
    }
}

/// The segments of a pointer are those it was made of.
pub proof fn segments_are_read_back(path: Seq<Seq<char>>)
    ensures
        segments(pointer_text(path)) == path,
{
    lemma_joined(Seq::empty(), path);
    assert(Seq::<char>::empty() + joined(path) =~= joined(path));
    lemma_split(path);
}

/// Whether a value has the places of the parser's mapping of a source value: a value for
/// every field, item, map entry and payload.
pub open spec fn fits(value: JsonModel, source: RonValue) -> bool
    decreases source, 0nat,
{
    match source.shape {
        Shape::Struct { fields, .. } => value matches JsonModel::Object(object) && fields_fit(
            object,
            fields@,
        ),
        Shape::Tuple { name, items } => if syntax::named(name, "Some"@) {
            items@.len() > 0 ==> fits(value, items@[0])
        } else {
            match name {
                Some(n) => payload_at(value, n@) matches Some(payload) && payload_fits(
                    payload,
                    items@,
                ),
                None => value matches JsonModel::Array(array) && items_fit(array, items@),
            }
        },
        Shape::List { items } => value matches JsonModel::Array(array) && items_fit(array, items@),
        Shape::Dictionary { entries } => value matches JsonModel::Object(object) && forall|k: int|
            0 <= k < entries@.len() ==> entry_fits(object, #[trigger] entries@[k]),
        Shape::EnumVariant { name, items, entries } => if pointer::is_bare_none(
            name,
            items@,
            entries@,
        ) {
            true
        } else if pointer::is_some_of(name, items@) {
            fits(value, items@[0])
        } else {
            payload_at(value, syntax::text_or_empty(name)) matches Some(payload) && if entries@.len()
                > 0 || syntax::brace_among(source.layout@) {
                payload matches JsonModel::Object(object) && forall|k: int|
                    0 <= k < entries@.len() ==> member_fits(object, #[trigger] entries@[k])
            } else {
                payload_fits(payload, items@)
            }
        },
        Shape::Unit | Shape::Literal { .. } | Shape::Error => true,
    }
}

/// What the variant `name` holds in an externally tagged value.
pub open spec fn payload_at(value: JsonModel, name: Seq<char>) -> Option<JsonModel> {
    match value {
        JsonModel::Object(object) => json::value_of(object, name),
        _ => None,
    }
}

/// Whether what a variant holds has the places of its positional payload.
pub open spec fn payload_fits(payload: JsonModel, items: Seq<RonValue>) -> bool
    decreases items, 1nat,
{
    if items.len() == 1 {
        fits(payload, items[0])
    } else {
        items.len() > 0 ==> (payload matches JsonModel::Array(array) && items_fit(array, items))
    }
}

/// Whether a list has the places of the items.
pub open spec fn items_fit(array: Seq<JsonModel>, items: Seq<RonValue>) -> bool
    decreases items, 0nat,
{
    array.len() == items.len() && forall|i: int|
        0 <= i < items.len() ==> fits(array[i], #[trigger] items[i])
}

/// Whether an object has the places of the fields.
pub open spec fn fields_fit(object: Seq<(Seq<char>, JsonModel)>, fields: Seq<StructField>) -> bool
    decreases fields, 0nat,
{
    forall|k: int| 0 <= k < fields.len() ==> field_fits(object, #[trigger] fields[k])
}

/// Whether an object has the places of a field.
pub open spec fn field_fits(object: Seq<(Seq<char>, JsonModel)>, field: StructField) -> bool
    decreases field, 0nat,
{
    match (field.name, field.value) {
        (Some(name), Some(source)) => json::value_of(object, name@) matches Some(v) && fits(
            v,
            source,
        ),
        _ => true,
    }
}

/// Whether an object has the places of a map entry.
pub open spec fn entry_fits(object: Seq<(Seq<char>, JsonModel)>, entry: MapEntry) -> bool
    decreases entry, 0nat,
{
    match (entry.key, entry.value) {
        (Some(key), Some(source)) => json::value_of(object, pointer::key_text(key)) matches Some(v)
            && fits(v, source),
        _ => true,
    }
}

/// Whether an object has the places of an entry of a brace-style variant.
pub open spec fn member_fits(object: Seq<(Seq<char>, JsonModel)>, entry: MapEntry) -> bool
    decreases entry, 0nat,
{
    match (pointer::entry_name(entry), entry.value) {
        (Some(name), Some(source)) => json::value_of(object, name) matches Some(v) && fits(
            v,
            source,
        ),
        _ => true,
    }
}

/// Whether a value is found at the place `place` inside the value at `pointer`.
spec fn found(value: JsonModel, pointer: Seq<char>, place: Seq<char>) -> bool {
    exists|path: Seq<Seq<char>>|
        place == #[trigger] pointer_from(pointer, path) && at(value, path) is Some
}

proof fn lemma_found_here(value: JsonModel, pointer: Seq<char>)
    ensures
        found(value, pointer, pointer),
{
    let path = Seq::<Seq<char>>::empty();
    assert(pointer_from(pointer, path) == pointer);
    assert(at(value, path) is Some);
}

proof fn lemma_found_under(
    object: Seq<(Seq<char>, JsonModel)>,
    key: Seq<char>,
    pointer: Seq<char>,
    place: Seq<char>,
)
    requires
        json::value_of(object, key) matches Some(v) && found(
            v,
            pointer::key_pointer(pointer, key),
            place,
        ),
    ensures
        found(JsonModel::Object(object), pointer, place),
{
    let v = json::value_of(object, key)->0;
    let under = pointer::key_pointer(pointer, key);
    let path = choose|path: Seq<Seq<char>>|
        place == #[trigger] pointer_from(under, path) && at(v, path) is Some;
    lemma_behind(key, path);
    assert(pointer_from(pointer, behind(key, path)) == place);
    assert(at(JsonModel::Object(object), behind(key, path)) is Some);
}

pub proof fn lemma_index_is_named(n: nat, i: nat, from: nat)
    requires
        from <= i < n,
    ensures
        index_named(n, text::decimal(i), from) == Some(i),
    decreases i - from,
{
    if from < i {
        if text::decimal(from) == text::decimal(i) {
            pointer::lemma_decimal_distinct(from, i);
        }
        lemma_index_is_named(n, i, from + 1);
    }
}

proof fn lemma_found_at_index(
    array: Seq<JsonModel>,
    i: nat,
    pointer: Seq<char>,
    place: Seq<char>,
)
    requires
        i < array.len(),
        found(array[i as int], pointer::index_pointer(pointer, i), place),
    ensures
        found(JsonModel::Array(array), pointer, place),
{
    let under = pointer::index_pointer(pointer, i);
    let key = text::decimal(i);
    pointer::lemma_decimal(i);
    let path = choose|path: Seq<Seq<char>>|
        place == #[trigger] pointer_from(under, path) && at(array[i as int], path) is Some;
    lemma_behind(key, path);
    lemma_index_is_named(array.len(), i, 0);
    assert(pointer_from(pointer, behind(key, path)) == place);
    assert(at(JsonModel::Array(array), behind(key, path)) is Some);
}

proof fn lemma_pointers_found(value: JsonModel, source: RonValue, pointer: Seq<char>, j: int)
    requires
        fits(value, source),
        0 <= j < pointer::value_pointers(source, pointer).len(),
    ensures
        found(value, pointer, pointer::value_pointers(source, pointer)[j].1),
    decreases source, 0nat,
{
    let place = pointer::value_pointers(source, pointer)[j].1;
    if j == 0 {
        lemma_found_here(value, pointer);
    } else {
        match source.shape {
            Shape::Struct { fields, .. } => {
                if let JsonModel::Object(object) = value {
                    lemma_fields_found(object, fields@, pointer, 0, j - 1);
                }
            },
            Shape::Tuple { name, items } => {
                if syntax::named(name, "Some"@) {
                    lemma_pointers_found(value, items@[0], pointer, j - 1);
                } else {
                    match name {
                        Some(n) => {
                            let payload = payload_at(value, n@)->0;
                            let under = pointer::key_pointer(pointer, n@);
                            lemma_payload_found(payload, items@, under, j - 1);
                            if let JsonModel::Object(object) = value {
                                lemma_found_under(object, n@, pointer, place);
                            }
                        },
                        None => {
                            if let JsonModel::Array(array) = value {
                                lemma_items_found(array, items@, pointer, 0, j - 1);
                            }
                        },
                    }
                }
            },
            Shape::List { items } => {
                if let JsonModel::Array(array) = value {
                    lemma_items_found(array, items@, pointer, 0, j - 1);
                }
            },
            Shape::Dictionary { entries } => {
                if let JsonModel::Object(object) = value {
                    lemma_entries_found(object, entries@, pointer, 0, j - 1);
                }
            },
            Shape::EnumVariant { name, items, entries } => {
                if pointer::is_some_of(name, items@) {
                    lemma_pointers_found(value, items@[0], pointer, j - 1);
                } else {
                    let text = syntax::text_or_empty(name);
                    let payload = payload_at(value, text)->0;
                    let under = pointer::key_pointer(pointer, text);
                    if entries@.len() > 0 || syntax::brace_among(source.layout@) {
                        if let JsonModel::Object(object) = payload {
                            lemma_members_found(object, entries@, under, 0, j - 1);
                        }
                    } else {
                        lemma_payload_found(payload, items@, under, j - 1);
                    }
                    if let JsonModel::Object(object) = value {
                        lemma_found_under(object, text, pointer, place);
                    }
                }
            },
            Shape::Unit | Shape::Literal { .. } | Shape::Error => {},
        }
    }
}

proof fn lemma_payload_found(
    payload: JsonModel,
    items: Seq<RonValue>,
    pointer: Seq<char>,
    j: int,
)
    requires
        payload_fits(payload, items),
        0 <= j < pointer::payload_pointers(items, pointer).len(),
    ensures
        found(payload, pointer, pointer::payload_pointers(items, pointer)[j].1),
    decreases items, items.len() + 1,
{
    if items.len() == 1 {
        lemma_pointers_found(payload, items[0], pointer, j);
    } else if items.len() > 0 {
        if let JsonModel::Array(array) = payload {
            lemma_items_found(array, items, pointer, 0, j);
        }
    }
}

proof fn lemma_items_found(
    array: Seq<JsonModel>,
    items: Seq<RonValue>,
    pointer: Seq<char>,
    from: nat,
    j: int,
)
    requires
        items_fit(array, items),
        0 <= j < pointer::item_pointers(items, pointer, from).len(),
    ensures
        found(
            JsonModel::Array(array),
            pointer,
            pointer::item_pointers(items, pointer, from)[j].1,
        ),
    decreases items, items.len() - from,
{
    let place = pointer::item_pointers(items, pointer, from)[j].1;
    let under = pointer::index_pointer(pointer, from);
    let first = pointer::value_pointers(items[from as int], under);
    if j < first.len() {
        lemma_pointers_found(array[from as int], items[from as int], under, j);
        lemma_found_at_index(array, from, pointer, place);
    } else {
        lemma_items_found(array, items, pointer, from + 1, j - first.len());
    }
}

proof fn lemma_fields_found(
    object: Seq<(Seq<char>, JsonModel)>,
    fields: Seq<StructField>,
    pointer: Seq<char>,
    from: nat,
    j: int,
)
    requires
        fields_fit(object, fields),
        0 <= j < pointer::field_pointers(fields, pointer, from).len(),
    ensures
        found(
            JsonModel::Object(object),
            pointer,
            pointer::field_pointers(fields, pointer, from)[j].1,
        ),
    decreases fields, fields.len() - from,
{
    let place = pointer::field_pointers(fields, pointer, from)[j].1;
    let field = fields[from as int];
    assert(field_fits(object, field));
    assert(decreases_to!(fields => field));
    match (field.name, field.value) {
        (Some(name), Some(source)) => {
            let under = pointer::key_pointer(pointer, name@);
            let first = pointer::value_pointers(source, under);
            if j < first.len() {
                lemma_pointers_found(json::value_of(object, name@)->0, source, under, j);
                lemma_found_under(object, name@, pointer, place);
            } else {
                lemma_fields_found(object, fields, pointer, from + 1, j - first.len());
            }
        },
        _ => {
            lemma_fields_found(object, fields, pointer, from + 1, j);
        },
    }
}

proof fn lemma_entries_found(
    object: Seq<(Seq<char>, JsonModel)>,
    entries: Seq<MapEntry>,
    pointer: Seq<char>,
    from: nat,
    j: int,
)
    requires
        forall|k: int| 0 <= k < entries.len() ==> entry_fits(object, #[trigger] entries[k]),
        0 <= j < pointer::map_pointers(entries, pointer, from).len(),
    ensures
        found(
            JsonModel::Object(object),
            pointer,
            pointer::map_pointers(entries, pointer, from)[j].1,
        ),
    decreases entries, entries.len() - from,
{
    let place = pointer::map_pointers(entries, pointer, from)[j].1;
    let entry = entries[from as int];
    assert(entry_fits(object, entry));
    assert(decreases_to!(entries => entry));
    match (entry.key, entry.value) {
        (Some(key), Some(source)) => {
            let name = pointer::key_text(key);
            let under = pointer::key_pointer(pointer, name);
            let first = pointer::value_pointers(source, under);
            if j < first.len() {
                lemma_pointers_found(json::value_of(object, name)->0, source, under, j);
                lemma_found_under(object, name, pointer, place);
            } else {
                lemma_entries_found(object, entries, pointer, from + 1, j - first.len());
            }
        },
        _ => {
            lemma_entries_found(object, entries, pointer, from + 1, j);
        },
    }
}

proof fn lemma_members_found(
    object: Seq<(Seq<char>, JsonModel)>,
    entries: Seq<MapEntry>,
    pointer: Seq<char>,
    from: nat,
    j: int,
)
    requires
        forall|k: int| 0 <= k < entries.len() ==> member_fits(object, #[trigger] entries[k]),
        0 <= j < pointer::entry_pointers(entries, pointer, from).len(),
    ensures
        found(
            JsonModel::Object(object),
            pointer,
            pointer::entry_pointers(entries, pointer, from)[j].1,
        ),
    decreases entries, entries.len() - from,
{
    let place = pointer::entry_pointers(entries, pointer, from)[j].1;
    let entry = entries[from as int];
    assert(member_fits(object, entry));
    assert(decreases_to!(entries => entry));
    match (pointer::entry_name(entry), entry.value) {
        (Some(name), Some(source)) => {
            let under = pointer::key_pointer(pointer, name);
            let first = pointer::value_pointers(source, under);
            if j < first.len() {
                lemma_pointers_found(json::value_of(object, name)->0, source, under, j);
                lemma_found_under(object, name, pointer, place);
            } else {
                lemma_members_found(object, entries, pointer, from + 1, j - first.len());
            }
        },
        _ => {
            lemma_members_found(object, entries, pointer, from + 1, j);
        },
    }
}

/// The comments of a document are anchored to values of it.
proof fn lemma_anchor_is_found(
    value: JsonModel,
    root: RonValue,
    tokens: Seq<Token>,
    n: nat,
    i: int,
)
    requires
        fits(value, root),
        0 <= i < comments::comments_in(
            tokens,
            pointer::value_pointers(root, Seq::empty()),
            n,
        ).len(),
    ensures
        found(
            value,
            Seq::empty(),
            comments::comments_in(tokens, pointer::value_pointers(root, Seq::empty()), n)[i].anchor,
        ),
    decreases n,
{
    let none = Seq::<char>::empty();
    let values = pointer::value_pointers(root, none);
    let all = comments::comments_in(tokens, values, n);
    let before = comments::comments_in(tokens, values, (n - 1) as nat);
    if i < before.len() {
        lemma_anchor_is_found(value, root, tokens, (n - 1) as nat, i);
        assert(all[i] == before[i]);
    } else {
        let offset = tokens[n - 1].range.end;
        comments::anchor_is_the_nearest_following_value(values, offset);
        match comments::following_value(values, offset) {
            Some(v) => {
                let j = choose|j: int|
                    0 <= j < values.len() && (#[trigger] values[j]).0.start == v.0 && values[j].1
                        == v.1;
                lemma_pointers_found(value, root, none, j);
            },
            None => {
                lemma_found_here(value, none);
            },
        }
    }
}

/// Every comment of a document is anchored to a value of the converted document, or to
/// the document itself, whatever keys and tags on the way were rewritten.
pub proof fn comments_keep_their_values(
    doc: RonDocument,
    root: RonValue,
    value: JsonModel,
    model: Option<TypeModel>,
    bound: Option<TypeNode>,
    i: int,
)
    requires
        doc.root == Some(root),
        fits(value, root),
        keys_apart(value, root),
        tags_apart(
            model,
            ron_to_json::with_final_keys(value, root),
            Some(root),
            bound,
            0,
        ),
        0 <= i < comments::document_comments(doc).len(),
    ensures
        ({
            let list = converted_comments(
                model,
                value,
                root,
                bound,
                comments::document_comments(doc),
            );
            let json = ron_to_json::conventional(model, value, root, bound);
            list[i].anchor == Seq::<char>::empty() || emit::stands_at(
                json,
                Seq::empty(),
                list[i].anchor,
            )
        }),
{
    let none = Seq::<char>::empty();
    let comment = comments::document_comments(doc)[i];
    lemma_anchor_is_found(value, root, doc.tokens@, doc.tokens@.len(), i);
    let path = choose|path: Seq<Seq<char>>|
        comment.anchor == #[trigger] pointer_from(none, path) && at(value, path) is Some;
    segments_are_read_back(path);
    anchors_stand(model, value, root, bound, comment);
}

/// The comments of a converted document are read back from its JSON with comments: where
/// a comment is anchored, the text holds the comments that are anchored there.
pub proof fn converted_comments_are_read_back(
    doc: RonDocument,
    root: RonValue,
    value: JsonModel,
    model: Option<TypeModel>,
    bound: Option<TypeNode>,
    indent: nat,
    i: int,
)
    requires
        doc.root == Some(root),
        fits(value, root),
        keys_apart(value, root),
        tags_apart(
            model,
            ron_to_json::with_final_keys(value, root),
            Some(root),
            bound,
            0,
        ),
        read_back::readable(ron_to_json::conventional(model, value, root, bound), 0),
        read_back::are_comments(comments::document_comments(doc)),
        0 <= i < comments::document_comments(doc).len(),
    ensures
        ({
            let list = converted_comments(
                model,
                value,
                root,
                bound,
                comments::document_comments(doc),
            );
            let json = ron_to_json::conventional(model, value, root, bound);
            read_back::remarks_at(
                jsonc::comments_in(emit::document_text(json, list, indent)),
                list[i].anchor,
            ) == read_back::remarks_at(list, list[i].anchor)
        }),
{
    let all = comments::document_comments(doc);
    let list = converted_comments(model, value, root, bound, all);
    comments_keep_their_values(doc, root, value, model, bound, i);
    assert forall|j: int| 0 <= j < list.len() implies read_back::is_comment(
        (#[trigger] list[j]).text,
        list[j].kind,
    ) by {
        assert(read_back::is_comment(all[j].text, all[j].kind));
    }
    read_back::inline_comments_are_read_back(
        ron_to_json::conventional(model, value, root, bound),
        list,
        indent,
        list[i].anchor,
    );
}

/// What a pointer segment stands for.
fn unescape_segment(chars: &Vec<char>, from: usize, to: usize) -> (r: String)
    requires
        from <= to <= chars@.len(),
    ensures
        r@ == pointer::unescaped(chars@.subrange(from as int, to as int)),
{
    let ghost all = chars@.subrange(from as int, to as int);
    let mut out = String::new();
    let mut i: usize = from;
    assert(all.skip(0) =~= all);
    assert(out@ + pointer::unescaped(all.skip(0)) =~= pointer::unescaped(all));
    while i < to
        invariant
            from <= i <= to <= chars@.len(),
            all == chars@.subrange(from as int, to as int),
            out@ + pointer::unescaped(all.skip(i - from)) == pointer::unescaped(all),
        decreases to - i,
    {
        let ghost rest = all.skip(i - from);
        let ghost before = out@;
        assert(rest[0] == chars@[i as int]);
        if chars[i] == '~' && i + 1 < to {
            assert(rest[1] == chars@[i + 1]);
            let c = if chars[i + 1] == '0' {
                '~'
            } else {
                '/'
            };
            out.push(c);
            i += 2;
            assert(rest.skip(2) =~= all.skip(i - from));
            assert(out@ + pointer::unescaped(all.skip(i - from)) =~= before + pointer::unescaped(
                rest,
            ));
        } else {
            out.push(chars[i]);
            i += 1;
            assert(rest.drop_first() =~= all.skip(i - from));
            assert(out@ + pointer::unescaped(all.skip(i - from)) =~= before + pointer::unescaped(
                rest,
            ));
        }
    }
    assert(out@ + pointer::unescaped(all.skip(i - from)) =~= out@);
    out
}

/// The segments of a pointer.
pub fn split_pointer(pointer: &str) -> (r: Vec<String>)
    ensures
        text::strings(r@) == segments(pointer@),
{
    let chars = text::chars_of(pointer);
    let mut out: Vec<String> = Vec::new();
    let mut i: usize = 0;
    assert(chars@.skip(0) =~= pointer@);
    assert(text::strings(out@) + segments(chars@.skip(0)) =~= segments(pointer@));
    while i < chars.len()
        invariant
            i <= chars@.len(),
            text::strings(out@) + segments(chars@.skip(i as int)) == segments(pointer@),
        decreases chars@.len() - i,
    {
        let ghost rest = chars@.skip(i as int);
        let ghost before = text::strings(out@);
        proof {
            lemma_index_from(rest, '/', 1);
            pointer::lemma_index_from_skip(chars@, '/', i as int, 1);
        }
        let end = text::find_from(&chars, '/', i + 1);
        let segment = unescape_segment(&chars, i + 1, end);
        assert(rest.subrange(1, end - i) =~= chars@.subrange(i + 1, end as int));
        assert(rest.skip(end - i) =~= chars@.skip(end as int));
        let ghost read = segment@;
        out.push(segment);
        assert(text::strings(out@) =~= before.push(read));
        assert(text::strings(out@) + segments(chars@.skip(end as int)) =~= before + segments(rest));
        i = end;
    }
    assert(text::strings(out@) + segments(chars@.skip(i as int)) =~= text::strings(out@));
    out
}

/// The pointer with the given segments.
pub fn join_pointer(path: &Vec<String>) -> (r: String)
    ensures
        r@ == pointer_text(text::strings(path@)),
{
    let ghost all = text::strings(path@);
    let mut out = String::new();
    let mut i: usize = 0;
    assert(out@ =~= Seq::<char>::empty());
    assert(all.skip(0) =~= all);
    while i < path.len()
        invariant
            i <= path@.len(),
            all == text::strings(path@),
            pointer_from(out@, all.skip(i as int)) == pointer_text(all),
        decreases path@.len() - i,
    {
        assert(all.skip(i as int)[0] == path@[i as int]@);
        assert(all.skip(i as int).drop_first() =~= all.skip(i + 1));
        out = pointer::push_key(out.as_str(), path[i].as_str());
        i += 1;
    }
    out
}

/// The index below `n` that is written as `segment`.
fn find_index(n: usize, segment: &str) -> (r: Option<usize>)
    ensures
        match r {
            Some(i) => i < n && index_named(n as nat, segment@, 0) == Some(i as nat),
            None => index_named(n as nat, segment@, 0) is None,
        },
{
    let mut i: usize = 0;
    while i < n
        invariant
            i <= n,
            index_named(n as nat, segment@, i as nat) == index_named(n as nat, segment@, 0),
        decreases n - i,
    {
        let mut written = String::new();
        text::push_decimal(&mut written, i);
        assert(written@ =~= text::decimal(i as nat));
        if text::same_text(written.as_str(), segment) {
            return Some(i);
        }
        i += 1;
    }
    None
}

/// The first map entry with the property name `name`.
fn find_entry(entries: &Vec<MapEntry>, name: &str) -> (r: Option<usize>)
    ensures
        match r {
            Some(k) => k < entries@.len() && entry_of(entries@, name@, 0) == Some(k as nat)
                && entries@[k as int].key is Some,
            None => entry_of(entries@, name@, 0) is None,
        },
{
    let mut i: usize = 0;
    while i < entries.len()
        invariant
            i <= entries@.len(),
            entry_of(entries@, name@, i as nat) == entry_of(entries@, name@, 0),
        decreases entries@.len() - i,
    {
        if let Some(key) = &entries[i].key {
            let own = pointer::projection_key_string(key);
            if text::same_text(own.as_str(), name) {
                return Some(i);
            }
        }
        i += 1;
    }
    None
}

/// The first segment of a path, and the rest.
fn split_first(path: Vec<String>) -> (r: (String, Vec<String>))
    requires
        path@.len() > 0,
    ensures
        r.0@ == text::strings(path@)[0],
        text::strings(r.1@) == text::strings(path@).drop_first(),
{
    let mut rest = path;
    let first = rest.remove(0);
    assert(text::strings(rest@) =~= text::strings(path@).drop_first());
    (first, rest)
}

/// A path behind one more segment.
fn put_first(segment: String, path: Vec<String>) -> (r: Vec<String>)
    ensures
        text::strings(r@) == behind(segment@, text::strings(path@)),
{
    let mut r = path;
    let ghost first = segment@;
    r.insert(0, segment);
    assert(text::strings(r@) =~= behind(first, text::strings(path@)));
    r
}

/// Where the value at `path` stands when every map has its final keys.
fn move_under_keys(value: &Json, source: &RonValue, path: Vec<String>) -> (r: Vec<String>)
    ensures
        text::strings(r@) == under_final_keys(value.model(), *source, text::strings(path@)),
    decreases source, 0nat,
{
    if path.len() == 0 {
        return path;
    }
    match &source.shape {
        Shape::Dictionary { entries } => {
            if let Json::Object(object) = value {
                return move_in_entries(object, entries, path);
            }
        },
        Shape::Struct { name, fields } => {
            if let Json::Object(object) = value {
                if ron_to_json::is_tagged_struct(name, fields, object) {
                    assert(json::entry_models(object@)[0] == object@[0].model());
                    if let Json::Object(inner) = &object[0].value {
                        let (first, rest) = split_first(path);
                        return put_first(first, move_in_fields(inner, fields, rest));
                    }
                    return path;
                }
                return move_in_fields(object, fields, path);
            }
        },
        Shape::List { items } => {
            if let Json::Array(array) = value {
                return move_in_items(array, items, path);
            }
        },
        Shape::Tuple { name, items } => {
            if syntax::is_named(name, "Some") {
                if items.len() > 0 {
                    return move_under_keys(value, &items[0], path);
                }
            } else if let Json::Array(array) = value {
                return move_in_items(array, items, path);
            } else if let Json::Object(object) = value {
                if name.is_some() && object.len() == 1 {
                    assert(json::entry_models(object@)[0] == object@[0].model());
                    let (first, rest) = split_first(path);
                    return put_first(first, move_in_payload(&object[0].value, items, rest));
                }
            }
        },
        Shape::EnumVariant { name, items, .. } => {
            let name_text = syntax::text_of(name);
            if text::same_text(name_text.as_str(), "Some") && items.len() > 0 {
                return move_under_keys(value, &items[0], path);
            } else if let Json::Object(object) = value {
                if object.len() == 1 {
                    assert(json::entry_models(object@)[0] == object@[0].model());
                    let (first, rest) = split_first(path);
                    return put_first(first, move_in_payload(&object[0].value, items, rest));
                }
            }
        },
        _ => {},
    }
    path
}

fn move_in_payload(payload: &Json, items: &Vec<RonValue>, path: Vec<String>) -> (r: Vec<String>)
    ensures
        text::strings(r@) == in_payload(payload.model(), items@, text::strings(path@)),
    decreases items@, 1nat,
{
    if items.len() == 1 {
        return move_under_keys(payload, &items[0], path);
    }
    if let Json::Array(array) = payload {
        return move_in_items(array, items, path);
    }
    path
}

fn move_in_items(array: &Vec<Json>, items: &Vec<RonValue>, path: Vec<String>) -> (r: Vec<String>)
    ensures
        text::strings(r@) == in_items(json::json_models(array@), items@, text::strings(path@)),
    decreases items@, 0nat,
{
    if path.len() == 0 {
        return path;
    }
    assert(text::strings(path@)[0] == path@[0]@);
    match find_index(array.len(), path[0].as_str()) {
        Some(i) => if i < items.len() {
            assert(json::json_models(array@)[i as int] == array@[i as int].model());
            let (first, rest) = split_first(path);
            put_first(first, move_under_keys(&array[i], &items[i], rest))
        } else {
            path
        },
        None => path,
    }
}

fn move_in_fields(object: &Vec<Entry>, fields: &Vec<StructField>, path: Vec<String>) -> (r: Vec<
    String,
>)
    ensures
        text::strings(r@) == in_fields(
            json::entry_models(object@),
            fields@,
            text::strings(path@),
        ),
    decreases fields@, fields@.len() + 1,
{
    if path.len() == 0 {
        return path;
    }
    assert(text::strings(path@)[0] == path@[0]@);
    match json::position_of(object, path[0].as_str()) {
        Some(k) => {
            assert(json::entry_models(object@)[k as int] == object@[k as int].model());
            let (first, rest) = split_first(path);
            let moved = move_in_field(&object[k].value, first.as_str(), fields, rest);
            put_first(first, moved)
        },
        None => path,
    }
}

fn move_in_field(value: &Json, key: &str, fields: &Vec<StructField>, path: Vec<String>) -> (r: Vec<
    String,
>)
    ensures
        text::strings(r@) == in_field(value.model(), key@, fields@, 0, text::strings(path@)),
    decreases fields@, fields@.len(),
{
    let mut current: Json = value.copy();
    let mut moved: Vec<String> = path;
    let mut i: usize = 0;
    while i < fields.len()
        invariant
            i <= fields@.len(),
            in_field(current.model(), key@, fields@, i as nat, text::strings(moved@)) == in_field(
                value.model(),
                key@,
                fields@,
                0,
                text::strings(path@),
            ),
        decreases fields@.len() - i,
    {
        if let (Some(name), Some(source)) = (&fields[i].name, &fields[i].value) {
            if text::same_text(name.as_str(), key) {
                assert(decreases_to!(fields@ => fields@[i as int]));
                moved = move_under_keys(&current, source, moved);
                current = ron_to_json::apply_final_keys(&current, source);
            }
        }
        i += 1;
    }
    moved
}

fn move_in_entries(object: &Vec<Entry>, entries: &Vec<MapEntry>, path: Vec<String>) -> (r: Vec<
    String,
>)
    ensures
        text::strings(r@) == in_entries(
            json::entry_models(object@),
            entries@,
            text::strings(path@),
        ),
    decreases entries@, 0nat,
{
    if path.len() == 0 {
        return path;
    }
    assert(text::strings(path@)[0] == path@[0]@);
    match (find_entry(entries, path[0].as_str()), json::position_of(object, path[0].as_str())) {
        (Some(k), Some(at)) => {
            assert(json::entry_models(object@)[at as int] == object@[at as int].model());
            assert(decreases_to!(entries@ => entries@[k as int]));
            let (_first, rest) = split_first(path);
            let moved = match &entries[k].value {
                Some(source) => move_under_keys(&object[at].value, source, rest),
                None => rest,
            };
            match &entries[k].key {
                Some(key) => put_first(ron_to_json::final_key_of(key), moved),
                None => moved,
            }
        },
        _ => path,
    }
}

/// Where the value at `path` stands when every variant is tagged by its type.
fn move_under_tags(
    model: &TypeModel,
    value: &Json,
    source: Option<&RonValue>,
    node: Option<&TypeNode>,
    depth: usize,
    path: Vec<String>,
) -> (r: Vec<String>)
    requires
        depth <= MAX_JSON_DEPTH,
    ensures
        text::strings(r@) == under_typed_tags(
            Some(*model),
            value.model(),
            tagging::source_of(source),
            json_to_ron::node_of(node),
            depth as nat,
            text::strings(path@),
        ),
    decreases MAX_JSON_DEPTH + 1 - depth, 3nat,
{
    if depth >= MAX_JSON_DEPTH || path.len() == 0 {
        return path;
    }
    if let Some(n) = node {
        match &n.kind {
            NodeKind::Optional { inner } => {
                let held = tagging::source_of_option(source);
                return move_under_tags(model, value, held, model.resolve(inner), depth + 1, path);
            },
            NodeKind::Sequence { element } => {
                if let Json::Array(items) = value {
                    let types = Items::Same(model.resolve(element));
                    return move_in_typed_items(model, items, source, &types, depth, path);
                }
            },
            NodeKind::Tuple { elements } => {
                if let Json::Array(items) = value {
                    let types = Items::Each(elements);
                    return move_in_typed_items(model, items, source, &types, depth, path);
                }
            },
            NodeKind::Object { fields, .. } => {
                if let Json::Object(entries) = value {
                    let types = Properties::Fields(fields);
                    return move_in_typed_entries(model, entries, source, &types, depth, path);
                }
            },
            NodeKind::Dictionary { value: held, .. } => {
                if let Json::Object(entries) = value {
                    let types = Properties::Same(model.resolve(held));
                    return move_in_typed_entries(model, entries, source, &types, depth, path);
                }
            },
            NodeKind::Enum { .. } => {
                return match tagging::name_of_struct(value, source) {
                    Some(name) => {
                        let tagged = ron_to_json::singleton(&name, value.copy());
                        let tagged_path = put_first(name, path);
                        move_in_variant(model, &tagged, source, n, depth, tagged_path)
                    },
                    None => move_in_variant(model, value, source, n, depth, path),
                };
            },
            _ => {},
        }
    }
    path
}

fn move_in_variant(
    model: &TypeModel,
    value: &Json,
    source: Option<&RonValue>,
    node: &TypeNode,
    depth: usize,
    path: Vec<String>,
) -> (r: Vec<String>)
    requires
        depth < MAX_JSON_DEPTH,
        node.kind is Enum,
    ensures
        text::strings(r@) == in_variant(
            Some(*model),
            value.model(),
            tagging::source_of(source),
            *node,
            node.kind->discriminator,
            depth as nat,
            text::strings(path@),
        ),
    decreases MAX_JSON_DEPTH + 1 - depth, 2nat,
{
    if path.len() == 0 {
        return path;
    }
    if let NodeKind::Enum { variants, discriminator } = &node.kind {
        if let Json::Object(entries) = value {
            assert(text::strings(path@)[0] == path@[0]@);
            if entries.len() == 1 {
                assert(json::entry_models(entries@)[0] == entries@[0].model());
                if text::same_text(entries[0].key.as_str(), path[0].as_str()) {
                    let variant = json_to_ron::find_variant(variants, path[0].as_str());
                    let held = &entries[0].value;
                    let payload = tagging::apply_payload_tags(model, held, source, variant, depth);
                    let (first, rest) = split_first(path);
                    let moved = move_in_typed_payload(model, held, source, variant, depth, rest);
                    return put_behind_tag(discriminator, first, &payload, moved);
                }
            }
        }
    }
    path
}

fn put_behind_tag(discriminator: &Discriminator, name: String, payload: &Json, path: Vec<String>) -> (r:
    Vec<String>)
    ensures
        text::strings(r@) == behind_tag(
            *discriminator,
            name@,
            payload.model(),
            text::strings(path@),
        ),
{
    match discriminator {
        Discriminator::External => put_first(name, path),
        Discriminator::Internal { .. } => match payload {
            Json::Object(_) | Json::Null => path,
            _ => put_first(name, path),
        },
        Discriminator::Adjacent { content, .. } => put_first(content.clone(), path),
        Discriminator::Untagged => path,
    }
}

fn move_in_typed_items(
    model: &TypeModel,
    items: &Vec<Json>,
    source: Option<&RonValue>,
    types: &Items<'_>,
    depth: usize,
    path: Vec<String>,
) -> (r: Vec<String>)
    requires
        depth < MAX_JSON_DEPTH,
    ensures
        text::strings(r@) == in_typed_items(
            Some(*model),
            json::json_models(items@),
            tagging::source_of(source),
            types.types(),
            depth as nat,
            text::strings(path@),
        ),
    decreases MAX_JSON_DEPTH + 1 - depth, 0nat,
{
    if path.len() == 0 {
        return path;
    }
    assert(text::strings(path@)[0] == path@[0]@);
    match find_index(items.len(), path[0].as_str()) {
        Some(i) => {
            assert(json::json_models(items@)[i as int] == items@[i as int].model());
            let node = tagging::item_node(model, types, i);
            let own = tagging::source_of_item(source, i);
            let (first, rest) = split_first(path);
            put_first(first, move_under_tags(model, &items[i], own, node, depth + 1, rest))
        },
        None => path,
    }
}

fn move_in_typed_entries(
    model: &TypeModel,
    entries: &Vec<Entry>,
    source: Option<&RonValue>,
    types: &Properties<'_>,
    depth: usize,
    path: Vec<String>,
) -> (r: Vec<String>)
    requires
        depth < MAX_JSON_DEPTH,
    ensures
        text::strings(r@) == in_typed_entries(
            Some(*model),
            json::entry_models(entries@),
            tagging::source_of(source),
            types.types(),
            depth as nat,
            text::strings(path@),
        ),
    decreases MAX_JSON_DEPTH + 1 - depth, 0nat,
{
    if path.len() == 0 {
        return path;
    }
    assert(text::strings(path@)[0] == path@[0]@);
    match json::position_of(entries, path[0].as_str()) {
        Some(k) => {
            assert(json::entry_models(entries@)[k as int] == entries@[k as int].model());
            let node = tagging::entry_node(model, types, path[0].as_str());
            let own = tagging::source_of_entry(source, path[0].as_str());
            let (first, rest) = split_first(path);
            put_first(first, move_under_tags(model, &entries[k].value, own, node, depth + 1, rest))
        },
        None => path,
    }
}

fn move_in_typed_payload(
    model: &TypeModel,
    payload: &Json,
    source: Option<&RonValue>,
    variant: Option<&Variant>,
    depth: usize,
    path: Vec<String>,
) -> (r: Vec<String>)
    requires
        depth < MAX_JSON_DEPTH,
    ensures
        text::strings(r@) == in_typed_payload(
            Some(*model),
            payload.model(),
            tagging::source_of(source),
            match variant {
                Some(v) => Some(*v),
                None => None,
            },
            depth as nat,
            text::strings(path@),
        ),
    decreases MAX_JSON_DEPTH + 1 - depth, 1nat,
{
    if let Some(v) = variant {
        match &v.shape {
            VariantShape::Newtype(inner) => {
                let held = tagging::source_of_sole(source);
                return move_under_tags(model, payload, held, model.resolve(inner), depth + 1, path);
            },
            VariantShape::Tuple(elements) => {
                if let Json::Array(items) = payload {
                    let types = Items::Each(elements);
                    return move_in_typed_items(model, items, source, &types, depth, path);
                }
            },
            VariantShape::Struct(fields) => {
                if let Json::Object(entries) = payload {
                    let types = Properties::Fields(fields);
                    return move_in_typed_entries(model, entries, source, &types, depth, path);
                }
            },
            VariantShape::Unit => {},
        }
    }
    path
}

/// Anchors comments where their values stand in the converted document. `keyed` is the
/// parser's mapping `value` with every map under its final keys.
pub fn convert_anchors(
    value: &Json,
    keyed: &Json,
    source: &RonValue,
    model: Option<&TypeModel>,
    bound: Option<&TypeNode>,
    list: Vec<Comment>,
) -> (r: Vec<Comment>)
    requires
        keyed.model() == ron_to_json::with_final_keys(value.model(), *source),
        model is None ==> bound is None,
    ensures
        comments::models(r@) == converted_comments(
            json_to_ron::model_of(model),
            value.model(),
            *source,
            json_to_ron::node_of(bound),
            comments::models(list@),
        ),
{
    let ghost all = comments::models(list@);
    let ghost wanted = converted_comments(
        json_to_ron::model_of(model),
        value.model(),
        *source,
        json_to_ron::node_of(bound),
        all,
    );
    let mut out: Vec<Comment> = Vec::new();
    let mut i: usize = 0;
    while i < list.len()
        invariant
            i <= list@.len(),
            keyed.model() == ron_to_json::with_final_keys(value.model(), *source),
            model is None ==> bound is None,
            all == comments::models(list@),
            wanted == converted_comments(
                json_to_ron::model_of(model),
                value.model(),
                *source,
                json_to_ron::node_of(bound),
                all,
            ),
            out@.len() == i,
            forall|j: int| 0 <= j < i ==> (#[trigger] out@[j])@ == wanted[j],
        decreases list@.len() - i,
    {
        assert(all[i as int] == list@[i as int]@);
        let path = split_pointer(list[i].anchor_pointer.as_str());
        let under = move_under_keys(value, source, path);
        let moved = match model {
            Some(m) => move_under_tags(m, keyed, Some(source), bound, 0, under),
            None => under,
        };
        let comment = Comment {
            text: list[i].text.clone(),
            kind: list[i].kind,
            source_range: list[i].source_range,
            anchor_pointer: join_pointer(&moved),
        };
        assert(comment@ == wanted[i as int]);
        out.push(comment);
        i += 1;
    }
    assert(comments::models(out@) =~= wanted);
    out
}

} // verus!
