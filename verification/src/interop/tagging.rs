//! Enum tags by type.
//!
//! The parser's value mapping tags every enum variant externally. Where the type of a
//! document is known, each variant is tagged as its own type says: at the root, in the
//! fields of a struct, in the items of a list or a tuple, in the values of a map, in an
//! option and in what another variant holds. A struct variant, which the mapping takes
//! for a named struct, is recognized by its type and gets its name back. Nesting deeper
//! than [`MAX_JSON_DEPTH`], which is never read back by type, stays as it is.

use vstd::prelude::*;

use crate::interop::json::{self, Entry, Json, JsonModel};
use crate::interop::json_to_ron::{
    self, EntryTypes, ItemTypes, Items, Properties, MAX_JSON_DEPTH,
};
use crate::interop::pointer;
use crate::interop::ron_to_json;
use crate::syntax::{self, MapEntry, RonValue, Shape, StructField};
use crate::text;
use crate::types::{Discriminator, NodeKind, TypeModel, TypeNode, Variant, VariantShape};

verus! {

/// The value of a variant, externally tagged: a named struct that is mapped to the object
/// of its fields is tagged with its name.
pub open spec fn variant_form(value: JsonModel, source: Option<RonValue>) -> JsonModel {
    match struct_name(value, source) {
        Some(name) => JsonModel::Object(seq![(name, value)]),
        None => value,
    }
}

/// The name of a struct that is mapped to the object of its fields.
pub open spec fn struct_name(value: JsonModel, source: Option<RonValue>) -> Option<Seq<char>> {
    match source {
        Some(s) => match (s.shape, value) {
            (Shape::Struct { name, fields }, JsonModel::Object(object)) => match name {
                Some(n) => if ron_to_json::tags_fields(name, fields@, object) {
                    None
                } else {
                    Some(n@)
                },
                None => None,
            },
            _ => None,
        },
        None => None,
    }
}

/// The source of what an option holds.
pub open spec fn option_source(source: Option<RonValue>) -> Option<RonValue> {
    match source {
        Some(s) => match s.shape {
            Shape::Tuple { name, items } => if syntax::named(name, "Some"@) && items@.len() > 0 {
                Some(items@[0])
            } else {
                source
            },
            Shape::EnumVariant { name, items, .. } => if pointer::is_some_of(name, items@) {
                Some(items@[0])
            } else {
                source
            },
            _ => source,
        },
        None => None,
    }
}

/// The items of a list, of a tuple or of the payload of a variant.
pub open spec fn source_items(source: Option<RonValue>) -> Seq<RonValue> {
    match source {
        Some(s) => match s.shape {
            Shape::List { items } => items@,
            Shape::Tuple { items, .. } => items@,
            Shape::EnumVariant { items, .. } => items@,
            _ => Seq::empty(),
        },
        None => Seq::empty(),
    }
}

/// The source of item `i`.
pub open spec fn item_source(source: Option<RonValue>, i: nat) -> Option<RonValue> {
    if i < source_items(source).len() {
        Some(source_items(source)[i as int])
    } else {
        None
    }
}

/// The source of what a variant with a single value holds.
pub open spec fn sole_source(source: Option<RonValue>) -> Option<RonValue> {
    if source_items(source).len() == 1 {
        Some(source_items(source)[0])
    } else {
        None
    }
}

/// The value of the first field called `key` from position `from` on.
pub open spec fn field_source(fields: Seq<StructField>, key: Seq<char>, from: nat) -> Option<RonValue>
    decreases fields.len() - from,
{
    if from >= fields.len() {
        None
    } else if syntax::named(fields[from as int].name, key) {
        fields[from as int].value
    } else {
        field_source(fields, key, from + 1)
    }
}

/// The value of the first map entry with the final key `key` from position `from` on.
pub open spec fn map_source(entries: Seq<MapEntry>, key: Seq<char>, from: nat) -> Option<RonValue>
    decreases entries.len() - from,
{
    if from >= entries.len() {
        None
    } else if entries[from as int].key matches Some(k) && ron_to_json::final_key(k) == key {
        entries[from as int].value
    } else {
        map_source(entries, key, from + 1)
    }
}

/// The source of the property `key`.
pub open spec fn entry_source(source: Option<RonValue>, key: Seq<char>) -> Option<RonValue> {
    match source {
        Some(s) => match s.shape {
            Shape::Struct { fields, .. } => field_source(fields@, key, 0),
            Shape::Dictionary { entries } => map_source(entries@, key, 0),
            _ => None,
        },
        None => None,
    }
}

/// A value at nesting depth `depth`, given its source, with the variants in it tagged as
/// the types below `node` say.
pub open spec fn typed_tags(
    model: Option<TypeModel>,
    value: JsonModel,
    source: Option<RonValue>,
    node: Option<TypeNode>,
    depth: nat,
) -> JsonModel
    decreases MAX_JSON_DEPTH + 1 - depth, 3nat,
{
    if depth >= MAX_JSON_DEPTH {
        value
    } else {
        match node {
            None => value,
            Some(n) => match (n.kind, value) {
                (NodeKind::Optional { inner }, _) => typed_tags(
                    model,
                    value,
                    option_source(source),
                    json_to_ron::target(model, inner),
                    depth + 1,
                ),
                (NodeKind::Sequence { .. }, JsonModel::Array(items)) => JsonModel::Array(
                    item_tags(
                        model,
                        items,
                        source,
                        json_to_ron::item_types(model, node),
                        depth,
                    ),
                ),
                (NodeKind::Tuple { .. }, JsonModel::Array(items)) => JsonModel::Array(
                    item_tags(
                        model,
                        items,
                        source,
                        json_to_ron::item_types(model, node),
                        depth,
                    ),
                ),
                (NodeKind::Object { .. }, JsonModel::Object(entries)) => JsonModel::Object(
                    entry_tags(
                        model,
                        entries,
                        source,
                        json_to_ron::entry_types(model, node),
                        depth,
                    ),
                ),
                (NodeKind::Dictionary { .. }, JsonModel::Object(entries)) => JsonModel::Object(
                    entry_tags(
                        model,
                        entries,
                        source,
                        json_to_ron::entry_types(model, node),
                        depth,
                    ),
                ),
                (NodeKind::Enum { discriminator, .. }, _) => variant_tags(
                    model,
                    variant_form(value, source),
                    source,
                    n,
                    discriminator,
                    depth,
                ),
                _ => value,
            },
        }
    }
}

/// An externally tagged variant of the enum `node` at nesting depth `depth`, tagged as
/// `discriminator` says.
pub open spec fn variant_tags(
    model: Option<TypeModel>,
    value: JsonModel,
    source: Option<RonValue>,
    node: TypeNode,
    discriminator: Discriminator,
    depth: nat,
) -> JsonModel
    decreases MAX_JSON_DEPTH + 1 - depth, 2nat,
{
    match value {
        JsonModel::Object(entries) => if entries.len() == 1 {
            let variant = json_to_ron::declared(Some(node), entries[0].0);
            ron_to_json::retagged(
                JsonModel::Object(
                    seq![
                        (
                            entries[0].0,
                            payload_tags(model, entries[0].1, source, variant, depth),
                        ),
                    ],
                ),
                discriminator,
            )
        } else {
            value
        },
        _ => value,
    }
}

/// The items of a value at nesting depth `depth`, tagged by their types.
pub open spec fn item_tags(
    model: Option<TypeModel>,
    items: Seq<JsonModel>,
    source: Option<RonValue>,
    types: ItemTypes,
    depth: nat,
) -> Seq<JsonModel>
    decreases MAX_JSON_DEPTH + 1 - depth, 0nat,
{
    Seq::new(
        items.len(),
        |i: int|
            if depth < MAX_JSON_DEPTH {
                typed_tags(
                    model,
                    items[i],
                    item_source(source, i as nat),
                    json_to_ron::item_type(model, types, i as nat),
                    depth + 1,
                )
            } else {
                items[i]
            },
    )
}

/// The properties of a value at nesting depth `depth`, tagged by their types.
pub open spec fn entry_tags(
    model: Option<TypeModel>,
    entries: Seq<(Seq<char>, JsonModel)>,
    source: Option<RonValue>,
    types: EntryTypes,
    depth: nat,
) -> Seq<(Seq<char>, JsonModel)>
    decreases MAX_JSON_DEPTH + 1 - depth, 0nat,
{
    Seq::new(
        entries.len(),
        |i: int|
            (
                entries[i].0,
                if depth < MAX_JSON_DEPTH {
                    typed_tags(
                        model,
                        entries[i].1,
                        entry_source(source, entries[i].0),
                        json_to_ron::entry_type(model, types, entries[i].0),
                        depth + 1,
                    )
                } else {
                    entries[i].1
                },
            ),
    )
}

/// What a variant at nesting depth `depth` holds, tagged by the types of the declared
/// variant.
pub open spec fn payload_tags(
    model: Option<TypeModel>,
    payload: JsonModel,
    source: Option<RonValue>,
    variant: Option<Variant>,
    depth: nat,
) -> JsonModel
    decreases MAX_JSON_DEPTH + 1 - depth, 1nat,
{
    match variant {
        None => payload,
        Some(v) => match (v.shape, payload) {
            (VariantShape::Newtype(inner), _) => if depth < MAX_JSON_DEPTH {
                typed_tags(
                    model,
                    payload,
                    sole_source(source),
                    json_to_ron::target(model, inner),
                    depth + 1,
                )
            } else {
                payload
            },
            (VariantShape::Tuple(_), JsonModel::Array(items)) => JsonModel::Array(
                item_tags(model, items, source, json_to_ron::element_types(variant), depth),
            ),
            (VariantShape::Struct(_), JsonModel::Object(entries)) => JsonModel::Object(
                entry_tags(model, entries, source, json_to_ron::field_types(variant), depth),
            ),
            _ => payload,
        },
    }
}

/// The type of item `i`.
pub fn item_node<'a>(model: &'a TypeModel, types: &Items<'a>, i: usize) -> (r: Option<&'a TypeNode>)
    ensures
        json_to_ron::node_of(r) == json_to_ron::item_type(Some(*model), types.types(), i as nat),
{
    match types {
        Items::Same(node) => *node,
        Items::Each(refs) => if i < refs.len() {
            model.resolve(&refs[i])
        } else {
            None
        },
    }
}

/// The type of the property `key`.
pub fn entry_node<'a>(model: &'a TypeModel, types: &Properties<'a>, key: &str) -> (r: Option<
    &'a TypeNode,
>)
    ensures
        json_to_ron::node_of(r) == json_to_ron::entry_type(Some(*model), types.types(), key@),
{
    match types {
        Properties::Same(node) => *node,
        Properties::Fields(fields) => match json_to_ron::find_field(fields, key) {
            Some(field) => model.resolve(&field.value),
            None => None,
        },
    }
}

/// The source of what an option holds.
pub fn source_of_option(source: Option<&RonValue>) -> (r: Option<&RonValue>)
    ensures
        source_of(r) == option_source(source_of(source)),
{
    if let Some(s) = source {
        match &s.shape {
            Shape::Tuple { name, items } => {
                if syntax::is_named(name, "Some") && items.len() > 0 {
                    return Some(&items[0]);
                }
            },
            Shape::EnumVariant { name, items, .. } => {
                let name_text = syntax::text_of(name);
                if text::same_text(name_text.as_str(), "Some") && items.len() > 0 {
                    return Some(&items[0]);
                }
            },
            _ => {},
        }
    }
    source
}

/// The source behind an optional reference.
pub open spec fn source_of(source: Option<&RonValue>) -> Option<RonValue> {
    match source {
        Some(s) => Some(*s),
        None => None,
    }
}

fn items_of(source: Option<&RonValue>) -> (r: Option<&Vec<RonValue>>)
    ensures
        source_items(source_of(source)) == (match r {
            Some(items) => items@,
            None => Seq::empty(),
        }),
{
    match source {
        Some(s) => match &s.shape {
            Shape::List { items } => Some(items),
            Shape::Tuple { items, .. } => Some(items),
            Shape::EnumVariant { items, .. } => Some(items),
            _ => None,
        },
        None => None,
    }
}

/// The source of item `i`.
pub fn source_of_item(source: Option<&RonValue>, i: usize) -> (r: Option<&RonValue>)
    ensures
        source_of(r) == item_source(source_of(source), i as nat),
{
    match items_of(source) {
        Some(items) => if i < items.len() {
            Some(&items[i])
        } else {
            None
        },
        None => None,
    }
}

/// The source of what a variant with a single value holds.
pub fn source_of_sole(source: Option<&RonValue>) -> (r: Option<&RonValue>)
    ensures
        source_of(r) == sole_source(source_of(source)),
{
    match items_of(source) {
        Some(items) => if items.len() == 1 {
            Some(&items[0])
        } else {
            None
        },
        None => None,
    }
}

/// The source of the property `key`.
pub fn source_of_entry<'a>(source: Option<&'a RonValue>, key: &str) -> (r: Option<&'a RonValue>)
    ensures
        source_of(r) == entry_source(source_of(source), key@),
{
    match source {
        Some(s) => match &s.shape {
            Shape::Struct { fields, .. } => source_of_field(fields, key),
            Shape::Dictionary { entries } => source_in_map(entries, key),
            _ => None,
        },
        None => None,
    }
}

fn source_of_field<'a>(fields: &'a Vec<StructField>, key: &str) -> (r: Option<&'a RonValue>)
    ensures
        source_of(r) == field_source(fields@, key@, 0),
{
    let mut i: usize = 0;
    while i < fields.len()
        invariant
            i <= fields@.len(),
            field_source(fields@, key@, i as nat) == field_source(fields@, key@, 0),
        decreases fields@.len() - i,
    {
        if syntax::is_named(&fields[i].name, key) {
            return match &fields[i].value {
                Some(v) => Some(v),
                None => None,
            };
        }
        i += 1;
    }
    None
}

fn source_in_map<'a>(entries: &'a Vec<MapEntry>, key: &str) -> (r: Option<&'a RonValue>)
    ensures
        source_of(r) == map_source(entries@, key@, 0),
{
    let mut i: usize = 0;
    while i < entries.len()
        invariant
            i <= entries@.len(),
            map_source(entries@, key@, i as nat) == map_source(entries@, key@, 0),
        decreases entries@.len() - i,
    {
        if let Some(k) = &entries[i].key {
            let own = ron_to_json::final_key_of(k);
            if text::same_text(own.as_str(), key) {
                return match &entries[i].value {
                    Some(v) => Some(v),
                    None => None,
                };
            }
        }
        i += 1;
    }
    None
}

/// The name of a struct that is mapped to the object of its fields.
pub fn name_of_struct(value: &Json, source: Option<&RonValue>) -> (r: Option<String>)
    ensures
        match r {
            Some(name) => struct_name(value.model(), source_of(source)) == Some(name@),
            None => struct_name(value.model(), source_of(source)) is None,
        },
{
    if let Some(s) = source {
        if let Shape::Struct { name, fields } = &s.shape {
            if let Json::Object(object) = value {
                if let Some(n) = name {
                    if !ron_to_json::is_tagged_struct(name, fields, object) {
                        return Some(n.clone());
                    }
                }
            }
        }
    }
    None
}

/// Tags the variants in a value as their types say.
pub fn apply_typed_tags(
    model: &TypeModel,
    value: &Json,
    source: Option<&RonValue>,
    node: Option<&TypeNode>,
    depth: usize,
) -> (r: Json)
    requires
        depth <= MAX_JSON_DEPTH,
    ensures
        r.model() == typed_tags(
            Some(*model),
            value.model(),
            source_of(source),
            json_to_ron::node_of(node),
            depth as nat,
        ),
    decreases MAX_JSON_DEPTH + 1 - depth, 3nat,
{
    if depth >= MAX_JSON_DEPTH {
        return value.copy();
    }
    if let Some(n) = node {
        match &n.kind {
            NodeKind::Optional { inner } => {
                let held = source_of_option(source);
                return apply_typed_tags(model, value, held, model.resolve(inner), depth + 1);
            },
            NodeKind::Sequence { element } => {
                if let Json::Array(items) = value {
                    let types = Items::Same(model.resolve(element));
                    return Json::Array(apply_item_tags(model, items, source, &types, depth));
                }
            },
            NodeKind::Tuple { elements } => {
                if let Json::Array(items) = value {
                    let types = Items::Each(elements);
                    return Json::Array(apply_item_tags(model, items, source, &types, depth));
                }
            },
            NodeKind::Object { fields, .. } => {
                if let Json::Object(entries) = value {
                    let types = Properties::Fields(fields);
                    return Json::Object(apply_entry_tags(model, entries, source, &types, depth));
                }
            },
            NodeKind::Dictionary { value: held, .. } => {
                if let Json::Object(entries) = value {
                    let types = Properties::Same(model.resolve(held));
                    return Json::Object(apply_entry_tags(model, entries, source, &types, depth));
                }
            },
            NodeKind::Enum { .. } => {
                return match name_of_struct(value, source) {
                    Some(name) => {
                        let tagged = ron_to_json::singleton(&name, value.copy());
                        apply_variant_tags(model, &tagged, source, n, depth)
                    },
                    None => apply_variant_tags(model, value, source, n, depth),
                };
            },
            _ => {},
        }
    }
    value.copy()
}

/// Tags an externally tagged variant as its type says.
fn apply_variant_tags(
    model: &TypeModel,
    value: &Json,
    source: Option<&RonValue>,
    node: &TypeNode,
    depth: usize,
) -> (r: Json)
    requires
        depth < MAX_JSON_DEPTH,
        node.kind is Enum,
    ensures
        r.model() == variant_tags(
            Some(*model),
            value.model(),
            source_of(source),
            *node,
            node.kind->discriminator,
            depth as nat,
        ),
    decreases MAX_JSON_DEPTH + 1 - depth, 2nat,
{
    if let NodeKind::Enum { variants, discriminator } = &node.kind {
        if let Json::Object(entries) = value {
            if entries.len() == 1 {
                assert(json::entry_models(entries@)[0] == entries@[0].model());
                let variant = json_to_ron::find_variant(variants, entries[0].key.as_str());
                let payload = apply_payload_tags(model, &entries[0].value, source, variant, depth);
                let tagged = ron_to_json::singleton(&entries[0].key, payload);
                return ron_to_json::apply_enum_tagging(&tagged, discriminator);
            }
        }
    }
    value.copy()
}

fn apply_item_tags(
    model: &TypeModel,
    items: &Vec<Json>,
    source: Option<&RonValue>,
    types: &Items<'_>,
    depth: usize,
) -> (r: Vec<Json>)
    requires
        depth < MAX_JSON_DEPTH,
    ensures
        json::json_models(r@) == item_tags(
            Some(*model),
            json::json_models(items@),
            source_of(source),
            types.types(),
            depth as nat,
        ),
    decreases MAX_JSON_DEPTH + 1 - depth, 0nat,
{
    let ghost all = json::json_models(items@);
    let ghost wanted = item_tags(
        Some(*model),
        all,
        source_of(source),
        types.types(),
        depth as nat,
    );
    let mut out: Vec<Json> = Vec::new();
    let mut i: usize = 0;
    while i < items.len()
        invariant
            i <= items@.len(),
            depth < MAX_JSON_DEPTH,
            all == json::json_models(items@),
            wanted == item_tags(
                Some(*model),
                all,
                source_of(source),
                types.types(),
                depth as nat,
            ),
            out@.len() == i,
            forall|j: int| 0 <= j < i ==> (#[trigger] out@[j]).model() == wanted[j],
        decreases items@.len() - i,
    {
        assert(all[i as int] == items@[i as int].model());
        let own = source_of_item(source, i);
        let item = apply_typed_tags(model, &items[i], own, item_node(model, types, i), depth + 1);
        assert(item.model() == wanted[i as int]);
        out.push(item);
        i += 1;
    }
    assert(json::json_models(out@) =~= wanted);
    out
}

fn apply_entry_tags(
    model: &TypeModel,
    entries: &Vec<Entry>,
    source: Option<&RonValue>,
    types: &Properties<'_>,
    depth: usize,
) -> (r: Vec<Entry>)
    requires
        depth < MAX_JSON_DEPTH,
    ensures
        json::entry_models(r@) == entry_tags(
            Some(*model),
            json::entry_models(entries@),
            source_of(source),
            types.types(),
            depth as nat,
        ),
    decreases MAX_JSON_DEPTH + 1 - depth, 0nat,
{
    let ghost all = json::entry_models(entries@);
    let ghost wanted = entry_tags(
        Some(*model),
        all,
        source_of(source),
        types.types(),
        depth as nat,
    );
    let mut out: Vec<Entry> = Vec::new();
    let mut i: usize = 0;
    while i < entries.len()
        invariant
            i <= entries@.len(),
            depth < MAX_JSON_DEPTH,
            all == json::entry_models(entries@),
            wanted == entry_tags(
                Some(*model),
                all,
                source_of(source),
                types.types(),
                depth as nat,
            ),
            out@.len() == i,
            forall|j: int| 0 <= j < i ==> (#[trigger] out@[j]).model() == wanted[j],
        decreases entries@.len() - i,
    {
        assert(all[i as int] == entries@[i as int].model());
        let node = entry_node(model, types, entries[i].key.as_str());
        let own = source_of_entry(source, entries[i].key.as_str());
        let value = apply_typed_tags(model, &entries[i].value, own, node, depth + 1);
        let entry = Entry { key: entries[i].key.clone(), value };
        assert(entry.model() == wanted[i as int]);
        out.push(entry);
        i += 1;
    }
    assert(json::entry_models(out@) =~= wanted);
    out
}

/// Tags the variants in what a variant holds as their types say.
pub fn apply_payload_tags(
    model: &TypeModel,
    payload: &Json,
    source: Option<&RonValue>,
    variant: Option<&Variant>,
    depth: usize,
) -> (r: Json)
    requires
        depth < MAX_JSON_DEPTH,
    ensures
        r.model() == payload_tags(
            Some(*model),
            payload.model(),
            source_of(source),
            match variant {
                Some(v) => Some(*v),
                None => None,
            },
            depth as nat,
        ),
    decreases MAX_JSON_DEPTH + 1 - depth, 1nat,
{
    if let Some(v) = variant {
        match &v.shape {
            VariantShape::Newtype(inner) => {
                let held = source_of_sole(source);
                return apply_typed_tags(model, payload, held, model.resolve(inner), depth + 1);
            },
            VariantShape::Tuple(elements) => {
                if let Json::Array(items) = payload {
                    let types = Items::Each(elements);
                    return Json::Array(apply_item_tags(model, items, source, &types, depth));
                }
            },
            VariantShape::Struct(fields) => {
                if let Json::Object(entries) = payload {
                    let types = Properties::Fields(fields);
                    return Json::Object(apply_entry_tags(model, entries, source, &types, depth));
                }
            },
            VariantShape::Unit => {},
        }
    }
    payload.copy()
}

} // verus!
