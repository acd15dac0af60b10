//! Conversion of RON to JSON.
//!
//! The parser's value mapping gives a first JSON value, in which every enum variant is
//! externally tagged and every map key stands as it is written. Two conventions are
//! then applied: a key that is no string becomes the canonical literal of its value,
//! and in a bound document every enum variant, at whatever depth, is tagged as its type
//! says. The comments are anchored where their values stand in the result.

use vstd::prelude::*;

use crate::interop::anchors;
use crate::interop::comments::{self, CommentCarrier, CommentMode};
use crate::interop::grammar;
use crate::interop::json::{self, Entry, Json, JsonModel};
use crate::interop::loss::{self, LossReport, PointerRangeIndex};
use crate::interop::pointer;
use crate::interop::tagging;
use crate::syntax::{self, MapEntry, RonDocument, RonValue, Shape, StructField};
use crate::text;
use crate::types::{Discriminator, NodeKind, TypeModel, TypeNode};

verus! {

/// What separates an element from the one before.
pub open spec fn separator(first: bool) -> Seq<char> {
    if first {
        Seq::empty()
    } else {
        ", "@
    }
}

/// The canonical literal of a value: on one line, with fixed spacing.
pub open spec fn canonical(value: RonValue) -> Seq<char>
    decreases value, 0nat,
{
    match value.shape {
        Shape::Literal { text, .. } => syntax::text_or_empty(text),
        Shape::Unit => "()"@,
        Shape::Tuple { name, items } => syntax::text_or_empty(name) + seq!['('] + canonical_items(
            items@,
            0,
        ) + seq![')'],
        Shape::List { items } => seq!['['] + canonical_items(items@, 0) + seq![']'],
        Shape::Struct { name, fields } => syntax::text_or_empty(name) + seq!['(']
            + canonical_fields(fields@, 0, true) + seq![')'],
        Shape::Dictionary { entries } => seq!['{'] + canonical_entries(entries@, 0, true)
            + seq!['}'],
        Shape::EnumVariant { name, items, .. } => syntax::text_or_empty(name) + (if items@.len()
            > 0 {
            seq!['('] + canonical_items(items@, 0) + seq![')']
        } else {
            Seq::empty()
        }),
        Shape::Error => text::trimmed(value.text@),
    }
}

/// The canonical literals of the items from position `from` on.
pub open spec fn canonical_items(items: Seq<RonValue>, from: nat) -> Seq<char>
    decreases items, items.len() - from,
{
    if from >= items.len() {
        Seq::empty()
    } else {
        separator(from == 0) + canonical(items[from as int]) + canonical_items(items, from + 1)
    }
}

/// The canonical literals of the named fields from position `from` on.
pub open spec fn canonical_fields(fields: Seq<StructField>, from: nat, first: bool) -> Seq<char>
    decreases fields, fields.len() - from,
{
    if from >= fields.len() {
        Seq::empty()
    } else {
        match fields[from as int].name {
            Some(name) => separator(first) + name@ + ": "@ + (match fields[from as int].value {
                Some(value) => canonical(value),
                None => Seq::empty(),
            }) + canonical_fields(fields, from + 1, false),
            None => canonical_fields(fields, from + 1, first),
        }
    }
}

/// The canonical literals of the entries with a key from position `from` on.
pub open spec fn canonical_entries(entries: Seq<MapEntry>, from: nat, first: bool) -> Seq<char>
    decreases entries, entries.len() - from,
{
    if from >= entries.len() {
        Seq::empty()
    } else {
        match entries[from as int].key {
            Some(key) => separator(first) + canonical(key) + ": "@ + (match entries[from as int].value {
                Some(value) => canonical(value),
                None => Seq::empty(),
            }) + canonical_entries(entries, from + 1, false),
            None => canonical_entries(entries, from + 1, first),
        }
    }
}

fn push_separator(out: &mut String, first: bool)
    ensures
        final(out)@ == old(out)@ + separator(first),
{
    if !first {
        out.push_str(", ");
    } else {
        assert(out@ + Seq::<char>::empty() =~= out@);
    }
}

fn push_name(out: &mut String, name: &Option<String>)
    ensures
        final(out)@ == old(out)@ + syntax::text_or_empty(*name),
{
    match name {
        Some(n) => out.push_str(n.as_str()),
        None => {
            assert(out@ + Seq::<char>::empty() =~= out@);
        },
    }
}

/// Appends the canonical literal of a value.
fn render_canonical(value: &RonValue, out: &mut String)
    ensures
        final(out)@ == old(out)@ + canonical(*value),
    decreases value, 0nat,
{
    match &value.shape {
        Shape::Literal { text, .. } => push_name(out, text),
        Shape::Unit => out.push_str("()"),
        Shape::Tuple { name, items } => {
            push_name(out, name);
            out.push('(');
            render_comma_list(items, out);
            out.push(')');
        },
        Shape::List { items } => {
            out.push('[');
            render_comma_list(items, out);
            out.push(']');
        },
        Shape::Struct { name, fields } => {
            push_name(out, name);
            out.push('(');
            render_fields(fields, out);
            out.push(')');
        },
        Shape::Dictionary { entries } => {
            out.push('{');
            render_entries(entries, out);
            out.push('}');
        },
        Shape::EnumVariant { name, items, .. } => {
            push_name(out, name);
            if items.len() > 0 {
                out.push('(');
                render_comma_list(items, out);
                out.push(')');
            }
        },
        Shape::Error => {
            let trimmed = text::trim(value.text.as_str());
            out.push_str(trimmed.as_str());
        },
    }
    assert(out@ =~= old(out)@ + canonical(*value));
}

/// Appends the canonical literals of the items, separated by commas.
fn render_comma_list(items: &Vec<RonValue>, out: &mut String)
    ensures
        final(out)@ == old(out)@ + canonical_items(items@, 0),
    decreases items@, items@.len(),
{
    let mut i: usize = 0;
    while i < items.len()
        invariant
            i <= items@.len(),
            out@ + canonical_items(items@, i as nat) == old(out)@ + canonical_items(items@, 0),
        decreases items@.len() - i,
    {
        let ghost before = out@;
        push_separator(out, i == 0);
        render_canonical(&items[i], out);
        assert(out@ + canonical_items(items@, i as nat + 1) =~= before + canonical_items(
            items@,
            i as nat,
        ));
        i += 1;
    }
    assert(out@ + canonical_items(items@, i as nat) =~= out@);
}

/// Appends the canonical literals of the named fields.
fn render_fields(fields: &Vec<StructField>, out: &mut String)
    ensures
        final(out)@ == old(out)@ + canonical_fields(fields@, 0, true),
    decreases fields@, fields@.len(),
{
    let mut i: usize = 0;
    let mut first: bool = true;
    while i < fields.len()
        invariant
            i <= fields@.len(),
            out@ + canonical_fields(fields@, i as nat, first) == old(out)@ + canonical_fields(
                fields@,
                0,
                true,
            ),
        decreases fields@.len() - i,
    {
        let ghost before = out@;
        let ghost was_first = first;
        if let Some(name) = &fields[i].name {
            push_separator(out, first);
            first = false;
            out.push_str(name.as_str());
            out.push_str(": ");
            if let Some(v) = &fields[i].value {
                assert(decreases_to!(fields@ => fields@[i as int]));
                render_canonical(v, out);
            }
        }
        assert(out@ + canonical_fields(fields@, i as nat + 1, first) =~= before + canonical_fields(
            fields@,
            i as nat,
            was_first,
        ));
        i += 1;
    }
    assert(out@ + canonical_fields(fields@, i as nat, first) =~= out@);
}

/// Appends the canonical literals of the entries that have a key.
fn render_entries(entries: &Vec<MapEntry>, out: &mut String)
    ensures
        final(out)@ == old(out)@ + canonical_entries(entries@, 0, true),
    decreases entries@, entries@.len(),
{
    let mut i: usize = 0;
    let mut first: bool = true;
    while i < entries.len()
        invariant
            i <= entries@.len(),
            out@ + canonical_entries(entries@, i as nat, first) == old(out)@ + canonical_entries(
                entries@,
                0,
                true,
            ),
        decreases entries@.len() - i,
    {
        let ghost before = out@;
        let ghost was_first = first;
        if let Some(key) = &entries[i].key {
            assert(decreases_to!(entries@ => entries@[i as int]));
            push_separator(out, first);
            first = false;
            render_canonical(key, out);
            out.push_str(": ");
            if let Some(v) = &entries[i].value {
                render_canonical(v, out);
            }
        }
        assert(out@ + canonical_entries(entries@, i as nat + 1, first) =~= before
            + canonical_entries(entries@, i as nat, was_first));
        i += 1;
    }
    assert(out@ + canonical_entries(entries@, i as nat, first) =~= out@);
}

/// The canonical literal of a value.
pub fn canonical_ron_literal(value: &RonValue) -> (r: String)
    ensures
        r@ == canonical(*value),
{
    let mut out = String::new();
    render_canonical(value, &mut out);
    assert(out@ =~= canonical(*value));
    out
}

/// An externally tagged enum value tagged as `discriminator` says. A value that is no
/// external tag stays, and so does a payload that internal tagging cannot hold.
pub open spec fn retagged(value: JsonModel, discriminator: Discriminator) -> JsonModel {
    match value {
        JsonModel::Object(entries) => if entries.len() == 1 {
            let name = JsonModel::Str(entries[0].0);
            let payload = entries[0].1;
            match discriminator {
                Discriminator::External => value,
                Discriminator::Internal { tag } => match payload {
                    JsonModel::Object(inner) => JsonModel::Object(
                        json::with_entry(inner, tag@, name),
                    ),
                    JsonModel::Null => JsonModel::Object(seq![(tag@, name)]),
                    _ => value,
                },
                Discriminator::Adjacent { tag, content } => JsonModel::Object(
                    json::with_entry(seq![(tag@, name)], content@, payload),
                ),
                Discriminator::Untagged => payload,
            }
        } else {
            value
        },
        _ => value,
    }
}

/// The type of an enum, if the bound type is one.
pub open spec fn enum_tagging(bound: Option<TypeNode>) -> Option<Discriminator> {
    match bound {
        Some(node) => match node.kind {
            NodeKind::Enum { discriminator, .. } => Some(discriminator),
            _ => None,
        },
        None => None,
    }
}

/// Whether no entry before position `i` has the same property name.
pub open spec fn first_of_its_key(entries: Seq<MapEntry>, i: int) -> bool {
    forall|j: int|
        0 <= j < i ==> (#[trigger] entries[j].key matches Some(key) ==> pointer::key_text(key)
            != pointer::key_text(entries[i].key->0))
}

/// The property name that a map key gets in the end.
pub open spec fn final_key(key: RonValue) -> Seq<char> {
    if loss::string_key(key) {
        pointer::key_text(key)
    } else {
        canonical(key)
    }
}

/// The property name that a map key gets in the end.
pub fn final_key_of(key: &RonValue) -> (r: String)
    ensures
        r@ == final_key(*key),
{
    if loss::is_string_key(key) {
        pointer::projection_key_string(key)
    } else {
        canonical_ron_literal(key)
    }
}

/// Whether the JSON value of a named struct is the external tag of a struct variant, and
/// not the object of its fields.
pub open spec fn tags_fields(
    name: Option<String>,
    fields: Seq<StructField>,
    object: Seq<(Seq<char>, JsonModel)>,
) -> bool {
    match name {
        Some(n) => object.len() == 1 && object[0].0 == n@ && forall|i: int|
            0 <= i < fields.len() ==> !syntax::named(#[trigger] fields[i].name, n@),
        None => false,
    }
}

/// The JSON value of a RON value with every map under its final keys.
pub open spec fn with_final_keys(value: JsonModel, source: RonValue) -> JsonModel
    decreases source, 0nat,
{
    match (source.shape, value) {
        (Shape::Dictionary { entries }, JsonModel::Object(object)) => JsonModel::Object(
            rekeyed(entries@, object, Seq::empty(), 0),
        ),
        (Shape::Struct { name, fields }, JsonModel::Object(object)) => if tags_fields(
            name,
            fields@,
            object,
        ) {
            match object[0].1 {
                JsonModel::Object(inner) => JsonModel::Object(
                    seq![(object[0].0, JsonModel::Object(fields_with_final_keys(inner, fields@)))],
                ),
                _ => value,
            }
        } else {
            JsonModel::Object(fields_with_final_keys(object, fields@))
        },
        (Shape::List { items }, JsonModel::Array(array)) => JsonModel::Array(
            items_with_final_keys(array, items@),
        ),
        (Shape::Tuple { name, items }, _) => if syntax::named(name, "Some"@) {
            if items@.len() > 0 {
                with_final_keys(value, items@[0])
            } else {
                value
            }
        } else {
            match value {
                JsonModel::Array(array) => JsonModel::Array(items_with_final_keys(array, items@)),
                JsonModel::Object(object) => if name is Some && object.len() == 1 {
                    JsonModel::Object(
                        seq![(object[0].0, payload_with_final_keys(object[0].1, items@))],
                    )
                } else {
                    value
                },
                _ => value,
            }
        },
        (Shape::EnumVariant { name, items, .. }, _) => if pointer::is_some_of(name, items@) {
            with_final_keys(value, items@[0])
        } else {
            match value {
                JsonModel::Object(object) => if object.len() == 1 {
                    JsonModel::Object(
                        seq![(object[0].0, payload_with_final_keys(object[0].1, items@))],
                    )
                } else {
                    value
                },
                _ => value,
            }
        },
        _ => value,
    }
}

/// What a variant with a positional payload holds, with every map under its final keys.
pub open spec fn payload_with_final_keys(payload: JsonModel, items: Seq<RonValue>) -> JsonModel
    decreases items, 1nat,
{
    if items.len() == 1 {
        with_final_keys(payload, items[0])
    } else {
        match payload {
            JsonModel::Array(array) => JsonModel::Array(items_with_final_keys(array, items)),
            _ => payload,
        }
    }
}

/// The JSON value of a RON value with the conventions applied: every map under its final
/// keys, and every enum variant tagged as its type says.
pub open spec fn conventional(
    model: Option<TypeModel>,
    value: JsonModel,
    source: RonValue,
    bound: Option<TypeNode>,
) -> JsonModel {
    tagging::typed_tags(model, with_final_keys(value, source), Some(source), bound, 0)
}

/// The items with every map under its final keys, as far as there are source items.
pub open spec fn items_with_final_keys(array: Seq<JsonModel>, items: Seq<RonValue>) -> Seq<JsonModel>
    decreases items, 0nat,
{
    Seq::new(
        array.len(),
        |i: int|
            if 0 <= i < items.len() {
                with_final_keys(array[i], items[i])
            } else {
                array[i]
            },
    )
}

/// The properties with every map in the fields of their name under its final keys.
pub open spec fn fields_with_final_keys(
    object: Seq<(Seq<char>, JsonModel)>,
    fields: Seq<StructField>,
) -> Seq<(Seq<char>, JsonModel)>
    decreases fields, fields.len() + 1,
{
    Seq::new(
        object.len(),
        |i: int| (object[i].0, field_with_final_keys(object[i].1, object[i].0, fields, 0)),
    )
}

/// The property `key` with every map in the fields of this name from position `from` on
/// under its final keys.
pub open spec fn field_with_final_keys(
    value: JsonModel,
    key: Seq<char>,
    fields: Seq<StructField>,
    from: nat,
) -> JsonModel
    decreases fields, fields.len() - from,
{
    if from >= fields.len() {
        value
    } else {
        let next = match (fields[from as int].name, fields[from as int].value) {
            (Some(name), Some(source)) => if name@ == key {
                with_final_keys(value, source)
            } else {
                value
            },
            _ => value,
        };
        field_with_final_keys(next, key, fields, from + 1)
    }
}

/// The object of a map: what was built before, and the source entries from position
/// `from` on under their final keys. An entry whose property is not there, or was
/// taken by an earlier entry, is left out.
pub open spec fn rekeyed(
    entries: Seq<MapEntry>,
    object: Seq<(Seq<char>, JsonModel)>,
    built: Seq<(Seq<char>, JsonModel)>,
    from: nat,
) -> Seq<(Seq<char>, JsonModel)>
    decreases entries, entries.len() - from,
{
    if from >= entries.len() {
        built
    } else {
        let next = match entries[from as int].key {
            Some(key) => match json::value_of(object, pointer::key_text(key)) {
                Some(value) => if first_of_its_key(entries, from as int) {
                    json::with_entry(
                        built,
                        final_key(key),
                        match entries[from as int].value {
                            Some(source) => with_final_keys(value, source),
                            None => value,
                        },
                    )
                } else {
                    built
                },
                None => built,
            },
            None => built,
        };
        rekeyed(entries, object, next, from + 1)
    }
}

/// Tags an externally tagged enum value as `discriminator` says.
pub fn apply_enum_tagging(value: &Json, discriminator: &Discriminator) -> (r: Json)
    ensures
        r.model() == retagged(value.model(), *discriminator),
{
    if let Json::Object(entries) = value {
        let ghost models = json::entry_models(entries@);
        if entries.len() == 1 {
            assert(models[0] == entries@[0].model());
            let name = Json::Str(entries[0].key.clone());
            match discriminator {
                Discriminator::External => {},
                Discriminator::Internal { tag } => {
                    match &entries[0].value {
                        Json::Object(inner) => {
                            let mut object = json::copy_entries(inner);
                            json::insert_entry(&mut object, tag.clone(), name);
                            return Json::Object(object);
                        },
                        Json::Null => {
                            let object = vec![Entry { key: tag.clone(), value: name }];
                            assert(json::entry_models(object@) =~= seq![(tag@, name.model())]);
                            return Json::Object(object);
                        },
                        _ => {},
                    }
                },
                Discriminator::Adjacent { tag, content } => {
                    let payload = entries[0].value.copy();
                    let mut object = vec![Entry { key: tag.clone(), value: name }];
                    assert(json::entry_models(object@) =~= seq![(tag@, name.model())]);
                    json::insert_entry(&mut object, content.clone(), payload);
                    return Json::Object(object);
                },
                Discriminator::Untagged => {
                    return entries[0].value.copy();
                },
            }
        }
    }
    value.copy()
}

/// Whether one of the fields is called `name`.
fn has_field(fields: &Vec<StructField>, name: &str) -> (r: bool)
    ensures
        r == exists|i: int| 0 <= i < fields@.len() && syntax::named(#[trigger] fields@[i].name, name@),
{
    let mut i: usize = 0;
    while i < fields.len()
        invariant
            i <= fields@.len(),
            forall|j: int| 0 <= j < i ==> !syntax::named(#[trigger] fields@[j].name, name@),
        decreases fields@.len() - i,
    {
        if syntax::is_named(&fields[i].name, name) {
            return true;
        }
        i += 1;
    }
    false
}

/// Whether the JSON value of a named struct is the external tag of a struct variant.
pub fn is_tagged_struct(name: &Option<String>, fields: &Vec<StructField>, object: &Vec<Entry>) -> (r: bool)
    ensures
        r == tags_fields(*name, fields@, json::entry_models(object@)),
{
    let ghost models = json::entry_models(object@);
    match name {
        Some(n) => {
            if object.len() != 1 {
                return false;
            }
            assert(models[0] == object@[0].model());
            text::same_text(object[0].key.as_str(), n.as_str()) && !has_field(fields, n.as_str())
        },
        None => false,
    }
}

/// An object with one property.
pub fn singleton(key: &String, value: Json) -> (r: Json)
    ensures
        r.model() == JsonModel::Object(seq![(key@, value.model())]),
{
    let object = vec![Entry { key: key.clone(), value }];
    assert(json::entry_models(object@) =~= seq![(key@, value.model())]);
    Json::Object(object)
}

/// The JSON value of a RON value with every map under its final keys.
pub fn apply_final_keys(value: &Json, source: &RonValue) -> (r: Json)
    ensures
        r.model() == with_final_keys(value.model(), *source),
    decreases source, 0nat,
{
    match &source.shape {
        Shape::Dictionary { entries } => {
            if let Json::Object(object) = value {
                return Json::Object(apply_map_conventions(object, entries));
            }
        },
        Shape::Struct { name, fields } => {
            if let Json::Object(object) = value {
                if is_tagged_struct(name, fields, object) {
                    assert(json::entry_models(object@)[0] == object@[0].model());
                    if let Json::Object(inner) = &object[0].value {
                        let payload = Json::Object(apply_struct_conventions(inner, fields));
                        return singleton(&object[0].key, payload);
                    }
                    return value.copy();
                }
                return Json::Object(apply_struct_conventions(object, fields));
            }
        },
        Shape::List { items } => {
            if let Json::Array(array) = value {
                return Json::Array(apply_item_conventions(array, items));
            }
        },
        Shape::Tuple { name, items } => {
            if syntax::is_named(name, "Some") {
                if items.len() > 0 {
                    return apply_final_keys(value, &items[0]);
                }
            } else if let Json::Array(array) = value {
                return Json::Array(apply_item_conventions(array, items));
            } else if let Json::Object(object) = value {
                if name.is_some() && object.len() == 1 {
                    assert(json::entry_models(object@)[0] == object@[0].model());
                    let payload = apply_payload_conventions(&object[0].value, items);
                    return singleton(&object[0].key, payload);
                }
            }
        },
        Shape::EnumVariant { name, items, .. } => {
            let name_text = syntax::text_of(name);
            if text::same_text(name_text.as_str(), "Some") && items.len() > 0 {
                return apply_final_keys(value, &items[0]);
            } else if let Json::Object(object) = value {
                if object.len() == 1 {
                    assert(json::entry_models(object@)[0] == object@[0].model());
                    let payload = apply_payload_conventions(&object[0].value, items);
                    return singleton(&object[0].key, payload);
                }
            }
        },
        _ => {},
    }
    value.copy()
}

fn apply_payload_conventions(payload: &Json, items: &Vec<RonValue>) -> (r: Json)
    ensures
        r.model() == payload_with_final_keys(payload.model(), items@),
    decreases items@, 1nat,
{
    if items.len() == 1 {
        return apply_final_keys(payload, &items[0]);
    }
    if let Json::Array(array) = payload {
        return Json::Array(apply_item_conventions(array, items));
    }
    payload.copy()
}

fn apply_item_conventions(array: &Vec<Json>, items: &Vec<RonValue>) -> (r: Vec<Json>)
    ensures
        json::json_models(r@) == items_with_final_keys(json::json_models(array@), items@),
    decreases items@, 0nat,
{
    let ghost all = json::json_models(array@);
    let mut out: Vec<Json> = Vec::new();
    let mut i: usize = 0;
    while i < array.len()
        invariant
            i <= array@.len(),
            all == json::json_models(array@),
            out@.len() == i,
            forall|j: int|
                0 <= j < i ==> (#[trigger] out@[j]).model() == items_with_final_keys(all, items@)[j],
        decreases array@.len() - i,
    {
        assert(all[i as int] == array@[i as int].model());
        let item = if i < items.len() {
            apply_final_keys(&array[i], &items[i])
        } else {
            array[i].copy()
        };
        assert(item.model() == items_with_final_keys(all, items@)[i as int]);
        out.push(item);
        i += 1;
    }
    assert(json::json_models(out@) =~= items_with_final_keys(all, items@));
    out
}

fn apply_struct_conventions(object: &Vec<Entry>, fields: &Vec<StructField>) -> (r: Vec<Entry>)
    ensures
        json::entry_models(r@) == fields_with_final_keys(json::entry_models(object@), fields@),
    decreases fields@, fields@.len() + 1,
{
    let ghost all = json::entry_models(object@);
    let ghost wanted = fields_with_final_keys(all, fields@);
    let mut out: Vec<Entry> = Vec::new();
    let mut i: usize = 0;
    while i < object.len()
        invariant
            i <= object@.len(),
            all == json::entry_models(object@),
            wanted == fields_with_final_keys(all, fields@),
            out@.len() == i,
            forall|j: int| 0 <= j < i ==> (#[trigger] out@[j]).model() == wanted[j],
        decreases object@.len() - i,
    {
        assert(all[i as int] == object@[i as int].model());
        let value = apply_field_conventions(&object[i].value, object[i].key.as_str(), fields);
        let entry = Entry { key: object[i].key.clone(), value };
        assert(entry.model() == wanted[i as int]);
        out.push(entry);
        i += 1;
    }
    assert(json::entry_models(out@) =~= wanted);
    out
}

fn apply_field_conventions(value: &Json, key: &str, fields: &Vec<StructField>) -> (r: Json)
    ensures
        r.model() == field_with_final_keys(value.model(), key@, fields@, 0),
    decreases fields@, fields@.len(),
{
    let mut current: Option<Json> = None;
    let ghost model = value.model();
    let mut i: usize = 0;
    while i < fields.len()
        invariant
            i <= fields@.len(),
            field_with_final_keys(
                match current {
                    Some(c) => c.model(),
                    None => value.model(),
                },
                key@,
                fields@,
                i as nat,
            ) == field_with_final_keys(value.model(), key@, fields@, 0),
        decreases fields@.len() - i,
    {
        if let (Some(name), Some(source)) = (&fields[i].name, &fields[i].value) {
            if text::same_text(name.as_str(), key) {
                assert(decreases_to!(fields@ => fields@[i as int]));
                let next = match &current {
                    Some(c) => apply_final_keys(c, source),
                    None => apply_final_keys(value, source),
                };
                current = Some(next);
            }
        }
        i += 1;
    }
    match current {
        Some(c) => c,
        None => value.copy(),
    }
}

/// Whether no entry before position `i` has the same property name.
fn is_first_of_its_key(entries: &Vec<MapEntry>, i: usize, name: &str) -> (r: bool)
    requires
        i < entries@.len(),
        entries@[i as int].key matches Some(key) && pointer::key_text(key) == name@,
    ensures
        r == first_of_its_key(entries@, i as int),
{
    let mut j: usize = 0;
    while j < i
        invariant
            j <= i < entries@.len(),
            entries@[i as int].key matches Some(key) && pointer::key_text(key) == name@,
            forall|k: int|
                0 <= k < j ==> (#[trigger] entries@[k].key matches Some(key) ==> pointer::key_text(
                    key,
                ) != name@),
        decreases i - j,
    {
        if let Some(key) = &entries[j].key {
            let other = pointer::projection_key_string(key);
            if text::same_text(other.as_str(), name) {
                assert(entries@[j as int].key matches Some(key) && pointer::key_text(key) == name@);
                return false;
            }
        }
        j += 1;
    }
    true
}

fn apply_map_conventions(object: &Vec<Entry>, entries: &Vec<MapEntry>) -> (r: Vec<Entry>)
    ensures
        json::entry_models(r@) == rekeyed(
            entries@,
            json::entry_models(object@),
            Seq::empty(),
            0,
        ),
    decreases entries@, entries@.len(),
{
    let ghost all = json::entry_models(object@);
    let mut built: Vec<Entry> = Vec::new();
    let mut i: usize = 0;
    assert(json::entry_models(built@) =~= Seq::<(Seq<char>, JsonModel)>::empty());
    while i < entries.len()
        invariant
            i <= entries@.len(),
            all == json::entry_models(object@),
            rekeyed(entries@, all, json::entry_models(built@), i as nat) == rekeyed(
                entries@,
                all,
                Seq::empty(),
                0,
            ),
        decreases entries@.len() - i,
    {
        if let Some(key) = &entries[i].key {
            let name = pointer::projection_key_string(key);
            if let Some(at) = json::position_of(object, name.as_str()) {
                assert(all[at as int] == object@[at as int].model());
                if is_first_of_its_key(entries, i, name.as_str()) {
                    assert(decreases_to!(entries@ => entries@[i as int]));
                    let child = match &entries[i].value {
                        Some(source) => apply_final_keys(&object[at].value, source),
                        None => object[at].value.copy(),
                    };
                    json::insert_entry(&mut built, final_key_of(key), child);
                }
            }
        }
        i += 1;
    }
    built
}

/// The type information that guides a conversion: a model and the name of the
/// document's root type.
#[derive(Clone, Copy)]
pub struct RonToJsonBinding<'a> {
    pub model: &'a TypeModel,
    pub root_type: &'a str,
}

impl<'a> RonToJsonBinding<'a> {
    /// A binding to the type called `root_type`.
    pub fn new(model: &'a TypeModel, root_type: &'a str) -> (r: Self)
        ensures
            *r.model == *model,
            r.root_type@ == root_type@,
    {
        RonToJsonBinding { model, root_type }
    }
}

/// The parser's value mapping of a document: the JSON value, and the span of each
/// value and key in it.
#[derive(Debug)]
pub struct Projection {
    pub instance: Json,
    pub index: PointerRangeIndex,
}

/// A converted document: its JSON value, what was lost, and the comments to write.
#[derive(Debug)]
pub struct RonToJson {
    pub value: Json,
    pub loss_report: LossReport,
    pub comments: CommentCarrier,
}

/// The root type of a binding, where it is registered.
pub open spec fn bound_root(binding: Option<RonToJsonBinding>) -> Option<TypeNode> {
    match binding {
        Some(b) => b.model.find(b.root_type@),
        None => None,
    }
}

/// The type model of a binding.
pub open spec fn bound_model(binding: Option<RonToJsonBinding>) -> Option<TypeModel> {
    match binding {
        Some(b) => Some(*b.model),
        None => None,
    }
}

/// Converts a RON document to JSON, from the parser's value mapping of it.
pub fn ron_to_json(
    doc: &RonDocument,
    projection: &Projection,
    binding: Option<RonToJsonBinding<'_>>,
    comment_mode: CommentMode,
) -> (r: RonToJson)
    ensures
        r.value.model() == match doc.root {
            Some(root) => conventional(
                bound_model(binding),
                projection.instance.model(),
                root,
                bound_root(binding),
            ),
            None => projection.instance.model(),
        },
        r.comments.carrier == comment_mode,
        comments::models(r.comments.comments@) == match doc.root {
            Some(root) => anchors::converted_comments(
                bound_model(binding),
                projection.instance.model(),
                root,
                bound_root(binding),
                comments::document_comments(*doc),
            ),
            None => comments::document_comments(*doc),
        },
        r.loss_report@ == loss::document_losses(
            *doc,
            projection.index,
            r.comments,
            binding is Some,
        ),
{
    let collected = comments::collect_comments(doc);
    let (value, anchored) = match &doc.root {
        Some(root) => {
            let keyed = apply_final_keys(&projection.instance, root);
            let model: Option<&TypeModel> = match &binding {
                Some(b) => Some(b.model),
                None => None,
            };
            let bound: Option<&TypeNode> = match &binding {
                Some(b) => b.model.lookup(b.root_type),
                None => None,
            };
            let anchored = anchors::convert_anchors(
                &projection.instance,
                &keyed,
                root,
                model,
                bound,
                collected,
            );
            match model {
                Some(m) => (tagging::apply_typed_tags(m, &keyed, Some(root), bound, 0), anchored),
                None => (keyed, anchored),
            }
        },
        None => (projection.instance.copy(), collected),
    };
    let carrier = CommentCarrier::from_comments(comment_mode, anchored);
    let loss_report = loss::build_loss_report(
        doc,
        &projection.index,
        &carrier,
        binding.is_some(),
    );
    RonToJson { value, loss_report, comments: carrier }
}

/// Whether the RON library reads `text` as a RON value.
pub fn grammar_verify(text: &str) -> (r: bool)
    ensures
        r == grammar::ron_accepts(text@),
{
    grammar::parses_as_ron(text)
}

} // verus!
