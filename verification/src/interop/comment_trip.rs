//! Comments on the way to JSON and back.
//!
//! A comment of a document is anchored to a value. Where the document comes back from
//! JSON, the comment stands right before that value again.

use vstd::prelude::*;

use crate::interop::anchors;
use crate::interop::comments::{self, CommentModel};
use crate::interop::json::{self, JsonModel};
use crate::interop::json_to_ron::{self, EntryTypes, ItemTypes, KeyStyle, MAX_JSON_DEPTH};
use crate::interop::pointer;
use crate::interop::ron_to_json;
use crate::interop::round_trip::{self, Payload, Tree};
use crate::interop::tagging;
use crate::syntax::{self, MapEntry, RonDocument, RonValue, Shape, StructField, Token};
use crate::text;
use crate::types::{Discriminator, TypeModel, TypeNode, Variant};

verus! {

/// Whether a value of the source stands at `path`.
spec fn source_path(source: RonValue, path: Seq<Seq<char>>) -> bool
    decreases source, 0nat,
{
    if path.len() == 0 {
        true
    } else {
        match source.shape {
            Shape::Struct { fields, .. } => exists|k: int|
                0 <= k < fields@.len() && field_path(#[trigger] fields@[k], path),
            Shape::Tuple { name, items } => if syntax::named(name, "Some"@) {
                items@.len() > 0 && source_path(items@[0], path)
            } else {
                match name {
                    Some(n) => path[0] == n@ && payload_path(items@, path.drop_first()),
                    None => item_path(items@, path),
                }
            },
            Shape::List { items } => item_path(items@, path),
            Shape::Dictionary { entries } => exists|k: int|
                0 <= k < entries@.len() && entry_path(#[trigger] entries@[k], path),
            Shape::EnumVariant { name, items, entries } => if pointer::is_bare_none(
                name,
                items@,
                entries@,
            ) {
                false
            } else if pointer::is_some_of(name, items@) {
                source_path(items@[0], path)
            } else {
                path[0] == syntax::text_or_empty(name) && if entries@.len() > 0
                    || syntax::brace_among(source.layout@) {
                    exists|k: int|
                        0 <= k < entries@.len() && member_path(
                            #[trigger] entries@[k],
                            path.drop_first(),
                        )
                } else {
                    payload_path(items@, path.drop_first())
                }
            },
            _ => false,
        }
    }
}

spec fn payload_path(items: Seq<RonValue>, path: Seq<Seq<char>>) -> bool
    decreases items, 1nat,
{
    if items.len() == 1 {
        source_path(items[0], path)
    } else {
        item_path(items, path)
    }
}

spec fn item_path(items: Seq<RonValue>, path: Seq<Seq<char>>) -> bool
    decreases items, 0nat,
{
    path.len() > 0 && exists|i: int|
        0 <= i < items.len() && path[0] == text::decimal(i as nat) && source_path(
            #[trigger] items[i],
            path.drop_first(),
        )
}

spec fn field_path(field: StructField, path: Seq<Seq<char>>) -> bool
    decreases field, 0nat,
{
    path.len() > 0 && syntax::named(field.name, path[0]) && (field.value matches Some(source)
        && source_path(source, path.drop_first()))
}

spec fn entry_path(entry: MapEntry, path: Seq<Seq<char>>) -> bool
    decreases entry, 0nat,
{
    path.len() > 0 && (entry.key matches Some(key) && pointer::key_text(key) == path[0]) && (
    entry.value matches Some(source) && source_path(source, path.drop_first()))
}

spec fn member_path(entry: MapEntry, path: Seq<Seq<char>>) -> bool
    decreases entry, 0nat,
{
    path.len() > 0 && pointer::entry_name(entry) == Some(path[0]) && (entry.value matches Some(
        source,
    ) && source_path(source, path.drop_first()))
}

/// Whether `place` is the pointer of a path of a source at `pointer`.
spec fn is_place(source: RonValue, pointer: Seq<char>, place: Seq<char>) -> bool {
    exists|path: Seq<Seq<char>>|
        place == #[trigger] anchors::pointer_from(pointer, path) && source_path(source, path)
}

/// The path that makes `place` a place of a source.
proof fn lemma_path_to(source: RonValue, pointer: Seq<char>, place: Seq<char>) -> (path: Seq<
    Seq<char>,
>)
    requires
        is_place(source, pointer, place),
    ensures
        place == anchors::pointer_from(pointer, path),
        source_path(source, path),
{
    choose|path: Seq<Seq<char>>|
        place == #[trigger] anchors::pointer_from(pointer, path) && source_path(source, path)
}

proof fn lemma_pointer_behind(pointer: Seq<char>, segment: Seq<char>, path: Seq<Seq<char>>)
    ensures
        anchors::pointer_from(pointer, anchors::behind(segment, path)) == anchors::pointer_from(
            pointer::key_pointer(pointer, segment),
            path,
        ),
{
    anchors::lemma_behind(segment, path);
}

proof fn lemma_pointers(source: RonValue, pointer: Seq<char>, j: int)
    requires
        0 <= j < pointer::value_pointers(source, pointer).len(),
    ensures
        is_place(source, pointer, pointer::value_pointers(source, pointer)[j].1),
    decreases source, 0nat,
{
    let place = pointer::value_pointers(source, pointer)[j].1;
    if j == 0 {
        let path = Seq::<Seq<char>>::empty();
        assert(anchors::pointer_from(pointer, path) == pointer);
        assert(source_path(source, path));
    } else {
        match source.shape {
            Shape::Struct { fields, .. } => {
                let (k, path) = lemma_field_pointers(fields@, pointer, 0, j - 1);
                assert(field_path(fields@[k], path));
                assert(source_path(source, path));
            },
            Shape::Tuple { name, items } => {
                if syntax::named(name, "Some"@) {
                    lemma_pointers(items@[0], pointer, j - 1);
                    let path = lemma_path_to(items@[0], pointer, place);
                    assert(source_path(source, path));
                } else {
                    match name {
                        Some(n) => {
                            let under = pointer::key_pointer(pointer, n@);
                            let path = lemma_payload_pointers(items@, under, j - 1);
                            lemma_pointer_behind(pointer, n@, path);
                            anchors::lemma_behind(n@, path);
                            assert(source_path(source, anchors::behind(n@, path)));
                        },
                        None => {
                            let path = lemma_item_pointers(items@, pointer, 0, j - 1);
                            assert(source_path(source, path));
                        },
                    }
                }
            },
            Shape::List { items } => {
                let path = lemma_item_pointers(items@, pointer, 0, j - 1);
                assert(source_path(source, path));
            },
            Shape::Dictionary { entries } => {
                let (k, path) = lemma_map_pointers(entries@, pointer, 0, j - 1);
                assert(entry_path(entries@[k], path));
                assert(source_path(source, path));
            },
            Shape::EnumVariant { name, items, entries } => {
                if pointer::is_some_of(name, items@) {
                    lemma_pointers(items@[0], pointer, j - 1);
                    let path = lemma_path_to(items@[0], pointer, place);
                    assert(source_path(source, path));
                } else {
                    let text = syntax::text_or_empty(name);
                    let under = pointer::key_pointer(pointer, text);
                    if entries@.len() > 0 || syntax::brace_among(source.layout@) {
                        let (k, path) = lemma_member_pointers(entries@, under, 0, j - 1);
                        lemma_pointer_behind(pointer, text, path);
                        anchors::lemma_behind(text, path);
                        assert(member_path(entries@[k], path));
                        assert(source_path(source, anchors::behind(text, path)));
                    } else {
                        let path = lemma_payload_pointers(items@, under, j - 1);
                        lemma_pointer_behind(pointer, text, path);
                        anchors::lemma_behind(text, path);
                        assert(source_path(source, anchors::behind(text, path)));
                    }
                }
            },
            _ => {},
        }
    }
}

proof fn lemma_payload_pointers(items: Seq<RonValue>, pointer: Seq<char>, j: int) -> (path: Seq<
    Seq<char>,
>)
    requires
        0 <= j < pointer::payload_pointers(items, pointer).len(),
    ensures
        pointer::payload_pointers(items, pointer)[j].1 == anchors::pointer_from(pointer, path),
        payload_path(items, path),
    decreases items, items.len() + 1,
{
    if items.len() == 1 {
        lemma_pointers(items[0], pointer, j);
        lemma_path_to(items[0], pointer, pointer::payload_pointers(items, pointer)[j].1)
    } else {
        lemma_item_pointers(items, pointer, 0, j)
    }
}

proof fn lemma_item_pointers(items: Seq<RonValue>, pointer: Seq<char>, from: nat, j: int) -> (path: Seq<
    Seq<char>,
>)
    requires
        0 <= j < pointer::item_pointers(items, pointer, from).len(),
    ensures
        pointer::item_pointers(items, pointer, from)[j].1 == anchors::pointer_from(pointer, path),
        item_path(items, path),
    decreases items, items.len() - from,
{
    let place = pointer::item_pointers(items, pointer, from)[j].1;
    let under = pointer::index_pointer(pointer, from);
    let first = pointer::value_pointers(items[from as int], under);
    if j < first.len() {
        lemma_pointers(items[from as int], under, j);
        let inner = lemma_path_to(items[from as int], under, place);
        let key = text::decimal(from);
        pointer::lemma_decimal(from);
        lemma_pointer_behind(pointer, key, inner);
        anchors::lemma_behind(key, inner);
        let path = anchors::behind(key, inner);
        assert(path[0] == text::decimal((from as int) as nat) && source_path(
            items[from as int],
            path.drop_first(),
        ));
        path
    } else {
        lemma_item_pointers(items, pointer, from + 1, j - first.len())
    }
}

proof fn lemma_field_pointers(fields: Seq<StructField>, pointer: Seq<char>, from: nat, j: int) -> (r: (
    int,
    Seq<Seq<char>>,
))
    requires
        0 <= j < pointer::field_pointers(fields, pointer, from).len(),
    ensures
        pointer::field_pointers(fields, pointer, from)[j].1 == anchors::pointer_from(pointer, r.1),
        0 <= r.0 < fields.len(),
        field_path(fields[r.0], r.1),
    decreases fields, fields.len() - from,
{
    let place = pointer::field_pointers(fields, pointer, from)[j].1;
    let field = fields[from as int];
    assert(decreases_to!(fields => field));
    match (field.name, field.value) {
        (Some(name), Some(source)) => {
            let under = pointer::key_pointer(pointer, name@);
            let first = pointer::value_pointers(source, under);
            if j < first.len() {
                lemma_pointers(source, under, j);
                let inner = lemma_path_to(source, under, place);
                lemma_pointer_behind(pointer, name@, inner);
                anchors::lemma_behind(name@, inner);
                (from as int, anchors::behind(name@, inner))
            } else {
                lemma_field_pointers(fields, pointer, from + 1, j - first.len())
            }
        },
        _ => lemma_field_pointers(fields, pointer, from + 1, j),
    }
}

proof fn lemma_map_pointers(entries: Seq<MapEntry>, pointer: Seq<char>, from: nat, j: int) -> (r: (
    int,
    Seq<Seq<char>>,
))
    requires
        0 <= j < pointer::map_pointers(entries, pointer, from).len(),
    ensures
        pointer::map_pointers(entries, pointer, from)[j].1 == anchors::pointer_from(pointer, r.1),
        0 <= r.0 < entries.len(),
        entry_path(entries[r.0], r.1),
    decreases entries, entries.len() - from,
{
    let place = pointer::map_pointers(entries, pointer, from)[j].1;
    let entry = entries[from as int];
    assert(decreases_to!(entries => entry));
    match (entry.key, entry.value) {
        (Some(key), Some(source)) => {
            let name = pointer::key_text(key);
            let under = pointer::key_pointer(pointer, name);
            let first = pointer::value_pointers(source, under);
            if j < first.len() {
                lemma_pointers(source, under, j);
                let inner = lemma_path_to(source, under, place);
                lemma_pointer_behind(pointer, name, inner);
                anchors::lemma_behind(name, inner);
                (from as int, anchors::behind(name, inner))
            } else {
                lemma_map_pointers(entries, pointer, from + 1, j - first.len())
            }
        },
        _ => lemma_map_pointers(entries, pointer, from + 1, j),
    }
}

proof fn lemma_member_pointers(entries: Seq<MapEntry>, pointer: Seq<char>, from: nat, j: int) -> (r: (
    int,
    Seq<Seq<char>>,
))
    requires
        0 <= j < pointer::entry_pointers(entries, pointer, from).len(),
    ensures
        pointer::entry_pointers(entries, pointer, from)[j].1 == anchors::pointer_from(pointer, r.1),
        0 <= r.0 < entries.len(),
        member_path(entries[r.0], r.1),
    decreases entries, entries.len() - from,
{
    let place = pointer::entry_pointers(entries, pointer, from)[j].1;
    let entry = entries[from as int];
    assert(decreases_to!(entries => entry));
    match (pointer::entry_name(entry), entry.value) {
        (Some(name), Some(source)) => {
            let under = pointer::key_pointer(pointer, name);
            let first = pointer::value_pointers(source, under);
            if j < first.len() {
                lemma_pointers(source, under, j);
                let inner = lemma_path_to(source, under, place);
                lemma_pointer_behind(pointer, name, inner);
                anchors::lemma_behind(name, inner);
                (from as int, anchors::behind(name, inner))
            } else {
                lemma_member_pointers(entries, pointer, from + 1, j - first.len())
            }
        },
        _ => lemma_member_pointers(entries, pointer, from + 1, j),
    }
}

/// Where the value at `path` in the mapping of a source stands when it is converted.
spec fn converted(
    model: Option<TypeModel>,
    source: RonValue,
    value: JsonModel,
    node: Option<TypeNode>,
    depth: nat,
    path: Seq<Seq<char>>,
) -> Seq<Seq<char>> {
    anchors::under_typed_tags(
        model,
        ron_to_json::with_final_keys(value, source),
        Some(source),
        node,
        depth,
        anchors::under_final_keys(value, source, path),
    )
}

proof fn lemma_whole_path(path: Seq<Seq<char>>)
    requires
        path.len() > 0,
    ensures
        anchors::behind(path[0], path.drop_first()) == path,
{
    assert(anchors::behind(path[0], path.drop_first()) =~= path);
}

/// Without types the items keep their paths.
proof fn lemma_untyped_items(
    model: Option<TypeModel>,
    items: Seq<JsonModel>,
    source: Option<RonValue>,
    depth: nat,
    path: Seq<Seq<char>>,
)
    ensures
        anchors::in_typed_items(model, items, source, ItemTypes::Same(None), depth, path) == path,
{
    if path.len() > 0 {
        lemma_whole_path(path);
    }
}

/// Without types the properties keep their paths.
proof fn lemma_untyped_entries(
    model: Option<TypeModel>,
    entries: Seq<(Seq<char>, JsonModel)>,
    source: Option<RonValue>,
    depth: nat,
    path: Seq<Seq<char>>,
)
    ensures
        anchors::in_typed_entries(model, entries, source, EntryTypes::Same(None), depth, path)
            == path,
{
    if path.len() > 0 {
        lemma_whole_path(path);
    }
}

/// Only the field `k` has its name.
proof fn lemma_one_field_path(
    fields: Seq<StructField>,
    value: JsonModel,
    key: Seq<char>,
    k: int,
    from: nat,
    path: Seq<Seq<char>>,
)
    requires
        0 <= k < fields.len(),
        syntax::named(fields[k].name, key),
        fields[k].value is Some,
        forall|l: int|
            0 <= l < fields.len() && l != k ==> !syntax::named(#[trigger] fields[l].name, key),
    ensures
        from <= k ==> anchors::in_field(value, key, fields, from, path)
            == anchors::under_final_keys(value, fields[k].value->0, path),
        from > k ==> anchors::in_field(value, key, fields, from, path) == path,
    decreases fields.len() - from,
{
    if from < fields.len() {
        if from == k {
            let source = fields[k].value->0;
            lemma_one_field_path(
                fields,
                ron_to_json::with_final_keys(value, source),
                key,
                k,
                from + 1,
                anchors::under_final_keys(value, source, path),
            );
        } else {
            assert(!syntax::named(fields[from as int].name, key));
            lemma_one_field_path(fields, value, key, k, from + 1, path);
        }
    }
}

/// The part of a source that a path leads to: the position of its value, the source and
/// the mapping of it, and the rest of the path.
spec fn leads_to(
    source: RonValue,
    keyed: Seq<(Seq<char>, JsonModel)>,
    ts: Seq<(Seq<char>, Tree)>,
    path: Seq<Seq<char>>,
    i: int,
    own: RonValue,
    held: JsonModel,
    rest: Seq<Seq<char>>,
) -> bool {
    &&& 0 <= i < ts.len()
    &&& keyed.len() == ts.len()
    &&& forall|a: int| 0 <= a < ts.len() ==> (#[trigger] keyed[a]).0 == ts[a].0
    &&& json::keys_ascend(keyed)
    &&& path == anchors::behind(ts[i].0, anchors::under_final_keys(held, own, rest))
    &&& tagging::entry_source(Some(source), ts[i].0) == Some(own)
    &&& keyed[i].1 == ron_to_json::with_final_keys(held, own)
    &&& round_trip::maps_to(own, held, ts[i].1)
    &&& anchors::fits(held, own)
    &&& source_path(own, rest)
}

proof fn lemma_field_found(
    source: RonValue,
    fields: Seq<StructField>,
    object: Seq<(Seq<char>, JsonModel)>,
    ts: Seq<(Seq<char>, Tree)>,
    k: int,
    path: Seq<Seq<char>>,
) -> (i: int)
    requires
        source.shape matches Shape::Struct { fields: list, .. } && list@ == fields,
        round_trip::fields_map_to(fields, object, ts),
        anchors::fields_fit(object, fields),
        0 <= k < fields.len(),
        field_path(fields[k], path),
    ensures
        0 <= i < ts.len(),
        leads_to(
            source,
            ron_to_json::fields_with_final_keys(object, fields),
            ts,
            anchors::in_fields(object, fields, path),
            i,
            fields[k].value->0,
            object[i].1,
            path.drop_first(),
        ),
{
    let name = path[0];
    let rest = path.drop_first();
    let own = fields[k].value->0;
    let keyed = ron_to_json::fields_with_final_keys(object, fields);
    assert(fields[k].name is Some);
    assert(round_trip::name_listed(fields[k].name->0@, ts));
    let i = choose|i: int| 0 <= i < ts.len() && (#[trigger] ts[i]).0 == name;
    assert(object[i].0 == ts[i].0);
    assert forall|a: int, b: int| 0 <= a < b < object.len() implies crate::text_map::precedes(
        (#[trigger] object[a]).0,
        (#[trigger] object[b]).0,
    ) by {
        assert(object[a].0 == ts[a].0 && object[b].0 == ts[b].0);
    }
    assert forall|a: int, b: int| 0 <= a < b < keyed.len() implies crate::text_map::precedes(
        (#[trigger] keyed[a]).0,
        (#[trigger] keyed[b]).0,
    ) by {
        assert(keyed[a].0 == object[a].0 && keyed[b].0 == object[b].0);
    }
    assert forall|a: int| 0 <= a < ts.len() implies (#[trigger] keyed[a]).0 == ts[a].0 by {
        assert(object[a].0 == ts[a].0);
    }
    round_trip::lemma_value_of_entry(object, i);
    let m = choose|m: int|
        0 <= m < fields.len() && round_trip::field_maps_to(#[trigger] fields[m], object[i], ts[i].1);
    assert(round_trip::field_maps_to(fields[m], object[i], ts[i].1));
    assert forall|l: int| 0 <= l < fields.len() && l != k implies !syntax::named(
        #[trigger] fields[l].name,
        name,
    ) by {
        if l < k {
            assert(fields[l].name is Some ==> !syntax::named(fields[k].name, fields[l].name->0@));
        }
    }
    assert(m == k);
    lemma_one_field_path(fields, object[i].1, name, k, 0, rest);
    round_trip::lemma_one_field(fields, object[i].1, name, k, 0);
    round_trip::lemma_field_source(fields, name, k, 0);
    assert(anchors::field_fits(object, fields[k]));
    i
}

proof fn lemma_entry_found(
    source: RonValue,
    entries: Seq<MapEntry>,
    object: Seq<(Seq<char>, JsonModel)>,
    ts: Seq<(Seq<char>, Tree)>,
    k: int,
    path: Seq<Seq<char>>,
) -> (i: int)
    requires
        source.shape matches Shape::Dictionary { entries: list } && list@ == entries,
        round_trip::entries_map_to(entries, object, ts),
        forall|l: int| 0 <= l < entries.len() ==> anchors::entry_fits(object, #[trigger] entries[l]),
        0 <= k < entries.len(),
        entry_path(entries[k], path),
    ensures
        0 <= i < ts.len(),
        leads_to(
            source,
            ron_to_json::rekeyed(entries, object, Seq::empty(), 0),
            ts,
            anchors::in_entries(object, entries, path),
            i,
            entries[k].value->0,
            json::value_of(object, path[0])->0,
            path.drop_first(),
        ),
{
    let none = Seq::<(Seq<char>, JsonModel)>::empty();
    let keyed = ron_to_json::rekeyed(entries, object, none, 0);
    let own = entries[k].value->0;
    let held = json::value_of(object, path[0])->0;
    let key = ron_to_json::final_key(entries[k].key->0);
    assert(entries[k].key is Some);
    round_trip::lemma_entries_keyed(source, entries, object, ts);
    round_trip::lemma_rekeyed(entries, object, none, 0);
    assert(round_trip::is_listed(entries[k], ts));
    let i = choose|i: int| 0 <= i < ts.len() && (#[trigger] ts[i]).0 == key;
    assert forall|a: int| 0 <= a < ts.len() implies (#[trigger] keyed[a]).0 == ts[a].0 by {
        assert(ts[a].0 == keyed[a].0);
    }
    assert forall|a: int, b: int| 0 <= a < b < keyed.len() implies crate::text_map::precedes(
        (#[trigger] keyed[a]).0,
        (#[trigger] keyed[b]).0,
    ) by {
        assert(keyed[a].0 == ts[a].0 && keyed[b].0 == ts[b].0);
    }
    round_trip::lemma_value_of_entry(keyed, i);
    let m = choose|m: int|
        0 <= m < entries.len() && round_trip::entry_maps_to(
            #[trigger] entries[m],
            object,
            ts[i].0,
            ts[i].1,
        );
    assert(round_trip::entry_maps_to(entries[m], object, ts[i].0, ts[i].1));
    assert(entries[m].key is Some);
    assert(m == k) by {
        if m < k {
            assert(ron_to_json::final_key(entries[m].key->0) != ron_to_json::final_key(
                entries[k].key->0,
            ));
        } else if k < m {
            assert(ron_to_json::final_key(entries[k].key->0) != ron_to_json::final_key(
                entries[m].key->0,
            ));
        }
    }
    lemma_first_entry(entries, path[0], k, 0);
    assert forall|l: int| 0 <= l < k implies (#[trigger] entries[l].key matches Some(other)
        ==> ron_to_json::final_key(other) != key) by {
        assert(ron_to_json::final_key(entries[l].key->0) != ron_to_json::final_key(
            entries[k].key->0,
        ));
    }
    round_trip::lemma_map_source(entries, key, k, 0);
    assert(anchors::entry_fits(object, entries[k]));
    assert(round_trip::entry_value(entries, object, k) == ron_to_json::with_final_keys(held, own));
    i
}

proof fn lemma_first_entry(entries: Seq<MapEntry>, name: Seq<char>, k: int, from: nat)
    requires
        from <= k < entries.len(),
        entries[k].key matches Some(key) && pointer::key_text(key) == name,
        forall|i: int| 0 <= i < entries.len() ==> #[trigger] entries[i].key is Some,
        forall|i: int, j: int|
            0 <= i < j < entries.len() ==> pointer::key_text(#[trigger] entries[i].key->0)
                != pointer::key_text(#[trigger] entries[j].key->0),
    ensures
        anchors::entry_of(entries, name, from) == Some(k as nat),
    decreases k - from,
{
    if from < k {
        assert(pointer::key_text(entries[from as int].key->0) != pointer::key_text(
            entries[k].key->0,
        ));
        lemma_first_entry(entries, name, k, from + 1);
    }
}

/// A comment that is anchored to a value of a source is written before the value when it
/// comes back.
proof fn lemma_arrives(
    model: Option<TypeModel>,
    comments: Seq<CommentModel>,
    t: Tree,
    node: Option<TypeNode>,
    depth: nat,
    source: RonValue,
    value: JsonModel,
    pointer: Seq<char>,
    path: Seq<Seq<char>>,
) -> (w: Seq<char>)
    requires
        round_trip::comes_back(model, t, node, depth),
        round_trip::maps_to(source, value, t),
        anchors::fits(value, source),
        source_path(source, path),
    ensures
        ({
            let r = converted(model, source, value, node, depth, path);
            r.len() == 0 || round_trip::written_at(
                model,
                comments,
                t,
                node,
                pointer,
                depth,
                anchors::pointer_from(pointer, r),
                w,
            )
        }),
    decreases t, 3nat,
{
    if path.len() == 0 {
        Seq::empty()
    } else {
        match t {
            Tree::Present(x) => {
                let items = tagging::source_items(Some(source));
                assert(node is None || node->0.kind is Unknown
                    ==> round_trip::comes_back_untyped(model, t, depth));
                let of = json_to_ron::option_type(model, node);
                lemma_arrives(model, comments, *x, of, depth + 1, items[0], value, pointer, path)
            },
            Tree::List(ts) => {
                lemma_list_arrives(model, comments, t, ts, node, depth, source, value, pointer, path)
            },
            Tree::Tuple(ts) => {
                lemma_list_arrives(model, comments, t, ts, node, depth, source, value, pointer, path)
            },
            Tree::Record(ts) => {
                lemma_record_arrives(
                    model,
                    comments,
                    t,
                    ts,
                    node,
                    depth,
                    source,
                    value,
                    pointer,
                    path,
                )
            },
            Tree::Keyed(ts) => {
                lemma_record_arrives(
                    model,
                    comments,
                    t,
                    ts,
                    node,
                    depth,
                    source,
                    value,
                    pointer,
                    path,
                )
            },
            Tree::Variant(name, payload) => {
                if node matches Some(n) && n.kind is Enum {
                    lemma_variant_arrives(
                        model,
                        comments,
                        name,
                        payload,
                        node->0,
                        depth,
                        source,
                        value,
                        pointer,
                        path,
                    )
                } else {
                    lemma_plain_variant_arrives(
                        model,
                        comments,
                        name,
                        payload,
                        node,
                        depth,
                        source,
                        value,
                        pointer,
                        path,
                    )
                }
            },
            _ => Seq::empty(),
        }
    }
}

proof fn lemma_list_arrives(
    model: Option<TypeModel>,
    comments: Seq<CommentModel>,
    t: Tree,
    ts: Seq<Tree>,
    node: Option<TypeNode>,
    depth: nat,
    source: RonValue,
    value: JsonModel,
    pointer: Seq<char>,
    path: Seq<Seq<char>>,
) -> (w: Seq<char>)
    requires
        t == Tree::List(ts) || t == Tree::Tuple(ts),
        round_trip::comes_back(model, t, node, depth),
        round_trip::maps_to(source, value, t),
        anchors::fits(value, source),
        source_path(source, path),
        path.len() > 0,
    ensures
        round_trip::written_at(
            model,
            comments,
            t,
            node,
            pointer,
            depth,
            anchors::pointer_from(
                pointer,
                converted(model, source, value, node, depth, path),
            ),
            w,
        ),
    decreases ts, 3nat,
{
    let items = tagging::source_items(Some(source));
    let types = json_to_ron::item_types(model, node);
    let array = value->Array_0;
    assert(round_trip::items_map_to(items, array, ts));
    assert(anchors::items_fit(array, items));
    assert(item_path(items, path));
    assert(node is None || node->0.kind is Unknown ==> round_trip::comes_back_untyped(
        model,
        t,
        depth,
    ));
    assert(round_trip::items_come_back(model, ts, types, depth));
    let w = lemma_items_arrive(
        model,
        comments,
        ts,
        types,
        depth,
        source,
        items,
        array,
        pointer,
        path,
    );
    let keyed = ron_to_json::items_with_final_keys(array, items);
    let q = anchors::in_items(array, items, path);
    lemma_untyped_items(model, keyed, Some(source), depth, q);
    assert(anchors::under_final_keys(value, source, path) == q);
    assert(ron_to_json::with_final_keys(value, source) == JsonModel::Array(keyed));
    w
}

proof fn lemma_items_arrive(
    model: Option<TypeModel>,
    comments: Seq<CommentModel>,
    ts: Seq<Tree>,
    types: ItemTypes,
    depth: nat,
    source: RonValue,
    items: Seq<RonValue>,
    array: Seq<JsonModel>,
    pointer: Seq<char>,
    path: Seq<Seq<char>>,
) -> (w: Seq<char>)
    requires
        depth < MAX_JSON_DEPTH,
        round_trip::items_come_back(model, ts, types, depth),
        round_trip::items_map_to(items, array, ts),
        anchors::items_fit(array, items),
        tagging::source_items(Some(source)) == items,
        item_path(items, path),
    ensures
        ({
            let keyed = ron_to_json::items_with_final_keys(array, items);
            let r = anchors::in_typed_items(
                model,
                keyed,
                Some(source),
                types,
                depth,
                anchors::in_items(array, items, path),
            );
            r.len() > 0 && round_trip::item_written_at(
                model,
                comments,
                ts,
                types,
                pointer,
                depth,
                anchors::pointer_from(pointer, r),
                w,
            )
        }),
    decreases ts, 2nat,
{
    let i = choose|i: int|
        0 <= i < items.len() && path[0] == text::decimal(i as nat) && source_path(
            #[trigger] items[i],
            path.drop_first(),
        );
    let rest = path.drop_first();
    let keyed = ron_to_json::items_with_final_keys(array, items);
    let node = json_to_ron::item_type(model, types, i as nat);
    let under = pointer::index_pointer(pointer, i as nat);
    anchors::lemma_index_is_named(array.len(), i as nat, 0);
    anchors::lemma_index_is_named(keyed.len(), i as nat, 0);
    let q = anchors::under_final_keys(array[i], items[i], rest);
    anchors::lemma_behind(path[0], q);
    assert(anchors::in_items(array, items, path) == anchors::behind(path[0], q));
    assert(keyed[i] == ron_to_json::with_final_keys(array[i], items[i]));
    assert(tagging::item_source(Some(source), i as nat) == Some(items[i]));
    let r = converted(model, items[i], array[i], node, depth + 1, rest);
    let whole = anchors::in_typed_items(
        model,
        keyed,
        Some(source),
        types,
        depth,
        anchors::behind(path[0], q),
    );
    assert(whole == anchors::behind(path[0], r));
    lemma_pointer_behind(pointer, path[0], r);
    pointer::lemma_decimal(i as nat);
    assert(pointer::key_pointer(pointer, path[0]) == under);
    anchors::lemma_behind(path[0], r);
    assert(round_trip::comes_back(model, ts[i], node, depth + 1));
    assert(round_trip::maps_to(items[i], array[i], ts[i]));
    let inner = lemma_arrives(
        model,
        comments,
        ts[i],
        node,
        depth + 1,
        items[i],
        array[i],
        under,
        rest,
    );
    if r.len() == 0 {
        round_trip::item_text(
            model,
            comments,
            round_trip::json_items(model, ts, types),
            types,
            pointer,
            depth,
            i as nat,
        )
    } else {
        inner
    }
}

proof fn lemma_entry_arrives(
    model: Option<TypeModel>,
    comments: Seq<CommentModel>,
    ts: Seq<(Seq<char>, Tree)>,
    types: EntryTypes,
    style: KeyStyle,
    depth: nat,
    source: RonValue,
    keyed: Seq<(Seq<char>, JsonModel)>,
    pointer: Seq<char>,
    path: Seq<Seq<char>>,
    i: int,
    own: RonValue,
    held: JsonModel,
    rest: Seq<Seq<char>>,
) -> (w: Seq<char>)
    requires
        depth < MAX_JSON_DEPTH,
        round_trip::entries_come_back(model, ts, types, depth),
        leads_to(source, keyed, ts, path, i, own, held, rest),
    ensures
        ({
            let r = anchors::in_typed_entries(model, keyed, Some(source), types, depth, path);
            r.len() > 0 && round_trip::entry_written_at(
                model,
                comments,
                ts,
                types,
                style,
                pointer,
                depth,
                anchors::pointer_from(pointer, r),
                w,
            )
        }),
    decreases ts, 2nat,
{
    let key = ts[i].0;
    let node = json_to_ron::entry_type(model, types, key);
    let under = pointer::key_pointer(pointer, key);
    let q = anchors::under_final_keys(held, own, rest);
    anchors::lemma_behind(key, q);
    assert(keyed[i].0 == key);
    round_trip::lemma_value_of_entry(keyed, i);
    let r = converted(model, own, held, node, depth + 1, rest);
    let whole = anchors::in_typed_entries(model, keyed, Some(source), types, depth, path);
    assert(whole == anchors::behind(key, r));
    lemma_pointer_behind(pointer, key, r);
    anchors::lemma_behind(key, r);
    assert(round_trip::comes_back(model, ts[i].1, node, depth + 1));
    assert(decreases_to!(ts => ts[i]));
    let inner = lemma_arrives(
        model,
        comments,
        ts[i].1,
        node,
        depth + 1,
        own,
        held,
        under,
        rest,
    );
    if r.len() == 0 {
        round_trip::entry_text(
            model,
            comments,
            round_trip::json_entries(model, ts, types),
            types,
            style,
            pointer,
            depth,
            i as nat,
        )
    } else {
        inner
    }
}

proof fn lemma_record_arrives(
    model: Option<TypeModel>,
    comments: Seq<CommentModel>,
    t: Tree,
    ts: Seq<(Seq<char>, Tree)>,
    node: Option<TypeNode>,
    depth: nat,
    source: RonValue,
    value: JsonModel,
    pointer: Seq<char>,
    path: Seq<Seq<char>>,
) -> (w: Seq<char>)
    requires
        t == Tree::Record(ts) || t == Tree::Keyed(ts),
        round_trip::comes_back(model, t, node, depth),
        round_trip::maps_to(source, value, t),
        anchors::fits(value, source),
        source_path(source, path),
        path.len() > 0,
    ensures
        round_trip::written_at(
            model,
            comments,
            t,
            node,
            pointer,
            depth,
            anchors::pointer_from(
                pointer,
                converted(model, source, value, node, depth, path),
            ),
            w,
        ),
    decreases ts, 3nat,
{
    let object = value->Object_0;
    let types = json_to_ron::entry_types(model, node);
    let style = round_trip::key_style(model, ts, node);
    assert(node is None || node->0.kind is Unknown ==> round_trip::comes_back_untyped(
        model,
        t,
        depth,
    ));
    assert(round_trip::entries_come_back(model, ts, types, depth));
    let q = anchors::under_final_keys(value, source, path);
    let keyed = ron_to_json::with_final_keys(value, source)->Object_0;
    let w = match source.shape {
        Shape::Struct { fields, .. } => {
            let k = choose|k: int|
                0 <= k < fields@.len() && field_path(#[trigger] fields@[k], path);
            assert(round_trip::fields_map_to(fields@, object, ts));
            let i = lemma_field_found(source, fields@, object, ts, k, path);
            lemma_entry_arrives(
                model,
                comments,
                ts,
                types,
                style,
                depth,
                source,
                keyed,
                pointer,
                q,
                i,
                fields@[k].value->0,
                object[i].1,
                path.drop_first(),
            )
        },
        Shape::Dictionary { entries } => {
            let k = choose|k: int|
                0 <= k < entries@.len() && entry_path(#[trigger] entries@[k], path);
            assert(round_trip::entries_map_to(entries@, object, ts));
            let i = lemma_entry_found(source, entries@, object, ts, k, path);
            lemma_entry_arrives(
                model,
                comments,
                ts,
                types,
                style,
                depth,
                source,
                keyed,
                pointer,
                q,
                i,
                entries@[k].value->0,
                json::value_of(object, path[0])->0,
                path.drop_first(),
            )
        },
        _ => Seq::empty(),
    };
    lemma_untyped_entries(model, keyed, Some(source), depth, q);
    w
}

proof fn lemma_payload_arrives(
    model: Option<TypeModel>,
    comments: Seq<CommentModel>,
    payload: Payload,
    variant: Option<Variant>,
    depth: nat,
    source: RonValue,
    items: Seq<RonValue>,
    held: JsonModel,
    pointer: Seq<char>,
    path: Seq<Seq<char>>,
) -> (w: Seq<char>)
    requires
        depth < MAX_JSON_DEPTH,
        round_trip::payload_comes_back(model, payload, variant, depth),
        round_trip::payload_maps_to(items, held, payload),
        anchors::payload_fits(held, items),
        tagging::source_items(Some(source)) == items,
        payload_path(items, path),
    ensures
        !(payload is Empty),
        ({
            let r = anchors::in_typed_payload(
                model,
                ron_to_json::payload_with_final_keys(held, items),
                Some(source),
                variant,
                depth,
                anchors::in_payload(held, items, path),
            );
            r.len() == 0 || round_trip::payload_written_at(
                model,
                comments,
                payload,
                variant,
                pointer,
                depth,
                anchors::pointer_from(pointer, r),
                w,
            )
        }),
    decreases payload, 2nat,
{
    match payload {
        Payload::One(x) => {
            let of = json_to_ron::newtype_type(model, variant);
            lemma_arrives(model, comments, *x, of, depth + 1, items[0], held, pointer, path)
        },
        Payload::Many(ts) => {
            let array = held->Array_0;
            assert(item_path(items, path));
            lemma_items_arrive(
                model,
                comments,
                ts,
                json_to_ron::element_types(variant),
                depth,
                source,
                items,
                array,
                pointer,
                path,
            )
        },
        _ => {
            assert(!item_path(items, path));
            Seq::empty()
        },
    }
}

/// Where a value inside what a variant holds is written, given where it stands in that.
proof fn lemma_tag_arrives(
    model: Option<TypeModel>,
    comments: Seq<CommentModel>,
    name: Seq<char>,
    payload: Payload,
    node: TypeNode,
    depth: nat,
    pointer: Seq<char>,
    path: Seq<Seq<char>>,
    inner: Seq<char>,
) -> (w: Seq<char>)
    requires
        node.kind is Enum,
        !(payload is Empty),
        ({
            let variant = json_to_ron::declared(Some(node), name);
            let d = node.kind->discriminator;
            &&& round_trip::tag_comes_back(
                round_trip::json_payload(model, payload, variant),
                false,
                d,
            )
            &&& path.len() == 0 || round_trip::payload_written_at(
                model,
                comments,
                payload,
                variant,
                round_trip::payload_pointer(d, name, pointer),
                depth,
                anchors::pointer_from(round_trip::payload_pointer(d, name, pointer), path),
                inner,
            )
        }),
    ensures
        ({
            let variant = json_to_ron::declared(Some(node), name);
            let d = node.kind->discriminator;
            let r = anchors::behind_tag(
                d,
                name,
                round_trip::json_payload(model, payload, variant),
                path,
            );
            r.len() == 0 || round_trip::written_at(
                model,
                comments,
                Tree::Variant(name, payload),
                Some(node),
                pointer,
                depth,
                anchors::pointer_from(pointer, r),
                w,
            )
        }),
{
    let variant = json_to_ron::declared(Some(node), name);
    let d = node.kind->discriminator;
    let under = round_trip::payload_pointer(d, name, pointer);
    assert(round_trip::tagging(Some(node)) == d);
    match d {
        Discriminator::Adjacent { content, .. } => {
            lemma_pointer_behind(pointer, content@, path);
        },
        _ => {
            lemma_pointer_behind(pointer, name, path);
        },
    }
    if path.len() == 0 {
        round_trip::payload_text(model, comments, payload, variant, under, depth)
    } else {
        inner
    }
}

proof fn lemma_variant_arrives(
    model: Option<TypeModel>,
    comments: Seq<CommentModel>,
    name: Seq<char>,
    payload: Payload,
    node: TypeNode,
    depth: nat,
    source: RonValue,
    value: JsonModel,
    pointer: Seq<char>,
    path: Seq<Seq<char>>,
) -> (w: Seq<char>)
    requires
        node.kind is Enum,
        round_trip::comes_back(model, Tree::Variant(name, payload), Some(node), depth),
        round_trip::maps_to(source, value, Tree::Variant(name, payload)),
        anchors::fits(value, source),
        source_path(source, path),
        path.len() > 0,
    ensures
        ({
            let r = converted(model, source, value, Some(node), depth, path);
            r.len() == 0 || round_trip::written_at(
                model,
                comments,
                Tree::Variant(name, payload),
                Some(node),
                pointer,
                depth,
                anchors::pointer_from(pointer, r),
                w,
            )
        }),
    decreases payload, 3nat,
{
    let variant = json_to_ron::declared(Some(node), name);
    let d = node.kind->discriminator;
    let under = round_trip::payload_pointer(d, name, pointer);
    let object = value->Object_0;
    let keyed = ron_to_json::with_final_keys(value, source);
    let form = tagging::variant_form(keyed, Some(source));
    let q = anchors::under_final_keys(value, source, path);
    match source.shape {
        Shape::Struct { name: own, fields } => {
            let k = choose|k: int|
                0 <= k < fields@.len() && field_path(#[trigger] fields@[k], path);
            assert(anchors::fields_fit(object, fields@));
            assert(anchors::field_fits(object, fields@[k]));
            if ron_to_json::tags_fields(own, fields@, object) {
                assert(!syntax::named(fields@[k].name, object[0].0));
                assert(object[0].0 != path[0]);
                assert(json::key_position(object, path[0], 1) is None);
                assert(json::key_position(object, path[0], 0) is None);
            }
            let ts = payload->Fields_0;
            assert(round_trip::fields_map_to(fields@, object, ts));
            let i = lemma_field_found(source, fields@, object, ts, k, path);
            let after = ron_to_json::fields_with_final_keys(object, fields@);
            assert(object.len() == 1 ==> after[0].0 == object[0].0);
            assert(!ron_to_json::tags_fields(own, fields@, after));
            assert(form == JsonModel::Object(seq![(name, keyed)]));
            let types = json_to_ron::field_types(variant);
            assert(round_trip::payload_comes_back(model, payload, variant, depth));
            assert(round_trip::entries_come_back(model, ts, types, depth));
            round_trip::lemma_fields_keyed(source, fields@, object, ts);
            round_trip::lemma_entry_tags(model, ts, types, depth, source, after);
            let inner = lemma_entry_arrives(
                model,
                comments,
                ts,
                types,
                KeyStyle::Name,
                depth,
                source,
                after,
                under,
                q,
                i,
                fields@[k].value->0,
                object[i].1,
                path.drop_first(),
            );
            let r = anchors::in_typed_entries(model, after, Some(source), types, depth, q);
            assert(anchors::in_typed_payload(model, keyed, Some(source), variant, depth, q) == r);
            assert(tagging::payload_tags(model, keyed, Some(source), variant, depth)
                == round_trip::json_payload(model, payload, variant));
            anchors::lemma_behind(name, q);
            assert(anchors::in_variant(
                model,
                form,
                Some(source),
                node,
                d,
                depth,
                anchors::behind(name, q),
            ) == anchors::behind_tag(
                d,
                name,
                round_trip::json_payload(model, payload, variant),
                r,
            ));
            lemma_tag_arrives(model, comments, name, payload, node, depth, pointer, r, inner)
        },
        _ => {
            let items = tagging::source_items(Some(source));
            let held = object[0].1;
            let rest = path.drop_first();
            assert(path[0] == name);
            assert(json::key_position(object, name, 0) == Some(0nat));
            assert(round_trip::payload_maps_to(items, held, payload));
            assert(payload_path(items, rest));
            assert(anchors::payload_fits(held, items));
            let inner = lemma_payload_arrives(
                model,
                comments,
                payload,
                variant,
                depth,
                source,
                items,
                held,
                under,
                rest,
            );
            let after = ron_to_json::payload_with_final_keys(held, items);
            assert(keyed == JsonModel::Object(seq![(name, after)]));
            let moved = anchors::in_payload(held, items, rest);
            assert(q == anchors::behind(name, moved));
            anchors::lemma_behind(name, moved);
            round_trip::lemma_payload_tags(model, payload, variant, depth, source, items, held);
            let r = anchors::in_typed_payload(model, after, Some(source), variant, depth, moved);
            assert(anchors::in_variant(model, form, Some(source), node, d, depth, q)
                == anchors::behind_tag(
                d,
                name,
                round_trip::json_payload(model, payload, variant),
                r,
            ));
            lemma_tag_arrives(model, comments, name, payload, node, depth, pointer, r, inner)
        },
    }
}

proof fn lemma_plain_variant_arrives(
    model: Option<TypeModel>,
    comments: Seq<CommentModel>,
    name: Seq<char>,
    payload: Payload,
    node: Option<TypeNode>,
    depth: nat,
    source: RonValue,
    value: JsonModel,
    pointer: Seq<char>,
    path: Seq<Seq<char>>,
) -> (w: Seq<char>)
    requires
        !(node matches Some(n) && n.kind is Enum),
        round_trip::comes_back(model, Tree::Variant(name, payload), node, depth),
        round_trip::maps_to(source, value, Tree::Variant(name, payload)),
        anchors::fits(value, source),
        source_path(source, path),
        path.len() > 0,
    ensures
        ({
            let r = converted(model, source, value, node, depth, path);
            r.len() == 0 || round_trip::written_at(
                model,
                comments,
                Tree::Variant(name, payload),
                node,
                pointer,
                depth,
                anchors::pointer_from(pointer, r),
                w,
            )
        }),
    decreases payload, 3nat,
{
    let none: Option<TypeNode> = None;
    let object = value->Object_0;
    let items = tagging::source_items(Some(source));
    let held = object[0].1;
    let rest = path.drop_first();
    let under = pointer::key_pointer(pointer, name);
    let variant = json_to_ron::declared(node, name);
    assert(round_trip::comes_back_untyped(model, Tree::Variant(name, payload), depth));
    assert(round_trip::payload_maps_to(items, held, payload));
    assert(path[0] == name);
    assert(payload_path(items, rest));
    match payload {
        Payload::One(x) => {
            assert(json::key_position(object, name, 0) == Some(0nat));
            assert(anchors::payload_fits(held, items));
            let inner = lemma_arrives(
                model,
                comments,
                *x,
                none,
                depth + 1,
                items[0],
                held,
                under,
                rest,
            );
            let r = anchors::under_final_keys(held, items[0], rest);
            assert(anchors::in_payload(held, items, rest) == r);
            lemma_pointer_behind(pointer, name, r);
            assert(converted(model, source, value, node, depth, path) == anchors::behind(name, r));
            assert(round_trip::payload_pointer(round_trip::tagging(node), name, pointer) == under);
            assert(r.len() > 0 ==> round_trip::payload_written_at(
                model,
                comments,
                payload,
                variant,
                under,
                depth,
                anchors::pointer_from(under, r),
                inner,
            ));
            if r.len() == 0 {
                round_trip::payload_text(model, comments, payload, variant, under, depth)
            } else {
                inner
            }
        },
        _ => {
            assert(!item_path(items, rest));
            Seq::empty()
        },
    }
}

proof fn lemma_anchor_is_place(root: RonValue, tokens: Seq<Token>, n: nat, i: int)
    requires
        0 <= i < comments::comments_in(
            tokens,
            pointer::value_pointers(root, Seq::empty()),
            n,
        ).len(),
    ensures
        is_place(
            root,
            Seq::empty(),
            comments::comments_in(tokens, pointer::value_pointers(root, Seq::empty()), n)[i].anchor,
        ),
    decreases n,
{
    let none = Seq::<char>::empty();
    let values = pointer::value_pointers(root, none);
    let all = comments::comments_in(tokens, values, n);
    let before = comments::comments_in(tokens, values, (n - 1) as nat);
    if i < before.len() {
        lemma_anchor_is_place(root, tokens, (n - 1) as nat, i);
        assert(all[i] == before[i]);
    } else {
        let offset = tokens[n - 1].range.end;
        comments::anchor_is_the_nearest_following_value(values, offset);
        match comments::following_value(values, offset) {
            Some(v) => {
                let j = choose|j: int|
                    0 <= j < values.len() && (#[trigger] values[j]).0.start == v.0 && values[j].1
                        == v.1;
                lemma_pointers(root, none, j);
            },
            None => {
                let path = Seq::<Seq<char>>::empty();
                assert(anchors::pointer_from(none, path) == none);
                assert(source_path(root, path));
            },
        }
    }
}

/// The comments of a document come back: where the document comes back from JSON, each
/// comment stands, with the others of its value, right before the value it is anchored
/// to, or before the key of that value.
pub proof fn document_comments_come_back(
    doc: RonDocument,
    root: RonValue,
    value: JsonModel,
    t: Tree,
    model: Option<TypeModel>,
    node: Option<TypeNode>,
    i: int,
) -> (written: Seq<char>)
    requires
        doc.root == Some(root),
        round_trip::maps_to(root, value, t),
        anchors::fits(value, root),
        round_trip::comes_back(model, t, node, 0),
        0 <= i < comments::document_comments(doc).len(),
    ensures
        ({
            let list = anchors::converted_comments(
                model,
                value,
                root,
                node,
                comments::document_comments(doc),
            );
            let place = list[i].anchor;
            let json = ron_to_json::conventional(model, value, root, node);
            let block = round_trip::comment_block(list, place);
            &&& place == Seq::<char>::empty() && written == json_to_ron::value_emission(
                model,
                list,
                json,
                node,
                Seq::empty(),
                0,
            ).text || round_trip::written_at(
                model,
                list,
                t,
                node,
                Seq::empty(),
                0,
                place,
                written,
            )
            &&& text::holds(
                json_to_ron::document_emission(json, model, node, list).text,
                block + written,
            )
            &&& text::holds(block, comments::document_comments(doc)[i].text)
        }),
{
    let none = Seq::<char>::empty();
    let all = comments::document_comments(doc);
    let list = anchors::converted_comments(model, value, root, node, all);
    lemma_anchor_is_place(root, doc.tokens@, doc.tokens@.len(), i);
    let path = lemma_path_to(root, none, all[i].anchor);
    anchors::segments_are_read_back(path);
    let r = converted(model, root, value, node, 0, path);
    let place = list[i].anchor;
    assert(place == anchors::pointer_from(none, r));
    let inner = lemma_arrives(model, list, t, node, 0, root, value, none, path);
    round_trip::documents_are_tagged(model, t, node, value, root);
    let json = ron_to_json::conventional(model, value, root, node);
    let written = if r.len() == 0 {
        json_to_ron::value_emission(model, list, json, node, none, 0).text
    } else {
        inner
    };
    round_trip::comments_come_back(model, t, node, list, place, written);
    assert(list[i].anchor == place);
    written
}

} // verus!
