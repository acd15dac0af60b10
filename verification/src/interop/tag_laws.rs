//! What tagging keeps.
//!
//! Whatever the types of a document say, and whether or not its values are of them, the
//! tagged document holds what the document held: only names of variants move.

use vstd::prelude::*;

use crate::interop::json::{self, JsonModel};
use crate::interop::json_to_ron::{self, EntryTypes, ItemTypes, MAX_JSON_DEPTH};
use crate::interop::ron_to_json;
use crate::interop::round_trip;
use crate::interop::tagging;
use crate::syntax::RonValue;
use crate::types::{Discriminator, NodeKind, TypeModel, TypeNode, Variant, VariantShape};

verus! {

/// Whether `b` is the variant `name` with the payload `p`, tagged as `d` says. Where the
/// tag stands inside, a payload that is neither an object nor null is tagged from
/// outside.
pub open spec fn is_tagging(d: Discriminator, name: Seq<char>, p: JsonModel, b: JsonModel) -> bool {
    match d {
        Discriminator::External => b == JsonModel::Object(seq![(name, p)]),
        Discriminator::Untagged => b == p,
        Discriminator::Adjacent { tag, content } => b matches JsonModel::Object(all)
            && json::value_of(all, content@) == Some(p) && (tag@ != content@ ==> all.len() == 2
            && json::value_of(all, tag@) == Some(JsonModel::Str(name))),
        Discriminator::Internal { tag } => match p {
            JsonModel::Object(inner) => b matches JsonModel::Object(all) && json::value_of(
                all,
                tag@,
            ) == Some(JsonModel::Str(name)) && forall|key: Seq<char>|
                key != tag@ ==> #[trigger] json::value_of(all, key) == json::value_of(inner, key),
            JsonModel::Null => b == JsonModel::Object(seq![(tag@, JsonModel::Str(name))]),
            _ => b == JsonModel::Object(seq![(name, p)]),
        },
    }
}

/// A variant is tagged as its type says, and a value that is no variant stays.
pub proof fn variants_are_tagged(name: Seq<char>, p: JsonModel, d: Discriminator, other: JsonModel)
    requires
        !(other matches JsonModel::Object(entries) && entries.len() == 1),
    ensures
        is_tagging(d, name, p, ron_to_json::retagged(JsonModel::Object(seq![(name, p)]), d)),
        ron_to_json::retagged(other, d) == other,
{
    let entries = seq![(name, p)];
    let value = JsonModel::Object(entries);
    assert(entries[0] == (name, p));
    match d {
        Discriminator::Adjacent { tag, content } => {
            let first = seq![(tag@, JsonModel::Str(name))];
            round_trip::lemma_stored(first, content@, p, content@);
            round_trip::lemma_stored(first, content@, p, tag@);
            reveal_with_fuel(json::key_position, 2);
            assert(json::value_of(first, tag@) == Some(first[0].1));
            reveal_with_fuel(json::with_entry, 2);
        },
        Discriminator::Internal { tag } => {
            if let JsonModel::Object(inner) = p {
                let tagged = JsonModel::Str(name);
                let all = json::with_entry(inner, tag@, tagged);
                round_trip::lemma_stored(inner, tag@, tagged, tag@);
                assert forall|key: Seq<char>| key != tag@ implies #[trigger] json::value_of(all, key)
                    == json::value_of(inner, key) by {
                    round_trip::lemma_stored(inner, tag@, tagged, key);
                }
            }
        },
        _ => {},
    }
}

/// What a value holds under its only property, if that is `name`.
pub open spec fn held(a: JsonModel, name: Seq<char>) -> Option<JsonModel> {
    match a {
        JsonModel::Object(entries) => if entries.len() == 1 && entries[0].0 == name {
            Some(entries[0].1)
        } else {
            None
        },
        _ => None,
    }
}

/// Whether `b` holds what `a` holds, at most `n` levels of it tagged anew: item by item
/// and property by property, but for variants that are tagged in some way.
pub open spec fn retells(a: JsonModel, b: JsonModel, n: nat) -> bool
    decreases n,
{
    a == b || n > 0 && {
        ||| retells(a, b, (n - 1) as nat)
        ||| match (a, b) {
            (JsonModel::Array(x), JsonModel::Array(y)) => x.len() == y.len() && forall|i: int|
                0 <= i < x.len() ==> retells(#[trigger] x[i], y[i], (n - 1) as nat),
            (JsonModel::Object(x), JsonModel::Object(y)) => x.len() == y.len() && forall|i: int|
                0 <= i < x.len() ==> (#[trigger] x[i]).0 == y[i].0 && retells(
                    x[i].1,
                    y[i].1,
                    (n - 1) as nat,
                ),
            _ => false,
        }
        ||| exists|d: Discriminator, name: Seq<char>, p: JsonModel| #[trigger]
            is_tagging(d, name, p, b) && ((held(a, name) is Some && retells(
                held(a, name)->0,
                p,
                (n - 1) as nat,
            )) || (a is Object && retells(a, p, (n - 1) as nat)))
    }
}

proof fn lemma_more(a: JsonModel, b: JsonModel, n: nat, more: nat)
    requires
        retells(a, b, n),
        n <= more,
    ensures
        retells(a, b, more),
    decreases more,
{
    if n < more {
        lemma_more(a, b, n, (more - 1) as nat);
    }
}

/// How many levels are tagged anew below a depth.
pub open spec fn levels(depth: nat) -> nat {
    if depth < MAX_JSON_DEPTH {
        (2 * (MAX_JSON_DEPTH - depth)) as nat
    } else {
        0
    }
}

proof fn lemma_typed(
    model: Option<TypeModel>,
    value: JsonModel,
    source: Option<RonValue>,
    node: Option<TypeNode>,
    depth: nat,
)
    ensures
        retells(
            value,
            tagging::typed_tags(model, value, source, node, depth),
            levels(depth),
        ),
    decreases MAX_JSON_DEPTH + 1 - depth, 3nat,
{
    let after = tagging::typed_tags(model, value, source, node, depth);
    if depth < MAX_JSON_DEPTH {
        if let Some(n) = node {
            match (n.kind, value) {
                (NodeKind::Optional { inner }, _) => {
                    let s = tagging::option_source(source);
                    let t = json_to_ron::target(model, inner);
                    lemma_typed(model, value, s, t, depth + 1);
                    lemma_more(value, after, levels(depth + 1), levels(depth));
                },
                (NodeKind::Sequence { .. }, JsonModel::Array(items)) => {
                    let types = json_to_ron::item_types(model, node);
                    lemma_items(model, items, source, types, depth);
                    lemma_more(value, after, (levels(depth) - 1) as nat, levels(depth));
                },
                (NodeKind::Tuple { .. }, JsonModel::Array(items)) => {
                    let types = json_to_ron::item_types(model, node);
                    lemma_items(model, items, source, types, depth);
                    lemma_more(value, after, (levels(depth) - 1) as nat, levels(depth));
                },
                (NodeKind::Object { .. }, JsonModel::Object(entries)) => {
                    let types = json_to_ron::entry_types(model, node);
                    lemma_entries(model, entries, source, types, depth);
                    lemma_more(value, after, (levels(depth) - 1) as nat, levels(depth));
                },
                (NodeKind::Dictionary { .. }, JsonModel::Object(entries)) => {
                    let types = json_to_ron::entry_types(model, node);
                    lemma_entries(model, entries, source, types, depth);
                    lemma_more(value, after, (levels(depth) - 1) as nat, levels(depth));
                },
                (NodeKind::Enum { discriminator, .. }, _) => {
                    lemma_variant(model, value, source, n, discriminator, depth);
                },
                _ => {},
            }
        }
    }
}

proof fn lemma_variant(
    model: Option<TypeModel>,
    value: JsonModel,
    source: Option<RonValue>,
    node: TypeNode,
    d: Discriminator,
    depth: nat,
)
    requires
        depth < MAX_JSON_DEPTH,
    ensures
        retells(
            value,
            tagging::variant_tags(
                model,
                tagging::variant_form(value, source),
                source,
                node,
                d,
                depth,
            ),
            levels(depth),
        ),
    decreases MAX_JSON_DEPTH + 1 - depth, 2nat,
{
    let form = tagging::variant_form(value, source);
    let after = tagging::variant_tags(model, form, source, node, d, depth);
    if let JsonModel::Object(entries) = form {
        if entries.len() == 1 {
            let name = entries[0].0;
            let variant = json_to_ron::declared(Some(node), name);
            let p = tagging::payload_tags(model, entries[0].1, source, variant, depth);
            lemma_payload(model, entries[0].1, source, variant, depth);
            variants_are_tagged(name, p, d, JsonModel::Null);
            assert(is_tagging(d, name, p, after));
            if tagging::struct_name(value, source) is Some {
                assert(entries[0].1 == value);
                assert(value is Object);
            } else {
                assert(held(value, name) == Some(entries[0].1));
            }
        }
    }
}

proof fn lemma_payload(
    model: Option<TypeModel>,
    payload: JsonModel,
    source: Option<RonValue>,
    variant: Option<Variant>,
    depth: nat,
)
    requires
        depth < MAX_JSON_DEPTH,
    ensures
        retells(
            payload,
            tagging::payload_tags(model, payload, source, variant, depth),
            (levels(depth) - 1) as nat,
        ),
    decreases MAX_JSON_DEPTH + 1 - depth, 1nat,
{
    let after = tagging::payload_tags(model, payload, source, variant, depth);
    if let Some(v) = variant {
        match (v.shape, payload) {
            (VariantShape::Newtype(inner), _) => {
                let s = tagging::sole_source(source);
                lemma_typed(model, payload, s, json_to_ron::target(model, inner), depth + 1);
                lemma_more(payload, after, levels(depth + 1), (levels(depth) - 1) as nat);
            },
            (VariantShape::Tuple(_), JsonModel::Array(items)) => {
                let types = json_to_ron::element_types(variant);
                lemma_items(model, items, source, types, depth);
            },
            (VariantShape::Struct(_), JsonModel::Object(entries)) => {
                let types = json_to_ron::field_types(variant);
                lemma_entries(model, entries, source, types, depth);
            },
            _ => {},
        }
    }
}

proof fn lemma_items(
    model: Option<TypeModel>,
    items: Seq<JsonModel>,
    source: Option<RonValue>,
    types: ItemTypes,
    depth: nat,
)
    requires
        depth < MAX_JSON_DEPTH,
    ensures
        retells(
            JsonModel::Array(items),
            JsonModel::Array(tagging::item_tags(model, items, source, types, depth)),
            (levels(depth) - 1) as nat,
        ),
    decreases MAX_JSON_DEPTH + 1 - depth, 0nat,
{
    let after = tagging::item_tags(model, items, source, types, depth);
    assert(levels(depth) == levels(depth + 1) + 2);
    assert forall|i: int| 0 <= i < items.len() implies retells(
        #[trigger] items[i],
        after[i],
        levels(depth + 1),
    ) by {
        let s = tagging::item_source(source, i as nat);
        let t = json_to_ron::item_type(model, types, i as nat);
        lemma_typed(model, items[i], s, t, depth + 1);
    }
}

proof fn lemma_entries(
    model: Option<TypeModel>,
    entries: Seq<(Seq<char>, JsonModel)>,
    source: Option<RonValue>,
    types: EntryTypes,
    depth: nat,
)
    requires
        depth < MAX_JSON_DEPTH,
    ensures
        retells(
            JsonModel::Object(entries),
            JsonModel::Object(tagging::entry_tags(model, entries, source, types, depth)),
            (levels(depth) - 1) as nat,
        ),
    decreases MAX_JSON_DEPTH + 1 - depth, 0nat,
{
    let after = tagging::entry_tags(model, entries, source, types, depth);
    assert(levels(depth) == levels(depth + 1) + 2);
    assert forall|i: int| 0 <= i < entries.len() implies (#[trigger] entries[i]).0 == after[i].0
        && retells(entries[i].1, after[i].1, levels(depth + 1)) by {
        let s = tagging::entry_source(source, entries[i].0);
        let t = json_to_ron::entry_type(model, types, entries[i].0);
        lemma_typed(model, entries[i].1, s, t, depth + 1);
    }
}

/// Tagging loses nothing: the tagged document holds what the document held, whatever its
/// types say and whether or not it is of them.
pub proof fn tagging_keeps_the_content(
    model: Option<TypeModel>,
    value: JsonModel,
    source: Option<RonValue>,
    node: Option<TypeNode>,
)
    ensures
        retells(value, tagging::typed_tags(model, value, source, node, 0), levels(0)),
{
    lemma_typed(model, value, source, node, 0);
}

/// The value of an enum type is tagged as the type says, over a payload that holds what
/// the payload held: an untagged one is the payload alone.
pub proof fn enum_values_are_tagged_by_their_type(
    model: Option<TypeModel>,
    name: Seq<char>,
    payload: JsonModel,
    node: TypeNode,
    depth: nat,
) -> (p: JsonModel)
    requires
        node.kind is Enum,
        depth < MAX_JSON_DEPTH,
    ensures
        retells(payload, p, levels(depth)),
        is_tagging(
            node.kind->Enum_discriminator,
            name,
            p,
            tagging::typed_tags(
                model,
                JsonModel::Object(seq![(name, payload)]),
                None,
                Some(node),
                depth,
            ),
        ),
{
    let d = node.kind->Enum_discriminator;
    let entries = seq![(name, payload)];
    let value = JsonModel::Object(entries);
    let variant = json_to_ron::declared(Some(node), name);
    let p = tagging::payload_tags(model, payload, None, variant, depth);
    lemma_payload(model, payload, None, variant, depth);
    lemma_more(payload, p, (levels(depth) - 1) as nat, levels(depth));
    variants_are_tagged(name, p, d, JsonModel::Null);
    assert(tagging::variant_form(value, None) == value);
    assert(entries[0] == (name, payload));
    let after = tagging::variant_tags(model, value, None, node, d, depth);
    assert(after == ron_to_json::retagged(JsonModel::Object(seq![(name, p)]), d));
    assert(tagging::typed_tags(model, value, None, Some(node), depth) == after);
    p
}

} // verus!
