//! What the names of map keys stand for.
//!
//! A map key that is no string becomes a property name: the canonical literal of the key.
//! Read as RON, the literal is the key again, so that no key is lost and different keys
//! have different names.

use vstd::prelude::*;

use crate::interop::json_to_ron;
use crate::interop::loss;
use crate::interop::reader::{self, Part, Ron};
use crate::interop::ron_to_json;
use crate::interop::round_trip;
use crate::syntax::{self, MapEntry, RonValue, Shape, StructField, SyntaxKind};
use crate::text;

verus! {

/// What a literal stands for.
pub open spec fn token_tree(token: Seq<char>) -> Ron {
    if reader::begins_quoted(token) {
        Ron::Quoted(token)
    } else {
        Ron::Word(token)
    }
}

/// What a value of a document is, however it is laid out.
pub open spec fn tree_of(value: RonValue) -> Ron
    decreases value, 0nat,
{
    match value.shape {
        Shape::Literal { text, .. } => token_tree(syntax::text_or_empty(text)),
        Shape::Unit => Ron::Group('(', Seq::empty(), Seq::empty()),
        Shape::List { items } => Ron::Group('[', Seq::empty(), item_trees(items@)),
        Shape::Tuple { name, items } => Ron::Group(
            '(',
            syntax::text_or_empty(name),
            item_trees(items@),
        ),
        Shape::Struct { name, fields } => Ron::Group(
            '(',
            syntax::text_or_empty(name),
            field_trees(fields@),
        ),
        Shape::Dictionary { entries } => Ron::Group('{', Seq::empty(), entry_trees(entries@)),
        Shape::EnumVariant { name, items, .. } => if items@.len() == 0 {
            Ron::Word(syntax::text_or_empty(name))
        } else {
            Ron::Group('(', syntax::text_or_empty(name), item_trees(items@))
        },
        Shape::Error => Ron::Word(Seq::empty()),
    }
}

/// What items are.
pub open spec fn item_trees(items: Seq<RonValue>) -> Seq<Part>
    decreases items, 0nat,
{
    Seq::new(
        items.len(),
        |i: int|
            if 0 <= i < items.len() {
                Part::Item(tree_of(items[i]))
            } else {
                Part::Item(Ron::Word(Seq::empty()))
            },
    )
}

/// What fields are.
pub open spec fn field_trees(fields: Seq<StructField>) -> Seq<Part>
    decreases fields, 0nat,
{
    Seq::new(
        fields.len(),
        |i: int|
            if 0 <= i < fields.len() {
                field_tree(fields[i])
            } else {
                Part::Item(Ron::Word(Seq::empty()))
            },
    )
}

/// What a field is.
pub open spec fn field_tree(field: StructField) -> Part
    decreases field, 0nat,
{
    match (field.name, field.value) {
        (Some(name), Some(value)) => Part::Pair(Ron::Word(name@), tree_of(value)),
        _ => Part::Item(Ron::Word(Seq::empty())),
    }
}

/// What map entries are.
pub open spec fn entry_trees(entries: Seq<MapEntry>) -> Seq<Part>
    decreases entries, 0nat,
{
    Seq::new(
        entries.len(),
        |i: int|
            if 0 <= i < entries.len() {
                entry_tree(entries[i])
            } else {
                Part::Item(Ron::Word(Seq::empty()))
            },
    )
}

/// What a map entry is.
pub open spec fn entry_tree(entry: MapEntry) -> Part
    decreases entry, 0nat,
{
    match (entry.key, entry.value) {
        (Some(key), Some(value)) => Part::Pair(tree_of(key), tree_of(value)),
        _ => Part::Item(Ron::Word(Seq::empty())),
    }
}

/// Whether a value is complete, as the parser reads it from a text without mistakes: every
/// literal is one token, every name is a word, and nothing is missing.
pub open spec fn complete(value: RonValue) -> bool
    decreases value, 0nat,
{
    match value.shape {
        Shape::Literal { text, .. } => text matches Some(t) && (reader::is_word(t@)
            || reader::is_quoted(t@)),
        Shape::Unit => true,
        Shape::List { items } => items_complete(items@),
        Shape::Tuple { name, items } => (name matches Some(n) ==> reader::is_word(n@))
            && items_complete(items@),
        Shape::Struct { name, fields } => (name matches Some(n) ==> reader::is_word(n@)) && forall|
            k: int,
        |
            0 <= k < fields@.len() ==> field_complete(#[trigger] fields@[k]),
        Shape::Dictionary { entries } => forall|k: int|
            0 <= k < entries@.len() ==> entry_complete(#[trigger] entries@[k]),
        Shape::EnumVariant { name, items, entries } => (name matches Some(n) && reader::is_word(n@))
            && entries@.len() == 0 && items_complete(items@),
        Shape::Error => false,
    }
}

/// Whether items are complete.
pub open spec fn items_complete(items: Seq<RonValue>) -> bool
    decreases items, 0nat,
{
    forall|k: int| 0 <= k < items.len() ==> complete(#[trigger] items[k])
}

/// Whether a field is complete.
pub open spec fn field_complete(field: StructField) -> bool
    decreases field, 0nat,
{
    (field.name matches Some(n) && reader::is_word(n@)) && (field.value matches Some(v) && complete(
        v,
    ))
}

/// Whether a map entry is complete.
pub open spec fn entry_complete(entry: MapEntry) -> bool
    decreases entry, 0nat,
{
    (entry.key matches Some(k) && complete(k)) && (entry.value matches Some(v) && complete(v))
}

proof fn lemma_spelled(value: RonValue)
    requires
        complete(value),
    ensures
        reader::spells(ron_to_json::canonical(value), tree_of(value)),
    decreases value, 0nat,
{
    let none = Seq::<char>::empty();
    match value.shape {
        Shape::Literal { text, .. } => {
            let t = text->0@;
            if reader::is_quoted(t) {
                reader::lemma_quoted(t);
            } else {
                reader::lemma_word(t);
                reader::lemma_no_raw(t, none);
                assert(t + none =~= t);
                assert(reader::plain(t[0]));
            }
        },
        Shape::Unit => {
            reveal_strlit("()");
            let pieces = Seq::<Seq<char>>::empty();
            reader::lemma_group('(', none, pieces, Seq::empty());
            assert("()"@ =~= none + round_trip::enclosed('(', pieces, ')'));
        },
        Shape::List { items } => {
            let pieces = lemma_items_spelled(items@);
            reader::lemma_group('[', none, pieces, item_trees(items@));
            assert(ron_to_json::canonical(value) =~= none + round_trip::enclosed('[', pieces, ']'));
        },
        Shape::Tuple { name, items } => {
            let own = syntax::text_or_empty(name);
            let pieces = lemma_items_spelled(items@);
            reader::lemma_group('(', own, pieces, item_trees(items@));
            assert(ron_to_json::canonical(value) =~= own + round_trip::enclosed('(', pieces, ')'));
        },
        Shape::EnumVariant { name, items, .. } => {
            let own = syntax::text_or_empty(name);
            if items@.len() == 0 {
                reader::lemma_word(own);
                assert(ron_to_json::canonical(value) =~= own);
            } else {
                let pieces = lemma_items_spelled(items@);
                reader::lemma_group('(', own, pieces, item_trees(items@));
                assert(ron_to_json::canonical(value) =~= own + round_trip::enclosed(
                    '(',
                    pieces,
                    ')',
                ));
            }
        },
        Shape::Struct { name, fields } => {
            let own = syntax::text_or_empty(name);
            let pieces = lemma_fields_spelled(fields@);
            reader::lemma_group('(', own, pieces, field_trees(fields@));
            assert(ron_to_json::canonical(value) =~= own + round_trip::enclosed('(', pieces, ')'));
        },
        Shape::Dictionary { entries } => {
            let pieces = lemma_entries_spelled(entries@);
            reader::lemma_group('{', none, pieces, entry_trees(entries@));
            assert(ron_to_json::canonical(value) =~= none + round_trip::enclosed('{', pieces, '}'));
        },
        Shape::Error => {},
    }
}

proof fn lemma_items_spelled(items: Seq<RonValue>) -> (pieces: Seq<Seq<char>>)
    requires
        items_complete(items),
    ensures
        reader::spell_parts(pieces, item_trees(items)),
        ron_to_json::canonical_items(items, 0) == round_trip::listing(pieces, 0),
    decreases items, 1nat,
{
    let pieces = Seq::new(items.len(), |i: int| ron_to_json::canonical(items[i]));
    let parts = item_trees(items);
    assert forall|i: int| 0 <= i < parts.len() implies reader::spells_part(
        #[trigger] pieces[i],
        parts[i],
    ) by {
        lemma_spelled(items[i]);
    }
    lemma_item_listing(items, pieces, 0);
    pieces
}

proof fn lemma_item_listing(items: Seq<RonValue>, pieces: Seq<Seq<char>>, from: nat)
    requires
        pieces.len() == items.len(),
        forall|i: int|
            0 <= i < items.len() ==> #[trigger] pieces[i] == ron_to_json::canonical(items[i]),
    ensures
        ron_to_json::canonical_items(items, from) == round_trip::listing(pieces, from),
    decreases items.len() - from,
{
    if from < items.len() {
        lemma_item_listing(items, pieces, from + 1);
        assert(pieces[from as int] == ron_to_json::canonical(items[from as int]));
    }
}

proof fn lemma_fields_spelled(fields: Seq<StructField>) -> (pieces: Seq<Seq<char>>)
    requires
        forall|k: int| 0 <= k < fields.len() ==> field_complete(#[trigger] fields[k]),
    ensures
        reader::spell_parts(pieces, field_trees(fields)),
        ron_to_json::canonical_fields(fields, 0, true) == round_trip::listing(pieces, 0),
    decreases fields, 1nat,
{
    let pieces = Seq::new(
        fields.len(),
        |i: int| fields[i].name->0@ + ": "@ + ron_to_json::canonical(fields[i].value->0),
    );
    let parts = field_trees(fields);
    assert forall|i: int| 0 <= i < parts.len() implies reader::spells_part(
        #[trigger] pieces[i],
        parts[i],
    ) by {
        let field = fields[i];
        assert(field_complete(field));
        assert(decreases_to!(fields => field));
        let name = field.name->0@;
        let value = field.value->0;
        reader::lemma_word(name);
        lemma_spelled(value);
        reader::lemma_pair(name, Ron::Word(name), ron_to_json::canonical(value), tree_of(value));
        assert(parts[i] == field_tree(field));
    }
    lemma_field_listing(fields, pieces, 0);
    pieces
}

proof fn lemma_field_listing(fields: Seq<StructField>, pieces: Seq<Seq<char>>, from: nat)
    requires
        pieces.len() == fields.len(),
        forall|k: int| 0 <= k < fields.len() ==> field_complete(#[trigger] fields[k]),
        forall|i: int|
            0 <= i < fields.len() ==> #[trigger] pieces[i] == fields[i].name->0@ + ": "@
                + ron_to_json::canonical(fields[i].value->0),
    ensures
        ron_to_json::canonical_fields(fields, from, from == 0) == round_trip::listing(pieces, from),
    decreases fields.len() - from,
{
    if from < fields.len() {
        lemma_field_listing(fields, pieces, from + 1);
        assert(field_complete(fields[from as int]));
        let piece = pieces[from as int];
        assert(ron_to_json::canonical_fields(fields, from, from == 0)
            =~= ron_to_json::separator(from == 0) + piece + ron_to_json::canonical_fields(
            fields,
            from + 1,
            false,
        ));
    }
}

proof fn lemma_entries_spelled(entries: Seq<MapEntry>) -> (pieces: Seq<Seq<char>>)
    requires
        forall|k: int| 0 <= k < entries.len() ==> entry_complete(#[trigger] entries[k]),
    ensures
        reader::spell_parts(pieces, entry_trees(entries)),
        ron_to_json::canonical_entries(entries, 0, true) == round_trip::listing(pieces, 0),
    decreases entries, 1nat,
{
    let pieces = Seq::new(
        entries.len(),
        |i: int|
            ron_to_json::canonical(entries[i].key->0) + ": "@ + ron_to_json::canonical(
                entries[i].value->0,
            ),
    );
    let parts = entry_trees(entries);
    assert forall|i: int| 0 <= i < parts.len() implies reader::spells_part(
        #[trigger] pieces[i],
        parts[i],
    ) by {
        let entry = entries[i];
        assert(entry_complete(entry));
        assert(decreases_to!(entries => entry));
        let key = entry.key->0;
        let value = entry.value->0;
        lemma_spelled(key);
        lemma_spelled(value);
        reader::lemma_pair(
            ron_to_json::canonical(key),
            tree_of(key),
            ron_to_json::canonical(value),
            tree_of(value),
        );
        assert(parts[i] == entry_tree(entry));
    }
    lemma_entry_listing(entries, pieces, 0);
    pieces
}

proof fn lemma_entry_listing(entries: Seq<MapEntry>, pieces: Seq<Seq<char>>, from: nat)
    requires
        pieces.len() == entries.len(),
        forall|k: int| 0 <= k < entries.len() ==> entry_complete(#[trigger] entries[k]),
        forall|i: int|
            0 <= i < entries.len() ==> #[trigger] pieces[i] == ron_to_json::canonical(
                entries[i].key->0,
            ) + ": "@ + ron_to_json::canonical(entries[i].value->0),
    ensures
        ron_to_json::canonical_entries(entries, from, from == 0) == round_trip::listing(
            pieces,
            from,
        ),
    decreases entries.len() - from,
{
    if from < entries.len() {
        lemma_entry_listing(entries, pieces, from + 1);
        assert(entry_complete(entries[from as int]));
        let piece = pieces[from as int];
        assert(ron_to_json::canonical_entries(entries, from, from == 0)
            =~= ron_to_json::separator(from == 0) + piece + ron_to_json::canonical_entries(
            entries,
            from + 1,
            false,
        ));
    }
}

/// The canonical literal of a value, read as RON, is the value.
pub proof fn canonical_literals_read_back(value: RonValue)
    requires
        complete(value),
    ensures
        reader::meaning(ron_to_json::canonical(value)) == Some(tree_of(value)),
{
    lemma_spelled(value);
    reader::lemma_meaning(ron_to_json::canonical(value), tree_of(value));
}

/// The property name of a map key that is no string, read as RON, is the key.
pub proof fn key_names_read_back(key: RonValue)
    requires
        complete(key),
        !loss::string_key(key),
    ensures
        reader::meaning(ron_to_json::final_key(key)) == Some(tree_of(key)),
{
    canonical_literals_read_back(key);
}

/// The property name of a string key is the string that the key quotes.
pub proof fn string_keys_are_their_text(key: RonValue, s: Seq<char>)
    requires
        key.shape matches Shape::Literal { kind: Some(SyntaxKind::String), text } && (text
            matches Some(t) && t@ == json_to_ron::literal(s, '"')),
    ensures
        ron_to_json::final_key(key) == s,
{
    json_to_ron::literals_read_back(s, '"');
}

/// Different keys have different names.
pub proof fn different_keys_have_different_names(a: RonValue, b: RonValue)
    requires
        complete(a),
        complete(b),
        !loss::string_key(a),
        !loss::string_key(b),
        tree_of(a) != tree_of(b),
    ensures
        ron_to_json::final_key(a) != ron_to_json::final_key(b),
{
    key_names_read_back(a);
    key_names_read_back(b);
}

/// What could not be parsed is kept as it is written, without the white space around it.
pub proof fn unreadable_values_keep_their_text(value: RonValue) -> (part: (int, int))
    requires
        value.shape is Error,
    ensures
        0 <= part.0 <= part.1 <= value.text@.len(),
        ron_to_json::canonical(value) == value.text@.subrange(part.0, part.1),
        forall|i: int| 0 <= i < part.0 ==> text::white_space(#[trigger] value.text@[i]),
        forall|i: int|
            part.1 <= i < value.text@.len() ==> text::white_space(#[trigger] value.text@[i]),
        part.0 < part.1 ==> !text::white_space(value.text@[part.0]) && !text::white_space(
            value.text@[part.1 - 1],
        ),
{
    text::trimming_takes_white_space_off(value.text@)
}

} // verus!
