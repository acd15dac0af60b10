//! What RON that is rebuilt from JSON holds.
//!
//! Nothing of a JSON value is lost on the way to RON: read as RON, and read by the same
//! type, the text tells the JSON value it was made from, whatever its type and however
//! the variants of an enum are tagged.

use vstd::prelude::*;

use crate::interop::comments::CommentModel;
use crate::interop::json::{self, JsonModel};
use crate::interop::json_to_ron::{self, EntryTypes, ItemTypes, KeyStyle, MAX_JSON_DEPTH};
use crate::interop::pointer;
use crate::interop::reader::{self, Part, Ron};
use crate::interop::round_trip;
use crate::types::{Discriminator, NodeKind, RonKind, TypeModel, TypeNode, Variant, VariantShape};

verus! {

/// The variant that a JSON value stands for under a tagging: its name, and what it holds.
pub open spec fn variant_in(value: JsonModel, discriminator: Discriminator) -> Option<
    (Seq<char>, Option<JsonModel>),
> {
    match value {
        JsonModel::Object(entries) => match discriminator {
            Discriminator::External => if entries.len() == 1 {
                Some((entries[0].0, Some(entries[0].1)))
            } else {
                None
            },
            Discriminator::Internal { tag } => match json::value_of(entries, tag@) {
                Some(JsonModel::Str(name)) => {
                    let rest = json::without_key(entries, tag@);
                    Some(
                        (
                            name,
                            if rest.len() == 0 {
                                None
                            } else {
                                Some(JsonModel::Object(rest))
                            },
                        ),
                    )
                },
                _ => None,
            },
            Discriminator::Adjacent { tag, content } => match json::value_of(entries, tag@) {
                Some(JsonModel::Str(name)) => Some((name, json::value_of(entries, content@))),
                _ => None,
            },
            Discriminator::Untagged => None,
        },
        _ => None,
    }
}

/// Whether a JSON value is one of a type, as far as its outermost layer shows.
pub open spec fn suits(node: TypeNode, value: JsonModel) -> bool {
    match node.kind {
        NodeKind::Optional { .. } => true,
        NodeKind::Primitive { .. } => if node.ron_kind == Some(RonKind::Unit) {
            value is Null
        } else if node.ron_kind == Some(RonKind::Char) {
            value matches JsonModel::Str(s) && s.len() == 1
        } else {
            true
        },
        NodeKind::Tuple { .. } | NodeKind::Sequence { .. } => value is Array,
        NodeKind::Object { .. } | NodeKind::Dictionary { .. } => value is Object,
        NodeKind::Enum { discriminator, .. } => variant_in(value, discriminator) is Some,
        NodeKind::Unknown => false,
    }
}

/// Whether a scalar stands as itself.
pub open spec fn tells_scalar(v: Ron, value: JsonModel) -> bool {
    match value {
        JsonModel::Bool(b) => v == Ron::Word(
            if b {
                "true"@
            } else {
                "false"@
            },
        ),
        JsonModel::Number(n) => v == Ron::Word(n),
        JsonModel::Str(s) => v matches Ron::Quoted(q) && round_trip::quotes(q, s, '"'),
        _ => false,
    }
}

/// Whether what was read is a group with a name.
pub open spec fn is_group(v: Ron, open: char, name: Seq<char>) -> bool {
    v matches Ron::Group(o, n, _) && o == open && n == name
}

/// Whether what was read tells a JSON value without a type.
pub open spec fn tells_plain(v: Ron, value: JsonModel) -> bool
    decreases v, 0nat,
{
    match value {
        JsonModel::Null => v == Ron::Word("None"@),
        JsonModel::Array(items) => match v {
            Ron::Group(open, name, parts) => open == '[' && name.len() == 0 && parts.len()
                == items.len() && forall|i: int|
                0 <= i < parts.len() ==> item_tells_plain(#[trigger] parts[i], items[i]),
            _ => false,
        },
        JsonModel::Object(entries) => if entries.len() == 1 && json_to_ron::variant_like(
            entries[0].0,
        ) {
            match v {
                Ron::Word(w) => entries[0].1 is Null && w == entries[0].0,
                Ron::Group(open, name, parts) => open == '(' && name == entries[0].0 && parts.len()
                    == 1 && item_tells_plain(parts[0], entries[0].1),
                _ => false,
            }
        } else {
            match v {
                Ron::Group(open, name, parts) => (open == '(' || open == '{') && name.len() == 0
                    && parts.len() == entries.len() && forall|i: int|
                    0 <= i < parts.len() ==> pair_tells_plain(
                        #[trigger] parts[i],
                        entries[i].0,
                        entries[i].1,
                        open == '(',
                    ),
                _ => false,
            }
        },
        _ => tells_scalar(v, value),
    }
}

/// Whether an item tells a JSON value without a type.
pub open spec fn item_tells_plain(part: Part, value: JsonModel) -> bool
    decreases part, 0nat,
{
    match part {
        Part::Item(v) => tells_plain(v, value),
        Part::Pair(_, _) => false,
    }
}

/// Whether a key with a value tells a property without a type: in a struct the key is a
/// name, in a map a string.
pub open spec fn pair_tells_plain(
    part: Part,
    key: Seq<char>,
    value: JsonModel,
    named: bool,
) -> bool
    decreases part, 0nat,
{
    match part {
        Part::Item(_) => false,
        Part::Pair(k, v) => key_tells(
            k,
            key,
            if named {
                KeyStyle::Name
            } else {
                KeyStyle::Quoted
            },
        ) && tells_plain(v, value),
    }
}

/// Whether a key tells a property name: as a name or a string, as a string, or as the
/// literal that the property name is.
pub open spec fn key_tells(k: Ron, key: Seq<char>, style: KeyStyle) -> bool {
    match style {
        KeyStyle::Name => k == Ron::Word(key) || (k matches Ron::Quoted(q) && round_trip::quotes(
            q,
            key,
            '"',
        )),
        KeyStyle::Quoted => k matches Ron::Quoted(q) && round_trip::quotes(q, key, '"'),
        KeyStyle::Verbatim => reader::meaning(key) == Some(k),
    }
}

/// Whether what was read tells a JSON value of a type.
pub open spec fn tells(
    model: Option<TypeModel>,
    v: Ron,
    value: JsonModel,
    node: Option<TypeNode>,
) -> bool
    decreases v, 2nat,
{
    match node {
        Some(n) => if suits(n, value) {
            tells_typed(model, v, value, n)
        } else {
            tells_plain(v, value)
        },
        None => tells_plain(v, value),
    }
}

/// Whether what was read tells a JSON value that suits its type.
pub open spec fn tells_typed(
    model: Option<TypeModel>,
    v: Ron,
    value: JsonModel,
    node: TypeNode,
) -> bool
    decreases v, 1nat,
{
    match node.kind {
        NodeKind::Optional { inner } => if value is Null {
            v == Ron::Word("None"@)
        } else {
            match v {
                Ron::Group(open, name, parts) => open == '(' && name == "Some"@ && parts.len() == 1
                    && item_tells(model, parts[0], value, json_to_ron::target(model, inner)),
                _ => false,
            }
        },
        NodeKind::Primitive { .. } => if node.ron_kind == Some(RonKind::Char) {
            match (v, value) {
                (Ron::Quoted(q), JsonModel::Str(s)) => round_trip::quotes(q, s, '\''),
                _ => false,
            }
        } else if value is Null {
            v == Ron::Group('(', Seq::empty(), Seq::empty())
        } else {
            tells_scalar(v, value)
        },
        NodeKind::Tuple { elements } => match (v, value) {
            (Ron::Group(open, name, parts), JsonModel::Array(items)) => open == '(' && name.len()
                == 0 && items_tell(model, parts, items, ItemTypes::Each(elements@)),
            _ => false,
        },
        NodeKind::Sequence { element } => match (v, value) {
            (Ron::Group(open, name, parts), JsonModel::Array(items)) => open == '[' && name.len()
                == 0 && items_tell(
                model,
                parts,
                items,
                ItemTypes::Same(json_to_ron::target(model, element)),
            ),
            _ => false,
        },
        NodeKind::Object { fields, .. } => match (v, value) {
            (Ron::Group(open, name, parts), JsonModel::Object(entries)) => open == '(' && name.len()
                == 0 && pairs_tell(
                model,
                parts,
                entries,
                EntryTypes::Fields(fields@),
                KeyStyle::Name,
            ),
            _ => false,
        },
        NodeKind::Dictionary { value: held, .. } => match (v, value) {
            (Ron::Group(open, name, parts), JsonModel::Object(entries)) => open == '{' && name.len()
                == 0 && pairs_tell(
                model,
                parts,
                entries,
                EntryTypes::Same(json_to_ron::target(model, held)),
                map_style(node),
            ),
            _ => false,
        },
        NodeKind::Enum { variants, discriminator } => match variant_in(value, discriminator) {
            Some((name, payload)) => match payload {
                None => v == Ron::Word(name),
                Some(p) => variant_tells(
                    model,
                    v,
                    name,
                    p,
                    json_to_ron::variant_with_name(variants@, name, 0),
                ),
            },
            None => false,
        },
        NodeKind::Unknown => false,
    }
}

/// How the keys of a map of a type stand.
pub open spec fn map_style(node: TypeNode) -> KeyStyle {
    if node.ron_kind == Some(RonKind::NonStringKeyMap) {
        KeyStyle::Verbatim
    } else {
        KeyStyle::Quoted
    }
}

/// Whether what was read tells a variant and what it holds.
pub open spec fn variant_tells(
    model: Option<TypeModel>,
    v: Ron,
    name: Seq<char>,
    payload: JsonModel,
    variant: Option<Variant>,
) -> bool
    decreases v, 0nat,
{
    match (variant, v) {
        (Some(Variant { shape: VariantShape::Unit, .. }), _) => v == Ron::Word(name) && payload
            is Null,
        (Some(Variant { shape: VariantShape::Newtype(inner), .. }), Ron::Group(open, n, parts)) =>
            open == '(' && n == name && parts.len() == 1 && item_tells(
            model,
            parts[0],
            payload,
            json_to_ron::target(model, inner),
        ),
        (Some(Variant { shape: VariantShape::Tuple(elements), .. }), Ron::Group(open, n, parts)) =>
            open == '(' && n == name && match payload {
            JsonModel::Array(items) => items_tell(
                model,
                parts,
                items,
                ItemTypes::Each(elements@),
            ),
            _ => parts.len() == 1 && item_tells(model, parts[0], payload, None),
        },
        (Some(Variant { shape: VariantShape::Struct(fields), .. }), Ron::Group(open, n, parts)) =>
            open == '(' && n == name && match payload {
            JsonModel::Object(entries) => pairs_tell(
                model,
                parts,
                entries,
                EntryTypes::Fields(fields@),
                KeyStyle::Name,
            ),
            _ => false,
        },
        (None, Ron::Group(open, n, parts)) => open == '(' && n == name && parts.len() == 1
            && item_tells(model, parts[0], payload, None),
        _ => false,
    }
}

/// Whether an item tells a JSON value of a type.
pub open spec fn item_tells(
    model: Option<TypeModel>,
    part: Part,
    value: JsonModel,
    node: Option<TypeNode>,
) -> bool
    decreases part, 0nat,
{
    match part {
        Part::Item(v) => tells(model, v, value, node),
        Part::Pair(_, _) => false,
    }
}

/// Whether a key with a value tells a property of a type.
pub open spec fn pair_tells(
    model: Option<TypeModel>,
    part: Part,
    key: Seq<char>,
    value: JsonModel,
    node: Option<TypeNode>,
    style: KeyStyle,
) -> bool
    decreases part, 0nat,
{
    match part {
        Part::Item(_) => false,
        Part::Pair(k, v) => key_tells(k, key, style) && tells(model, v, value, node),
    }
}

/// Whether parts tell the items of an array, one by one.
pub open spec fn items_tell(
    model: Option<TypeModel>,
    parts: Seq<Part>,
    items: Seq<JsonModel>,
    types: ItemTypes,
) -> bool
    decreases parts, 0nat,
{
    parts.len() == items.len() && forall|i: int|
        0 <= i < parts.len() ==> item_tells(
            model,
            #[trigger] parts[i],
            items[i],
            json_to_ron::item_type(model, types, i as nat),
        )
}

/// Whether parts tell the properties of an object, one by one.
pub open spec fn pairs_tell(
    model: Option<TypeModel>,
    parts: Seq<Part>,
    entries: Seq<(Seq<char>, JsonModel)>,
    types: EntryTypes,
    style: KeyStyle,
) -> bool
    decreases parts, 0nat,
{
    parts.len() == entries.len() && forall|i: int|
        0 <= i < parts.len() ==> pair_tells(
            model,
            #[trigger] parts[i],
            entries[i].0,
            entries[i].1,
            json_to_ron::entry_type(model, types, entries[i].0),
            style,
        )
}

/// Whether a JSON value without a type can be rebuilt: it is not nested too deeply, and
/// its numbers are words.
pub open spec fn rebuildable_plain(value: JsonModel, depth: nat) -> bool
    decreases value, 0nat,
{
    depth < MAX_JSON_DEPTH && match value {
        JsonModel::Number(n) => reader::is_word(n),
        JsonModel::Array(items) => forall|i: int|
            0 <= i < items.len() ==> rebuildable_plain(#[trigger] items[i], depth + 1),
        JsonModel::Object(entries) => forall|i: int|
            0 <= i < entries.len() ==> rebuildable_plain((#[trigger] entries[i]).1, depth + 1),
        _ => true,
    }
}

/// Whether a JSON value of a type can be rebuilt. Where it suits the type, no scalar type
/// stands for a collection, every variant has a name that is a word and holds what is
/// declared, the keys of a map with other keys are literals.
pub open spec fn rebuildable(
    model: Option<TypeModel>,
    value: JsonModel,
    node: Option<TypeNode>,
    depth: nat,
) -> bool
    decreases MAX_JSON_DEPTH + 1 - depth, 3nat,
{
    depth < MAX_JSON_DEPTH && match node {
        Some(n) => if suits(n, value) {
            rebuildable_typed(model, value, n, depth)
        } else {
            rebuildable_plain(value, depth)
        },
        None => rebuildable_plain(value, depth),
    }
}

/// Whether a JSON value that suits its type can be rebuilt.
pub open spec fn rebuildable_typed(
    model: Option<TypeModel>,
    value: JsonModel,
    node: TypeNode,
    depth: nat,
) -> bool
    decreases MAX_JSON_DEPTH + 1 - depth, 2nat,
{
    depth < MAX_JSON_DEPTH && match node.kind {
        NodeKind::Optional { inner } => value is Null || rebuildable(
            model,
            value,
            json_to_ron::target(model, inner),
            depth + 1,
        ),
        NodeKind::Primitive { .. } => match value {
            JsonModel::Number(n) => reader::is_word(n),
            JsonModel::Array(_) | JsonModel::Object(_) => false,
            _ => true,
        },
        NodeKind::Tuple { elements } => value matches JsonModel::Array(items) && items_rebuildable(
            model,
            items,
            ItemTypes::Each(elements@),
            depth,
        ),
        NodeKind::Sequence { element } => value matches JsonModel::Array(items)
            && items_rebuildable(
            model,
            items,
            ItemTypes::Same(json_to_ron::target(model, element)),
            depth,
        ),
        NodeKind::Object { fields, .. } => value matches JsonModel::Object(entries)
            && entries_rebuildable(model, entries, EntryTypes::Fields(fields@), KeyStyle::Name, depth),
        NodeKind::Dictionary { value: held, .. } => value matches JsonModel::Object(entries)
            && entries_rebuildable(
            model,
            entries,
            EntryTypes::Same(json_to_ron::target(model, held)),
            map_style(node),
            depth,
        ),
        NodeKind::Enum { variants, discriminator } => match variant_in(value, discriminator) {
            Some((name, payload)) => reader::is_word(name) && match payload {
                None => true,
                Some(p) => payload_rebuildable(
                    model,
                    p,
                    json_to_ron::variant_with_name(variants@, name, 0),
                    depth,
                ),
            },
            None => false,
        },
        NodeKind::Unknown => false,
    }
}

/// Whether what a variant holds can be rebuilt.
pub open spec fn payload_rebuildable(
    model: Option<TypeModel>,
    payload: JsonModel,
    variant: Option<Variant>,
    depth: nat,
) -> bool
    decreases MAX_JSON_DEPTH + 1 - depth, 1nat,
{
    depth < MAX_JSON_DEPTH && match variant {
        Some(v) => match v.shape {
            VariantShape::Unit => payload is Null,
            VariantShape::Newtype(inner) => rebuildable(
                model,
                payload,
                json_to_ron::target(model, inner),
                depth + 1,
            ),
            VariantShape::Tuple(elements) => match payload {
                JsonModel::Array(items) => items_rebuildable(
                    model,
                    items,
                    ItemTypes::Each(elements@),
                    depth,
                ),
                _ => rebuildable(model, payload, None, depth + 1),
            },
            VariantShape::Struct(fields) => payload matches JsonModel::Object(entries)
                && entries_rebuildable(
                model,
                entries,
                EntryTypes::Fields(fields@),
                KeyStyle::Name,
                depth,
            ),
        },
        None => rebuildable(model, payload, None, depth + 1),
    }
}

/// Whether items can be rebuilt.
pub open spec fn items_rebuildable(
    model: Option<TypeModel>,
    items: Seq<JsonModel>,
    types: ItemTypes,
    depth: nat,
) -> bool
    decreases MAX_JSON_DEPTH + 1 - depth, 0nat,
{
    depth < MAX_JSON_DEPTH && forall|i: int|
        0 <= i < items.len() ==> rebuildable(
            model,
            #[trigger] items[i],
            json_to_ron::item_type(model, types, i as nat),
            depth + 1,
        )
}

/// Whether properties can be rebuilt.
pub open spec fn entries_rebuildable(
    model: Option<TypeModel>,
    entries: Seq<(Seq<char>, JsonModel)>,
    types: EntryTypes,
    style: KeyStyle,
    depth: nat,
) -> bool
    decreases MAX_JSON_DEPTH + 1 - depth, 0nat,
{
    depth < MAX_JSON_DEPTH && forall|i: int|
        0 <= i < entries.len() ==> rebuildable(
            model,
            (#[trigger] entries[i]).1,
            json_to_ron::entry_type(model, types, entries[i].0),
            depth + 1,
        ) && (style is Verbatim ==> is_literal(entries[i].0))
}

/// Whether a property name is a literal of RON.
pub open spec fn is_literal(key: Seq<char>) -> bool {
    exists|k: Ron| #[trigger] reader::spells(key, k)
}

proof fn lemma_literal_end(before: Seq<char>, s: Seq<char>, quote: char)
    requires
        quote == '"' || quote == '\'',
    ensures
        reader::quoted_end(
            before + json_to_ron::literal_body(s, quote) + seq![quote],
            quote,
            before.len() as int,
        ) == before.len() + json_to_ron::literal_body(s, quote).len() + 1,
    decreases s.len(),
{
    let all = before + json_to_ron::literal_body(s, quote) + seq![quote];
    let j = before.len() as int;
    if s.len() == 0 {
        assert(all[j] == quote);
    } else {
        let head = json_to_ron::literal_char(s[0], quote);
        let body = json_to_ron::literal_body(s.drop_first(), quote);
        assert(all =~= (before + head) + body + seq![quote]);
        lemma_literal_end(before + head, s.drop_first(), quote);
        assert(all[j] == head[0]);
        if head.len() == 2 {
            assert(all[j + 1] == head[1]);
        }
    }
}

/// A written literal spells itself, and quotes what was written.
proof fn lemma_literal(s: Seq<char>, quote: char)
    requires
        quote == '"' || quote == '\'',
    ensures
        reader::spells(
            json_to_ron::literal(s, quote),
            Ron::Quoted(json_to_ron::literal(s, quote)),
        ),
        round_trip::quotes(json_to_ron::literal(s, quote), s, quote),
{
    let q = json_to_ron::literal(s, quote);
    lemma_literal_end(seq![quote], s, quote);
    assert(q[0] == quote);
    assert(reader::is_quoted(q));
    reader::lemma_quoted(q);
    round_trip::lemma_quotes(s, quote);
}

/// An identifier is a word.
proof fn lemma_ident(s: Seq<char>)
    requires
        json_to_ron::ron_ident(s),
    ensures
        reader::is_word(s),
{
    assert forall|i: int| 0 <= i < s.len() implies reader::plain(#[trigger] s[i]) by {
        if i > 0 {
            assert(json_to_ron::ident_part(s[i]));
        }
    }
}

proof fn lemma_scalar(value: JsonModel) -> (v: Ron)
    requires
        value is Bool || value is Number || value is Str,
        value matches JsonModel::Number(n) ==> reader::is_word(n),
    ensures
        reader::spells(json_to_ron::scalar_text(value), v),
        tells_scalar(v, value),
{
    match value {
        JsonModel::Bool(b) => {
            reveal_strlit("true");
            reveal_strlit("false");
            let w = if b {
                "true"@
            } else {
                "false"@
            };
            reader::lemma_word(w);
            Ron::Word(w)
        },
        JsonModel::Number(n) => {
            reader::lemma_word(n);
            Ron::Word(n)
        },
        JsonModel::Str(s) => {
            lemma_literal(s, '"');
            Ron::Quoted(json_to_ron::literal(s, '"'))
        },
        _ => Ron::Word(Seq::empty()),
    }
}

/// A key spells what tells the property name.
proof fn lemma_key(key: Seq<char>, style: KeyStyle) -> (k: Ron)
    requires
        style is Verbatim ==> is_literal(key),
    ensures
        reader::spells(json_to_ron::key_written(key, style), k),
        key_tells(k, key, style),
{
    match style {
        KeyStyle::Name => if json_to_ron::ron_ident(key) {
            lemma_ident(key);
            reader::lemma_word(key);
            Ron::Word(key)
        } else {
            lemma_literal(key, '"');
            Ron::Quoted(json_to_ron::literal(key, '"'))
        },
        KeyStyle::Quoted => {
            lemma_literal(key, '"');
            Ron::Quoted(json_to_ron::literal(key, '"'))
        },
        KeyStyle::Verbatim => {
            let k = choose|k: Ron| #[trigger] reader::spells(key, k);
            reader::lemma_meaning(key, k);
            k
        },
    }
}

proof fn lemma_word_none()
    ensures
        reader::spells("None"@, Ron::Word("None"@)),
{
    reveal_strlit("None");
    reader::lemma_word("None"@);
}

proof fn lemma_unit()
    ensures
        reader::spells("()"@, Ron::Group('(', Seq::empty(), Seq::empty())),
{
    reveal_strlit("()");
    let none = Seq::<char>::empty();
    let pieces = Seq::<Seq<char>>::empty();
    reader::lemma_group('(', none, pieces, Seq::empty());
    assert("()"@ =~= none + round_trip::enclosed('(', pieces, ')'));
}

/// The text that a value is rebuilt as, without comments.
spec fn rebuilt(
    model: Option<TypeModel>,
    value: JsonModel,
    node: Option<TypeNode>,
    pointer: Seq<char>,
    depth: nat,
) -> Seq<char> {
    json_to_ron::value_emission(model, Seq::empty(), value, node, pointer, depth).text
}

/// Whether what was read is what a value is rebuilt as, and tells the value.
spec fn shown(
    model: Option<TypeModel>,
    v: Ron,
    value: JsonModel,
    node: Option<TypeNode>,
    pointer: Seq<char>,
    depth: nat,
) -> bool {
    reader::spells(rebuilt(model, value, node, pointer, depth), v) && tells(model, v, value, node)
}

spec fn some_shown(
    model: Option<TypeModel>,
    value: JsonModel,
    node: Option<TypeNode>,
    pointer: Seq<char>,
    depth: nat,
) -> Ron {
    choose|v: Ron| shown(model, v, value, node, pointer, depth)
}

proof fn lemma_no_comments(pointer: Seq<char>)
    ensures
        json_to_ron::anchored(Seq::<CommentModel>::empty(), pointer).text == Seq::<char>::empty(),
{
}

/// A single value in brackets behind a name.
proof fn lemma_one(name: Seq<char>, piece: Seq<char>, v: Ron)
    requires
        reader::is_word(name),
        reader::spells(piece, v),
    ensures
        reader::spells(
            name + seq!['('] + piece + seq![')'],
            Ron::Group('(', name, seq![Part::Item(v)]),
        ),
{
    let pieces = seq![piece];
    let parts = seq![Part::Item(v)];
    reader::lemma_group('(', name, pieces, parts);
    assert(round_trip::listing(pieces, 1) =~= Seq::<char>::empty());
    assert(round_trip::listing(pieces, 0) =~= piece);
    assert(name + round_trip::enclosed('(', pieces, ')') =~= name + seq!['('] + piece + seq![')']);
}

proof fn lemma_items(
    model: Option<TypeModel>,
    items: Seq<JsonModel>,
    types: ItemTypes,
    pointer: Seq<char>,
    depth: nat,
    open: char,
    name: Seq<char>,
) -> (parts: Seq<Part>)
    requires
        items_rebuildable(model, items, types, depth),
        reader::opens(open),
        name.len() == 0 || reader::is_word(name) && open == '(',
    ensures
        reader::spells(
            name + seq![open] + json_to_ron::items_emission(
                model,
                Seq::empty(),
                items,
                types,
                pointer,
                depth,
                0,
            ).text + seq![reader::closing(open)],
            Ron::Group(open, name, parts),
        ),
        items_tell(model, parts, items, types),
    decreases MAX_JSON_DEPTH + 1 - depth, 0nat,
{
    let values = Seq::new(
        items.len(),
        |i: int|
            some_shown(
                model,
                items[i],
                json_to_ron::item_type(model, types, i as nat),
                pointer::index_pointer(pointer, i as nat),
                depth + 1,
            ),
    );
    let pieces = Seq::new(
        items.len(),
        |i: int|
            rebuilt(
                model,
                items[i],
                json_to_ron::item_type(model, types, i as nat),
                pointer::index_pointer(pointer, i as nat),
                depth + 1,
            ),
    );
    let parts = Seq::new(items.len(), |i: int| Part::Item(values[i]));
    assert forall|i: int| 0 <= i < items.len() implies shown(
        model,
        #[trigger] values[i],
        items[i],
        json_to_ron::item_type(model, types, i as nat),
        pointer::index_pointer(pointer, i as nat),
        depth + 1,
    ) by {
        let node = json_to_ron::item_type(model, types, i as nat);
        let under = pointer::index_pointer(pointer, i as nat);
        assert(rebuildable(model, items[i], node, depth + 1));
        let v = lemma_value(model, items[i], node, under, depth + 1);
        assert(shown(model, v, items[i], node, under, depth + 1));
    }
    assert forall|i: int| 0 <= i < parts.len() implies reader::spells_part(
        #[trigger] pieces[i],
        parts[i],
    ) && item_tells(
        model,
        parts[i],
        items[i],
        json_to_ron::item_type(model, types, i as nat),
    ) by {
        assert(shown(
            model,
            values[i],
            items[i],
            json_to_ron::item_type(model, types, i as nat),
            pointer::index_pointer(pointer, i as nat),
            depth + 1,
        ));
    }
    assert forall|i: int| 0 <= i < parts.len() implies item_tells(
        model,
        #[trigger] parts[i],
        items[i],
        json_to_ron::item_type(model, types, i as nat),
    ) by {
        assert(reader::spells_part(pieces[i], parts[i]));
    }
    lemma_item_listing(model, items, types, pointer, depth, pieces, 0);
    reader::lemma_group(open, name, pieces, parts);
    assert(name + seq![open] + round_trip::listing(pieces, 0) + seq![reader::closing(open)] =~= name
        + round_trip::enclosed(open, pieces, reader::closing(open)));
    parts
}

proof fn lemma_item_listing(
    model: Option<TypeModel>,
    items: Seq<JsonModel>,
    types: ItemTypes,
    pointer: Seq<char>,
    depth: nat,
    pieces: Seq<Seq<char>>,
    from: nat,
)
    requires
        depth < MAX_JSON_DEPTH,
        pieces.len() == items.len(),
        forall|i: int|
            0 <= i < items.len() ==> #[trigger] pieces[i] == rebuilt(
                model,
                items[i],
                json_to_ron::item_type(model, types, i as nat),
                pointer::index_pointer(pointer, i as nat),
                depth + 1,
            ),
    ensures
        json_to_ron::items_emission(
            model,
            Seq::empty(),
            items,
            types,
            pointer,
            depth,
            from,
        ).text == round_trip::listing(pieces, from),
    decreases items.len() - from,
{
    if from < items.len() {
        lemma_item_listing(model, items, types, pointer, depth, pieces, from + 1);
        let under = pointer::index_pointer(pointer, from);
        lemma_no_comments(under);
        assert(pieces[from as int] == rebuilt(
            model,
            items[from as int],
            json_to_ron::item_type(model, types, from),
            under,
            depth + 1,
        ));
        let e = json_to_ron::items_emission(
            model,
            Seq::empty(),
            items,
            types,
            pointer,
            depth,
            from,
        ).text;
        assert(e =~= json_to_ron::separator(from).text + pieces[from as int] + round_trip::listing(
            pieces,
            from + 1,
        ));
    }
}

proof fn lemma_entries(
    model: Option<TypeModel>,
    entries: Seq<(Seq<char>, JsonModel)>,
    types: EntryTypes,
    style: KeyStyle,
    pointer: Seq<char>,
    depth: nat,
    open: char,
    name: Seq<char>,
) -> (parts: Seq<Part>)
    requires
        entries_rebuildable(model, entries, types, style, depth),
        reader::opens(open),
        name.len() == 0 || reader::is_word(name) && open == '(',
    ensures
        reader::spells(
            name + seq![open] + json_to_ron::entries_emission(
                model,
                Seq::empty(),
                entries,
                types,
                style,
                pointer,
                depth,
                0,
            ).text + seq![reader::closing(open)],
            Ron::Group(open, name, parts),
        ),
        pairs_tell(model, parts, entries, types, style),
    decreases MAX_JSON_DEPTH + 1 - depth, 0nat,
{
    let values = Seq::new(
        entries.len(),
        |i: int|
            some_shown(
                model,
                entries[i].1,
                json_to_ron::entry_type(model, types, entries[i].0),
                pointer::key_pointer(pointer, entries[i].0),
                depth + 1,
            ),
    );
    let keys = Seq::new(entries.len(), |i: int| some_key(entries[i].0, style));
    let pieces = Seq::new(
        entries.len(),
        |i: int|
            json_to_ron::key_written(entries[i].0, style) + ": "@ + rebuilt(
                model,
                entries[i].1,
                json_to_ron::entry_type(model, types, entries[i].0),
                pointer::key_pointer(pointer, entries[i].0),
                depth + 1,
            ),
    );
    let parts = Seq::new(entries.len(), |i: int| Part::Pair(keys[i], values[i]));
    assert forall|i: int| 0 <= i < parts.len() implies reader::spells_part(
        #[trigger] pieces[i],
        parts[i],
    ) && pair_tells(
        model,
        parts[i],
        entries[i].0,
        entries[i].1,
        json_to_ron::entry_type(model, types, entries[i].0),
        style,
    ) by {
        let key = entries[i].0;
        let node = json_to_ron::entry_type(model, types, key);
        let under = pointer::key_pointer(pointer, key);
        assert(rebuildable(model, entries[i].1, node, depth + 1));
        let v = lemma_value(model, entries[i].1, node, under, depth + 1);
        assert(shown(model, v, entries[i].1, node, under, depth + 1));
        assert(shown(model, values[i], entries[i].1, node, under, depth + 1));
        let k = lemma_key(key, style);
        assert(key_shown(k, key, style));
        assert(key_shown(keys[i], key, style));
        reader::lemma_pair(
            json_to_ron::key_written(key, style),
            keys[i],
            rebuilt(model, entries[i].1, node, under, depth + 1),
            values[i],
        );
    }
    assert forall|i: int| 0 <= i < parts.len() implies pair_tells(
        model,
        #[trigger] parts[i],
        entries[i].0,
        entries[i].1,
        json_to_ron::entry_type(model, types, entries[i].0),
        style,
    ) by {
        assert(reader::spells_part(pieces[i], parts[i]));
    }
    lemma_entry_listing(model, entries, types, style, pointer, depth, pieces, 0);
    reader::lemma_group(open, name, pieces, parts);
    assert(name + seq![open] + round_trip::listing(pieces, 0) + seq![reader::closing(open)] =~= name
        + round_trip::enclosed(open, pieces, reader::closing(open)));
    parts
}

spec fn key_shown(k: Ron, key: Seq<char>, style: KeyStyle) -> bool {
    reader::spells(json_to_ron::key_written(key, style), k) && key_tells(k, key, style)
}

spec fn some_key(key: Seq<char>, style: KeyStyle) -> Ron {
    choose|k: Ron| key_shown(k, key, style)
}

proof fn lemma_entry_listing(
    model: Option<TypeModel>,
    entries: Seq<(Seq<char>, JsonModel)>,
    types: EntryTypes,
    style: KeyStyle,
    pointer: Seq<char>,
    depth: nat,
    pieces: Seq<Seq<char>>,
    from: nat,
)
    requires
        depth < MAX_JSON_DEPTH,
        pieces.len() == entries.len(),
        forall|i: int|
            0 <= i < entries.len() ==> #[trigger] pieces[i] == json_to_ron::key_written(
                entries[i].0,
                style,
            ) + ": "@ + rebuilt(
                model,
                entries[i].1,
                json_to_ron::entry_type(model, types, entries[i].0),
                pointer::key_pointer(pointer, entries[i].0),
                depth + 1,
            ),
    ensures
        json_to_ron::entries_emission(
            model,
            Seq::empty(),
            entries,
            types,
            style,
            pointer,
            depth,
            from,
        ).text == round_trip::listing(pieces, from),
    decreases entries.len() - from,
{
    if from < entries.len() {
        lemma_entry_listing(model, entries, types, style, pointer, depth, pieces, from + 1);
        let key = entries[from as int].0;
        let under = pointer::key_pointer(pointer, key);
        lemma_no_comments(under);
        let e = json_to_ron::entries_emission(
            model,
            Seq::empty(),
            entries,
            types,
            style,
            pointer,
            depth,
            from,
        ).text;
        assert(pieces[from as int] == json_to_ron::key_written(key, style) + ": "@ + rebuilt(
            model,
            entries[from as int].1,
            json_to_ron::entry_type(model, types, key),
            under,
            depth + 1,
        ));
        assert(e =~= json_to_ron::separator(from).text + pieces[from as int] + round_trip::listing(
            pieces,
            from + 1,
        ));
    }
}

proof fn lemma_value(
    model: Option<TypeModel>,
    value: JsonModel,
    node: Option<TypeNode>,
    pointer: Seq<char>,
    depth: nat,
) -> (v: Ron)
    requires
        rebuildable(model, value, node, depth),
    ensures
        shown(model, v, value, node, pointer, depth),
    decreases MAX_JSON_DEPTH + 1 - depth, 4nat,
{
    match node {
        Some(n) => if suits(n, value) {
            lemma_typed(model, value, n, pointer, depth)
        } else {
            lemma_unsuited(model, value, n, pointer, depth);
            lemma_plain(model, value, pointer, depth)
        },
        None => lemma_plain(model, value, pointer, depth),
    }
}

/// A value that does not suit its type is rebuilt as one without a type.
proof fn lemma_unsuited(
    model: Option<TypeModel>,
    value: JsonModel,
    node: TypeNode,
    pointer: Seq<char>,
    depth: nat,
)
    requires
        depth < MAX_JSON_DEPTH,
        !suits(node, value),
    ensures
        rebuilt(model, value, Some(node), pointer, depth) == json_to_ron::plain_emission(
            model,
            Seq::empty(),
            value,
            pointer,
            depth,
        ).text,
{
    let none = Seq::<CommentModel>::empty();
    let plain = json_to_ron::plain_emission(model, none, value, pointer, depth);
    if let NodeKind::Enum { variants, discriminator } = node.kind {
        let e = json_to_ron::enum_emission(
            model,
            none,
            value,
            variants@,
            discriminator,
            pointer,
            depth,
        );
        assert(json_to_ron::tagged(value, discriminator, pointer) is None);
        assert(e.text =~= plain.text);
        assert(json_to_ron::typed_emission(model, none, value, node, pointer, depth) == Some(e));
    } else {
        assert(json_to_ron::typed_emission(model, none, value, node, pointer, depth) is None);
    }
}

/// A value without a type.
proof fn lemma_plain(
    model: Option<TypeModel>,
    value: JsonModel,
    pointer: Seq<char>,
    depth: nat,
) -> (v: Ron)
    requires
        rebuildable_plain(value, depth),
    ensures
        reader::spells(
            json_to_ron::plain_emission(model, Seq::empty(), value, pointer, depth).text,
            v,
        ),
        tells_plain(v, value),
        shown(model, v, value, None, pointer, depth),
    decreases MAX_JSON_DEPTH + 1 - depth, 3nat,
{
    let none = Seq::<CommentModel>::empty();
    let nil = Seq::<char>::empty();
    let e = json_to_ron::plain_emission(model, none, value, pointer, depth).text;
    let v = match value {
        JsonModel::Null => {
            lemma_word_none();
            Ron::Word("None"@)
        },
        JsonModel::Array(items) => {
            let types = ItemTypes::Same(None);
            assert forall|i: int| 0 <= i < items.len() implies rebuildable(
                model,
                #[trigger] items[i],
                json_to_ron::item_type(model, types, i as nat),
                depth + 1,
            ) by {
                assert(rebuildable_plain(items[i], depth + 1));
            }
            assert(items_rebuildable(model, items, types, depth));
            let parts = lemma_items(model, items, types, pointer, depth, '[', nil);
            let inner = json_to_ron::items_emission(model, none, items, types, pointer, depth, 0);
            assert(e =~= nil + seq!['['] + inner.text + seq![']']);
            assert forall|i: int| 0 <= i < parts.len() implies item_tells_plain(
                #[trigger] parts[i],
                items[i],
            ) by {
                assert(item_tells(
                    model,
                    parts[i],
                    items[i],
                    json_to_ron::item_type(model, types, i as nat),
                ));
                assert(parts[i] matches Part::Item(x) && tells(model, x, items[i], None));
            }
            Ron::Group('[', nil, parts)
        },
        JsonModel::Object(entries) => if entries.len() == 1 && json_to_ron::variant_like(
            entries[0].0,
        ) {
            let name = entries[0].0;
            let under = pointer::key_pointer(pointer, name);
            lemma_ident(name);
            lemma_no_comments(under);
            if entries[0].1 is Null {
                reader::lemma_word(name);
                assert(e =~= name);
                Ron::Word(name)
            } else {
                assert(rebuildable_plain(entries[0].1, depth + 1));
                let x = lemma_plain(model, entries[0].1, under, depth + 1);
                let inner = rebuilt(model, entries[0].1, None, under, depth + 1);
                lemma_one(name, inner, x);
                assert(e =~= name + seq!['('] + inner + seq![')']);
                let parts = seq![Part::Item(x)];
                assert(item_tells_plain(parts[0], entries[0].1));
                Ron::Group('(', name, parts)
            }
        } else {
            let types = EntryTypes::Same(None);
            let named = json_to_ron::all_idents(entries);
            let style = if named {
                KeyStyle::Name
            } else {
                KeyStyle::Quoted
            };
            let open = if named {
                '('
            } else {
                '{'
            };
            assert forall|i: int| 0 <= i < entries.len() implies rebuildable(
                model,
                (#[trigger] entries[i]).1,
                json_to_ron::entry_type(model, types, entries[i].0),
                depth + 1,
            ) && (style is Verbatim ==> is_literal(entries[i].0)) by {
                assert(rebuildable_plain(entries[i].1, depth + 1));
            }
            assert(entries_rebuildable(model, entries, types, style, depth));
            let parts = lemma_entries(model, entries, types, style, pointer, depth, open, nil);
            let inner = json_to_ron::entries_emission(
                model,
                none,
                entries,
                types,
                style,
                pointer,
                depth,
                0,
            );
            assert(e =~= nil + seq![open] + inner.text + seq![reader::closing(open)]);
            assert forall|i: int| 0 <= i < parts.len() implies pair_tells_plain(
                #[trigger] parts[i],
                entries[i].0,
                entries[i].1,
                open == '(',
            ) by {
                assert(pair_tells(
                    model,
                    parts[i],
                    entries[i].0,
                    entries[i].1,
                    json_to_ron::entry_type(model, types, entries[i].0),
                    style,
                ));
                assert(parts[i] matches Part::Pair(_, x) && tells(model, x, entries[i].1, None));
            }
            Ron::Group(open, nil, parts)
        },
        _ => lemma_scalar(value),
    };
    v
}

/// A value that suits its type.
proof fn lemma_typed(
    model: Option<TypeModel>,
    value: JsonModel,
    node: TypeNode,
    pointer: Seq<char>,
    depth: nat,
) -> (v: Ron)
    requires
        suits(node, value),
        rebuildable_typed(model, value, node, depth),
    ensures
        shown(model, v, value, Some(node), pointer, depth),
    decreases MAX_JSON_DEPTH + 1 - depth, 3nat,
{
    let none = Seq::<CommentModel>::empty();
    let nil = Seq::<char>::empty();
    let e = json_to_ron::typed_emission(model, none, value, node, pointer, depth);
    let text = rebuilt(model, value, Some(node), pointer, depth);
    match node.kind {
        NodeKind::Optional { inner } => if value is Null {
            lemma_word_none();
            Ron::Word("None"@)
        } else {
            reveal_strlit("Some(");
            reveal_strlit("Some");
            let of = json_to_ron::target(model, inner);
            let x = lemma_value(model, value, of, pointer, depth + 1);
            let piece = rebuilt(model, value, of, pointer, depth + 1);
            assert(reader::is_word("Some"@));
            lemma_one("Some"@, piece, x);
            assert(text =~= "Some"@ + seq!['('] + piece + seq![')']);
            let parts = seq![Part::Item(x)];
            assert(item_tells(model, parts[0], value, of));
            Ron::Group('(', "Some"@, parts)
        },
        NodeKind::Primitive { .. } => if node.ron_kind == Some(RonKind::Char) {
            let s = value->Str_0;
            lemma_literal(s, '\'');
            Ron::Quoted(json_to_ron::literal(s, '\''))
        } else if value is Null {
            lemma_unit();
            Ron::Group('(', nil, Seq::empty())
        } else {
            lemma_scalar(value)
        },
        NodeKind::Tuple { elements } => {
            let items = value->Array_0;
            let types = ItemTypes::Each(elements@);
            let parts = lemma_items(model, items, types, pointer, depth, '(', nil);
            let inner = json_to_ron::items_emission(model, none, items, types, pointer, depth, 0);
            assert(text =~= nil + seq!['('] + inner.text + seq![')']);
            Ron::Group('(', nil, parts)
        },
        NodeKind::Sequence { element } => {
            let items = value->Array_0;
            let types = ItemTypes::Same(json_to_ron::target(model, element));
            let parts = lemma_items(model, items, types, pointer, depth, '[', nil);
            let inner = json_to_ron::items_emission(model, none, items, types, pointer, depth, 0);
            assert(text =~= nil + seq!['['] + inner.text + seq![']']);
            Ron::Group('[', nil, parts)
        },
        NodeKind::Object { fields, .. } => {
            let entries = value->Object_0;
            let types = EntryTypes::Fields(fields@);
            let style = KeyStyle::Name;
            let parts = lemma_entries(model, entries, types, style, pointer, depth, '(', nil);
            let inner = json_to_ron::entries_emission(
                model,
                none,
                entries,
                types,
                style,
                pointer,
                depth,
                0,
            );
            assert(text =~= nil + seq!['('] + inner.text + seq![')']);
            Ron::Group('(', nil, parts)
        },
        NodeKind::Dictionary { value: held, .. } => {
            let entries = value->Object_0;
            let types = EntryTypes::Same(json_to_ron::target(model, held));
            let style = map_style(node);
            let parts = lemma_entries(model, entries, types, style, pointer, depth, '{', nil);
            let inner = json_to_ron::entries_emission(
                model,
                none,
                entries,
                types,
                style,
                pointer,
                depth,
                0,
            );
            assert(text =~= nil + seq!['{'] + inner.text + seq!['}']);
            Ron::Group('{', nil, parts)
        },
        NodeKind::Enum { variants, discriminator } => {
            let (name, payload) = variant_in(value, discriminator)->0;
            let t = json_to_ron::tagged(value, discriminator, pointer)->0;
            assert(t.name == name && t.payload == payload);
            let variant = json_to_ron::variant_with_name(variants@, name, 0);
            let emission = json_to_ron::enum_emission(
                model,
                none,
                value,
                variants@,
                discriminator,
                pointer,
                depth,
            );
            assert(e == Some(emission));
            match payload {
                None => {
                    reader::lemma_word(name);
                    assert(text =~= name);
                    Ron::Word(name)
                },
                Some(p) => {
                    let body = json_to_ron::payload_emission(
                        model,
                        none,
                        p,
                        variant,
                        t.pointer,
                        t.own,
                        depth,
                    ).text;
                    assert(text =~= name + body);
                    lemma_payload(model, name, p, variant, t.pointer, t.own, depth)
                },
            }
        },
        NodeKind::Unknown => Ron::Word(nil),
    }
}

/// What a variant holds.
proof fn lemma_payload(
    model: Option<TypeModel>,
    name: Seq<char>,
    payload: JsonModel,
    variant: Option<Variant>,
    pointer: Seq<char>,
    own: bool,
    depth: nat,
) -> (v: Ron)
    requires
        reader::is_word(name),
        payload_rebuildable(model, payload, variant, depth),
    ensures
        reader::spells(
            name + json_to_ron::payload_emission(
                model,
                Seq::empty(),
                payload,
                variant,
                pointer,
                own,
                depth,
            ).text,
            v,
        ),
        variant_tells(model, v, name, payload, variant),
    decreases MAX_JSON_DEPTH + 1 - depth, 2nat,
{
    let none = Seq::<CommentModel>::empty();
    let e = json_to_ron::payload_emission(model, none, payload, variant, pointer, own, depth).text;
    lemma_no_comments(pointer);
    match variant {
        Some(d) => match d.shape {
            VariantShape::Unit => {
                reader::lemma_word(name);
                assert(name + e =~= name);
                Ron::Word(name)
            },
            VariantShape::Newtype(inner) => {
                let of = json_to_ron::target(model, inner);
                let x = lemma_value(model, payload, of, pointer, depth + 1);
                let piece = rebuilt(model, payload, of, pointer, depth + 1);
                lemma_one(name, piece, x);
                assert(name + e =~= name + seq!['('] + piece + seq![')']);
                let parts = seq![Part::Item(x)];
                assert(item_tells(model, parts[0], payload, of));
                Ron::Group('(', name, parts)
            },
            VariantShape::Tuple(elements) => match payload {
                JsonModel::Array(items) => {
                    let types = ItemTypes::Each(elements@);
                    let parts = lemma_items(model, items, types, pointer, depth, '(', name);
                    let inner = json_to_ron::items_emission(
                        model,
                        none,
                        items,
                        types,
                        pointer,
                        depth,
                        0,
                    );
                    assert(name + e =~= name + seq!['('] + inner.text + seq![')']);
                    Ron::Group('(', name, parts)
                },
                _ => {
                    let x = lemma_value(model, payload, None, pointer, depth + 1);
                    let piece = rebuilt(model, payload, None, pointer, depth + 1);
                    lemma_one(name, piece, x);
                    assert(name + e =~= name + seq!['('] + piece + seq![')']);
                    let parts = seq![Part::Item(x)];
                    assert(item_tells(model, parts[0], payload, None));
                    Ron::Group('(', name, parts)
                },
            },
            VariantShape::Struct(fields) => {
                let entries = payload->Object_0;
                let types = EntryTypes::Fields(fields@);
                let style = KeyStyle::Name;
                let parts = lemma_entries(model, entries, types, style, pointer, depth, '(', name);
                let inner = json_to_ron::entries_emission(
                    model,
                    none,
                    entries,
                    types,
                    style,
                    pointer,
                    depth,
                    0,
                );
                assert(name + e =~= name + seq!['('] + inner.text + seq![')']);
                Ron::Group('(', name, parts)
            },
        },
        None => {
            let x = lemma_value(model, payload, None, pointer, depth + 1);
            let piece = rebuilt(model, payload, None, pointer, depth + 1);
            lemma_one(name, piece, x);
            assert(name + e =~= name + seq!['('] + piece + seq![')']);
            let parts = seq![Part::Item(x)];
            assert(item_tells(model, parts[0], payload, None));
            Ron::Group('(', name, parts)
        },
    }
}

/// Nothing is lost on the way to RON: the rebuilt text, read as RON and by the same type,
/// tells the JSON value it was made from, whatever the type and its tagging.
pub proof fn rebuilt_text_tells_the_json(
    model: Option<TypeModel>,
    value: JsonModel,
    node: Option<TypeNode>,
)
    requires
        rebuildable(model, value, node, 0),
    ensures
        reader::read(
            json_to_ron::document_emission(value, model, node, Seq::empty()).text,
        ) matches Some((v, rest)) && rest == seq!['\n'] && tells(model, v, value, node),
{
    let v = lemma_value(model, value, node, Seq::empty(), 0);
    let text = rebuilt(model, value, node, Seq::empty(), 0);
    let rest = seq!['\n'];
    assert(reader::ends(rest));
    assert(reader::read(text + rest) == Some((v, rest)));
    lemma_no_comments(Seq::empty());
    assert(json_to_ron::document_emission(value, model, node, Seq::empty()).text =~= text + rest);
}

/// The value of an untagged enum is rebuilt as it would be without a type, comments and
/// all, and a remark says so.
pub proof fn untagged_values_are_rebuilt_without_a_type(
    model: Option<TypeModel>,
    comments: Seq<CommentModel>,
    value: JsonModel,
    node: TypeNode,
    pointer: Seq<char>,
    depth: nat,
)
    requires
        node.kind matches NodeKind::Enum { discriminator: Discriminator::Untagged, .. },
        depth < MAX_JSON_DEPTH,
    ensures
        ({
            let typed = json_to_ron::value_emission(
                model,
                comments,
                value,
                Some(node),
                pointer,
                depth,
            );
            let plain = json_to_ron::value_emission(model, comments, value, None, pointer, depth);
            typed.text == plain.text && typed.losses == plain.losses && typed.notes.len()
                > plain.notes.len()
        }),
{
    let plain = json_to_ron::plain_emission(model, comments, value, pointer, depth);
    if let NodeKind::Enum { variants, discriminator } = node.kind {
        let e = json_to_ron::enum_emission(
            model,
            comments,
            value,
            variants@,
            discriminator,
            pointer,
            depth,
        );
        assert(json_to_ron::tagged(value, discriminator, pointer) is None);
        assert(e.text =~= plain.text);
        assert(e.losses =~= plain.losses);
        assert(json_to_ron::typed_emission(model, comments, value, node, pointer, depth) == Some(e));
    }
}

} // verus!
