//! Reconstruction of RON from JSON.
//!
//! Where a type is bound, it decides what RON shape a JSON value becomes: an array is
//! a tuple or a list, a one-character string a character, `null` an absent option or a
//! unit, an object a struct, a map with typed keys or a tagged enum variant. Where
//! none is bound, the mapping is structural, and every ambiguity it resolves is noted.
//!
//! Each comment is written immediately before the value it is anchored to. Nesting
//! deeper than [`MAX_JSON_DEPTH`] is replaced by a flagged placeholder.

use vstd::prelude::*;

use crate::interop::comments::{self, CommentCarrier, CommentKind, CommentModel};
use crate::interop::grammar;
use crate::interop::json::{self, Entry, Json, JsonModel};
use crate::interop::loss::{self, Loss, LossKind, LossRecovery, LossReport, LossyConstruct};
use crate::interop::pointer;
use crate::syntax::TextRange;
use crate::text;
use crate::types::{
    Discriminator, Field, NodeKind, RonKind, TypeModel, TypeNode, TypeRef, Variant, VariantShape,
};

verus! {

/// The nesting depth from which on values are replaced by a placeholder.
pub const MAX_JSON_DEPTH: usize = 96;

/// A remark on a choice the reconstruction made. One that is given `once` is not
/// repeated.
pub struct Note {
    pub text: Seq<char>,
    pub once: bool,
}

/// What a part of the reconstruction writes, remarks and loses.
pub struct Emission {
    pub text: Seq<char>,
    pub notes: Seq<Note>,
    pub losses: Seq<Loss>,
}

impl Emission {
    /// This emission followed by another.
    pub open spec fn then_emit(self, next: Emission) -> Emission {
        Emission {
            text: self.text + next.text,
            notes: self.notes + next.notes,
            losses: self.losses + next.losses,
        }
    }
}

/// An emission of nothing.
pub open spec fn nothing() -> Emission {
    Emission { text: Seq::empty(), notes: Seq::empty(), losses: Seq::empty() }
}

/// An emission of text alone.
pub open spec fn written(text: Seq<char>) -> Emission {
    Emission { text, notes: Seq::empty(), losses: Seq::empty() }
}

/// An emission of a remark alone.
pub open spec fn remarked(text: Seq<char>) -> Emission {
    Emission { text: Seq::empty(), notes: seq![Note { text, once: true }], losses: Seq::empty() }
}

/// A list of remarks with one more.
pub open spec fn with_note(list: Seq<Seq<char>>, note: Note) -> Seq<Seq<char>> {
    if note.once && list.contains(note.text) {
        list
    } else {
        list.push(note.text)
    }
}

/// A list of remarks with more of them.
pub open spec fn with_notes(list: Seq<Seq<char>>, notes: Seq<Note>) -> Seq<Seq<char>>
    decreases notes.len(),
{
    if notes.len() == 0 {
        list
    } else {
        with_note(with_notes(list, notes.drop_last()), notes.last())
    }
}

/// The state of a reconstruction.
pub struct Progress {
    pub text: Seq<char>,
    pub notes: Seq<Seq<char>>,
    pub losses: Seq<Loss>,
}

/// The state after an emission.
pub open spec fn after(state: Progress, emission: Emission) -> Progress {
    Progress {
        text: state.text + emission.text,
        notes: with_notes(state.notes, emission.notes),
        losses: state.losses + emission.losses,
    }
}

broadcast proof fn lemma_after_chain(state: Progress, first: Emission, second: Emission)
    ensures
        #[trigger] after(state, first.then_emit(second)) == after(after(state, first), second),
{
    lemma_notes_chain(state.notes, first.notes, second.notes);
    assert(state.text + (first.text + second.text) =~= state.text + first.text + second.text);
    assert(state.losses + (first.losses + second.losses) =~= state.losses + first.losses
        + second.losses);
}

broadcast proof fn lemma_after_nothing(state: Progress)
    ensures
        #[trigger] after(state, nothing()) == state,
{
    assert(state.text + Seq::<char>::empty() =~= state.text);
    assert(state.losses + Seq::<Loss>::empty() =~= state.losses);
}

proof fn lemma_notes_chain(list: Seq<Seq<char>>, first: Seq<Note>, second: Seq<Note>)
    ensures
        with_notes(list, first + second) == with_notes(with_notes(list, first), second),
    decreases second.len(),
{
    if second.len() == 0 {
        assert(first + second =~= first);
    } else {
        lemma_notes_chain(list, first, second.drop_last());
        assert((first + second).drop_last() =~= first + second.drop_last());
    }
}

/// The comments anchored to `pointer` among the first `n`: each in its own form, a
/// line comment with its line end, a block comment with a space.
pub open spec fn comment_text(comments: Seq<CommentModel>, pointer: Seq<char>, n: nat) -> Seq<char>
    decreases n,
{
    if n == 0 {
        Seq::empty()
    } else {
        let before = comment_text(comments, pointer, (n - 1) as nat);
        let c = comments[n - 1];
        if c.anchor == pointer {
            (before + c.text).push(if c.kind is Line { '\n' } else { ' ' })
        } else {
            before
        }
    }
}

/// The comments to write before the value at `pointer`.
pub open spec fn anchored(comments: Seq<CommentModel>, pointer: Seq<char>) -> Emission {
    written(comment_text(comments, pointer, comments.len()))
}

/// Whether a character may start an identifier.
pub open spec fn ident_start(c: char) -> bool {
    ('a' <= c && c <= 'z') || ('A' <= c && c <= 'Z') || c == '_'
}

/// Whether a character may continue an identifier.
pub open spec fn ident_part(c: char) -> bool {
    ident_start(c) || ('0' <= c && c <= '9')
}

/// Whether `s` is a RON identifier.
pub open spec fn ron_ident(s: Seq<char>) -> bool {
    s.len() > 0 && ident_start(s[0]) && forall|i: int| 0 < i < s.len() ==> ident_part(#[trigger] s[i])
}

/// Whether `s` looks like the name of an enum variant: an identifier that starts with
/// a capital letter.
pub open spec fn variant_like(s: Seq<char>) -> bool {
    ron_ident(s) && 'A' <= s[0] && s[0] <= 'Z'
}

/// A character as it stands in a literal delimited by `quote`.
pub open spec fn literal_char(c: char, quote: char) -> Seq<char> {
    if c == quote || c == '\\' {
        seq!['\\', c]
    } else if c == '\n' {
        seq!['\\', 'n']
    } else if c == '\r' {
        seq!['\\', 'r']
    } else if c == '\t' {
        seq!['\\', 't']
    } else {
        seq![c]
    }
}

/// The characters of `s` as they stand in a literal delimited by `quote`.
pub open spec fn literal_body(s: Seq<char>, quote: char) -> Seq<char>
    decreases s.len(),
{
    if s.len() == 0 {
        Seq::empty()
    } else {
        literal_char(s[0], quote) + literal_body(s.drop_first(), quote)
    }
}

/// The literal for `s`.
pub open spec fn literal(s: Seq<char>, quote: char) -> Seq<char> {
    seq![quote] + literal_body(s, quote) + seq![quote]
}

/// Reading a written string or character literal back gives what was written.
pub proof fn literals_read_back(s: Seq<char>, quote: char)
    requires
        quote == '"' || quote == '\'',
    ensures
        pointer::resolved(pointer::unquoted(literal(s, quote), quote)) == s,
{
    let whole = literal(s, quote);
    assert(whole.subrange(1, whole.len() - 1) =~= literal_body(s, quote));
    lemma_body_reads_back(s, quote);
}

proof fn lemma_body_reads_back(s: Seq<char>, quote: char)
    requires
        quote == '"' || quote == '\'',
    ensures
        pointer::resolved(literal_body(s, quote)) == s,
    decreases s.len(),
{
    if s.len() > 0 {
        lemma_body_reads_back(s.drop_first(), quote);
        let body = literal_body(s, quote);
        let rest = literal_body(s.drop_first(), quote);
        if literal_char(s[0], quote).len() == 2 {
            assert(body.skip(2) =~= rest);
        } else {
            assert(body.drop_first() =~= rest);
        }
        assert(pointer::resolved(body) =~= s);
    }
}

/// The RON literal of a scalar; a unit for anything else.
pub open spec fn scalar_text(value: JsonModel) -> Seq<char> {
    match value {
        JsonModel::Bool(b) => if b {
            "true"@
        } else {
            "false"@
        },
        JsonModel::Number(n) => n,
        JsonModel::Str(s) => literal(s, '"'),
        _ => "()"@,
    }
}

/// The types of the items of an array.
pub enum ItemTypes {
    /// All items have this type.
    Same(Option<TypeNode>),
    /// Each item has the type at its position.
    Each(Seq<TypeRef>),
}

/// The types of the properties of an object.
pub enum EntryTypes {
    /// All values have this type.
    Same(Option<TypeNode>),
    /// Each value has the type of the field with its key.
    Fields(Seq<Field>),
}

/// How the keys of an object are written.
#[derive(Clone, Copy, PartialEq, Eq, Structural)]
pub enum KeyStyle {
    /// As a field name where the key is an identifier, else as a string.
    Name,
    /// As a string.
    Quoted,
    /// As it is: the key is itself a RON literal.
    Verbatim,
}

/// A key as it is written.
pub open spec fn key_written(key: Seq<char>, style: KeyStyle) -> Seq<char> {
    match style {
        KeyStyle::Name => if ron_ident(key) {
            key
        } else {
            literal(key, '"')
        },
        KeyStyle::Quoted => literal(key, '"'),
        KeyStyle::Verbatim => key,
    }
}

/// The type that a reference stands for in an optional model.
pub open spec fn target(model: Option<TypeModel>, reference: TypeRef) -> Option<TypeNode> {
    match model {
        Some(m) => m.target(reference),
        None => None,
    }
}

/// The first field with `key` at or after position `from`.
pub open spec fn field_with_key(fields: Seq<Field>, key: Seq<char>, from: nat) -> Option<Field>
    decreases fields.len() - from,
{
    if from >= fields.len() {
        None
    } else if fields[from as int].serialized_key@ == key {
        Some(fields[from as int])
    } else {
        field_with_key(fields, key, from + 1)
    }
}

/// The first variant called `name` at or after position `from`.
pub open spec fn variant_with_name(variants: Seq<Variant>, name: Seq<char>, from: nat) -> Option<
    Variant,
>
    decreases variants.len() - from,
{
    if from >= variants.len() {
        None
    } else if variants[from as int].serialized_name@ == name {
        Some(variants[from as int])
    } else {
        variant_with_name(variants, name, from + 1)
    }
}

/// The type of item `i`.
pub open spec fn item_type(model: Option<TypeModel>, types: ItemTypes, i: nat) -> Option<TypeNode> {
    match types {
        ItemTypes::Same(node) => node,
        ItemTypes::Each(refs) => if i < refs.len() {
            target(model, refs[i as int])
        } else {
            None
        },
    }
}

/// The type of the property `key`.
pub open spec fn entry_type(model: Option<TypeModel>, types: EntryTypes, key: Seq<char>) -> Option<
    TypeNode,
> {
    match types {
        EntryTypes::Same(node) => node,
        EntryTypes::Fields(fields) => match field_with_key(fields, key, 0) {
            Some(f) => target(model, f.value),
            None => None,
        },
    }
}

/// The type of what an option holds.
pub open spec fn option_type(model: Option<TypeModel>, node: Option<TypeNode>) -> Option<TypeNode> {
    match node {
        Some(n) => match n.kind {
            NodeKind::Optional { inner } => target(model, inner),
            _ => None,
        },
        None => None,
    }
}

/// The types of the items of a list or a tuple.
pub open spec fn item_types(model: Option<TypeModel>, node: Option<TypeNode>) -> ItemTypes {
    match node {
        Some(n) => match n.kind {
            NodeKind::Sequence { element } => ItemTypes::Same(target(model, element)),
            NodeKind::Tuple { elements } => ItemTypes::Each(elements@),
            _ => ItemTypes::Same(None),
        },
        None => ItemTypes::Same(None),
    }
}

/// The types of the values of a record or a map.
pub open spec fn entry_types(model: Option<TypeModel>, node: Option<TypeNode>) -> EntryTypes {
    match node {
        Some(n) => match n.kind {
            NodeKind::Object { fields, .. } => EntryTypes::Fields(fields@),
            NodeKind::Dictionary { value, .. } => EntryTypes::Same(
                target(model, value),
            ),
            _ => EntryTypes::Same(None),
        },
        None => EntryTypes::Same(None),
    }
}

/// The declared variant called `name`.
pub open spec fn declared(node: Option<TypeNode>, name: Seq<char>) -> Option<Variant> {
    match node {
        Some(n) => match n.kind {
            NodeKind::Enum { variants, .. } => variant_with_name(variants@, name, 0),
            _ => None,
        },
        None => None,
    }
}

/// The types of the elements of a tuple variant.
pub open spec fn element_types(variant: Option<Variant>) -> ItemTypes {
    match variant {
        Some(v) => match v.shape {
            VariantShape::Tuple(elements) => ItemTypes::Each(elements@),
            _ => ItemTypes::Same(None),
        },
        None => ItemTypes::Same(None),
    }
}

/// The types of the fields of a struct variant.
pub open spec fn field_types(variant: Option<Variant>) -> EntryTypes {
    match variant {
        Some(v) => match v.shape {
            VariantShape::Struct(fields) => EntryTypes::Fields(fields@),
            _ => EntryTypes::Same(None),
        },
        None => EntryTypes::Same(None),
    }
}

/// The type of the value of a variant that holds one.
pub open spec fn newtype_type(model: Option<TypeModel>, variant: Option<Variant>) -> Option<
    TypeNode,
> {
    match variant {
        Some(v) => match v.shape {
            VariantShape::Newtype(inner) => target(model, inner),
            _ => None,
        },
        None => None,
    }
}

/// What separates position `i` from the one before.
pub open spec fn separator(i: nat) -> Emission {
    if i > 0 {
        written(", "@)
    } else {
        nothing()
    }
}

/// The placeholder for a value at `pointer` that is nested too deeply.
pub open spec fn too_deep(pointer: Seq<char>) -> Emission {
    Emission {
        text: "()"@,
        notes: seq![
            Note {
                text: "nesting depth limit (96) reached at pointer "@ + text::debug_text(pointer)
                    + "; deeper structure replaced with a flagged placeholder"@,
                once: false,
            },
        ],
        losses: seq![
            loss::loss(
                LossKind::UnparseableRegion,
                TextRange { start: 0, end: 0 },
                LossRecovery::LossyToExternal,
                "JSON nesting exceeded the safe depth bound \u{2014} emitted as a flagged placeholder"@,
            ),
        ],
    }
}

/// The remark that an array became a list.
pub open spec fn list_note(pointer: Seq<char>) -> Emission {
    remarked(
        "array at pointer "@ + text::debug_text(pointer)
            + " reconstructed as a RON list (could be a tuple \u{2014} bind a type to disambiguate)"@,
    )
}

/// The remark that an object became an enum variant.
pub open spec fn variant_note(name: Seq<char>, pointer: Seq<char>) -> Emission {
    remarked(
        "single-key object {"@ + text::debug_text(name) + ": \u{2026}} at pointer "@
            + text::debug_text(pointer)
            + " reconstructed as an externally-tagged enum variant (bind a type to confirm the tagging)"@,
    )
}

/// The remark that an object became a map.
pub open spec fn map_note(pointer: Seq<char>) -> Emission {
    remarked(
        "object with non-identifier keys at pointer "@ + text::debug_text(pointer)
            + " reconstructed as a string-keyed RON map (bind a type for struct fields or typed map keys)"@,
    )
}

/// The remark that nothing tells the variant of an untagged enum.
pub open spec fn untagged_note(pointer: Seq<char>) -> Emission {
    remarked(
        "untagged enum at pointer "@ + text::debug_text(pointer)
            + " reconstructed best-effort (no tag to recover the variant from)"@,
    )
}

/// An enum variant told by its tag: its name, its payload, and the payload's pointer.
/// The payload is a value of its own unless it shares the pointer with the enum.
pub struct Tagged {
    pub name: Seq<char>,
    pub payload: Option<JsonModel>,
    pub pointer: Seq<char>,
    pub own: bool,
}

/// The variant that a JSON value at `pointer` stands for under a tagging.
pub open spec fn tagged(
    value: JsonModel,
    discriminator: Discriminator,
    pointer: Seq<char>,
) -> Option<Tagged> {
    match (value, discriminator) {
        (JsonModel::Object(entries), Discriminator::External) => if entries.len() == 1 {
            Some(
                Tagged {
                    name: entries[0].0,
                    payload: Some(entries[0].1),
                    pointer: pointer::key_pointer(pointer, entries[0].0),
                    own: true,
                },
            )
        } else {
            None
        },
        (JsonModel::Object(entries), Discriminator::Internal { tag }) => match json::value_of(
            entries,
            tag@,
        ) {
            Some(JsonModel::Str(name)) => {
                let rest = json::without_key(entries, tag@);
                Some(
                    Tagged {
                        name,
                        payload: if rest.len() == 0 {
                            None
                        } else {
                            Some(JsonModel::Object(rest))
                        },
                        pointer,
                        own: false,
                    },
                )
            },
            _ => None,
        },
        (JsonModel::Object(entries), Discriminator::Adjacent { tag, content }) => match json::value_of(
            entries,
            tag@,
        ) {
            Some(JsonModel::Str(name)) => Some(
                Tagged {
                    name,
                    payload: json::value_of(entries, content@),
                    pointer: pointer::key_pointer(pointer, content@),
                    own: true,
                },
            ),
            _ => None,
        },
        _ => None,
    }
}

/// What the reconstruction of `value` emits: at `pointer`, at nesting depth `depth`,
/// with the type `node` where one is known.
pub open spec fn value_emission(
    model: Option<TypeModel>,
    comments: Seq<CommentModel>,
    value: JsonModel,
    node: Option<TypeNode>,
    pointer: Seq<char>,
    depth: nat,
) -> Emission
    decreases MAX_JSON_DEPTH + 1 - depth, 5nat, 0nat,
{
    if depth >= MAX_JSON_DEPTH {
        too_deep(pointer)
    } else {
        match node {
            Some(n) => match typed_emission(model, comments, value, n, pointer, depth) {
                Some(e) => e,
                None => plain_emission(model, comments, value, pointer, depth),
            },
            None => plain_emission(model, comments, value, pointer, depth),
        }
    }
}

/// What the reconstruction of `value` as a value of type `node` emits; nothing if the
/// value does not fit the type.
pub open spec fn typed_emission(
    model: Option<TypeModel>,
    comments: Seq<CommentModel>,
    value: JsonModel,
    node: TypeNode,
    pointer: Seq<char>,
    depth: nat,
) -> Option<Emission>
    decreases MAX_JSON_DEPTH + 1 - depth, 4nat, 0nat,
{
    if depth >= MAX_JSON_DEPTH {
        None
    } else {
        match node.kind {
            NodeKind::Optional { inner } => if value is Null {
                Some(written("None"@))
            } else {
                Some(
                    written("Some("@).then_emit(
                        value_emission(
                            model,
                            comments,
                            value,
                            target(model, inner),
                            pointer,
                            depth + 1,
                        ),
                    ).then_emit(written(seq![')'])),
                )
            },
            NodeKind::Primitive { .. } => if node.ron_kind == Some(RonKind::Unit) {
                if value is Null {
                    Some(written("()"@))
                } else {
                    None
                }
            } else if node.ron_kind == Some(RonKind::Char) {
                match value {
                    JsonModel::Str(s) => if s.len() == 1 {
                        Some(written(literal(s, '\'')))
                    } else {
                        None
                    },
                    _ => None,
                }
            } else {
                Some(written(scalar_text(value)))
            },
            NodeKind::Tuple { elements } => match value {
                JsonModel::Array(items) => Some(
                    written(seq!['(']).then_emit(
                        items_emission(
                            model,
                            comments,
                            items,
                            ItemTypes::Each(elements@),
                            pointer,
                            depth,
                            0,
                        ),
                    ).then_emit(written(seq![')'])),
                ),
                _ => None,
            },
            NodeKind::Sequence { element } => match value {
                JsonModel::Array(items) => Some(
                    written(seq!['[']).then_emit(
                        items_emission(
                            model,
                            comments,
                            items,
                            ItemTypes::Same(target(model, element)),
                            pointer,
                            depth,
                            0,
                        ),
                    ).then_emit(written(seq![']'])),
                ),
                _ => None,
            },
            NodeKind::Object { fields, .. } => match value {
                JsonModel::Object(entries) => Some(
                    written(seq!['(']).then_emit(
                        entries_emission(
                            model,
                            comments,
                            entries,
                            EntryTypes::Fields(fields@),
                            KeyStyle::Name,
                            pointer,
                            depth,
                            0,
                        ),
                    ).then_emit(written(seq![')'])),
                ),
                _ => None,
            },
            NodeKind::Dictionary { value: val_ref, .. } => match value {
                JsonModel::Object(entries) => Some(
                    written(seq!['{']).then_emit(
                        entries_emission(
                            model,
                            comments,
                            entries,
                            EntryTypes::Same(target(model, val_ref)),
                            if node.ron_kind == Some(RonKind::NonStringKeyMap) {
                                KeyStyle::Verbatim
                            } else {
                                KeyStyle::Quoted
                            },
                            pointer,
                            depth,
                            0,
                        ),
                    ).then_emit(written(seq!['}'])),
                ),
                _ => None,
            },
            NodeKind::Enum { variants, discriminator } => Some(
                enum_emission(model, comments, value, variants@, discriminator, pointer, depth),
            ),
            NodeKind::Unknown => None,
        }
    }
}

/// What the reconstruction of `value` as an enum emits.
pub open spec fn enum_emission(
    model: Option<TypeModel>,
    comments: Seq<CommentModel>,
    value: JsonModel,
    variants: Seq<Variant>,
    discriminator: Discriminator,
    pointer: Seq<char>,
    depth: nat,
) -> Emission
    decreases MAX_JSON_DEPTH + 1 - depth, 3nat, 0nat,
{
    if depth >= MAX_JSON_DEPTH {
        nothing()
    } else {
        match tagged(value, discriminator, pointer) {
            None => (if discriminator is Untagged {
                untagged_note(pointer)
            } else {
                nothing()
            }).then_emit(plain_emission(model, comments, value, pointer, depth)),
            Some(t) => written(t.name).then_emit(
                match t.payload {
                    None => nothing(),
                    Some(payload) => payload_emission(
                        model,
                        comments,
                        payload,
                        variant_with_name(variants, t.name, 0),
                        t.pointer,
                        t.own,
                        depth,
                    ),
                },
            ),
        }
    }
}

/// What the payload of an enum variant emits, given the declared variant.
pub open spec fn payload_emission(
    model: Option<TypeModel>,
    comments: Seq<CommentModel>,
    payload: JsonModel,
    declared: Option<Variant>,
    pointer: Seq<char>,
    own: bool,
    depth: nat,
) -> Emission
    decreases MAX_JSON_DEPTH + 1 - depth, 2nat, 0nat,
{
    let opening = written(seq!['(']).then_emit(
        if own {
            anchored(comments, pointer)
        } else {
            nothing()
        },
    );
    if depth >= MAX_JSON_DEPTH {
        nothing()
    } else {
        match declared {
            Some(v) => match v.shape {
                VariantShape::Unit => nothing(),
                VariantShape::Newtype(inner) => opening.then_emit(
                    value_emission(
                        model,
                        comments,
                        payload,
                        target(model, inner),
                        pointer,
                        depth + 1,
                    ),
                ).then_emit(written(seq![')'])),
                VariantShape::Tuple(elements) => opening.then_emit(
                    match payload {
                        JsonModel::Array(items) => items_emission(
                            model,
                            comments,
                            items,
                            ItemTypes::Each(elements@),
                            pointer,
                            depth,
                            0,
                        ),
                        _ => value_emission(model, comments, payload, None, pointer, depth + 1),
                    },
                ).then_emit(written(seq![')'])),
                VariantShape::Struct(fields) => opening.then_emit(
                    match payload {
                        JsonModel::Object(entries) => entries_emission(
                            model,
                            comments,
                            entries,
                            EntryTypes::Fields(fields@),
                            KeyStyle::Name,
                            pointer,
                            depth,
                            0,
                        ),
                        _ => nothing(),
                    },
                ).then_emit(written(seq![')'])),
            },
            None => opening.then_emit(
                value_emission(model, comments, payload, None, pointer, depth + 1),
            ).then_emit(written(seq![')'])),
        }
    }
}

/// What the structural reconstruction of `value` emits.
pub open spec fn plain_emission(
    model: Option<TypeModel>,
    comments: Seq<CommentModel>,
    value: JsonModel,
    pointer: Seq<char>,
    depth: nat,
) -> Emission
    decreases MAX_JSON_DEPTH + 1 - depth, 2nat, 0nat,
{
    if depth >= MAX_JSON_DEPTH {
        nothing()
    } else {
        match value {
            JsonModel::Null => written("None"@),
            JsonModel::Bool(_) | JsonModel::Number(_) | JsonModel::Str(_) => written(
                scalar_text(value),
            ),
            JsonModel::Array(items) => list_note(pointer).then_emit(written(seq!['['])).then_emit(
                items_emission(
                    model,
                    comments,
                    items,
                    ItemTypes::Same(None),
                    pointer,
                    depth,
                    0,
                ),
            ).then_emit(written(seq![']'])),
            JsonModel::Object(entries) => if entries.len() == 1 && variant_like(entries[0].0) {
                let under = pointer::key_pointer(pointer, entries[0].0);
                let named = variant_note(entries[0].0, pointer).then_emit(written(entries[0].0));
                if entries[0].1 is Null {
                    named
                } else {
                    named.then_emit(written(seq!['('])).then_emit(
                        anchored(comments, under),
                    ).then_emit(
                        value_emission(model, comments, entries[0].1, None, under, depth + 1),
                    ).then_emit(written(seq![')']))
                }
            } else if all_idents(entries) {
                written(seq!['(']).then_emit(
                    entries_emission(
                        model,
                        comments,
                        entries,
                        EntryTypes::Same(None),
                        KeyStyle::Name,
                        pointer,
                        depth,
                        0,
                    ),
                ).then_emit(written(seq![')']))
            } else {
                map_note(pointer).then_emit(written(seq!['{'])).then_emit(
                    entries_emission(
                        model,
                        comments,
                        entries,
                        EntryTypes::Same(None),
                        KeyStyle::Quoted,
                        pointer,
                        depth,
                        0,
                    ),
                ).then_emit(written(seq!['}']))
            },
        }
    }
}

/// Whether every key is an identifier.
pub open spec fn all_idents(entries: Seq<(Seq<char>, JsonModel)>) -> bool {
    forall|i: int| 0 <= i < entries.len() ==> ron_ident((#[trigger] entries[i]).0)
}

/// What the items from position `from` on emit, separated by commas.
pub open spec fn items_emission(
    model: Option<TypeModel>,
    comments: Seq<CommentModel>,
    items: Seq<JsonModel>,
    types: ItemTypes,
    pointer: Seq<char>,
    depth: nat,
    from: nat,
) -> Emission
    decreases MAX_JSON_DEPTH + 1 - depth, 1nat, items.len() - from,
{
    if from >= items.len() || depth >= MAX_JSON_DEPTH {
        nothing()
    } else {
        let under = pointer::index_pointer(pointer, from);
        separator(from).then_emit(anchored(comments, under)).then_emit(
            value_emission(
                model,
                comments,
                items[from as int],
                item_type(model, types, from),
                under,
                depth + 1,
            ),
        ).then_emit(items_emission(model, comments, items, types, pointer, depth, from + 1))
    }
}

/// What the properties from position `from` on emit, separated by commas.
pub open spec fn entries_emission(
    model: Option<TypeModel>,
    comments: Seq<CommentModel>,
    entries: Seq<(Seq<char>, JsonModel)>,
    types: EntryTypes,
    style: KeyStyle,
    pointer: Seq<char>,
    depth: nat,
    from: nat,
) -> Emission
    decreases MAX_JSON_DEPTH + 1 - depth, 1nat, entries.len() - from,
{
    if from >= entries.len() || depth >= MAX_JSON_DEPTH {
        nothing()
    } else {
        let key = entries[from as int].0;
        let under = pointer::key_pointer(pointer, key);
        separator(from).then_emit(anchored(comments, under)).then_emit(
            written(key_written(key, style) + ": "@),
        ).then_emit(
            value_emission(
                model,
                comments,
                entries[from as int].1,
                entry_type(model, types, key),
                under,
                depth + 1,
            ),
        ).then_emit(
            entries_emission(model, comments, entries, types, style, pointer, depth, from + 1),
        )
    }
}

/// What a reconstruction may consult: a type model and the comments to re-attach.
struct Builder<'a> {
    model: Option<&'a TypeModel>,
    comments: Option<&'a CommentCarrier>,
    out: String,
    notes: Vec<String>,
    loss_report: LossReport,
}

/// The type model behind an optional reference.
pub open spec fn model_of(model: Option<&TypeModel>) -> Option<TypeModel> {
    match model {
        Some(m) => Some(*m),
        None => None,
    }
}

/// The comments behind an optional carrier.
pub open spec fn comments_of(carrier: Option<&CommentCarrier>) -> Seq<CommentModel> {
    match carrier {
        Some(c) => comments::models(c.comments@),
        None => Seq::empty(),
    }
}

/// The type behind an optional reference.
pub open spec fn node_of(node: Option<&TypeNode>) -> Option<TypeNode> {
    match node {
        Some(n) => Some(*n),
        None => None,
    }
}

/// Item types as executable code holds them.
pub enum Items<'a> {
    Same(Option<&'a TypeNode>),
    Each(&'a Vec<TypeRef>),
}

/// Property types as executable code holds them.
pub enum Properties<'a> {
    Same(Option<&'a TypeNode>),
    Fields(&'a Vec<Field>),
}

impl<'a> Items<'a> {
    /// The types as mathematical values.
    pub open spec fn types(self) -> ItemTypes {
        match self {
            Items::Same(node) => ItemTypes::Same(node_of(node)),
            Items::Each(refs) => ItemTypes::Each(refs@),
        }
    }
}

impl<'a> Properties<'a> {
    /// The types as mathematical values.
    pub open spec fn types(self) -> EntryTypes {
        match self {
            Properties::Same(node) => EntryTypes::Same(node_of(node)),
            Properties::Fields(fields) => EntryTypes::Fields(fields@),
        }
    }
}

impl<'a> Builder<'a> {
    spec fn state(&self) -> Progress {
        Progress {
            text: self.out@,
            notes: text::strings(self.notes@),
            losses: self.loss_report@,
        }
    }

    /// Whether another builder consults the same model and comments.
    spec fn consults(&self, other: &Builder<'a>) -> bool {
        self.model == other.model && self.comments == other.comments
    }

    fn write(&mut self, text: &str)
        ensures
            final(self).state() == after(old(self).state(), written(text@)),
            final(self).consults(old(self)),
    {
        self.out.push_str(text);
        proof {
            lemma_after_written(old(self).state(), text@);
        }
    }

    fn write_char(&mut self, c: char)
        ensures
            final(self).state() == after(old(self).state(), written(seq![c])),
            final(self).consults(old(self)),
    {
        self.out.push(c);
        proof {
            lemma_after_written(old(self).state(), seq![c]);
            assert(self.out@ =~= old(self).out@ + seq![c]);
        }
    }

    fn resolve(&self, reference: &'a TypeRef) -> (r: Option<&'a TypeNode>)
        ensures
            node_of(r) == target(model_of(self.model), *reference),
    {
        match self.model {
            Some(m) => m.resolve(reference),
            None => None,
        }
    }

    /// Adds a remark that is not repeated.
    fn note_once(&mut self, note: String)
        ensures
            final(self).state() == after(old(self).state(), remarked(note@)),
            final(self).consults(old(self)),
    {
        let ghost before = text::strings(self.notes@);
        proof {
            lemma_after_remarked(old(self).state(), note@);
        }
        let mut i: usize = 0;
        while i < self.notes.len()
            invariant
                *self == *old(self),
                i <= self.notes@.len(),
                before == text::strings(self.notes@),
                after(old(self).state(), remarked(note@)) == (Progress {
                    text: old(self).state().text,
                    notes: with_note(old(self).state().notes, Note { text: note@, once: true }),
                    losses: old(self).state().losses,
                }),
                forall|j: int| 0 <= j < i ==> (#[trigger] before[j]) != note@,
            decreases self.notes@.len() - i,
        {
            if text::same_text(self.notes[i].as_str(), note.as_str()) {
                assert(before[i as int] == note@);
                assert(before.contains(note@));
                return ;
            }
            assert(before[i as int] == self.notes@[i as int]@);
            i += 1;
        }
        assert(!before.contains(note@));
        self.notes.push(note);
        assert(text::strings(self.notes@) =~= before.push(note@));
    }

    /// Writes the comments anchored to `pointer`.
    fn emit_anchored_comments(&mut self, pointer: &str)
        ensures
            final(self).state() == after(
                old(self).state(),
                anchored(comments_of(old(self).comments), pointer@),
            ),
            final(self).consults(old(self)),
    {
        let ghost all = comments_of(self.comments);
        match self.comments {
            None => {
                proof {
                    lemma_after_written(old(self).state(), Seq::empty());
                    assert(self.out@ + Seq::<char>::empty() =~= self.out@);
                }
            },
            Some(carrier) => {
                let mut i: usize = 0;
                assert(self.out@ =~= old(self).out@ + comment_text(all, pointer@, 0));
                while i < carrier.comments.len()
                    invariant
                        i <= carrier.comments@.len(),
                        all == comments::models(carrier.comments@),
                        self.out@ == old(self).out@ + comment_text(all, pointer@, i as nat),
                        self.notes == old(self).notes,
                        self.loss_report == old(self).loss_report,
                        self.consults(old(self)),
                    decreases carrier.comments@.len() - i,
                {
                    let comment = &carrier.comments[i];
                    assert(all[i as int] == comment@);
                    if text::same_text(comment.anchor_pointer.as_str(), pointer) {
                        self.out.push_str(comment.text.as_str());
                        if matches!(comment.kind, CommentKind::Line) {
                            self.out.push('\n');
                        } else {
                            self.out.push(' ');
                        }
                        assert(self.out@ =~= old(self).out@ + comment_text(
                            all,
                            pointer@,
                            i as nat + 1,
                        ));
                    }
                    i += 1;
                }
                proof {
                    lemma_after_written(
                        old(self).state(),
                        comment_text(all, pointer@, all.len()),
                    );
                }
            },
        }
    }

    /// Writes a value, guided by its type where one is known.
    fn emit_value(
        &mut self,
        value: &Json,
        node: Option<&'a TypeNode>,
        pointer: &str,
        depth: usize,
    )
        requires
            depth <= MAX_JSON_DEPTH,
        ensures
            final(self).state() == after(
                old(self).state(),
                value_emission(
                    model_of(old(self).model),
                    comments_of(old(self).comments),
                    value.model(),
                    node_of(node),
                    pointer@,
                    depth as nat,
                ),
            ),
            final(self).consults(old(self)),
        decreases MAX_JSON_DEPTH + 1 - depth, 5nat, 0nat,
    {
        if depth >= MAX_JSON_DEPTH {
            self.emit_too_deep(pointer);
            return ;
        }
        if let Some(n) = node {
            if self.emit_typed(value, n, pointer, depth) {
                return ;
            }
        }
        self.emit_best_effort(value, pointer, depth);
    }

    /// Writes the placeholder for a value that is nested too deeply.
    fn emit_too_deep(&mut self, pointer: &str)
        ensures
            final(self).state() == after(old(self).state(), too_deep(pointer@)),
            final(self).consults(old(self)),
    {
        let ghost start = self.state();
        self.out.push_str("()");
        self.loss_report.push(
            LossyConstruct::with_detail(
                LossKind::UnparseableRegion,
                TextRange::new(0, 0),
                LossRecovery::LossyToExternal,
                "JSON nesting exceeded the safe depth bound \u{2014} emitted as a flagged placeholder",
            ),
        );
        let mut note = String::new();
        note.push_str("nesting depth limit (96) reached at pointer ");
        note.push_str(text::debug_string(pointer).as_str());
        note.push_str("; deeper structure replaced with a flagged placeholder");
        let ghost noted = note@;
        self.notes.push(note);
        proof {
            let e = too_deep(pointer@);
            assert(e.notes.drop_last() =~= Seq::<Note>::empty());
            assert(noted =~= e.notes.last().text);
            assert(with_notes(start.notes, e.notes.drop_last()) == start.notes);
            assert(with_notes(start.notes, e.notes) == start.notes.push(noted));
            assert(text::strings(self.notes@) =~= start.notes.push(noted));
            assert(self.loss_report@ =~= start.losses + e.losses);
        }
    }

    /// Writes a value as one of type `node`. Tells whether the value fits the type;
    /// writes nothing where it does not.
    fn emit_typed(&mut self, value: &Json, node: &'a TypeNode, pointer: &str, depth: usize) -> (r:
        bool)
        requires
            depth < MAX_JSON_DEPTH,
        ensures
            match typed_emission(
                model_of(old(self).model),
                comments_of(old(self).comments),
                value.model(),
                *node,
                pointer@,
                depth as nat,
            ) {
                Some(e) => r && final(self).state() == after(old(self).state(), e),
                None => !r && *final(self) == *old(self),
            },
            final(self).consults(old(self)),
        decreases MAX_JSON_DEPTH + 1 - depth, 4nat, 0nat,
    {
        broadcast use {lemma_after_chain, lemma_after_nothing};

        match &node.kind {
            NodeKind::Optional { inner } => {
                if value.is_null() {
                    self.write("None");
                } else {
                    let inner_node = self.resolve(inner);
                    self.write("Some(");
                    self.emit_value(value, inner_node, pointer, depth + 1);
                    self.write_char(')');
                }
                true
            },
            NodeKind::Primitive { .. } => match node.ron_kind {
                Some(RonKind::Unit) => {
                    if value.is_null() {
                        self.write("()");
                        true
                    } else {
                        false
                    }
                },
                Some(RonKind::Char) => {
                    if let Json::Str(s) = value {
                        let chars = text::chars_of(s.as_str());
                        if chars.len() == 1 {
                            let quoted = quote(s.as_str(), '\'');
                            self.write(quoted.as_str());
                            return true;
                        }
                    }
                    false
                },
                _ => {
                    self.emit_scalar(value);
                    true
                },
            },
            NodeKind::Tuple { elements } => {
                if let Json::Array(items) = value {
                    self.write_char('(');
                    self.emit_items(items, Items::Each(elements), pointer, depth);
                    self.write_char(')');
                    true
                } else {
                    false
                }
            },
            NodeKind::Sequence { element } => {
                if let Json::Array(items) = value {
                    let element_node = self.resolve(element);
                    self.write_char('[');
                    self.emit_items(items, Items::Same(element_node), pointer, depth);
                    self.write_char(']');
                    true
                } else {
                    false
                }
            },
            NodeKind::Object { fields, .. } => {
                if let Json::Object(entries) = value {
                    self.write_char('(');
                    self.emit_entries(
                        entries,
                        Properties::Fields(fields),
                        KeyStyle::Name,
                        pointer,
                        depth,
                    );
                    self.write_char(')');
                    true
                } else {
                    false
                }
            },
            NodeKind::Dictionary { value: val_ref, .. } => {
                if let Json::Object(entries) = value {
                    let style = match node.ron_kind {
                        Some(RonKind::NonStringKeyMap) => KeyStyle::Verbatim,
                        _ => KeyStyle::Quoted,
                    };
                    let val_node = self.resolve(val_ref);
                    self.write_char('{');
                    self.emit_entries(entries, Properties::Same(val_node), style, pointer, depth);
                    self.write_char('}');
                    true
                } else {
                    false
                }
            },
            NodeKind::Enum { variants, discriminator } => {
                self.emit_enum(value, variants, discriminator, pointer, depth);
                true
            },
            NodeKind::Unknown => false,
        }
    }

    /// Writes a value by its structure alone.
    fn emit_best_effort(&mut self, value: &Json, pointer: &str, depth: usize)
        requires
            depth < MAX_JSON_DEPTH,
        ensures
            final(self).state() == after(
                old(self).state(),
                plain_emission(
                    model_of(old(self).model),
                    comments_of(old(self).comments),
                    value.model(),
                    pointer@,
                    depth as nat,
                ),
            ),
            final(self).consults(old(self)),
        decreases MAX_JSON_DEPTH + 1 - depth, 2nat, 0nat,
    {
        broadcast use {lemma_after_chain, lemma_after_nothing};

        match value {
            Json::Null => self.write("None"),
            Json::Bool(_) | Json::Number(_) | Json::Str(_) => self.emit_scalar(value),
            Json::Array(items) => {
                let mut note = String::new();
                note.push_str("array at pointer ");
                note.push_str(text::debug_string(pointer).as_str());
                note.push_str(
                    " reconstructed as a RON list (could be a tuple \u{2014} bind a type to disambiguate)",
                );
                assert(note@ =~= list_note(pointer@).notes[0].text);
                self.note_once(note);
                self.write_char('[');
                self.emit_items(items, Items::Same(None), pointer, depth);
                self.write_char(']');
            },
            Json::Object(entries) => {
                let ghost models = json::entry_models(entries@);
                assert(entries@.len() == 1 ==> models[0] == entries@[0].model());
                if entries.len() == 1 && looks_like_variant_name(entries[0].key.as_str()) {
                    let name = entries[0].key.as_str();
                    let mut note = String::new();
                    note.push_str("single-key object {");
                    note.push_str(text::debug_string(name).as_str());
                    note.push_str(": \u{2026}} at pointer ");
                    note.push_str(text::debug_string(pointer).as_str());
                    note.push_str(
                        " reconstructed as an externally-tagged enum variant (bind a type to confirm the tagging)",
                    );
                    assert(note@ =~= variant_note(name@, pointer@).notes[0].text);
                    self.note_once(note);
                    self.write(name);
                    if !entries[0].value.is_null() {
                        let under = pointer::push_key(pointer, name);
                        self.write_char('(');
                        self.emit_anchored_comments(under.as_str());
                        self.emit_value(&entries[0].value, None, under.as_str(), depth + 1);
                        self.write_char(')');
                    }
                } else if keys_are_idents(entries) {
                    self.write_char('(');
                    self.emit_entries(
                        entries,
                        Properties::Same(None),
                        KeyStyle::Name,
                        pointer,
                        depth,
                    );
                    self.write_char(')');
                } else {
                    let mut note = String::new();
                    note.push_str("object with non-identifier keys at pointer ");
                    note.push_str(text::debug_string(pointer).as_str());
                    note.push_str(
                        " reconstructed as a string-keyed RON map (bind a type for struct fields or typed map keys)",
                    );
                    assert(note@ =~= map_note(pointer@).notes[0].text);
                    self.note_once(note);
                    self.write_char('{');
                    self.emit_entries(
                        entries,
                        Properties::Same(None),
                        KeyStyle::Quoted,
                        pointer,
                        depth,
                    );
                    self.write_char('}');
                }
            },
        }
    }

    /// Writes a scalar.
    fn emit_scalar(&mut self, value: &Json)
        ensures
            final(self).state() == after(old(self).state(), written(scalar_text(value.model()))),
            final(self).consults(old(self)),
    {
        match value {
            Json::Bool(b) => {
                if *b {
                    self.write("true");
                } else {
                    self.write("false");
                }
            },
            Json::Number(n) => self.write(n.as_str()),
            Json::Str(s) => {
                let quoted = quote(s.as_str(), '"');
                self.write(quoted.as_str());
            },
            _ => self.write("()"),
        }
    }

    /// Writes the items of an array, separated by commas.
    fn emit_items(&mut self, items: &Vec<Json>, types: Items<'a>, pointer: &str, depth: usize)
        requires
            depth < MAX_JSON_DEPTH,
        ensures
            final(self).state() == after(
                old(self).state(),
                items_emission(
                    model_of(old(self).model),
                    comments_of(old(self).comments),
                    json::json_models(items@),
                    types.types(),
                    pointer@,
                    depth as nat,
                    0,
                ),
            ),
            final(self).consults(old(self)),
        decreases MAX_JSON_DEPTH + 1 - depth, 1nat, items@.len(),
    {
        broadcast use {lemma_after_chain, lemma_after_nothing};

        let ghost model = model_of(self.model);
        let ghost comments = comments_of(self.comments);
        let ghost all = json::json_models(items@);
        let mut i: usize = 0;
        while i < items.len()
            invariant
                depth < MAX_JSON_DEPTH,
                i <= items@.len(),
                all == json::json_models(items@),
                self.consults(old(self)),
                model == model_of(self.model),
                comments == comments_of(self.comments),
                after(
                    self.state(),
                    items_emission(
                        model,
                        comments,
                        all,
                        types.types(),
                        pointer@,
                        depth as nat,
                        i as nat,
                    ),
                ) == after(
                    old(self).state(),
                    items_emission(model, comments, all, types.types(), pointer@, depth as nat, 0),
                ),
            decreases items@.len() - i,
        {
            broadcast use {lemma_after_chain, lemma_after_nothing};

            assert(all[i as int] == items@[i as int].model());
            if i > 0 {
                self.write(", ");
            }
            let under = pointer::push_index(pointer, i);
            self.emit_anchored_comments(under.as_str());
            let node: Option<&'a TypeNode> = match &types {
                Items::Same(node) => *node,
                Items::Each(refs) => {
                    if i < refs.len() {
                        let refs: &'a Vec<TypeRef> = *refs;
                        self.resolve(&refs[i])
                    } else {
                        None
                    }
                },
            };
            self.emit_value(&items[i], node, under.as_str(), depth + 1);
            i += 1;
        }
    }

    /// Writes the properties of an object, separated by commas.
    fn emit_entries(
        &mut self,
        entries: &Vec<Entry>,
        types: Properties<'a>,
        style: KeyStyle,
        pointer: &str,
        depth: usize,
    )
        requires
            depth < MAX_JSON_DEPTH,
        ensures
            final(self).state() == after(
                old(self).state(),
                entries_emission(
                    model_of(old(self).model),
                    comments_of(old(self).comments),
                    json::entry_models(entries@),
                    types.types(),
                    style,
                    pointer@,
                    depth as nat,
                    0,
                ),
            ),
            final(self).consults(old(self)),
        decreases MAX_JSON_DEPTH + 1 - depth, 1nat, entries@.len(),
    {
        broadcast use {lemma_after_chain, lemma_after_nothing};

        let ghost model = model_of(self.model);
        let ghost comments = comments_of(self.comments);
        let ghost all = json::entry_models(entries@);
        let mut i: usize = 0;
        while i < entries.len()
            invariant
                depth < MAX_JSON_DEPTH,
                i <= entries@.len(),
                all == json::entry_models(entries@),
                self.consults(old(self)),
                model == model_of(self.model),
                comments == comments_of(self.comments),
                after(
                    self.state(),
                    entries_emission(
                        model,
                        comments,
                        all,
                        types.types(),
                        style,
                        pointer@,
                        depth as nat,
                        i as nat,
                    ),
                ) == after(
                    old(self).state(),
                    entries_emission(
                        model,
                        comments,
                        all,
                        types.types(),
                        style,
                        pointer@,
                        depth as nat,
                        0,
                    ),
                ),
            decreases entries@.len() - i,
        {
            broadcast use {lemma_after_chain, lemma_after_nothing};

            assert(all[i as int] == entries@[i as int].model());
            let key = entries[i].key.as_str();
            if i > 0 {
                self.write(", ");
            }
            let under = pointer::push_key(pointer, key);
            self.emit_anchored_comments(under.as_str());
            let mut label = key_as_written(key, style);
            label.push_str(": ");
            self.write(label.as_str());
            let node: Option<&'a TypeNode> = match &types {
                Properties::Same(node) => *node,
                Properties::Fields(fields) => {
                    let fields: &'a Vec<Field> = *fields;
                    match find_field(fields, key) {
                        Some(f) => self.resolve(&f.value),
                        None => None,
                    }
                },
            };
            self.emit_value(&entries[i].value, node, under.as_str(), depth + 1);
            i += 1;
        }
    }

    /// Writes a value as an enum variant, told by its tag.
    fn emit_enum(
        &mut self,
        value: &Json,
        variants: &'a Vec<Variant>,
        discriminator: &Discriminator,
        pointer: &str,
        depth: usize,
    )
        requires
            depth < MAX_JSON_DEPTH,
        ensures
            final(self).state() == after(
                old(self).state(),
                enum_emission(
                    model_of(old(self).model),
                    comments_of(old(self).comments),
                    value.model(),
                    variants@,
                    *discriminator,
                    pointer@,
                    depth as nat,
                ),
            ),
            final(self).consults(old(self)),
        decreases MAX_JSON_DEPTH + 1 - depth, 3nat, 0nat,
    {
        broadcast use {lemma_after_chain, lemma_after_nothing};

        match recover_variant(value, discriminator, pointer) {
            None => {
                if matches!(discriminator, Discriminator::Untagged) {
                    let mut note = String::new();
                    note.push_str("untagged enum at pointer ");
                    note.push_str(text::debug_string(pointer).as_str());
                    note.push_str(
                        " reconstructed best-effort (no tag to recover the variant from)",
                    );
                    assert(note@ =~= untagged_note(pointer@).notes[0].text);
                    self.note_once(note);
                }
                self.emit_best_effort(value, pointer, depth);
            },
            Some(recovered) => {
                self.write(recovered.name.as_str());
                if let Some(payload) = &recovered.payload {
                    self.emit_payload(
                        payload,
                        find_variant(variants, recovered.name.as_str()),
                        recovered.pointer.as_str(),
                        recovered.own,
                        depth,
                    );
                }
            },
        }
    }

    /// Writes the payload of a variant in the shape the declared variant has.
    fn emit_payload(
        &mut self,
        payload: &Json,
        declared: Option<&'a Variant>,
        pointer: &str,
        own: bool,
        depth: usize,
    )
        requires
            depth < MAX_JSON_DEPTH,
        ensures
            final(self).state() == after(
                old(self).state(),
                payload_emission(
                    model_of(old(self).model),
                    comments_of(old(self).comments),
                    payload.model(),
                    match declared {
                        Some(v) => Some(*v),
                        None => None,
                    },
                    pointer@,
                    own,
                    depth as nat,
                ),
            ),
            final(self).consults(old(self)),
        decreases MAX_JSON_DEPTH + 1 - depth, 2nat, 0nat,
    {
        broadcast use {lemma_after_chain, lemma_after_nothing};

        let shape: Option<&'a VariantShape> = match declared {
            Some(v) => Some(&v.shape),
            None => None,
        };
        if let Some(VariantShape::Unit) = shape {
            return ;
        }
        self.write_char('(');
        if own {
            self.emit_anchored_comments(pointer);
        }
        match shape {
            Some(VariantShape::Unit) => {},
            Some(VariantShape::Newtype(inner)) => {
                let inner_node = self.resolve(inner);
                self.emit_value(payload, inner_node, pointer, depth + 1);
            },
            Some(VariantShape::Tuple(elements)) => {
                if let Json::Array(items) = payload {
                    self.emit_items(items, Items::Each(elements), pointer, depth);
                } else {
                    self.emit_value(payload, None, pointer, depth + 1);
                }
            },
            Some(VariantShape::Struct(fields)) => {
                if let Json::Object(entries) = payload {
                    self.emit_entries(
                        entries,
                        Properties::Fields(fields),
                        KeyStyle::Name,
                        pointer,
                        depth,
                    );
                }
            },
            None => {
                self.emit_value(payload, None, pointer, depth + 1);
            },
        }
        self.write_char(')');
    }
}

proof fn lemma_after_written(state: Progress, text: Seq<char>)
    ensures
        after(state, written(text)) == (Progress { text: state.text + text, ..state }),
{
    assert(state.losses + Seq::<Loss>::empty() =~= state.losses);
}

proof fn lemma_after_remarked(state: Progress, text: Seq<char>)
    ensures
        after(state, remarked(text)) == (Progress {
            notes: with_note(state.notes, Note { text, once: true }),
            ..state
        }),
{
    let notes = remarked(text).notes;
    assert(notes.drop_last() =~= Seq::<Note>::empty());
    assert(with_notes(state.notes, notes.drop_last()) == state.notes);
    assert(state.text + Seq::<char>::empty() =~= state.text);
    assert(state.losses + Seq::<Loss>::empty() =~= state.losses);
}

/// An enum variant told by its tag.
struct Recovered {
    name: String,
    payload: Option<Json>,
    pointer: String,
    own: bool,
}

/// Tells the variant that a JSON value stands for.
fn recover_variant(value: &Json, discriminator: &Discriminator, pointer: &str) -> (r: Option<
    Recovered,
>)
    ensures
        match (r, tagged(value.model(), *discriminator, pointer@)) {
            (Some(rec), Some(t)) => {
                &&& rec.name@ == t.name
                &&& match (rec.payload, t.payload) {
                    (Some(p), Some(q)) => p.model() == q,
                    (None, None) => true,
                    _ => false,
                }
                &&& rec.pointer@ == t.pointer
                &&& rec.own == t.own
            },
            (None, None) => true,
            _ => false,
        },
{
    let entries = match value {
        Json::Object(entries) => entries,
        _ => {
            return None;
        },
    };
    let ghost models = json::entry_models(entries@);
    match discriminator {
        Discriminator::External => {
            if entries.len() == 1 {
                assert(models[0] == entries@[0].model());
                Some(
                    Recovered {
                        name: entries[0].key.clone(),
                        payload: Some(entries[0].value.copy()),
                        pointer: pointer::push_key(pointer, entries[0].key.as_str()),
                        own: true,
                    },
                )
            } else {
                None
            }
        },
        Discriminator::Internal { tag } => match tag_name(entries, tag.as_str()) {
            Some(name) => {
                let rest = json::copy_without(entries, tag.as_str());
                let payload = if rest.len() == 0 {
                    None
                } else {
                    Some(Json::Object(rest))
                };
                Some(Recovered { name, payload, pointer: pointer.to_owned(), own: false })
            },
            None => None,
        },
        Discriminator::Adjacent { tag, content } => match tag_name(entries, tag.as_str()) {
            Some(name) => {
                let payload = match json::position_of(entries, content.as_str()) {
                    Some(i) => {
                        assert(models[i as int] == entries@[i as int].model());
                        Some(entries[i].value.copy())
                    },
                    None => None,
                };
                Some(
                    Recovered {
                        name,
                        payload,
                        pointer: pointer::push_key(pointer, content.as_str()),
                        own: true,
                    },
                )
            },
            None => None,
        },
        Discriminator::Untagged => None,
    }
}

/// The string stored under `tag`.
fn tag_name(entries: &Vec<Entry>, tag: &str) -> (r: Option<String>)
    ensures
        match json::value_of(json::entry_models(entries@), tag@) {
            Some(JsonModel::Str(s)) => r matches Some(name) && name@ == s,
            _ => r is None,
        },
{
    match json::position_of(entries, tag) {
        Some(i) => {
            assert(json::entry_models(entries@)[i as int] == entries@[i as int].model());
            match &entries[i].value {
                Json::Str(s) => Some(s.clone()),
                _ => None,
            }
        },
        None => None,
    }
}

/// The field with the given key.
pub fn find_field<'a>(fields: &'a Vec<Field>, key: &str) -> (r: Option<&'a Field>)
    ensures
        match r {
            Some(f) => field_with_key(fields@, key@, 0) == Some(*f),
            None => field_with_key(fields@, key@, 0) is None,
        },
{
    let mut i: usize = 0;
    while i < fields.len()
        invariant
            i <= fields@.len(),
            field_with_key(fields@, key@, i as nat) == field_with_key(fields@, key@, 0),
        decreases fields@.len() - i,
    {
        if text::same_text(fields[i].serialized_key.as_str(), key) {
            return Some(&fields[i]);
        }
        i += 1;
    }
    None
}

/// The variant with the given name.
pub fn find_variant<'a>(variants: &'a Vec<Variant>, name: &str) -> (r: Option<&'a Variant>)
    ensures
        match r {
            Some(v) => variant_with_name(variants@, name@, 0) == Some(*v),
            None => variant_with_name(variants@, name@, 0) is None,
        },
{
    let mut i: usize = 0;
    while i < variants.len()
        invariant
            i <= variants@.len(),
            variant_with_name(variants@, name@, i as nat) == variant_with_name(variants@, name@, 0),
        decreases variants@.len() - i,
    {
        if text::same_text(variants[i].serialized_name.as_str(), name) {
            return Some(&variants[i]);
        }
        i += 1;
    }
    None
}

/// Whether `s` is a RON identifier.
pub fn is_ron_ident(s: &str) -> (r: bool)
    ensures
        r == ron_ident(s@),
{
    let chars = text::chars_of(s);
    if chars.len() == 0 || !starts_ident(chars[0]) {
        return false;
    }
    let mut i: usize = 1;
    while i < chars.len()
        invariant
            1 <= i <= chars@.len(),
            chars@ == s@,
            forall|j: int| 0 < j < i ==> ident_part(#[trigger] chars@[j]),
        decreases chars@.len() - i,
    {
        let c = chars[i];
        if !starts_ident(c) && !('0' <= c && c <= '9') {
            assert(!ident_part(chars@[i as int]));
            return false;
        }
        i += 1;
    }
    true
}

/// Whether a character may start an identifier.
fn starts_ident(c: char) -> (r: bool)
    ensures
        r == ident_start(c),
{
    ('a' <= c && c <= 'z') || ('A' <= c && c <= 'Z') || c == '_'
}

/// Whether `key` looks like the name of an enum variant.
pub fn looks_like_variant_name(key: &str) -> (r: bool)
    ensures
        r == variant_like(key@),
{
    let chars = text::chars_of(key);
    if chars.len() == 0 || !('A' <= chars[0] && chars[0] <= 'Z') {
        return false;
    }
    is_ron_ident(key)
}

/// Whether every key is an identifier.
fn keys_are_idents(entries: &Vec<Entry>) -> (r: bool)
    ensures
        r == all_idents(json::entry_models(entries@)),
{
    let ghost all = json::entry_models(entries@);
    let mut i: usize = 0;
    while i < entries.len()
        invariant
            i <= entries@.len(),
            all == json::entry_models(entries@),
            forall|j: int| 0 <= j < i ==> ron_ident((#[trigger] all[j]).0),
        decreases entries@.len() - i,
    {
        assert(all[i as int].0 == entries@[i as int].key@);
        if !is_ron_ident(entries[i].key.as_str()) {
            return false;
        }
        i += 1;
    }
    true
}

/// A key as it is written.
fn key_as_written(key: &str, style: KeyStyle) -> (r: String)
    ensures
        r@ == key_written(key@, style),
{
    match style {
        KeyStyle::Name => {
            if is_ron_ident(key) {
                key.to_owned()
            } else {
                quote(key, '"')
            }
        },
        KeyStyle::Quoted => quote(key, '"'),
        KeyStyle::Verbatim => key.to_owned(),
    }
}

/// The literal for `s`, delimited by `delimiter`.
pub fn quote(s: &str, delimiter: char) -> (r: String)
    ensures
        r@ == literal(s@, delimiter),
{
    let chars = text::chars_of(s);
    let mut out = String::new();
    out.push(delimiter);
    let mut i: usize = 0;
    assert(chars@.skip(0) =~= s@);
    assert(out@ + literal_body(chars@.skip(0), delimiter) =~= seq![delimiter] + literal_body(
        s@,
        delimiter,
    ));
    while i < chars.len()
        invariant
            i <= chars@.len(),
            out@ + literal_body(chars@.skip(i as int), delimiter) == seq![delimiter] + literal_body(
                s@,
                delimiter,
            ),
        decreases chars@.len() - i,
    {
        let ghost before = out@;
        let c = chars[i];
        assert(chars@.skip(i as int).drop_first() =~= chars@.skip(i + 1));
        if c == delimiter || c == '\\' {
            out.push('\\');
            out.push(c);
        } else if c == '\n' {
            out.push('\\');
            out.push('n');
        } else if c == '\r' {
            out.push('\\');
            out.push('r');
        } else if c == '\t' {
            out.push('\\');
            out.push('t');
        } else {
            out.push(c);
        }
        assert(out@ =~= before + literal_char(c, delimiter));
        assert(out@ + literal_body(chars@.skip(i + 1), delimiter) =~= before + (literal_char(
            c,
            delimiter,
        ) + literal_body(chars@.skip(i + 1), delimiter)));
        i += 1;
    }
    assert(out@ + literal_body(chars@.skip(i as int), delimiter) =~= out@);
    out.push(delimiter);
    assert(out@ =~= literal(s@, delimiter));
    out
}

/// The type information that guides a reconstruction: a model and the name of the
/// document's root type.
#[derive(Clone, Copy)]
pub struct JsonToRonBinding<'a> {
    pub model: &'a TypeModel,
    pub root_type: &'a str,
}

impl<'a> JsonToRonBinding<'a> {
    /// A binding to the type called `root_type`.
    pub fn new(model: &'a TypeModel, root_type: &'a str) -> (r: Self)
        ensures
            *r.model == *model,
            r.root_type@ == root_type@,
    {
        JsonToRonBinding { model, root_type }
    }

    /// The root type, where it is registered.
    pub fn root_node(&self) -> (r: Option<&'a TypeNode>)
        ensures
            match r {
                Some(node) => self.model.find(self.root_type@) == Some(*node),
                None => self.model.find(self.root_type@) is None,
            },
    {
        self.model.lookup(self.root_type)
    }
}

/// A reconstructed document: its text, the remarks on the choices made, and what was
/// lost.
pub struct JsonToRon {
    pub text: String,
    pub notes: Vec<String>,
    pub loss_report: LossReport,
}

impl View for JsonToRon {
    type V = Progress;

    open spec fn view(&self) -> Progress {
        Progress {
            text: self.text@,
            notes: text::strings(self.notes@),
            losses: self.loss_report@,
        }
    }
}

/// What the reconstruction of a whole document emits: the comments of the root, the
/// value and a line end.
pub open spec fn document_emission(
    json: JsonModel,
    model: Option<TypeModel>,
    root: Option<TypeNode>,
    comments: Seq<CommentModel>,
) -> Emission {
    anchored(comments, Seq::empty()).then_emit(
        value_emission(model, comments, json, root, Seq::empty(), 0),
    ).then_emit(written(seq!['\n']))
}

/// The reconstructed document.
pub open spec fn reconstruction(
    json: JsonModel,
    binding: Option<JsonToRonBinding>,
    comments: Seq<CommentModel>,
) -> Progress {
    after(
        Progress { text: Seq::empty(), notes: Seq::empty(), losses: Seq::empty() },
        match binding {
            Some(b) => document_emission(
                json,
                Some(*b.model),
                b.model.find(b.root_type@),
                comments,
            ),
            None => document_emission(json, None, None, comments),
        },
    )
}

/// A reconstruction with the remark that the grammar check gives where it fails.
pub open spec fn cross_checked(result: Progress, accepted: bool) -> Progress {
    if accepted {
        result
    } else {
        Progress {
            notes: result.notes.push(
                "emitted RON did not pass the serde `ron` grammar cross-check"@,
            ),
            ..result
        }
    }
}

/// Reconstructs RON from a JSON value, without checking the text against the grammar.
pub fn reconstruct<'a>(
    json: &Json,
    binding: Option<JsonToRonBinding<'a>>,
    comments: Option<&'a CommentCarrier>,
) -> (r: JsonToRon)
    ensures
        r@ == reconstruction(json.model(), binding, comments_of(comments)),
{
    broadcast use {lemma_after_chain, lemma_after_nothing};

    let mut builder = Builder {
        model: match &binding {
            Some(b) => Some(b.model),
            None => None,
        },
        comments,
        out: String::new(),
        notes: Vec::new(),
        loss_report: LossReport::new(),
    };
    let root: Option<&'a TypeNode> = match &binding {
        Some(b) => b.root_node(),
        None => None,
    };
    proof {
        reveal_strlit("");
        assert(""@ =~= Seq::<char>::empty());
        assert(text::strings(builder.notes@) =~= Seq::<Seq<char>>::empty());
    }
    builder.emit_anchored_comments("");
    builder.emit_value(json, root, "", 0);
    builder.write_char('\n');
    JsonToRon { text: builder.out, notes: builder.notes, loss_report: builder.loss_report }
}

/// Remarks on a reconstruction that the grammar check did not accept.
pub fn with_cross_check(result: JsonToRon, accepted: bool) -> (r: JsonToRon)
    ensures
        r@ == cross_checked(result@, accepted),
{
    let mut r = result;
    if !accepted {
        r.notes.push("emitted RON did not pass the serde `ron` grammar cross-check".to_owned());
        assert(text::strings(r.notes@) =~= cross_checked(result@, accepted).notes);
    }
    r
}

/// Reconstructs RON from a JSON value: guided by the bound type where there is one,
/// structurally otherwise. The comments are re-attached where they are anchored.
pub fn json_to_ron<'a>(
    json: &Json,
    binding: Option<JsonToRonBinding<'a>>,
    comments: Option<&'a CommentCarrier>,
) -> (r: JsonToRon)
    ensures
        ({
            let result = reconstruction(json.model(), binding, comments_of(comments));
            r@ == cross_checked(result, grammar::ron_accepts(result.text))
        }),
{
    let result = reconstruct(json, binding, comments);
    let accepted = grammar_verify(result.text.as_str());
    with_cross_check(result, accepted)
}

/// Whether the RON library reads `text` as a RON value.
pub fn grammar_verify(text: &str) -> (r: bool)
    ensures
        r == grammar::ron_accepts(text@),
{
    grammar::parses_as_ron(text)
}

/// The type of a property is that of the first field with its key, and the variant of a
/// tag the first with its name; without one there is none.
pub proof fn declarations_are_found_by_their_key(
    fields: Seq<Field>,
    variants: Seq<Variant>,
    key: Seq<char>,
    from: nat,
    i: int,
)
    requires
        from <= i,
    ensures
        i <= fields.len() && (forall|j: int|
            from <= j < i ==> (#[trigger] fields[j]).serialized_key@ != key) && (i < fields.len()
            ==> fields[i].serialized_key@ == key) ==> field_with_key(fields, key, from) == (if i
            < fields.len() {
            Some(fields[i])
        } else {
            None
        }),
        i <= variants.len() && (forall|j: int|
            from <= j < i ==> (#[trigger] variants[j]).serialized_name@ != key) && (i
            < variants.len() ==> variants[i].serialized_name@ == key) ==> variant_with_name(
            variants,
            key,
            from,
        ) == (if i < variants.len() {
            Some(variants[i])
        } else {
            None
        }),
    decreases i - from,
{
    if from < i {
        declarations_are_found_by_their_key(fields, variants, key, from + 1, i);
    }
}

/// The comments at a pointer are written word for word and in their order; those at other
/// pointers are not written there.
pub proof fn comments_are_written_at_their_pointer(
    a: Seq<CommentModel>,
    c: CommentModel,
    pointer: Seq<char>,
)
    ensures
        anchored(a.push(c), pointer).text == (if c.anchor == pointer {
            anchored(a, pointer).text + c.text + (if c.kind is Line {
                seq!['\n']
            } else {
                seq![' ']
            })
        } else {
            anchored(a, pointer).text
        }),
        a.len() == 0 ==> anchored(a, pointer).text.len() == 0,
{
    let all = a.push(c);
    lemma_same_comments(all, a, pointer, a.len());
    assert(comment_text(all, pointer, all.len()) =~= (if c.anchor == pointer {
        comment_text(a, pointer, a.len()) + c.text + (if c.kind is Line {
            seq!['\n']
        } else {
            seq![' ']
        })
    } else {
        comment_text(a, pointer, a.len())
    }));
}

proof fn lemma_same_comments(
    all: Seq<CommentModel>,
    a: Seq<CommentModel>,
    pointer: Seq<char>,
    n: nat,
)
    requires
        n <= a.len() <= all.len(),
        forall|i: int| 0 <= i < a.len() ==> a[i] == all[i],
    ensures
        comment_text(all, pointer, n) == comment_text(a, pointer, n),
    decreases n,
{
    if n > 0 {
        lemma_same_comments(all, a, pointer, (n - 1) as nat);
        assert(a[n - 1] == all[n - 1]);
    }
}

} // verus!
