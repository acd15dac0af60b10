//! What a derived document is.
//!
//! Read as RON, the document that is derived from a type is a value of the type in which
//! nothing is filled in yet: no list and no map holds anything, no number is other than
//! zero, and what cannot be known is marked.

use vstd::prelude::*;

use crate::interop::pointer;
use crate::interop::reader::{self, Part, Ron};
use crate::interop::round_trip;
use crate::interop::scaffold::{self, Draft, MAX_DERIVE_DEPTH, UNKNOWN_SENTINEL};
use crate::types::{
    Field, NodeKind, Primitive, RonKind, TypeModel, TypeNode, TypeRef, Variant, VariantShape,
};

verus! {

/// Whether a value is a mark for what has to be filled in.
pub open spec fn is_mark(v: Ron) -> bool {
    v == Ron::Quoted(UNKNOWN_SENTINEL@)
}

/// Whether a value is a string.
pub open spec fn is_string(v: Ron) -> bool {
    v matches Ron::Quoted(q) && q.len() >= 2 && q[0] == '"' && q.last() == '"'
}

/// Whether a value is one character.
pub open spec fn is_character(v: Ron) -> bool {
    v matches Ron::Quoted(q) && q.len() >= 2 && q[0] == '\'' && q.last() == '\''
        && pointer::resolved(pointer::unquoted(q, '\'')).len() == 1
}

/// Whether a literal quotes a character.
pub open spec fn quotes_character(q: Seq<char>, c: char) -> bool {
    round_trip::quotes(q, seq![c], '\'')
}

/// Whether a character is a digit.
pub open spec fn digit(c: char) -> bool {
    '0' <= c <= '9'
}

/// Whether a word is a whole number.
pub open spec fn is_integer(w: Seq<char>) -> bool {
    w.len() > 0 && forall|i: int| 0 <= i < w.len() ==> digit(#[trigger] w[i])
}

/// Whether a word is a number with a decimal point.
pub open spec fn is_decimal(w: Seq<char>) -> bool {
    exists|k: int|
        0 < k < w.len() - 1 && (#[trigger] w[k]) == '.' && is_integer(w.take(k)) && is_integer(
            w.skip(k + 1),
        )
}

/// Whether a value is a scalar of a kind.
pub open spec fn is_primitive(v: Ron, primitive: Primitive) -> bool {
    match primitive {
        Primitive::Boolean => v == Ron::Word("true"@) || v == Ron::Word("false"@),
        Primitive::Integer => v matches Ron::Word(w) && is_integer(w),
        Primitive::Number => v matches Ron::Word(w) && is_decimal(w),
        Primitive::String => is_string(v),
        Primitive::Null => v == Ron::Word("None"@),
    }
}

/// Whether a value is of a type at nesting depth `depth`. Of a type that is not known, or
/// nested too deep, it is a mark. Of an enum it is the variant declared first.
pub open spec fn is_a(model: TypeModel, v: Ron, node: Option<TypeNode>, depth: nat) -> bool
    decreases v, 1nat,
{
    match node {
        None => is_mark(v),
        Some(n) => if depth >= MAX_DERIVE_DEPTH {
            is_mark(v)
        } else if n.ron_kind == Some(RonKind::Char) {
            is_character(v)
        } else if n.ron_kind == Some(RonKind::Unit) {
            v == Ron::Group('(', Seq::empty(), Seq::empty())
        } else if n.ron_kind == Some(RonKind::Bytes) {
            is_string(v)
        } else {
            match n.kind {
                NodeKind::Primitive { primitive } => is_primitive(v, primitive),
                NodeKind::Sequence { element } => match v {
                    Ron::Group(open, name, parts) => open == '[' && name.len() == 0 && forall|i: int|
                        0 <= i < parts.len() ==> part_is_item(
                            model,
                            #[trigger] parts[i],
                            model.target(element),
                            depth + 1,
                        ),
                    _ => false,
                },
                NodeKind::Dictionary { key, value } => match v {
                    Ron::Group(open, name, parts) => open == '{' && name.len() == 0 && forall|i: int|
                        0 <= i < parts.len() ==> part_is_pair(
                            model,
                            #[trigger] parts[i],
                            model.target(key),
                            model.target(value),
                            depth + 1,
                        ),
                    _ => false,
                },
                NodeKind::Optional { inner } => v == Ron::Word("None"@) || match v {
                    Ron::Group(open, name, parts) => open == '(' && name == "Some"@ && parts.len()
                        == 1 && part_is_item(model, parts[0], model.target(inner), depth + 1),
                    _ => false,
                },
                NodeKind::Tuple { elements } => match v {
                    Ron::Group(open, name, parts) => open == '(' && name.len() == 0
                        && parts_are_elements(model, parts, elements@, depth + 1),
                    _ => false,
                },
                NodeKind::Object { fields, .. } => match v {
                    Ron::Group(open, name, parts) => open == '(' && name.len() == 0
                        && parts_are_fields(model, parts, fields@, depth + 1),
                    _ => false,
                },
                NodeKind::Enum { variants, .. } => if variants@.len() == 0 {
                    is_mark(v)
                } else {
                    is_variant(model, v, variants@[0], depth)
                },
                NodeKind::Unknown => is_mark(v),
            }
        },
    }
}

/// Whether a value is a variant of an enum.
pub open spec fn is_variant(model: TypeModel, v: Ron, variant: Variant, depth: nat) -> bool
    decreases v, 0nat,
{
    let called = variant.serialized_name@;
    match (variant.shape, v) {
        (VariantShape::Unit, _) => v == Ron::Word(called),
        (VariantShape::Newtype(inner), Ron::Group(open, name, parts)) => open == '(' && name
            == called && parts.len() == 1 && part_is_item(
            model,
            parts[0],
            model.target(inner),
            depth + 1,
        ),
        (VariantShape::Tuple(elements), Ron::Group(open, name, parts)) => open == '(' && name
            == called && parts_are_elements(model, parts, elements@, depth + 1),
        (VariantShape::Struct(fields), Ron::Group(open, name, parts)) => open == '(' && name
            == called && parts_are_fields(model, parts, fields@, depth + 1),
        _ => false,
    }
}

/// Whether a part is a value of a type.
pub open spec fn part_is_item(
    model: TypeModel,
    part: Part,
    node: Option<TypeNode>,
    depth: nat,
) -> bool
    decreases part, 0nat,
{
    match part {
        Part::Item(v) => is_a(model, v, node, depth),
        Part::Pair(_, _) => false,
    }
}

/// Whether a part is a key and a value of two types.
pub open spec fn part_is_pair(
    model: TypeModel,
    part: Part,
    key: Option<TypeNode>,
    node: Option<TypeNode>,
    depth: nat,
) -> bool
    decreases part, 0nat,
{
    match part {
        Part::Item(_) => false,
        Part::Pair(k, v) => is_a(model, k, key, depth) && is_a(model, v, node, depth),
    }
}

/// Whether a part is a field of a type.
pub open spec fn part_is_field(
    model: TypeModel,
    part: Part,
    name: Seq<char>,
    node: Option<TypeNode>,
    depth: nat,
) -> bool
    decreases part, 0nat,
{
    match part {
        Part::Item(_) => false,
        Part::Pair(k, v) => k == Ron::Word(name) && is_a(model, v, node, depth),
    }
}

/// Whether parts are the elements of a tuple, one for each.
pub open spec fn parts_are_elements(
    model: TypeModel,
    parts: Seq<Part>,
    elements: Seq<TypeRef>,
    depth: nat,
) -> bool
    decreases parts, 0nat,
{
    parts.len() == elements.len() && forall|i: int|
        0 <= i < parts.len() ==> part_is_item(
            model,
            #[trigger] parts[i],
            model.target(elements[i]),
            depth,
        )
}

/// Whether parts are the fields of a struct, one for each.
pub open spec fn parts_are_fields(
    model: TypeModel,
    parts: Seq<Part>,
    fields: Seq<Field>,
    depth: nat,
) -> bool
    decreases parts, 0nat,
{
    parts.len() == fields.len() && forall|i: int|
        0 <= i < parts.len() ==> part_is_field(
            model,
            #[trigger] parts[i],
            fields[i].serialized_key@,
            model.target(fields[i].value),
            depth,
        )
}

/// Whether nothing in a value is filled in: lists and maps are empty, options absent,
/// numbers zero, flags off and literals empty.
pub open spec fn untouched(v: Ron) -> bool
    decreases v, 0nat,
{
    match v {
        Ron::Word(w) => w.len() > 0 && w != "true"@ && (digit(w[0]) ==> forall|i: int|
            0 <= i < w.len() ==> #[trigger] w[i] == '0' || w[i] == '.'),
        Ron::Quoted(q) => is_mark(v) || round_trip::quotes(q, Seq::empty(), '"')
            || quotes_character(q, '\0'),
        Ron::Group(open, name, parts) => name != "Some"@ && (open != '(' ==> parts.len() == 0)
            && forall|i: int|
            0 <= i < parts.len() ==> part_untouched(#[trigger] parts[i]),
    }
}

/// Whether nothing in a part is filled in.
pub open spec fn part_untouched(part: Part) -> bool
    decreases part, 0nat,
{
    match part {
        Part::Item(v) => untouched(v),
        Part::Pair(_, v) => untouched(v),
    }
}

/// How many marks a value holds.
pub open spec fn marks(v: Ron) -> nat
    decreases v, 0nat, 0nat,
{
    match v {
        Ron::Word(_) => 0,
        Ron::Quoted(_) => if is_mark(v) {
            1
        } else {
            0
        },
        Ron::Group(_, _, parts) => part_marks(parts, 0),
    }
}

/// How many marks the parts from position `from` on hold.
pub open spec fn part_marks(parts: Seq<Part>, from: nat) -> nat
    decreases parts, parts.len() - from, 0nat,
{
    if from >= parts.len() {
        0
    } else {
        (match parts[from as int] {
            Part::Item(v) => marks(v),
            Part::Pair(_, v) => marks(v),
        }) + part_marks(parts, from + 1)
    }
}

/// Whether a text is a word that means nothing else than a name.
pub open spec fn is_name(w: Seq<char>) -> bool {
    reader::is_word(w) && !digit(w[0]) && w != "true"@ && w != "Some"@
}

/// Whether the names of fields and variants that a derived document holds are words.
pub open spec fn names_are_words(model: TypeModel, node: Option<TypeNode>, depth: nat) -> bool
    decreases MAX_DERIVE_DEPTH + 1 - depth, 1nat,
{
    if depth >= MAX_DERIVE_DEPTH {
        true
    } else {
        match node {
            None => true,
            Some(n) => match n.kind {
                NodeKind::Tuple { elements } => elements_are_words(model, elements@, depth),
                NodeKind::Object { fields, .. } => fields_are_words(model, fields@, depth),
                NodeKind::Enum { variants, .. } => variants@.len() > 0 ==> is_name(
                    variants@[0].serialized_name@,
                ) && match variants@[0].shape {
                    VariantShape::Unit => true,
                    VariantShape::Newtype(inner) => names_are_words(
                        model,
                        model.target(inner),
                        depth + 1,
                    ),
                    VariantShape::Tuple(elements) => elements_are_words(model, elements@, depth),
                    VariantShape::Struct(fields) => fields_are_words(model, fields@, depth),
                },
                _ => true,
            },
        }
    }
}

/// Whether the names in the elements of a tuple are words.
pub open spec fn elements_are_words(model: TypeModel, elements: Seq<TypeRef>, depth: nat) -> bool
    decreases MAX_DERIVE_DEPTH + 1 - depth, 0nat,
{
    depth < MAX_DERIVE_DEPTH ==> forall|i: int|
        0 <= i < elements.len() ==> names_are_words(
            model,
            model.target(#[trigger] elements[i]),
            depth + 1,
        )
}

/// Whether the names of the fields, and those in them, are words.
pub open spec fn fields_are_words(model: TypeModel, fields: Seq<Field>, depth: nat) -> bool
    decreases MAX_DERIVE_DEPTH + 1 - depth, 0nat,
{
    depth < MAX_DERIVE_DEPTH ==> forall|i: int|
        0 <= i < fields.len() ==> reader::is_word((#[trigger] fields[i]).serialized_key@)
            && names_are_words(model, model.target(fields[i].value), depth + 1)
}

/// A piece of a document that spells a value of a type.
pub open spec fn drafts(d: Draft, v: Ron) -> bool {
    reader::spells(d.text, v) && untouched(v) && marks(v) == d.holes.len()
}

proof fn lemma_mark()
    ensures
        drafts(scaffold::hole(), Ron::Quoted(UNKNOWN_SENTINEL@)),
{
    reveal_strlit("\"<FILL_IN>\"");
    reveal_with_fuel(reader::quoted_end, 12);
    let q = UNKNOWN_SENTINEL@;
    assert(q.len() == 11);
    assert(reader::is_quoted(q));
    reader::lemma_quoted(q);
}

proof fn lemma_fixed_word(w: Seq<char>)
    requires
        reader::is_word(w),
        w != "true"@,
        digit(w[0]) ==> forall|i: int| 0 <= i < w.len() ==> #[trigger] w[i] == '0' || w[i] == '.',
    ensures
        drafts(scaffold::fixed(w), Ron::Word(w)),
{
    reader::lemma_word(w);
}

proof fn lemma_fixed_group(open: char, name: Seq<char>, text: Seq<char>)
    requires
        reader::opens(open),
        name.len() == 0,
        text == seq![open, reader::closing(open)],
    ensures
        drafts(scaffold::fixed(text), Ron::Group(open, name, Seq::empty())),
{
    let pieces = Seq::<Seq<char>>::empty();
    reveal_strlit("Some");
    reader::lemma_group(open, name, pieces, Seq::empty());
    assert(name + round_trip::enclosed(open, pieces, reader::closing(open)) =~= text);
    assert(part_marks(Seq::<Part>::empty(), 0) == 0);
}

proof fn lemma_empty_string()
    ensures
        drafts(scaffold::fixed("\"\""@), Ron::Quoted("\"\""@)),
        is_string(Ron::Quoted("\"\""@)),
{
    reveal_strlit("\"\"");
    reveal_strlit("\"<FILL_IN>\"");
    reveal_with_fuel(reader::quoted_end, 3);
    let q = "\"\""@;
    assert(reader::is_quoted(q));
    reader::lemma_quoted(q);
    assert(pointer::unquoted(q, '"') =~= Seq::<char>::empty());
    assert(pointer::resolved(Seq::<char>::empty()) =~= Seq::<char>::empty());
    assert(round_trip::quotes(q, Seq::empty(), '"'));
    assert(q != UNKNOWN_SENTINEL@) by {
        assert(UNKNOWN_SENTINEL@.len() == 11);
    }
}

proof fn lemma_character()
    ensures
        drafts(scaffold::fixed("'\\0'"@), Ron::Quoted("'\\0'"@)),
        is_character(Ron::Quoted("'\\0'"@)),
{
    reveal_strlit("'\\0'");
    reveal_strlit("\"<FILL_IN>\"");
    reveal_with_fuel(reader::quoted_end, 4);
    let q = "'\\0'"@;
    assert(reader::is_quoted(q));
    reader::lemma_quoted(q);
    let inner = pointer::unquoted(q, '\'');
    assert(inner =~= seq!['\\', '0']);
    assert(inner.skip(2) =~= Seq::<char>::empty());
    assert(pointer::resolved(Seq::<char>::empty()) =~= Seq::<char>::empty());
    assert(pointer::resolved(inner) =~= seq!['\0']);
    assert(quotes_character(q, '\0'));
    assert(UNKNOWN_SENTINEL@.len() == 11);
}

proof fn lemma_none()
    ensures
        drafts(scaffold::fixed("None"@), Ron::Word("None"@)),
{
    reveal_strlit("None");
    reveal_strlit("true");
    lemma_fixed_word("None"@);
}

proof fn lemma_primitive(primitive: Primitive) -> (v: Ron)
    ensures
        drafts(scaffold::fixed(scaffold::primitive_text(primitive)), v),
        is_primitive(v, primitive),
{
    match primitive {
        Primitive::Boolean => {
            reveal_strlit("false");
    reveal_strlit("true");
            lemma_fixed_word("false"@);
            Ron::Word("false"@)
        },
        Primitive::Integer => {
            reveal_strlit("0");
    reveal_strlit("true");
            lemma_fixed_word("0"@);
            Ron::Word("0"@)
        },
        Primitive::Number => {
            reveal_strlit("0.0");
    reveal_strlit("true");
            let w = "0.0"@;
            lemma_fixed_word(w);
            assert(w[1] == '.' && is_integer(w.take(1)) && is_integer(w.skip(2)));
            Ron::Word(w)
        },
        Primitive::String => {
            lemma_empty_string();
            Ron::Quoted("\"\""@)
        },
        Primitive::Null => {
            lemma_none();
            Ron::Word("None"@)
        },
    }
}

proof fn lemma_node(model: TypeModel, node: Option<TypeNode>, depth: nat) -> (v: Ron)
    requires
        names_are_words(model, node, depth),
    ensures
        drafts(scaffold::node_draft(model, node, depth), v),
        is_a(model, v, node, depth),
    decreases MAX_DERIVE_DEPTH + 1 - depth, 2nat,
{
    let mark = Ron::Quoted(UNKNOWN_SENTINEL@);
    let none = Seq::<char>::empty();
    lemma_mark();
    if depth >= MAX_DERIVE_DEPTH || node is None {
        mark
    } else {
        let n = node->0;
        match n.ron_kind {
            Some(RonKind::Char) => {
                lemma_character();
                Ron::Quoted("'\\0'"@)
            },
            Some(RonKind::Unit) => {
                reveal_strlit("()");
                assert("()"@ =~= seq!['(', ')']);
                lemma_fixed_group('(', none, "()"@);
                Ron::Group('(', none, Seq::empty())
            },
            Some(RonKind::Bytes) => {
                lemma_empty_string();
                Ron::Quoted("\"\""@)
            },
            _ => match n.kind {
                NodeKind::Primitive { primitive } => lemma_primitive(primitive),
                NodeKind::Sequence { .. } => {
                    reveal_strlit("[]");
                    assert("[]"@ =~= seq!['[', ']']);
                    lemma_fixed_group('[', none, "[]"@);
                    Ron::Group('[', none, Seq::empty())
                },
                NodeKind::Dictionary { .. } => {
                    reveal_strlit("{}");
                    assert("{}"@ =~= seq!['{', '}']);
                    lemma_fixed_group('{', none, "{}"@);
                    Ron::Group('{', none, Seq::empty())
                },
                NodeKind::Optional { .. } => {
                    lemma_none();
                    Ron::Word("None"@)
                },
                NodeKind::Tuple { elements } => {
                    let parts = lemma_elements(model, elements@, depth, none);
                    let d = scaffold::tuple_draft(model, elements@, depth);
                    assert(none + d.text =~= d.text);
                    Ron::Group('(', none, parts)
                },
                NodeKind::Object { fields, .. } => {
                    let parts = lemma_fields(model, fields@, depth, none);
                    let d = scaffold::struct_draft(model, fields@, depth);
                    assert(none + d.text =~= d.text);
                    Ron::Group('(', none, parts)
                },
                NodeKind::Enum { variants, .. } => if variants@.len() == 0 {
                    mark
                } else {
                    lemma_variant(model, n, variants@[0], depth)
                },
                NodeKind::Unknown => mark,
            },
        }
    }
}

/// The piece of the variant that an enum starts with.
spec fn variant_draft(model: TypeModel, variant: Variant, depth: nat) -> Draft {
    scaffold::fixed(variant.serialized_name@).followed_by(
        match variant.shape {
            VariantShape::Unit => scaffold::fixed(Seq::empty()),
            VariantShape::Newtype(inner) => scaffold::fixed(seq!['(']).followed_by(
                scaffold::node_draft(model, model.target(inner), depth + 1),
            ).followed_by(scaffold::fixed(seq![')'])),
            VariantShape::Tuple(elements) => scaffold::tuple_draft(model, elements@, depth),
            VariantShape::Struct(fields) => scaffold::struct_draft(model, fields@, depth),
        },
    )
}

proof fn lemma_variant(model: TypeModel, node: TypeNode, variant: Variant, depth: nat) -> (v: Ron)
    requires
        depth < MAX_DERIVE_DEPTH,
        node.kind matches NodeKind::Enum { variants, .. } && variants@.len() > 0 && variants@[0]
            == variant,
        names_are_words(model, Some(node), depth),
    ensures
        drafts(variant_draft(model, variant, depth), v),
        is_variant(model, v, variant, depth),
    decreases MAX_DERIVE_DEPTH + 1 - depth, 1nat,
{
    let name = variant.serialized_name@;
    let d = variant_draft(model, variant, depth);
    match variant.shape {
        VariantShape::Unit => {
            assert(d.text =~= name);
            assert(d.holes =~= Seq::<(nat, nat)>::empty());
            lemma_fixed_word(name);
            Ron::Word(name)
        },
        VariantShape::Newtype(inner) => {
            let x = lemma_node(model, model.target(inner), depth + 1);
            let piece = scaffold::node_draft(model, model.target(inner), depth + 1);
            let pieces = seq![piece.text];
            let parts = seq![Part::Item(x)];
            reader::lemma_group('(', name, pieces, parts);
            assert(round_trip::listing(pieces, 1) =~= Seq::<char>::empty());
            assert(round_trip::listing(pieces, 0) =~= piece.text);
            assert(d.text =~= name + round_trip::enclosed('(', pieces, ')'));
            assert(d.holes.len() == piece.holes.len());
            assert(part_marks(parts, 1) == 0);
            assert(part_marks(parts, 0) == marks(x));
            assert(part_untouched(parts[0]));
            Ron::Group('(', name, parts)
        },
        VariantShape::Tuple(elements) => {
            let parts = lemma_elements(model, elements@, depth, name);
            assert(d.holes.len() == scaffold::tuple_draft(model, elements@, depth).holes.len());
            Ron::Group('(', name, parts)
        },
        VariantShape::Struct(fields) => {
            let parts = lemma_fields(model, fields@, depth, name);
            assert(d.holes.len() == scaffold::struct_draft(model, fields@, depth).holes.len());
            Ron::Group('(', name, parts)
        },
    }
}

/// Whether a value is one that the piece of a type spells.
spec fn typed(model: TypeModel, v: Ron, node: Option<TypeNode>, depth: nat) -> bool {
    drafts(scaffold::node_draft(model, node, depth), v) && is_a(model, v, node, depth)
}

/// The value that the piece of a type spells.
spec fn some_typed(model: TypeModel, node: Option<TypeNode>, depth: nat) -> Ron {
    choose|v: Ron| typed(model, v, node, depth)
}

proof fn lemma_elements(
    model: TypeModel,
    elements: Seq<TypeRef>,
    depth: nat,
    name: Seq<char>,
) -> (parts: Seq<Part>)
    requires
        depth < MAX_DERIVE_DEPTH,
        elements_are_words(model, elements, depth),
        name.len() == 0 || is_name(name),
    ensures
        reader::spells(
            name + scaffold::tuple_draft(model, elements, depth).text,
            Ron::Group('(', name, parts),
        ),
        untouched(Ron::Group('(', name, parts)),
        marks(Ron::Group('(', name, parts)) == scaffold::tuple_draft(
            model,
            elements,
            depth,
        ).holes.len(),
        parts_are_elements(model, parts, elements, depth + 1),
    decreases MAX_DERIVE_DEPTH + 1 - depth, 0nat,
{
    reveal_strlit("Some");
    let values = Seq::new(
        elements.len(),
        |i: int| some_typed(model, model.target(elements[i]), depth + 1),
    );
    let pieces = Seq::new(
        elements.len(),
        |i: int| scaffold::node_draft(model, model.target(elements[i]), depth + 1).text,
    );
    let parts = Seq::new(elements.len(), |i: int| Part::Item(values[i]));
    assert forall|i: int| 0 <= i < elements.len() implies typed(
        model,
        #[trigger] values[i],
        model.target(elements[i]),
        depth + 1,
    ) by {
        let v = lemma_node(model, model.target(elements[i]), depth + 1);
        assert(typed(model, v, model.target(elements[i]), depth + 1));
    }
    assert forall|i: int| 0 <= i < parts.len() implies reader::spells_part(
        #[trigger] pieces[i],
        parts[i],
    ) by {
        assert(typed(model, values[i], model.target(elements[i]), depth + 1));
    }
    assert forall|i: int| 0 <= i < parts.len() implies part_untouched(#[trigger] parts[i])
        && part_is_item(model, parts[i], model.target(elements[i]), depth + 1) by {
        assert(typed(model, values[i], model.target(elements[i]), depth + 1));
    }
    lemma_element_listing(model, elements, depth, values, pieces, parts, 0);
    reader::lemma_group('(', name, pieces, parts);
    let d = scaffold::tuple_draft(model, elements, depth);
    assert(name + d.text =~= name + round_trip::enclosed('(', pieces, ')'));
    assert(d.holes.len() == scaffold::elements_draft(model, elements, depth, 0).holes.len());
    parts
}

proof fn lemma_element_listing(
    model: TypeModel,
    elements: Seq<TypeRef>,
    depth: nat,
    values: Seq<Ron>,
    pieces: Seq<Seq<char>>,
    parts: Seq<Part>,
    from: nat,
)
    requires
        depth < MAX_DERIVE_DEPTH,
        values.len() == elements.len() == pieces.len() == parts.len(),
        forall|i: int|
            0 <= i < elements.len() ==> typed(
                model,
                #[trigger] values[i],
                model.target(elements[i]),
                depth + 1,
            ),
        forall|i: int|
            0 <= i < elements.len() ==> #[trigger] pieces[i] == scaffold::node_draft(
                model,
                model.target(elements[i]),
                depth + 1,
            ).text,
        forall|i: int| 0 <= i < parts.len() ==> #[trigger] parts[i] == Part::Item(values[i]),
    ensures
        scaffold::elements_draft(model, elements, depth, from).text == round_trip::listing(
            pieces,
            from,
        ),
        scaffold::elements_draft(model, elements, depth, from).holes.len() == part_marks(
            parts,
            from,
        ),
    decreases elements.len() - from,
{
    if from < elements.len() {
        lemma_element_listing(model, elements, depth, values, pieces, parts, from + 1);
        assert(typed(model, values[from as int], model.target(elements[from as int]), depth + 1));
        assert(parts[from as int] == Part::Item(values[from as int]));
        assert(pieces[from as int] == scaffold::node_draft(
            model,
            model.target(elements[from as int]),
            depth + 1,
        ).text);
    }
}

proof fn lemma_fields(
    model: TypeModel,
    fields: Seq<Field>,
    depth: nat,
    name: Seq<char>,
) -> (parts: Seq<Part>)
    requires
        depth < MAX_DERIVE_DEPTH,
        fields_are_words(model, fields, depth),
        name.len() == 0 || is_name(name),
    ensures
        reader::spells(
            name + scaffold::struct_draft(model, fields, depth).text,
            Ron::Group('(', name, parts),
        ),
        untouched(Ron::Group('(', name, parts)),
        marks(Ron::Group('(', name, parts)) == scaffold::struct_draft(
            model,
            fields,
            depth,
        ).holes.len(),
        parts_are_fields(model, parts, fields, depth + 1),
    decreases MAX_DERIVE_DEPTH + 1 - depth, 0nat,
{
    reveal_strlit("Some");
    let values = Seq::new(
        fields.len(),
        |i: int| some_typed(model, model.target(fields[i].value), depth + 1),
    );
    let pieces = Seq::new(
        fields.len(),
        |i: int|
            fields[i].serialized_key@ + ": "@ + scaffold::node_draft(
                model,
                model.target(fields[i].value),
                depth + 1,
            ).text,
    );
    let parts = Seq::new(
        fields.len(),
        |i: int| Part::Pair(Ron::Word(fields[i].serialized_key@), values[i]),
    );
    assert forall|i: int| 0 <= i < fields.len() implies typed(
        model,
        #[trigger] values[i],
        model.target(fields[i].value),
        depth + 1,
    ) by {
        assert(reader::is_word(fields[i].serialized_key@));
        let v = lemma_node(model, model.target(fields[i].value), depth + 1);
        assert(typed(model, v, model.target(fields[i].value), depth + 1));
    }
    assert forall|i: int| 0 <= i < parts.len() implies reader::spells_part(
        #[trigger] pieces[i],
        parts[i],
    ) by {
        assert(typed(model, values[i], model.target(fields[i].value), depth + 1));
        let key = fields[i].serialized_key@;
        assert(reader::is_word(fields[i].serialized_key@));
        reader::lemma_word(key);
        reader::lemma_pair(
            key,
            Ron::Word(key),
            scaffold::node_draft(model, model.target(fields[i].value), depth + 1).text,
            values[i],
        );
    }
    assert forall|i: int| 0 <= i < parts.len() implies part_untouched(#[trigger] parts[i])
        && part_is_field(
        model,
        parts[i],
        fields[i].serialized_key@,
        model.target(fields[i].value),
        depth + 1,
    ) by {
        assert(typed(model, values[i], model.target(fields[i].value), depth + 1));
    }
    lemma_field_listing(model, fields, depth, values, pieces, parts, 0);
    reader::lemma_group('(', name, pieces, parts);
    let d = scaffold::struct_draft(model, fields, depth);
    assert(name + d.text =~= name + round_trip::enclosed('(', pieces, ')'));
    assert(d.holes.len() == scaffold::fields_draft(model, fields, depth, 0).holes.len());
    parts
}

proof fn lemma_field_listing(
    model: TypeModel,
    fields: Seq<Field>,
    depth: nat,
    values: Seq<Ron>,
    pieces: Seq<Seq<char>>,
    parts: Seq<Part>,
    from: nat,
)
    requires
        depth < MAX_DERIVE_DEPTH,
        values.len() == fields.len() == pieces.len() == parts.len(),
        forall|i: int|
            0 <= i < fields.len() ==> typed(
                model,
                #[trigger] values[i],
                model.target(fields[i].value),
                depth + 1,
            ),
        forall|i: int|
            0 <= i < fields.len() ==> #[trigger] pieces[i] == fields[i].serialized_key@ + ": "@
                + scaffold::node_draft(model, model.target(fields[i].value), depth + 1).text,
        forall|i: int|
            0 <= i < parts.len() ==> #[trigger] parts[i] == Part::Pair(
                Ron::Word(fields[i].serialized_key@),
                values[i],
            ),
    ensures
        scaffold::fields_draft(model, fields, depth, from).text == round_trip::listing(
            pieces,
            from,
        ),
        scaffold::fields_draft(model, fields, depth, from).holes.len() == part_marks(parts, from),
    decreases fields.len() - from,
{
    if from < fields.len() {
        lemma_field_listing(model, fields, depth, values, pieces, parts, from + 1);
        assert(typed(model, values[from as int], model.target(fields[from as int].value), depth + 1));
        let v = values[from as int];
        assert(parts[from as int] == Part::Pair(
            Ron::Word(fields[from as int].serialized_key@),
            v,
        ));
        let inner = scaffold::node_draft(model, model.target(fields[from as int].value), depth + 1);
        let piece = pieces[from as int];
        assert(piece == fields[from as int].serialized_key@ + ": "@ + inner.text);
        let d = scaffold::fields_draft(model, fields, depth, from);
        assert(d.text =~= scaffold::separator(from).text + piece + round_trip::listing(
            pieces,
            from + 1,
        ));
        assert(d.holes.len() == inner.holes.len() + scaffold::fields_draft(
            model,
            fields,
            depth,
            from + 1,
        ).holes.len());
    }
}

/// A derived document, read as RON, is a value of its type in which nothing is filled in,
/// on a line of its own. As many places are reported as it holds marks.
pub proof fn derived_documents_are_of_their_type(model: TypeModel, root_type: Seq<char>)
    requires
        names_are_words(model, model.find(root_type), 0),
    ensures
        reader::read(scaffold::scaffold_of(model, root_type).text) matches Some((v, rest)) && rest
            == seq!['\n'] && is_a(model, v, model.find(root_type), 0) && untouched(v) && marks(v)
            == scaffold::scaffold_of(model, root_type).holes.len(),
{
    let node = model.find(root_type);
    let d = scaffold::node_draft(model, node, 0);
    let v = lemma_node(model, node, 0);
    let rest = seq!['\n'];
    assert(reader::ends(rest));
    assert(reader::read(d.text + rest) == Some((v, rest)));
    assert(scaffold::scaffold_of(model, root_type).text =~= d.text + rest);
    assert(scaffold::scaffold_of(model, root_type).holes.len() == d.holes.len());
}

} // verus!
