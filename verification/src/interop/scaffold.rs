//! A first RON document for a type.
//!
//! Every type has a fixed placeholder, so that the document of a type is always the
//! same text:
//!
//! | type | placeholder |
//! |------|-------------|
//! | integer | `0` |
//! | number | `0.0` |
//! | string, bytes | `""` |
//! | boolean | `false` |
//! | null, option | `None` |
//! | character | `'\0'` |
//! | unit | `()` |
//! | sequence | `[]` |
//! | map | `{}` |
//! | tuple | the placeholders of its elements |
//! | struct | its fields with their placeholders |
//! | enum | its first variant with its placeholders |
//! | anything unknown | [`UNKNOWN_SENTINEL`] |
//!
//! Each place that has to be filled in by hand is reported with its span. A type that
//! contains itself is cut off at [`MAX_DERIVE_DEPTH`].

use vstd::prelude::*;

use crate::interop::loss::{self, Loss, LossKind, LossRecovery, LossReport, LossyConstruct};
use crate::syntax::TextRange;
use crate::text;
use crate::types::{
    Field, NodeKind, Primitive, RonKind, TypeModel, TypeNode, TypeRef, Variant, VariantShape,
};

verus! {

/// The placeholder for what has to be filled in by hand.
pub const UNKNOWN_SENTINEL: &'static str = "\"<FILL_IN>\"";

/// The nesting depth from which on placeholders are to be filled in by hand.
pub const MAX_DERIVE_DEPTH: usize = 64;

/// A piece of a document, and the byte ranges in it that have to be filled in.
pub struct Draft {
    pub text: Seq<char>,
    pub holes: Seq<(nat, nat)>,
}

/// Ranges moved by `offset` bytes.
pub open spec fn moved(holes: Seq<(nat, nat)>, offset: nat) -> Seq<(nat, nat)> {
    holes.map_values(|h: (nat, nat)| (h.0 + offset, h.1 + offset))
}

impl Draft {
    /// This piece followed by another.
    pub open spec fn followed_by(self, next: Draft) -> Draft {
        Draft {
            text: self.text + next.text,
            holes: self.holes + moved(next.holes, text::byte_len(self.text)),
        }
    }
}

/// A piece of fixed text.
pub open spec fn fixed(text: Seq<char>) -> Draft {
    Draft { text, holes: Seq::empty() }
}

/// A piece to be filled in.
pub open spec fn hole() -> Draft {
    Draft {
        text: UNKNOWN_SENTINEL@,
        holes: seq![(0nat, text::byte_len(UNKNOWN_SENTINEL@))],
    }
}

/// What separates position `i` from the one before.
pub open spec fn separator(i: nat) -> Draft {
    fixed(
        if i > 0 {
            ", "@
        } else {
            Seq::empty()
        },
    )
}

/// The placeholder of a scalar type.
pub open spec fn primitive_text(primitive: Primitive) -> Seq<char> {
    match primitive {
        Primitive::Boolean => "false"@,
        Primitive::Integer => "0"@,
        Primitive::Number => "0.0"@,
        Primitive::String => "\"\""@,
        Primitive::Null => "None"@,
    }
}

/// The placeholder of a type at nesting depth `depth`.
pub open spec fn node_draft(model: TypeModel, node: Option<TypeNode>, depth: nat) -> Draft
    decreases MAX_DERIVE_DEPTH + 1 - depth, 2nat, 0nat,
{
    if depth >= MAX_DERIVE_DEPTH {
        hole()
    } else {
        match node {
            None => hole(),
            Some(n) => match n.ron_kind {
                Some(RonKind::Char) => fixed("'\\0'"@),
                Some(RonKind::Unit) => fixed("()"@),
                Some(RonKind::Bytes) => fixed("\"\""@),
                _ => match n.kind {
                    NodeKind::Primitive { primitive } => fixed(primitive_text(primitive)),
                    NodeKind::Sequence { .. } => fixed("[]"@),
                    NodeKind::Dictionary { .. } => fixed("{}"@),
                    NodeKind::Optional { .. } => fixed("None"@),
                    NodeKind::Tuple { elements } => tuple_draft(model, elements@, depth),
                    NodeKind::Object { fields, .. } => struct_draft(model, fields@, depth),
                    NodeKind::Enum { variants, .. } => if variants@.len() == 0 {
                        hole()
                    } else {
                        let v = variants@[0];
                        fixed(v.serialized_name@).followed_by(
                            match v.shape {
                                VariantShape::Unit => fixed(Seq::empty()),
                                VariantShape::Newtype(inner) => fixed(seq!['(']).followed_by(
                                    node_draft(model, model.target(inner), depth + 1),
                                ).followed_by(fixed(seq![')'])),
                                VariantShape::Tuple(elements) => tuple_draft(
                                    model,
                                    elements@,
                                    depth,
                                ),
                                VariantShape::Struct(fields) => struct_draft(model, fields@, depth),
                            },
                        )
                    },
                    NodeKind::Unknown => hole(),
                },
            },
        }
    }
}

/// The placeholders of the elements, in parentheses.
pub open spec fn tuple_draft(model: TypeModel, elements: Seq<TypeRef>, depth: nat) -> Draft
    decreases MAX_DERIVE_DEPTH + 1 - depth, 1nat, elements.len() + 1,
{
    fixed(seq!['(']).followed_by(elements_draft(model, elements, depth, 0)).followed_by(
        fixed(seq![')']),
    )
}

/// The placeholders of the fields, in parentheses.
pub open spec fn struct_draft(model: TypeModel, fields: Seq<Field>, depth: nat) -> Draft
    decreases MAX_DERIVE_DEPTH + 1 - depth, 1nat, fields.len() + 1,
{
    fixed(seq!['(']).followed_by(fields_draft(model, fields, depth, 0)).followed_by(
        fixed(seq![')']),
    )
}

/// The placeholders of the elements from position `from` on.
pub open spec fn elements_draft(
    model: TypeModel,
    elements: Seq<TypeRef>,
    depth: nat,
    from: nat,
) -> Draft
    decreases MAX_DERIVE_DEPTH + 1 - depth, 1nat, elements.len() - from,
{
    if from >= elements.len() || depth >= MAX_DERIVE_DEPTH {
        fixed(Seq::empty())
    } else {
        separator(from).followed_by(
            node_draft(model, model.target(elements[from as int]), depth + 1),
        ).followed_by(elements_draft(model, elements, depth, from + 1))
    }
}

/// The fields from position `from` on with their placeholders.
pub open spec fn fields_draft(
    model: TypeModel,
    fields: Seq<Field>,
    depth: nat,
    from: nat,
) -> Draft
    decreases MAX_DERIVE_DEPTH + 1 - depth, 1nat, fields.len() - from,
{
    if from >= fields.len() || depth >= MAX_DERIVE_DEPTH {
        fixed(Seq::empty())
    } else {
        separator(from).followed_by(
            fixed(fields[from as int].serialized_key@ + ": "@),
        ).followed_by(
            node_draft(model, model.target(fields[from as int].value), depth + 1),
        ).followed_by(fields_draft(model, fields, depth, from + 1))
    }
}

/// The report on a place that has to be filled in.
pub open spec fn fill_in(range: (nat, nat)) -> Loss {
    loss::loss(
        LossKind::UnparseableRegion,
        TextRange { start: range.0 as usize, end: range.1 as usize },
        LossRecovery::LossyToExternal,
        "placeholder \u{2014} fill in (the field type is unknown/unresolved)"@,
    )
}

/// The reports on all places that have to be filled in.
pub open spec fn fill_ins(holes: Seq<(nat, nat)>) -> Seq<Loss> {
    holes.map_values(|h: (nat, nat)| fill_in(h))
}

/// The state of a document under construction.
pub struct Sheet {
    pub text: Seq<char>,
    pub reports: Seq<Loss>,
}

/// The state after one more piece.
pub open spec fn after(sheet: Sheet, piece: Draft) -> Sheet {
    Sheet {
        text: sheet.text + piece.text,
        reports: sheet.reports + fill_ins(moved(piece.holes, text::byte_len(sheet.text))),
    }
}

broadcast proof fn lemma_after_chain(sheet: Sheet, first: Draft, second: Draft)
    ensures
        #[trigger] after(sheet, first.followed_by(second)) == after(after(sheet, first), second),
{
    text::lemma_byte_len_concat(sheet.text, first.text);
    assert(sheet.text + (first.text + second.text) =~= sheet.text + first.text + second.text);
    assert(after(sheet, first.followed_by(second)).reports =~= after(
        after(sheet, first),
        second,
    ).reports);
}

broadcast proof fn lemma_after_fixed(sheet: Sheet, text: Seq<char>)
    ensures
        #[trigger] after(sheet, fixed(text)) == (Sheet { text: sheet.text + text, ..sheet }),
{
    assert(after(sheet, fixed(text)).reports =~= sheet.reports);
}

/// Builds a document.
struct Emitter<'a> {
    model: &'a TypeModel,
    out: String,
    diagnostics: LossReport,
}

impl<'a> Emitter<'a> {
    spec fn state(&self) -> Sheet {
        Sheet { text: self.out@, reports: self.diagnostics@ }
    }

    fn write(&mut self, text: &str)
        ensures
            final(self).state() == after(old(self).state(), fixed(text@)),
            final(self).model == old(self).model,
    {
        broadcast use lemma_after_fixed;

        self.out.push_str(text);
    }

    fn write_char(&mut self, c: char)
        ensures
            final(self).state() == after(old(self).state(), fixed(seq![c])),
            final(self).model == old(self).model,
    {
        broadcast use lemma_after_fixed;

        self.out.push(c);
        assert(self.out@ =~= old(self).out@ + seq![c]);
    }

    /// Writes a piece to be filled in, and reports it.
    fn emit_unknown_sentinel(&mut self)
        ensures
            final(self).state() == after(old(self).state(), hole()),
            final(self).model == old(self).model,
    {
        let start = self.out.as_str().as_bytes().len();
        self.out.push_str(UNKNOWN_SENTINEL);
        let end = self.out.as_str().as_bytes().len();
        self.diagnostics.push(
            LossyConstruct::with_detail(
                LossKind::UnparseableRegion,
                TextRange::new(start, end),
                LossRecovery::LossyToExternal,
                "placeholder \u{2014} fill in (the field type is unknown/unresolved)",
            ),
        );
        proof {
            text::lemma_byte_len_concat(old(self).out@, UNKNOWN_SENTINEL@);
            assert(self.state().reports =~= after(old(self).state(), hole()).reports);
        }
    }

    fn emit_primitive(&mut self, primitive: Primitive)
        ensures
            final(self).state() == after(old(self).state(), fixed(primitive_text(primitive))),
            final(self).model == old(self).model,
    {
        match primitive {
            Primitive::Boolean => self.write("false"),
            Primitive::Integer => self.write("0"),
            Primitive::Number => self.write("0.0"),
            Primitive::String => self.write("\"\""),
            Primitive::Null => self.write("None"),
        }
    }

    fn emit_node(&mut self, node: Option<&'a TypeNode>, depth: usize)
        requires
            depth <= MAX_DERIVE_DEPTH,
        ensures
            final(self).state() == after(
                old(self).state(),
                node_draft(
                    *old(self).model,
                    match node {
                        Some(n) => Some(*n),
                        None => None,
                    },
                    depth as nat,
                ),
            ),
            final(self).model == old(self).model,
        decreases MAX_DERIVE_DEPTH + 1 - depth, 2nat, 0nat,
    {
        broadcast use {lemma_after_chain, lemma_after_fixed};

        if depth >= MAX_DERIVE_DEPTH {
            self.emit_unknown_sentinel();
            return ;
        }
        let n = match node {
            Some(n) => n,
            None => {
                self.emit_unknown_sentinel();
                return ;
            },
        };
        match n.ron_kind {
            Some(RonKind::Char) => {
                self.write("'\\0'");
            },
            Some(RonKind::Unit) => {
                self.write("()");
            },
            Some(RonKind::Bytes) => {
                self.write("\"\"");
            },
            _ => match &n.kind {
                NodeKind::Primitive { primitive } => self.emit_primitive(*primitive),
                NodeKind::Sequence { .. } => self.write("[]"),
                NodeKind::Dictionary { .. } => self.write("{}"),
                NodeKind::Optional { .. } => self.write("None"),
                NodeKind::Tuple { elements } => self.emit_tuple(elements, depth),
                NodeKind::Object { fields, .. } => self.emit_struct(fields, depth),
                NodeKind::Enum { variants, .. } => self.emit_enum(variants, depth),
                NodeKind::Unknown => self.emit_unknown_sentinel(),
            },
        }
    }

    fn emit_tuple(&mut self, elements: &'a Vec<TypeRef>, depth: usize)
        requires
            depth < MAX_DERIVE_DEPTH,
        ensures
            final(self).state() == after(
                old(self).state(),
                tuple_draft(*old(self).model, elements@, depth as nat),
            ),
            final(self).model == old(self).model,
        decreases MAX_DERIVE_DEPTH + 1 - depth, 0nat, 0nat,
    {
        broadcast use {lemma_after_chain, lemma_after_fixed};

        self.write_char('(');
        let ghost start = self.state();
        let ghost model = *self.model;
        let mut i: usize = 0;
        while i < elements.len()
            invariant
                depth < MAX_DERIVE_DEPTH,
                i <= elements@.len(),
                model == *self.model,
                self.model == old(self).model,
                after(
                    self.state(),
                    elements_draft(model, elements@, depth as nat, i as nat),
                ) == after(start, elements_draft(model, elements@, depth as nat, 0)),
            decreases elements@.len() - i,
        {
            broadcast use {lemma_after_chain, lemma_after_fixed};

            let ghost before = self.state();
            if i > 0 {
                self.write(", ");
            }
            assert(self.state() == after(before, separator(i as nat))) by {
                assert(before.text + Seq::<char>::empty() =~= before.text);
            }
            let model = self.model;
            self.emit_node(model.resolve(&elements[i]), depth + 1);
            i += 1;
        }
        assert(self.state().text + Seq::<char>::empty() =~= self.state().text);
        self.write_char(')');
    }

    fn emit_struct(&mut self, fields: &'a Vec<Field>, depth: usize)
        requires
            depth < MAX_DERIVE_DEPTH,
        ensures
            final(self).state() == after(
                old(self).state(),
                struct_draft(*old(self).model, fields@, depth as nat),
            ),
            final(self).model == old(self).model,
        decreases MAX_DERIVE_DEPTH + 1 - depth, 0nat, 0nat,
    {
        broadcast use {lemma_after_chain, lemma_after_fixed};

        self.write_char('(');
        let ghost start = self.state();
        let ghost model = *self.model;
        let mut i: usize = 0;
        while i < fields.len()
            invariant
                depth < MAX_DERIVE_DEPTH,
                i <= fields@.len(),
                model == *self.model,
                self.model == old(self).model,
                after(self.state(), fields_draft(model, fields@, depth as nat, i as nat)) == after(
                    start,
                    fields_draft(model, fields@, depth as nat, 0),
                ),
            decreases fields@.len() - i,
        {
            broadcast use {lemma_after_chain, lemma_after_fixed};

            let ghost before = self.state();
            if i > 0 {
                self.write(", ");
            }
            assert(self.state() == after(before, separator(i as nat))) by {
                assert(before.text + Seq::<char>::empty() =~= before.text);
            }
            let mut label = fields[i].serialized_key.clone();
            label.push_str(": ");
            self.write(label.as_str());
            let model = self.model;
            self.emit_node(model.resolve(&fields[i].value), depth + 1);
            i += 1;
        }
        assert(self.state().text + Seq::<char>::empty() =~= self.state().text);
        self.write_char(')');
    }

    fn emit_enum(&mut self, variants: &'a Vec<Variant>, depth: usize)
        requires
            depth < MAX_DERIVE_DEPTH,
        ensures
            variants@.len() == 0 ==> final(self).state() == after(old(self).state(), hole()),
            variants@.len() > 0 ==> final(self).state() == after(
                old(self).state(),
                fixed(variants@[0].serialized_name@).followed_by(
                    match variants@[0].shape {
                        VariantShape::Unit => fixed(Seq::empty()),
                        VariantShape::Newtype(inner) => fixed(seq!['(']).followed_by(
                            node_draft(
                                *old(self).model,
                                old(self).model.target(inner),
                                (depth + 1) as nat,
                            ),
                        ).followed_by(fixed(seq![')'])),
                        VariantShape::Tuple(elements) => tuple_draft(
                            *old(self).model,
                            elements@,
                            depth as nat,
                        ),
                        VariantShape::Struct(fields) => struct_draft(
                            *old(self).model,
                            fields@,
                            depth as nat,
                        ),
                    },
                ),
            ),
            final(self).model == old(self).model,
        decreases MAX_DERIVE_DEPTH + 1 - depth, 1nat, 0nat,
    {
        broadcast use {lemma_after_chain, lemma_after_fixed};

        if variants.len() == 0 {
            self.emit_unknown_sentinel();
            return ;
        }
        let variant = &variants[0];
        self.write(variant.serialized_name.as_str());
        match &variant.shape {
            VariantShape::Unit => {
                assert(self.state().text + Seq::<char>::empty() =~= self.state().text);
            },
            VariantShape::Newtype(inner) => {
                self.write_char('(');
                let model = self.model;
                self.emit_node(model.resolve(inner), depth + 1);
                self.write_char(')');
            },
            VariantShape::Tuple(elements) => self.emit_tuple(elements, depth),
            VariantShape::Struct(fields) => self.emit_struct(fields, depth),
        }
    }
}

/// A first document for a type: its text, and the reports on what has to be filled in.
pub struct DeriveScaffold {
    pub text: String,
    pub fill_in_diagnostics: LossReport,
}

/// The document of the type called `root_type`.
pub open spec fn scaffold_of(model: TypeModel, root_type: Seq<char>) -> Draft {
    node_draft(model, model.find(root_type), 0).followed_by(fixed(seq!['\n']))
}

/// Derives a first document for the type called `root_type`. A type that is not
/// registered has to be filled in as a whole.
pub fn derive_scaffold(model: &TypeModel, root_type: &str) -> (r: DeriveScaffold)
    ensures
        r.text@ == scaffold_of(*model, root_type@).text,
        r.fill_in_diagnostics@ == fill_ins(scaffold_of(*model, root_type@).holes),
{
    broadcast use {lemma_after_chain, lemma_after_fixed};

    let mut emitter = Emitter { model, out: String::new(), diagnostics: LossReport::new() };
    let ghost start = emitter.state();
    emitter.emit_node(model.lookup(root_type), 0);
    emitter.write_char('\n');
    proof {
        let d = scaffold_of(*model, root_type@);
        assert(emitter.state() == after(start, d));
        assert(start.text + d.text =~= d.text);
        assert(text::byte_len(start.text) == 0);
        assert(moved(d.holes, 0) =~= d.holes);
        assert(start.reports + fill_ins(d.holes) =~= fill_ins(d.holes));
    }
    DeriveScaffold { text: emitter.out, fill_in_diagnostics: emitter.diagnostics }
}

/// Whether the ranges of a piece are exactly sentinels, one behind the other.
pub open spec fn marks_sentinels(d: Draft) -> bool {
    &&& forall|i: int|
        0 <= i < d.holes.len() ==> (#[trigger] d.holes[i]).0 <= d.holes[i].1 <= text::byte_len(
            d.text,
        ) && vstd::utf8::encode_utf8(d.text).subrange(d.holes[i].0 as int, d.holes[i].1 as int)
            == vstd::utf8::encode_utf8(UNKNOWN_SENTINEL@)
    &&& forall|i: int, j: int|
        0 <= i < j < d.holes.len() ==> (#[trigger] d.holes[i]).1 <= (#[trigger] d.holes[j]).0
}

proof fn lemma_marks_chain(a: Draft, b: Draft)
    requires
        marks_sentinels(a),
        marks_sentinels(b),
    ensures
        marks_sentinels(a.followed_by(b)),
{
    let d = a.followed_by(b);
    let ea = vstd::utf8::encode_utf8(a.text);
    let eb = vstd::utf8::encode_utf8(b.text);
    text::lemma_encode_concat(a.text, b.text);
    assert forall|i: int| 0 <= i < d.holes.len() implies (#[trigger] d.holes[i]).0 <= d.holes[i].1
        <= text::byte_len(d.text) && vstd::utf8::encode_utf8(d.text).subrange(
        d.holes[i].0 as int,
        d.holes[i].1 as int,
    ) == vstd::utf8::encode_utf8(UNKNOWN_SENTINEL@) by {
        if i < a.holes.len() {
            let h = a.holes[i];
            assert(d.holes[i] == h);
            assert((ea + eb).subrange(h.0 as int, h.1 as int) =~= ea.subrange(
                h.0 as int,
                h.1 as int,
            ));
        } else {
            let h = b.holes[i - a.holes.len()];
            assert(d.holes[i] == (h.0 + ea.len(), h.1 + ea.len()));
            assert((ea + eb).subrange(
                (h.0 + ea.len()) as int,
                (h.1 + ea.len()) as int,
            ) =~= eb.subrange(
                h.0 as int,
                h.1 as int,
            ));
        }
    }
    assert forall|i: int, j: int| 0 <= i < j < d.holes.len() implies (#[trigger] d.holes[i]).1
        <= (#[trigger] d.holes[j]).0 by {
        let n = a.holes.len() as int;
        if j < n {
            assert(d.holes[i] == a.holes[i] && d.holes[j] == a.holes[j]);
        } else {
            assert(d.holes[j].0 == b.holes[j - n].0 + ea.len());
            if i < n {
                assert(d.holes[i] == a.holes[i]);
            } else {
                assert(d.holes[i].1 == b.holes[i - n].1 + ea.len());
                assert(b.holes[i - n].1 <= b.holes[j - n].0);
            }
        }
    }
}

proof fn lemma_marks_hole()
    ensures
        marks_sentinels(hole()),
{
    let e = vstd::utf8::encode_utf8(UNKNOWN_SENTINEL@);
    assert(e.subrange(0, e.len() as int) =~= e);
}

proof fn lemma_marks_node(model: TypeModel, node: Option<TypeNode>, depth: nat)
    ensures
        marks_sentinels(node_draft(model, node, depth)),
    decreases MAX_DERIVE_DEPTH + 1 - depth, 2nat, 0nat,
{
    lemma_marks_hole();
    if depth < MAX_DERIVE_DEPTH && node is Some {
        let n = node->0;
        match n.kind {
            NodeKind::Tuple { elements } => lemma_marks_tuple(model, elements@, depth),
            NodeKind::Object { fields, .. } => lemma_marks_struct(model, fields@, depth),
            NodeKind::Enum { variants, .. } => {
                if variants@.len() > 0 {
                    let v = variants@[0];
                    let name = fixed(v.serialized_name@);
                    match v.shape {
                        VariantShape::Unit => lemma_marks_chain(name, fixed(Seq::empty())),
                        VariantShape::Newtype(inner) => {
                            let inside = node_draft(model, model.target(inner), depth + 1);
                            let open = fixed(seq!['(']);
                            let close = fixed(seq![')']);
                            lemma_marks_node(model, model.target(inner), depth + 1);
                            lemma_marks_chain(open, inside);
                            lemma_marks_chain(open.followed_by(inside), close);
                            lemma_marks_chain(name, open.followed_by(inside).followed_by(close));
                        },
                        VariantShape::Tuple(elements) => {
                            lemma_marks_tuple(model, elements@, depth);
                            lemma_marks_chain(name, tuple_draft(model, elements@, depth));
                        },
                        VariantShape::Struct(fields) => {
                            lemma_marks_struct(model, fields@, depth);
                            lemma_marks_chain(name, struct_draft(model, fields@, depth));
                        },
                    }
                }
            },
            _ => {},
        }
    }
}

proof fn lemma_marks_tuple(model: TypeModel, elements: Seq<TypeRef>, depth: nat)
    ensures
        marks_sentinels(tuple_draft(model, elements, depth)),
    decreases MAX_DERIVE_DEPTH + 1 - depth, 1nat, elements.len() + 1,
{
    let inside = elements_draft(model, elements, depth, 0);
    lemma_marks_elements(model, elements, depth, 0);
    lemma_marks_chain(fixed(seq!['(']), inside);
    lemma_marks_chain(fixed(seq!['(']).followed_by(inside), fixed(seq![')']));
}

proof fn lemma_marks_struct(model: TypeModel, fields: Seq<Field>, depth: nat)
    ensures
        marks_sentinels(struct_draft(model, fields, depth)),
    decreases MAX_DERIVE_DEPTH + 1 - depth, 1nat, fields.len() + 1,
{
    let inside = fields_draft(model, fields, depth, 0);
    lemma_marks_fields(model, fields, depth, 0);
    lemma_marks_chain(fixed(seq!['(']), inside);
    lemma_marks_chain(fixed(seq!['(']).followed_by(inside), fixed(seq![')']));
}

proof fn lemma_marks_elements(model: TypeModel, elements: Seq<TypeRef>, depth: nat, from: nat)
    ensures
        marks_sentinels(elements_draft(model, elements, depth, from)),
    decreases MAX_DERIVE_DEPTH + 1 - depth, 1nat, elements.len() - from,
{
    if from < elements.len() && depth < MAX_DERIVE_DEPTH {
        let inside = node_draft(model, model.target(elements[from as int]), depth + 1);
        let rest = elements_draft(model, elements, depth, from + 1);
        lemma_marks_node(model, model.target(elements[from as int]), depth + 1);
        lemma_marks_elements(model, elements, depth, from + 1);
        lemma_marks_chain(separator(from), inside);
        lemma_marks_chain(separator(from).followed_by(inside), rest);
    }
}

proof fn lemma_marks_fields(model: TypeModel, fields: Seq<Field>, depth: nat, from: nat)
    ensures
        marks_sentinels(fields_draft(model, fields, depth, from)),
    decreases MAX_DERIVE_DEPTH + 1 - depth, 1nat, fields.len() - from,
{
    if from < fields.len() && depth < MAX_DERIVE_DEPTH {
        let label = fixed(fields[from as int].serialized_key@ + ": "@);
        let inside = node_draft(model, model.target(fields[from as int].value), depth + 1);
        let rest = fields_draft(model, fields, depth, from + 1);
        lemma_marks_node(model, model.target(fields[from as int].value), depth + 1);
        lemma_marks_fields(model, fields, depth, from + 1);
        lemma_marks_chain(separator(from), label);
        lemma_marks_chain(separator(from).followed_by(label), inside);
        lemma_marks_chain(separator(from).followed_by(label).followed_by(inside), rest);
    }
}

/// Each reported range of a derived document covers exactly one sentinel, and they follow
/// one another.
pub proof fn fill_in_ranges_are_sentinels(model: TypeModel, root_type: Seq<char>)
    ensures
        marks_sentinels(scaffold_of(model, root_type)),
{
    lemma_marks_node(model, model.find(root_type), 0);
    lemma_marks_chain(node_draft(model, model.find(root_type), 0), fixed(seq!['\n']));
}

} // verus!
