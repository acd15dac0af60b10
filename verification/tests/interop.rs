//! Conversion between RON and JSON, on documents read by a small RON reader.

use ronin_app::interop::anchors::{join_pointer, split_pointer};
use ronin_app::interop::comments::{Comment, CommentCarrier, CommentKind, CommentMode};
use ronin_app::interop::emit::{render_json, JsoncStyle};
use ronin_app::interop::json::{insert_entry, Entry, Json};
use ronin_app::interop::json_to_ron::{
    grammar_verify, json_to_ron, reconstruct, with_cross_check, JsonToRon, JsonToRonBinding,
    MAX_JSON_DEPTH,
};
use ronin_app::interop::jsonc::{has_inline_comments, parse_jsonc, JsoncError, MAX_TRACK_DEPTH};
use ronin_app::interop::loss::{
    build_loss_report, LossKind, LossRecovery, LossReport, LossyConstruct, PointerRangeIndex,
};
use ronin_app::interop::pointer::{
    decode_char, decode_raw_string, decode_string, pointer_to_range, projection_key_string,
    push_index, push_key, unescape, value_pointer_map, ValuePointer,
};
use ronin_app::interop::ron_to_json::{
    canonical_ron_literal, ron_to_json, Projection, RonToJson, RonToJsonBinding,
};
use ronin_app::interop::scaffold::{derive_scaffold, DeriveScaffold, UNKNOWN_SENTINEL};
use ronin_app::syntax::{
    Element, MapEntry, RonDocument, RonValue, Shape, StructField, SyntaxKind, TextRange, Token,
};
use ronin_app::types::{
    Discriminator, Field, NodeKind, Primitive, TypeModel, TypeNode, TypeRef, Variant, VariantShape,
};

// ---- A small RON reader ----------------------------------------------------

fn token_end(src: &str, at: usize) -> (SyntaxKind, usize) {
    let rest = &src[at..];
    let first = rest.chars().next().expect("a character");
    let ends = |f: fn(char) -> bool| at + rest.find(|c| !f(c)).unwrap_or(rest.len());
    if first.is_whitespace() {
        return (SyntaxKind::Whitespace, ends(char::is_whitespace));
    }
    if rest.starts_with("//") {
        return (
            SyntaxKind::LineComment,
            at + rest.find('\n').unwrap_or(rest.len()),
        );
    }
    if rest.starts_with("/*") {
        return (
            SyntaxKind::BlockComment,
            at + rest.find("*/").map_or(rest.len(), |i| i + 2),
        );
    }
    if rest.starts_with("r#\"") {
        return (
            SyntaxKind::RawString,
            at + rest.find("\"#").expect("a closing quote") + 2,
        );
    }
    if first == '"' || first == '\'' {
        let mut escaped = false;
        for (i, c) in rest.char_indices().skip(1) {
            if escaped {
                escaped = false;
            } else if c == '\\' {
                escaped = true;
            } else if c == first {
                let kind = if first == '"' {
                    SyntaxKind::String
                } else {
                    SyntaxKind::Char
                };
                return (kind, at + i + 1);
            }
        }
        return (SyntaxKind::LexError, src.len());
    }
    if first.is_ascii_digit() || first == '-' {
        let end = ends(|c| c.is_ascii_alphanumeric() || c == '.' || c == '-' || c == '_');
        let kind = if src[at..end].contains('.') {
            SyntaxKind::Float
        } else {
            SyntaxKind::Integer
        };
        return (kind, end);
    }
    if first.is_alphabetic() || first == '_' {
        let end = ends(|c| c.is_alphanumeric() || c == '_');
        let kind = match &src[at..end] {
            "true" => SyntaxKind::TrueKw,
            "false" => SyntaxKind::FalseKw,
            _ => SyntaxKind::Ident,
        };
        return (kind, end);
    }
    let kind = match first {
        '(' => SyntaxKind::LParen,
        ')' => SyntaxKind::RParen,
        '[' => SyntaxKind::LBracket,
        ']' => SyntaxKind::RBracket,
        '{' => SyntaxKind::LBrace,
        '}' => SyntaxKind::RBrace,
        ':' => SyntaxKind::Colon,
        ',' => SyntaxKind::Comma,
        _ => SyntaxKind::LexError,
    };
    (kind, at + first.len_utf8())
}

struct Reader<'a> {
    src: &'a str,
    tokens: Vec<(SyntaxKind, usize, usize)>,
    at: usize,
}

impl<'a> Reader<'a> {
    fn kind(&self, i: usize) -> Option<SyntaxKind> {
        self.tokens.get(i).map(|t| t.0)
    }

    fn skip_trivia(&self, mut i: usize) -> usize {
        while self.kind(i).is_some_and(|k| k.is_trivia()) {
            i += 1;
        }
        i
    }

    fn text(&self, i: usize) -> String {
        let (_, s, e) = self.tokens[i];
        self.src[s..e].to_string()
    }

    fn finish(&self, from: usize, layout: Vec<Element>, shape: Shape) -> RonValue {
        let range = TextRange::new(self.tokens[from].1, self.tokens[self.at - 1].2);
        RonValue {
            range,
            text: self.src[range.start..range.end].to_string(),
            layout,
            shape,
        }
    }

    fn take(&mut self, layout: &mut Vec<Element>) {
        let (kind, s, e) = self.tokens[self.at];
        layout.push(Element::Token {
            kind,
            range: TextRange::new(s, e),
        });
        self.at += 1;
    }

    fn take_until_value(&mut self, layout: &mut Vec<Element>) {
        while self
            .kind(self.at)
            .is_some_and(|k| k.is_trivia() || k == SyntaxKind::Comma)
        {
            self.take(layout);
        }
    }

    fn items(&mut self, layout: &mut Vec<Element>) -> Vec<RonValue> {
        let mut items = Vec::new();
        self.take_until_value(layout);
        while !self.kind(self.at).expect("a closing bracket").is_closing() {
            items.push(self.value());
            layout.push(Element::Node);
            self.take_until_value(layout);
        }
        self.take(layout);
        items
    }

    fn entries(&mut self, layout: &mut Vec<Element>) -> Vec<MapEntry> {
        let mut entries = Vec::new();
        self.take_until_value(layout);
        while !self.kind(self.at).expect("a closing bracket").is_closing() {
            let key = self.value();
            self.at = self.skip_trivia(self.at) + 1;
            self.at = self.skip_trivia(self.at);
            let value = self.value();
            entries.push(MapEntry {
                key: Some(key),
                value: Some(value),
            });
            layout.push(Element::Node);
            self.take_until_value(layout);
        }
        self.take(layout);
        entries
    }

    fn fields(&mut self, layout: &mut Vec<Element>) -> Vec<StructField> {
        let mut fields = Vec::new();
        self.take_until_value(layout);
        while !self.kind(self.at).expect("a closing bracket").is_closing() {
            let name = self.text(self.at);
            self.at = self.skip_trivia(self.at + 1) + 1;
            self.at = self.skip_trivia(self.at);
            let value = self.value();
            fields.push(StructField {
                name: Some(name),
                value: Some(value),
            });
            layout.push(Element::Node);
            self.take_until_value(layout);
        }
        self.take(layout);
        fields
    }

    fn parenthesised(&mut self, from: usize, name: Option<String>, mut layout: Vec<Element>) -> RonValue {
        self.take(&mut layout);
        let inner = self.skip_trivia(self.at);
        if self.kind(inner) == Some(SyntaxKind::RParen) && name.is_none() {
            while self.at <= inner {
                self.take(&mut layout);
            }
            return self.finish(from, layout, Shape::Unit);
        }
        let named = self.kind(inner) == Some(SyntaxKind::Ident)
            && self.kind(self.skip_trivia(inner + 1)) == Some(SyntaxKind::Colon);
        if named {
            let fields = self.fields(&mut layout);
            self.finish(from, layout, Shape::Struct { name, fields })
        } else {
            let items = self.items(&mut layout);
            self.finish(from, layout, Shape::Tuple { name, items })
        }
    }

    fn value(&mut self) -> RonValue {
        let from = self.at;
        let mut layout = Vec::new();
        match self.kind(from).expect("a value") {
            SyntaxKind::LParen => self.parenthesised(from, None, layout),
            SyntaxKind::LBracket => {
                self.take(&mut layout);
                let items = self.items(&mut layout);
                self.finish(from, layout, Shape::List { items })
            }
            SyntaxKind::LBrace => {
                self.take(&mut layout);
                let entries = self.entries(&mut layout);
                self.finish(from, layout, Shape::Dictionary { entries })
            }
            SyntaxKind::Ident => {
                let name = Some(self.text(from));
                self.take(&mut layout);
                if self.kind(self.at) == Some(SyntaxKind::LParen) {
                    return self.parenthesised(from, name, layout);
                }
                let brace = self.skip_trivia(self.at);
                if self.kind(brace) == Some(SyntaxKind::LBrace) {
                    while self.at <= brace {
                        self.take(&mut layout);
                    }
                    let entries = self.entries(&mut layout);
                    let items = Vec::new();
                    return self.finish(from, layout, Shape::EnumVariant { name, items, entries });
                }
                let (items, entries) = (Vec::new(), Vec::new());
                self.finish(from, layout, Shape::EnumVariant { name, items, entries })
            }
            kind => {
                let text = Some(self.text(from));
                self.take(&mut layout);
                self.finish(
                    from,
                    layout,
                    Shape::Literal {
                        kind: Some(kind),
                        text,
                    },
                )
            }
        }
    }
}

fn parse(src: &str) -> RonDocument {
    let mut tokens = Vec::new();
    let mut at = 0;
    while at < src.len() {
        let (kind, end) = token_end(src, at);
        tokens.push((kind, at, end));
        at = end;
    }
    let mut reader = Reader { src, tokens, at: 0 };
    reader.at = reader.skip_trivia(0);
    let root = if reader.at < reader.tokens.len() {
        Some(reader.value())
    } else {
        None
    };
    RonDocument {
        root,
        tokens: reader
            .tokens
            .iter()
            .map(|(kind, s, e)| Token {
                kind: *kind,
                range: TextRange::new(*s, *e),
                text: src[*s..*e].to_string(),
            })
            .collect(),
        source: src.to_string(),
    }
}

fn tagged(name: &str, payload: Json) -> Json {
    Json::Object(vec![Entry {
        key: name.to_string(),
        value: payload,
    }])
}

fn payload_of(items: &[RonValue], pointer: &str, keys: &mut Vec<(String, TextRange)>) -> Json {
    match items.len() {
        0 => Json::Null,
        1 => project(&items[0], pointer, keys),
        _ => array_of(items, pointer, keys),
    }
}

fn array_of(items: &[RonValue], pointer: &str, keys: &mut Vec<(String, TextRange)>) -> Json {
    Json::Array(
        items
            .iter()
            .enumerate()
            .map(|(i, v)| project(v, &push_index(pointer, i), keys))
            .collect(),
    )
}

fn object_of(entries: &[MapEntry], pointer: &str, keys: &mut Vec<(String, TextRange)>) -> Json {
    let mut out = Vec::new();
    for entry in entries {
        let key = entry.key.as_ref().expect("a key");
        let name = projection_key_string(key);
        let under = push_key(pointer, &name);
        keys.push((under.clone(), key.range));
        let value = project(entry.value.as_ref().expect("a value"), &under, keys);
        insert_entry(&mut out, name, value);
    }
    Json::Object(out)
}

fn project(value: &RonValue, pointer: &str, keys: &mut Vec<(String, TextRange)>) -> Json {
    match &value.shape {
        Shape::Unit | Shape::Error => Json::Null,
        Shape::Literal { kind, text } => {
            let text = text.clone().expect("a token");
            match kind.expect("a kind") {
                SyntaxKind::TrueKw => Json::Bool(true),
                SyntaxKind::FalseKw => Json::Bool(false),
                SyntaxKind::String => Json::Str(decode_string(&text)),
                SyntaxKind::RawString => Json::Str(decode_raw_string(&text)),
                SyntaxKind::Char => Json::Str(decode_char(&text)),
                _ => Json::Number(text),
            }
        }
        Shape::List { items } => array_of(items, pointer, keys),
        Shape::Tuple { name: None, items } => array_of(items, pointer, keys),
        Shape::Tuple {
            name: Some(name),
            items,
        } => {
            if name == "Some" {
                project(&items[0], pointer, keys)
            } else {
                let under = push_key(pointer, name);
                tagged(name, payload_of(items, &under, keys))
            }
        }
        Shape::Struct { fields, .. } => {
            let mut out = Vec::new();
            for field in fields {
                let name = field.name.clone().expect("a name");
                let under = push_key(pointer, &name);
                let value = project(field.value.as_ref().expect("a value"), &under, keys);
                insert_entry(&mut out, name, value);
            }
            Json::Object(out)
        }
        Shape::Dictionary { entries } => object_of(entries, pointer, keys),
        Shape::EnumVariant {
            name,
            items,
            entries,
        } => {
            let name = name.clone().expect("a name");
            if name == "None" {
                return Json::Null;
            }
            let under = push_key(pointer, &name);
            if !entries.is_empty() {
                return tagged(&name, object_of(entries, &under, keys));
            }
            tagged(&name, payload_of(items, &under, keys))
        }
    }
}

fn projection(doc: &RonDocument) -> Projection {
    let mut keys = Vec::new();
    let instance = match &doc.root {
        Some(root) => project(root, "", &mut keys),
        None => Json::Null,
    };
    let values = value_pointer_map(doc)
        .into_iter()
        .map(|(range, pointer)| (pointer, range))
        .collect();
    Projection {
        instance,
        index: PointerRangeIndex { values, keys },
    }
}

fn convert_with(src: &str, binding: Option<RonToJsonBinding<'_>>, mode: CommentMode) -> RonToJson {
    let doc = parse(src);
    ron_to_json(&doc, &projection(&doc), binding, mode)
}

fn convert(src: &str) -> RonToJson {
    convert_with(src, None, CommentMode::JsoncInline)
}

fn json(text: &str) -> Json {
    parse_jsonc(text).expect("valid JSON").value
}

fn same(a: &Json, b: &Json) -> bool {
    format!("{a:?}") == format!("{b:?}")
}

fn get<'a>(value: &'a Json, key: &str) -> Option<&'a Json> {
    match value {
        Json::Object(entries) => entries.iter().find(|e| e.key == key).map(|e| &e.value),
        other => panic!("expected an object, got {other:?}"),
    }
}

fn unbound(text: &str) -> JsonToRon {
    json_to_ron(&json(text), None, None)
}

fn field(key: &str, node: TypeNode) -> Field {
    Field {
        serialized_key: key.to_string(),
        value: TypeRef::inline(node),
        optional: false,
        flatten: false,
    }
}

fn object(fields: Vec<Field>) -> TypeNode {
    TypeNode::new(NodeKind::Object {
        fields,
        deny_unknown_fields: false,
    })
}

fn variant(name: &str, shape: VariantShape) -> Variant {
    Variant {
        serialized_name: name.to_string(),
        shape,
    }
}

fn integer() -> TypeNode {
    TypeNode::primitive(Primitive::Integer)
}

fn model_with(name: &str, node: TypeNode) -> TypeModel {
    let mut model = TypeModel::new();
    model.insert_named(name, node);
    model
}

// ---- Comments ----------------------------------------------------------------

fn carrier(src: &str, mode: CommentMode) -> CommentCarrier {
    CommentCarrier::from_document(&parse(src), mode)
}

#[test]
fn collects_line_and_block_comments_via_token_stream() {
    let src = "// leading\n(x: 1 /* inline */)";
    let c = carrier(src, CommentMode::JsoncInline);
    assert_eq!(c.len(), 2, "both the line and block comment are collected");
    assert_eq!(c.comments()[0].kind, CommentKind::Line);
    assert_eq!(c.comments()[0].text, "// leading");
    assert_eq!(c.comments()[1].kind, CommentKind::Block);
    assert_eq!(c.comments()[1].text, "/* inline */");
    assert!(!c.comments()[0].source_range.is_empty());
}

#[test]
fn comment_anchors_to_nearest_following_value() {
    let src = "(\n  // before x\n  x: 42,\n)";
    let c = carrier(src, CommentMode::JsoncInline);
    assert_eq!(c.len(), 1);
    assert_eq!(
        c.comments()[0].anchor_pointer, "/x",
        "the comment binds to the following value pointer /x"
    );
}

#[test]
fn trailing_comment_anchors_to_root() {
    let src = "(x: 1)\n// trailing dangling comment";
    let c = carrier(src, CommentMode::JsoncInline);
    assert_eq!(c.len(), 1);
    assert_eq!(
        c.comments()[0].anchor_pointer, "",
        "a comment after the last value anchors to the root pointer"
    );
}

#[test]
fn jsonc_emits_inline_but_not_sidecar() {
    let src = "// c\n(x: 1)";
    let c = carrier(src, CommentMode::JsoncInline);
    assert_eq!(c.carrier(), CommentMode::JsoncInline);
    assert_eq!(c.inline_comments().len(), 1, "JSONC emits inline comments");
    assert!(
        c.sidecar_map().is_empty(),
        "JSONC produces no sidecar (comments are inline)"
    );
    assert_eq!(c.dropped_count(), 0, "JSONC drops nothing");
}

#[test]
fn sidecar_emits_map_but_not_inline() {
    let src = "(\n  // about x\n  x: 1,\n  // about y\n  y: 2,\n)";
    let c = carrier(src, CommentMode::Sidecar);
    assert_eq!(c.carrier(), CommentMode::Sidecar);
    assert!(
        c.inline_comments().is_empty(),
        "the sidecar carrier emits no inline comments"
    );
    let map = c.sidecar_map();
    assert_eq!(map.len(), 2, "two anchored value pointers in the sidecar");
    assert_eq!(
        map.get("/x").map(Vec::as_slice),
        Some(["// about x".to_string()].as_slice())
    );
    assert_eq!(
        map.get("/y").map(Vec::as_slice),
        Some(["// about y".to_string()].as_slice())
    );
    assert_eq!(c.dropped_count(), 0, "the sidecar drops nothing");
}

#[test]
fn sidecar_groups_multiple_comments_under_one_pointer_in_order() {
    let src = "(\n  // first\n  // second\n  x: 1,\n)";
    let c = carrier(src, CommentMode::Sidecar);
    let map = c.sidecar_map();
    assert_eq!(
        map.get("/x").map(Vec::as_slice),
        Some(["// first".to_string(), "// second".to_string()].as_slice())
    );
}

#[test]
fn pure_json_drops_every_comment_and_reports_each() {
    let src = "// a\n(x: 1 /* b */)";
    let c = carrier(src, CommentMode::Dropped);
    assert_eq!(c.carrier(), CommentMode::Dropped);
    assert!(c.inline_comments().is_empty());
    assert!(c.sidecar_map().is_empty());
    assert_eq!(c.dropped_count(), 2);
    assert_eq!(c.dropped_comments().len(), 2);
}

#[test]
fn comment_free_document_has_empty_carrier() {
    let c = carrier("(x: 1)", CommentMode::JsoncInline);
    assert!(c.is_empty());
    assert_eq!(c.len(), 0);
    assert_eq!(c.dropped_count(), 0);
    assert!(c.dropped_comments().is_empty());
}

#[test]
fn mode_does_not_change_the_collected_list() {
    let src = "// c\n(x: 1)";
    let jsonc = carrier(src, CommentMode::JsoncInline);
    let sidecar = carrier(src, CommentMode::Sidecar);
    let none = carrier(src, CommentMode::Dropped);
    assert_eq!(jsonc.comments(), sidecar.comments());
    assert_eq!(sidecar.comments(), none.comments());
}

#[test]
fn comment_mode_labels_and_predicates() {
    assert_eq!(CommentMode::JsoncInline.as_str(), "jsonc-inline");
    assert_eq!(CommentMode::Sidecar.as_str(), "sidecar");
    assert_eq!(CommentMode::Dropped.as_str(), "none");
    assert!(CommentMode::JsoncInline.preserves_comments());
    assert!(CommentMode::Sidecar.preserves_comments());
    assert!(!CommentMode::Dropped.preserves_comments());
    assert_eq!(CommentKind::Line.as_str(), "line");
    assert_eq!(CommentKind::Block.as_str(), "block");
}

// ---- Rendering -----------------------------------------------------------------

#[test]
fn strict_json_has_no_comments_and_stable_indent() {
    let r = convert_with("// header\n(a: 1, b: [1, 2])", None, CommentMode::Dropped);
    let text = render_json(&r.value, &r.comments, 2, JsoncStyle::Strict);
    assert!(
        !text.contains("//"),
        "strict JSON carries no inline comments"
    );
    assert!(text.contains("\"a\": 1"));
    assert!(text.contains("\"b\": [\n"), "arrays pretty-print");
    let again = render_json(&r.value, &r.comments, 2, JsoncStyle::Strict);
    assert_eq!(text, again);
}

#[test]
fn an_indent_of_zero_is_a_single_space_per_level() {
    let none = CommentCarrier::empty(CommentMode::Dropped);
    let text = render_json(&json("{\"a\": 1}"), &none, 0, JsoncStyle::Strict);
    assert_eq!(text, "{\n \"a\": 1\n}\n");
    let nested = json("{\"a\": [true]}");
    let text = render_json(&nested, &none, 0, JsoncStyle::Strict);
    assert_eq!(text, "{\n \"a\": [\n  true\n ]\n}\n");
    assert_eq!(text, render_json(&nested, &none, 1, JsoncStyle::Strict));
}

#[test]
fn rendered_text_is_exact() {
    let r = convert("// header\n(\n  // about b\n  b: [1, \"é\\n\"],\n  a: true,\n)");
    let text = render_json(&r.value, &r.comments, 2, JsoncStyle::Jsonc);
    assert_eq!(
        text,
        "// header\n{\n  \"a\": true,\n  // about b\n  \"b\": [\n    1,\n    \"é\\n\"\n  ]\n}\n"
    );
}

#[test]
fn jsonc_emits_a_root_header_comment() {
    let r = convert("// header\n(a: 1)");
    let text = render_json(&r.value, &r.comments, 2, JsoncStyle::Jsonc);
    assert!(
        text.starts_with("// header\n{"),
        "root-anchored comment is a leading header line, got:\n{text}"
    );
}

#[test]
fn jsonc_emits_an_anchored_field_comment_before_its_value() {
    let r = convert("(\n  // about a\n  a: 1,\n)");
    let text = render_json(&r.value, &r.comments, 2, JsoncStyle::Jsonc);
    let about = text.find("// about a").expect("anchored comment present");
    let field = text.find("\"a\": 1").expect("the field is present");
    assert!(about < field, "the comment precedes its value");
}

#[test]
fn empty_collections_render_compactly() {
    let r = convert_with("(l: [], m: {})", None, CommentMode::Dropped);
    let text = render_json(&r.value, &r.comments, 2, JsoncStyle::Strict);
    assert!(text.contains("\"l\": []"));
    assert!(text.contains("\"m\": {}"));
}

#[test]
fn style_from_comment_mode() {
    assert_eq!(
        JsoncStyle::from_comment_mode(CommentMode::JsoncInline),
        JsoncStyle::Jsonc
    );
    assert_eq!(
        JsoncStyle::from_comment_mode(CommentMode::Sidecar),
        JsoncStyle::Strict
    );
    assert_eq!(
        JsoncStyle::from_comment_mode(CommentMode::Dropped),
        JsoncStyle::Strict
    );
}

// ---- JSON with comments -----------------------------------------------------------

#[test]
fn parses_plain_json_with_no_comments() {
    let doc = parse_jsonc("{ \"a\": 1, \"b\": [1, 2] }").expect("valid json");
    let expected = Json::Object(vec![
        Entry {
            key: "a".to_string(),
            value: Json::Number("1".to_string()),
        },
        Entry {
            key: "b".to_string(),
            value: Json::Array(vec![
                Json::Number("1".to_string()),
                Json::Number("2".to_string()),
            ]),
        },
    ]);
    assert!(same(&doc.value, &expected));
    assert!(doc.comments.is_empty());
}

#[test]
fn strips_line_comment_and_anchors_to_following_field() {
    let doc = parse_jsonc("{\n  // about a\n  \"a\": 1\n}").expect("valid jsonc");
    assert!(same(&doc.value, &json("{\"a\": 1}")));
    assert_eq!(doc.comments.len(), 1);
    assert_eq!(doc.comments[0].text, "// about a");
    assert_eq!(doc.comments[0].anchor_pointer, "/a");
    assert_eq!(doc.comments[0].kind, CommentKind::Line);
}

#[test]
fn strips_block_comment() {
    let doc = parse_jsonc("{ /* hdr */ \"a\": 1 }").expect("valid jsonc");
    assert!(same(&doc.value, &json("{\"a\": 1}")));
    assert_eq!(doc.comments.len(), 1);
    assert_eq!(doc.comments[0].kind, CommentKind::Block);
    assert_eq!(doc.comments[0].anchor_pointer, "/a");
}

#[test]
fn leading_header_comment_anchors_to_root() {
    let doc = parse_jsonc("// header\n{ \"a\": 1 }").expect("valid jsonc");
    assert_eq!(doc.comments[0].anchor_pointer, "");
}

#[test]
fn comment_marker_inside_string_is_not_a_comment() {
    let doc = parse_jsonc("{ \"url\": \"http://x\" }").expect("valid jsonc");
    assert!(same(&doc.value, &json("{\"url\": \"http://x\"}")));
    assert!(doc.comments.is_empty(), "no comment inside the string");
}

#[test]
fn invalid_json_after_stripping_errors() {
    assert!(matches!(
        parse_jsonc("{ \"a\": }"),
        Err(JsoncError::InvalidJson(_))
    ));
}

#[test]
fn array_element_comment_anchors_to_index() {
    let doc = parse_jsonc("[\n  1,\n  // second\n  2\n]").expect("valid jsonc");
    assert!(same(&doc.value, &json("[1, 2]")));
    assert_eq!(doc.comments.len(), 1);
    assert_eq!(doc.comments[0].anchor_pointer, "/1");
}

#[test]
fn deeply_nested_jsonc_does_not_panic() {
    let mut s = String::new();
    for _ in 0..(MAX_TRACK_DEPTH + 50) {
        s.push('[');
    }
    s.push('0');
    for _ in 0..(MAX_TRACK_DEPTH + 50) {
        s.push(']');
    }
    let _ = parse_jsonc(&s);
    assert!(!has_inline_comments(&s));
}

#[test]
fn text_outside_ascii_survives_stripping() {
    let doc = parse_jsonc("{ /* ü */ \"é\": \"日本\" }").expect("valid jsonc");
    match get(&doc.value, "é") {
        Some(Json::Str(s)) => assert_eq!(s, "日本"),
        other => panic!("expected a string, got {other:?}"),
    }
    assert_eq!(doc.comments[0].anchor_pointer, "/é");
    assert!(has_inline_comments("/* ü */ 1"));
    let err = parse_jsonc("[1,]").expect_err("a trailing comma");
    assert!(err.message().contains("invalid JSON"), "{}", err.message());
}

// ---- JSON to RON -------------------------------------------------------------------

#[test]
fn best_effort_object_becomes_struct() {
    let r = unbound("{ \"name\": \"hero\", \"level\": 3 }");
    assert!(r.text.contains("name: \"hero\""), "got: {}", r.text);
    assert!(r.text.contains("level: 3"));
    assert!(grammar_verify(&r.text), "emitted RON parses");
}

#[test]
fn best_effort_array_becomes_list_with_ambiguity_note() {
    let r = unbound("{ \"pos\": [1, 2] }");
    assert!(r.text.contains("pos: [1, 2]"), "got: {}", r.text);
    assert!(
        r.notes.iter().any(|n| n.contains("could be a tuple")),
        "tuple-vs-list ambiguity is noted: {:?}",
        r.notes
    );
}

#[test]
fn bound_array_becomes_tuple_by_arity() {
    let mut model = TypeModel::new();
    model.insert_named(
        "Pos2",
        TypeNode::tuple(vec![
            TypeRef::inline(TypeNode::primitive(Primitive::Integer)),
            TypeRef::inline(TypeNode::primitive(Primitive::Integer)),
        ]),
    );
    model.insert_named(
        "Root",
        TypeNode::new(NodeKind::Object {
            fields: vec![Field {
                serialized_key: "pos".to_string(),
                value: TypeRef::named("Pos2"),
                optional: false,
                flatten: false,
            }],
            deny_unknown_fields: false,
        }),
    );
    let r = json_to_ron(
        &json("{ \"pos\": [1, 2] }"),
        Some(JsonToRonBinding::new(&model, "Root")),
        None,
    );
    assert!(
        r.text.contains("pos: (1, 2)"),
        "tuple by arity, got: {}",
        r.text
    );
}

#[test]
fn bound_char_and_option_and_unit() {
    let model = model_with(
        "Root",
        object(vec![
            field("c", TypeNode::char_()),
            Field {
                optional: true,
                ..field("maybe", TypeNode::option(TypeRef::inline(integer())))
            },
            field("u", TypeNode::unit()),
        ]),
    );
    let r = json_to_ron(
        &json("{ \"c\": \"x\", \"maybe\": null, \"u\": null }"),
        Some(JsonToRonBinding::new(&model, "Root")),
        None,
    );
    assert!(r.text.contains("c: 'x'"), "char, got: {}", r.text);
    assert!(
        r.text.contains("maybe: None"),
        "Option null → None, got: {}",
        r.text
    );
    assert!(r.text.contains("u: ()"), "unit, got: {}", r.text);
}

#[test]
fn bound_external_enum_variant() {
    let model = model_with(
        "State",
        TypeNode::new(NodeKind::Enum {
            variants: vec![variant(
                "Running",
                VariantShape::Newtype(TypeRef::inline(integer())),
            )],
            discriminator: Discriminator::External,
        }),
    );
    let r = json_to_ron(
        &json("{ \"Running\": 5 }"),
        Some(JsonToRonBinding::new(&model, "State")),
        None,
    );
    assert_eq!(r.text.trim(), "Running(5)", "external variant");
}

#[test]
fn bound_internal_enum_variant() {
    let model = model_with(
        "Shape",
        TypeNode::new(NodeKind::Enum {
            variants: vec![variant("Circle", VariantShape::Unit)],
            discriminator: Discriminator::Internal {
                tag: "type".to_string(),
            },
        }),
    );
    let r = json_to_ron(
        &json("{ \"type\": \"Circle\" }"),
        Some(JsonToRonBinding::new(&model, "Shape")),
        None,
    );
    assert_eq!(r.text.trim(), "Circle", "internal-tag unit variant");
}

#[test]
fn bound_non_string_key_map_reparses_typed_key() {
    let model = model_with(
        "Keyed",
        TypeNode::non_string_key_map(
            TypeRef::inline(integer()),
            TypeRef::inline(TypeNode::primitive(Primitive::String)),
        ),
    );
    let r = json_to_ron(
        &json("{ \"7\": \"x\" }"),
        Some(JsonToRonBinding::new(&model, "Keyed")),
        None,
    );
    assert!(
        r.text.contains("7: \"x\""),
        "typed int key, got: {}",
        r.text
    );
    assert!(
        !r.text.contains("\"7\":"),
        "the key is NOT a quoted string: {}",
        r.text
    );
}

#[test]
fn unbound_string_keys_stay_strings() {
    let r = unbound("{ \"k\": \"v\" }");
    assert!(grammar_verify(&r.text));
}

#[test]
fn keys_that_are_no_names_make_a_map() {
    let r = unbound("{ \"a b\": 1, \"c\": 2 }");
    assert_eq!(r.text, "{\"a b\": 1, \"c\": 2}\n");
    assert!(r.notes.iter().any(|n| n.contains("string-keyed RON map")));
}

#[test]
fn deeply_nested_input_degrades_safely() {
    let mut value = Json::Number("0".to_string());
    for _ in 0..(MAX_JSON_DEPTH + 50) {
        value = Json::Array(vec![value]);
    }
    let r = json_to_ron(&value, None, None);
    assert!(
        r.notes.iter().any(|n| n.contains("nesting depth limit")),
        "depth bound is noted: {:?}",
        r.notes
    );
    assert!(
        r.loss_report
            .constructs()
            .iter()
            .any(|c| c.kind() == LossKind::UnparseableRegion),
        "depth-exceeded region is a flagged placeholder loss"
    );
}

#[test]
fn comment_read_back_reattaches_at_anchor() {
    let ron = "(\n  // about x\n  x: 1,\n)";
    let carrier = carrier(ron, CommentMode::JsoncInline);
    let r = json_to_ron(&json("{ \"x\": 1 }"), None, Some(&carrier));
    let about = r.text.find("// about x");
    let field = r.text.find("x: 1");
    assert!(about.is_some(), "comment re-attached: {}", r.text);
    assert!(about < field, "comment precedes its value: {}", r.text);
}

#[test]
fn the_cross_check_is_noted() {
    let plain = reconstruct(&json("[true]"), None, None);
    let (text, notes) = (plain.text.clone(), plain.notes.len());
    let checked = with_cross_check(plain, false);
    assert_eq!(checked.text, text);
    assert_eq!(checked.notes.len(), notes + 1);
    let checked = with_cross_check(checked, true);
    assert_eq!(checked.notes.len(), notes + 1);
}

// ---- Losses ------------------------------------------------------------------------

fn range(start: usize, end: usize) -> TextRange {
    TextRange::new(start, end)
}

fn report_for(src: &str, bound: bool) -> LossReport {
    let doc = parse(src);
    let comments = CommentCarrier::from_document(&doc, CommentMode::JsoncInline);
    build_loss_report(&doc, &projection(&doc).index, &comments, bound)
}

fn kinds(report: &LossReport) -> Vec<LossKind> {
    report.constructs().iter().map(|c| c.kind()).collect()
}

fn first_of(report: &LossReport, kind: LossKind) -> &LossyConstruct {
    report
        .constructs()
        .iter()
        .find(|c| c.kind() == kind)
        .expect("a loss of this kind")
}

#[test]
fn every_kind_has_a_distinct_stable_ron_i_code() {
    for kind in LossKind::all() {
        let code = kind.code();
        assert!(
            code.starts_with("RON-I"),
            "kind {kind:?} code `{code}` must be in the RON-I#### namespace"
        );
        assert_eq!(code, kind.as_str(), "as_str must alias code for {kind:?}");
        assert_eq!(kind.source(), "ronin-interop");
        assert!(!kind.label().is_empty());
    }
    let mut codes: Vec<&str> = LossKind::all().iter().map(|k| k.code()).collect();
    codes.sort_unstable();
    codes.dedup();
    assert_eq!(
        codes.len(),
        LossKind::all().len(),
        "loss codes must be unique"
    );
    assert_eq!(LossKind::all().len(), 10, "there are ten lossy kinds");
}

#[test]
fn exact_codes_are_pinned() {
    assert_eq!(LossKind::StructName.code(), "RON-I0001");
    assert_eq!(LossKind::TupleVsList.code(), "RON-I0002");
    assert_eq!(LossKind::Char.code(), "RON-I0003");
    assert_eq!(LossKind::EnumTagging.code(), "RON-I0004");
    assert_eq!(LossKind::NonStringKey.code(), "RON-I0005");
    assert_eq!(LossKind::UnitVsNull.code(), "RON-I0006");
    assert_eq!(LossKind::RawString.code(), "RON-I0007");
    assert_eq!(LossKind::TrailingComma.code(), "RON-I0008");
    assert_eq!(LossKind::DroppedComment.code(), "RON-I0009");
    assert_eq!(LossKind::UnparseableRegion.code(), "RON-I0010");
}

#[test]
fn empty_report_needs_no_confirmation() {
    let report = LossReport::new();
    assert!(report.is_empty());
    assert!(!report.requires_confirmation());
    assert_eq!(report.len(), 0);
    assert!(report.counts_by_kind().is_empty());
}

#[test]
fn non_empty_report_requires_confirmation() {
    let mut report = LossReport::new();
    report.push(LossyConstruct::new(
        LossKind::TupleVsList,
        range(3, 9),
        LossRecovery::RoundTripSafeWithinRonin,
    ));
    assert!(!report.is_empty());
    assert!(report.requires_confirmation());
    assert_eq!(report.len(), 1);
}

#[test]
fn recovery_flag_is_distinct_from_being_reported() {
    let mut report = LossReport::new();
    report.push(LossyConstruct::new(
        LossKind::TupleVsList,
        range(0, 4),
        LossRecovery::RoundTripSafeWithinRonin,
    ));
    report.push(LossyConstruct::new(
        LossKind::DroppedComment,
        range(10, 20),
        LossRecovery::LossyToExternal,
    ));
    assert_eq!(report.len(), 2, "both are listed regardless of recovery");
    assert!(report.constructs()[0].recovery().is_round_trip_safe());
    assert!(!report.constructs()[1].recovery().is_round_trip_safe());
    assert_eq!(
        report.constructs()[0].recovery().as_str(),
        "round-trip-safe-within-ronin"
    );
    assert_eq!(
        report.constructs()[1].recovery().as_str(),
        "lossy-to-external"
    );
}

#[test]
fn counts_by_kind_aggregates_the_one_list() {
    let mut report = LossReport::new();
    report.push(LossyConstruct::new(
        LossKind::TupleVsList,
        range(0, 4),
        LossRecovery::RoundTripSafeWithinRonin,
    ));
    report.push(LossyConstruct::new(
        LossKind::TupleVsList,
        range(5, 9),
        LossRecovery::RoundTripSafeWithinRonin,
    ));
    report.push(LossyConstruct::new(
        LossKind::Char,
        range(11, 14),
        LossRecovery::RoundTripSafeWithinRonin,
    ));
    let counts = report.counts_by_kind();
    let count = |kind: LossKind| counts.iter().find(|(k, _)| *k == kind).map(|(_, n)| *n);
    assert_eq!(count(LossKind::TupleVsList), Some(2));
    assert_eq!(count(LossKind::Char), Some(1));
    assert_eq!(count(LossKind::DroppedComment), None);
    assert_eq!(report.count_of(LossKind::TupleVsList), 2);
    assert_eq!(report.count_of(LossKind::UnitVsNull), 0);
}

#[test]
fn detail_and_source_range_are_carried() {
    let c = LossyConstruct::with_detail(
        LossKind::Char,
        range(7, 10),
        LossRecovery::RoundTripSafeWithinRonin,
        "char → string",
    );
    assert_eq!(c.kind(), LossKind::Char);
    assert_eq!(c.code(), "RON-I0003");
    assert_eq!(c.source_range(), range(7, 10));
    assert_eq!(c.detail(), Some("char → string"));
    let plain = LossyConstruct::new(LossKind::Char, range(7, 10), LossRecovery::LossyToExternal);
    assert_eq!(plain.detail(), None);
}

#[test]
fn from_constructs_preserves_order() {
    let constructs = vec![
        LossyConstruct::new(LossKind::Char, range(0, 3), LossRecovery::LossyToExternal),
        LossyConstruct::new(
            LossKind::TupleVsList,
            range(4, 8),
            LossRecovery::LossyToExternal,
        ),
    ];
    let report = LossReport::from_constructs(constructs);
    assert_eq!(report.len(), 2);
    assert_eq!(report.constructs()[0].kind(), LossKind::Char);
    assert_eq!(report.constructs()[1].kind(), LossKind::TupleVsList);
}

#[test]
fn detects_named_struct_name_loss() {
    let r = report_for("Player(hp: 10)", false);
    assert_eq!(r.count_of(LossKind::StructName), 1);
    let c = first_of(&r, LossKind::StructName);
    assert_eq!(c.recovery(), LossRecovery::LossyToExternal);
    assert!(!c.source_range().is_empty());
}

#[test]
fn anonymous_struct_has_no_struct_name_loss() {
    let r = report_for("(hp: 10)", false);
    assert_eq!(r.count_of(LossKind::StructName), 0);
}

#[test]
fn detects_tuple_char_unit_with_correct_recovery() {
    let unbound = report_for("(t: (1, 2), c: 'x', u: ())", false);
    assert_eq!(unbound.count_of(LossKind::TupleVsList), 1);
    assert_eq!(unbound.count_of(LossKind::Char), 1);
    assert_eq!(unbound.count_of(LossKind::UnitVsNull), 1);
    let tuple = first_of(&unbound, LossKind::TupleVsList);
    assert_eq!(tuple.recovery(), LossRecovery::LossyToExternal);

    let bound = report_for("(t: (1, 2), c: 'x', u: ())", true);
    let tuple = first_of(&bound, LossKind::TupleVsList);
    assert_eq!(tuple.recovery(), LossRecovery::RoundTripSafeWithinRonin);
    let chr = first_of(&bound, LossKind::Char);
    assert_eq!(chr.recovery(), LossRecovery::RoundTripSafeWithinRonin);
    let unit = first_of(&bound, LossKind::UnitVsNull);
    assert_eq!(unit.recovery(), LossRecovery::LossyToExternal);
}

#[test]
fn detects_enum_tagging_and_non_string_key() {
    let r = report_for("(state: Running, m: { 1: \"a\" })", true);
    assert_eq!(r.count_of(LossKind::EnumTagging), 1);
    assert_eq!(r.count_of(LossKind::NonStringKey), 1);
    let nsk = first_of(&r, LossKind::NonStringKey);
    assert_eq!(nsk.recovery(), LossRecovery::RoundTripSafeWithinRonin);
    assert!(!nsk.source_range().is_empty());
}

#[test]
fn detects_raw_string_loss() {
    let r = report_for("(s: r#\"raw\"#)", false);
    assert_eq!(r.count_of(LossKind::RawString), 1);
    let c = first_of(&r, LossKind::RawString);
    assert_eq!(c.recovery(), LossRecovery::LossyToExternal);
}

#[test]
fn detects_trailing_comma_loss() {
    let r = report_for("[1, 2,]", false);
    assert_eq!(r.count_of(LossKind::TrailingComma), 1);
    let c = first_of(&r, LossKind::TrailingComma);
    assert_eq!(c.source_range().end - c.source_range().start, 1);
}

#[test]
fn no_trailing_comma_when_absent() {
    let r = report_for("[1, 2]", false);
    assert_eq!(r.count_of(LossKind::TrailingComma), 0);
}

#[test]
fn dropped_comments_are_losses_only_in_pure_json() {
    let doc = parse("// c\n(x: 1)");
    let index = projection(&doc).index;
    let jsonc = CommentCarrier::from_document(&doc, CommentMode::JsoncInline);
    let r = build_loss_report(&doc, &index, &jsonc, false);
    assert_eq!(r.count_of(LossKind::DroppedComment), 0);
    let none = CommentCarrier::from_document(&doc, CommentMode::Dropped);
    let r = build_loss_report(&doc, &index, &none, false);
    assert_eq!(r.count_of(LossKind::DroppedComment), 1);
    let c = first_of(&r, LossKind::DroppedComment);
    assert_eq!(c.recovery(), LossRecovery::LossyToExternal);
}

#[test]
fn round_trip_safe_document_has_empty_report() {
    let r = report_for("(n: 1, s: \"x\", l: [1, 2], m: {\"k\": 3})", false);
    assert!(
        r.is_empty(),
        "base-tier document reports no losses: {:?}",
        kinds(&r)
    );
    assert!(!r.requires_confirmation());
}

#[test]
fn every_loss_keeps_a_real_source_range() {
    let r = report_for(
        "Player(t: (1, 2), c: 'x', u: (), s: r#\"r\"#, m: { 1: \"a\", }, e: Running)",
        false,
    );
    assert!(!r.is_empty());
    for c in r.constructs() {
        assert!(
            !c.source_range().is_empty(),
            "{:?} has an empty span",
            c.kind()
        );
    }
}

// ---- Pointers -----------------------------------------------------------------------

fn pointers(src: &str) -> Vec<String> {
    value_pointer_map(&parse(src))
        .into_iter()
        .map(|(_, p)| p)
        .collect()
}

#[test]
fn struct_field_pointers_match_projection() {
    let ps = pointers("(x: 1, y: 2)");
    assert!(ps.contains(&"".to_string()), "root pointer present");
    assert!(ps.contains(&"/x".to_string()));
    assert!(ps.contains(&"/y".to_string()));
}

#[test]
fn list_uses_array_indices() {
    let ps = pointers("[10, 20, 30]");
    assert!(ps.contains(&"/0".to_string()));
    assert!(ps.contains(&"/1".to_string()));
    assert!(ps.contains(&"/2".to_string()));
}

#[test]
fn anonymous_tuple_uses_array_indices() {
    let ps = pointers("(1, 2)");
    assert!(ps.contains(&"/0".to_string()));
    assert!(ps.contains(&"/1".to_string()));
}

#[test]
fn some_unwraps_to_same_pointer() {
    let ps = pointers("(opt: Some(5))");
    assert!(ps.contains(&"/opt".to_string()));
    assert!(!ps.iter().any(|p| p.contains("Some")));
}

#[test]
fn named_enum_variant_external_tags() {
    let ps = pointers("(state: Active)");
    assert!(ps.contains(&"/state".to_string()));
}

#[test]
fn pointer_to_range_keeps_innermost_for_shared_pointer() {
    let doc = parse("(opt: Some(5))");
    let map = pointer_to_range(&doc);
    let opt = map.get("/opt").copied().expect("/opt mapped");
    let text = &doc.source[opt.start..opt.end];
    assert_eq!(text, "5", "the unwrapped Some inner value wins at /opt");
}

#[test]
fn pointer_segments_are_escaped() {
    assert_eq!(push_key("/a", "b/c~d"), "/a/b~1c~0d");
    assert_eq!(push_index("", 12), "/12");
    assert_eq!(unescape("\\n\\\"\\u{e9}"), "\n\"é");
    assert_eq!(decode_string("\"a\\tb\""), "a\tb");
    assert_eq!(decode_char("'\\''"), "'");
    assert_eq!(decode_raw_string("r#\"a\\b\"#"), "a\\b");
}

// ---- RON to JSON ---------------------------------------------------------------------

#[test]
fn tuple_maps_to_array_unit_to_null_char_to_string() {
    let r = convert("(t: (1, 2), u: (), c: 'x')");
    assert!(same(get(&r.value, "t").expect("t"), &json("[1, 2]")));
    assert!(matches!(get(&r.value, "u"), Some(Json::Null)));
    assert!(same(get(&r.value, "c").expect("c"), &json("\"x\"")));
}

#[test]
fn non_string_key_emitted_as_canonical_ron_literal() {
    let r = convert("{ (1,  2): \"a\", 3: \"b\" }");
    assert!(
        get(&r.value, "(1, 2)").is_some(),
        "tuple key canonicalized: {:?}",
        r.value
    );
    assert!(
        get(&r.value, "3").is_some(),
        "integer key kept as its literal"
    );
    assert!(
        get(&r.value, "(1,  2)").is_none(),
        "verbatim double-space key must NOT survive"
    );
}

#[test]
fn string_keys_are_unchanged() {
    let r = convert("{ \"name\": 1 }");
    assert!(same(get(&r.value, "name").expect("name"), &json("1")));
}

#[test]
fn enum_variant_external_tag_is_the_unbound_default() {
    let r = convert("(state: Running(5))");
    assert!(same(
        get(&r.value, "state").expect("state"),
        &json("{ \"Running\": 5 }")
    ));
}

#[test]
fn bound_internal_tagging_rewrites_external_tag() {
    let model = model_with(
        "Shape",
        TypeNode::new(NodeKind::Enum {
            variants: vec![variant("Circle", VariantShape::Unit)],
            discriminator: Discriminator::Internal {
                tag: "type".to_string(),
            },
        }),
    );
    let r = convert_with(
        "Circle",
        Some(RonToJsonBinding::new(&model, "Shape")),
        CommentMode::JsoncInline,
    );
    assert!(same(&r.value, &json("{ \"type\": \"Circle\" }")));
}

#[test]
fn bound_adjacent_tagging_rewrites_external_tag() {
    let model = model_with(
        "Msg",
        TypeNode::new(NodeKind::Enum {
            variants: vec![variant(
                "Ping",
                VariantShape::Newtype(TypeRef::Inline(Box::new(TypeNode::primitive(
                    Primitive::Integer,
                )))),
            )],
            discriminator: Discriminator::Adjacent {
                tag: "t".to_string(),
                content: "c".to_string(),
            },
        }),
    );
    let r = convert_with(
        "Ping(7)",
        Some(RonToJsonBinding::new(&model, "Msg")),
        CommentMode::JsoncInline,
    );
    assert!(same(&r.value, &json("{ \"t\": \"Ping\", \"c\": 7 }")));
}

#[test]
fn loss_report_and_comments_are_attached() {
    let r = convert("// header\n(t: (1, 2), c: 'x')");
    assert!(r.loss_report.requires_confirmation());
    assert!(r.loss_report.count_of(LossKind::TupleVsList) >= 1);
    assert!(r.loss_report.count_of(LossKind::Char) >= 1);
    assert_eq!(r.comments.len(), 1);
    assert_eq!(r.comments.inline_comments().len(), 1);
}

#[test]
fn canonical_literal_normalizes_spacing() {
    let doc = parse("{ (1,  2): 1 }");
    match &doc.root.as_ref().expect("a root").shape {
        Shape::Dictionary { entries } => {
            let key = entries[0].key.as_ref().expect("a key");
            assert_eq!(canonical_ron_literal(key), "(1, 2)");
        }
        _ => panic!("expected a map"),
    }
}

#[test]
fn grammar_verify_accepts_canonical_key_literal() {
    assert!(grammar_verify("(1, 2)"));
    assert!(grammar_verify("'x'"));
    assert!(!grammar_verify("(1, 2"));
    assert!(ronin_app::interop::ron_to_json::grammar_verify("(1, 2)"));
    assert!(!ronin_app::interop::ron_to_json::grammar_verify("(1, 2"));
}

// ---- There and back -------------------------------------------------------------------

fn there_and_back(src: &str, model: Option<&TypeModel>) -> String {
    let r = convert_with(
        src,
        model.map(|m| RonToJsonBinding::new(m, "Root")),
        CommentMode::JsoncInline,
    );
    let text = render_json(&r.value, &r.comments, 2, JsoncStyle::Jsonc);
    let read = parse_jsonc(&text).expect("rendered JSON is read");
    let comments = CommentCarrier::from_comments(CommentMode::JsoncInline, read.comments);
    json_to_ron(
        &read.value,
        model.map(|m| JsonToRonBinding::new(m, "Root")),
        Some(&comments),
    )
    .text
}

#[test]
fn plain_values_come_back_without_a_type() {
    assert_eq!(
        there_and_back("(b: \"x\\\"y\", a: [1, 2.5, true], m: {\"k v\": 3})", None),
        "(a: [1, 2.5, true], b: \"x\\\"y\", m: {\"k v\": 3})\n"
    );
}

#[test]
fn typed_values_come_back_with_their_type() {
    let model = model_with(
        "Root",
        object(vec![
            field("c", TypeNode::char_()),
            field("some", TypeNode::option(TypeRef::inline(integer()))),
            field(
                "t",
                TypeNode::tuple(vec![
                    TypeRef::inline(integer()),
                    TypeRef::inline(TypeNode::char_()),
                ]),
            ),
            field("u", TypeNode::unit()),
            field(
                "v",
                TypeNode::new(NodeKind::Enum {
                    variants: vec![
                        variant("Off", VariantShape::Unit),
                        variant(
                            "On",
                            VariantShape::Tuple(vec![
                                TypeRef::inline(integer()),
                                TypeRef::inline(integer()),
                            ]),
                        ),
                    ],
                    discriminator: Discriminator::External,
                }),
            ),
        ]),
    );
    let src = "(c: 'x', some: Some(1), t: (2, 'y'), u: (), v: On(3, 4))";
    assert_eq!(there_and_back(src, Some(&model)), format!("{src}\n"));
}

#[test]
fn tagged_variants_come_back_at_the_root() {
    for discriminator in [
        Discriminator::External,
        Discriminator::Internal {
            tag: "type".to_string(),
        },
        Discriminator::Adjacent {
            tag: "t".to_string(),
            content: "c".to_string(),
        },
    ] {
        let model = model_with(
            "Root",
            TypeNode::new(NodeKind::Enum {
                variants: vec![
                    variant("Empty", VariantShape::Unit),
                    variant("Full", VariantShape::Struct(vec![field("x", integer())])),
                ],
                discriminator,
            }),
        );
        assert_eq!(there_and_back("Empty", Some(&model)), "Empty\n");
        let json = convert_with(
            "Full { \"x\": 1 }",
            Some(RonToJsonBinding::new(&model, "Root")),
            CommentMode::Dropped,
        );
        let back = json_to_ron(
            &json.value,
            Some(JsonToRonBinding::new(&model, "Root")),
            None,
        );
        assert_eq!(back.text, "Full(x: 1)\n");
    }
}

#[test]
fn typed_keys_come_back_with_their_type() {
    let model = model_with(
        "Root",
        TypeNode::non_string_key_map(
            TypeRef::inline(TypeNode::tuple(vec![
                TypeRef::inline(integer()),
                TypeRef::inline(integer()),
            ])),
            TypeRef::inline(TypeNode::primitive(Primitive::String)),
        ),
    );
    assert_eq!(
        there_and_back("{ (1,  2): \"a\", (3,4): \"b\" }", Some(&model)),
        "{(1, 2): \"a\", (3, 4): \"b\"}\n"
    );
}

fn moves(discriminator: Discriminator) -> TypeNode {
    TypeNode::new(NodeKind::Enum {
        variants: vec![
            variant("Stay", VariantShape::Unit),
            variant(
                "Move",
                VariantShape::Tuple(vec![
                    TypeRef::inline(integer()),
                    TypeRef::inline(integer()),
                ]),
            ),
            variant(
                "Then",
                VariantShape::Newtype(TypeRef::named("Step")),
            ),
        ],
        discriminator,
    })
}

fn adjacent() -> Discriminator {
    Discriminator::Adjacent {
        tag: "t".to_string(),
        content: "c".to_string(),
    }
}

fn steps(discriminator: Discriminator) -> TypeModel {
    let mut model = TypeModel::new();
    model.insert_named("Step", moves(discriminator));
    model.insert_named(
        "Root",
        TypeNode::new(NodeKind::Object {
            fields: vec![
                Field {
                    serialized_key: "all".to_string(),
                    value: TypeRef::inline(TypeNode::new(NodeKind::Sequence {
                        element: TypeRef::named("Step"),
                    })),
                    optional: false,
                    flatten: false,
                },
                Field {
                    serialized_key: "last".to_string(),
                    value: TypeRef::inline(TypeNode::option(TypeRef::named("Step"))),
                    optional: false,
                    flatten: false,
                },
                Field {
                    serialized_key: "m".to_string(),
                    value: TypeRef::named("Step"),
                    optional: false,
                    flatten: false,
                },
                Field {
                    serialized_key: "pair".to_string(),
                    value: TypeRef::inline(TypeNode::tuple(vec![
                        TypeRef::inline(integer()),
                        TypeRef::named("Step"),
                    ])),
                    optional: false,
                    flatten: false,
                },
                Field {
                    serialized_key: "table".to_string(),
                    value: TypeRef::inline(TypeNode::new(NodeKind::Dictionary {
                        key: TypeRef::inline(TypeNode::primitive(Primitive::String)),
                        value: TypeRef::named("Step"),
                    })),
                    optional: false,
                    flatten: false,
                },
            ],
            deny_unknown_fields: false,
        }),
    );
    model
}

const STEPS: &str = "(all: [Stay, Move(1, 2)], last: Some(Move(3, 4)), m: Then(Move(5, 6)), \
                     pair: (0, Move(7, 8)), table: {\"a\": Move(9, 10)})";

#[test]
fn variants_below_the_root_are_tagged_by_their_types() {
    let model = steps(adjacent());
    let r = convert_with(
        STEPS,
        Some(RonToJsonBinding::new(&model, "Root")),
        CommentMode::Dropped,
    );
    let expected = json(
        "{\"all\":[{\"t\":\"Stay\",\"c\":null},{\"t\":\"Move\",\"c\":[1,2]}],\
         \"last\":{\"t\":\"Move\",\"c\":[3,4]},\
         \"m\":{\"t\":\"Then\",\"c\":{\"t\":\"Move\",\"c\":[5,6]}},\
         \"pair\":[0,{\"t\":\"Move\",\"c\":[7,8]}],\
         \"table\":{\"a\":{\"t\":\"Move\",\"c\":[9,10]}}}",
    );
    assert!(same(&r.value, &expected), "got {:?}", r.value);
}

#[test]
fn variants_below_the_root_come_back() {
    for discriminator in [Discriminator::External, adjacent()] {
        let model = steps(discriminator);
        assert_eq!(there_and_back(STEPS, Some(&model)), format!("{STEPS}\n"));
    }
    let model = model_with("Root", object(vec![field("m", moves(adjacent()))]));
    assert_eq!(
        there_and_back("(m: Move(1, 2))", Some(&model)),
        "(m: Move(1, 2))\n"
    );
}

#[test]
fn internal_tags_below_the_root_come_back() {
    let internal = || Discriminator::Internal {
        tag: "type".to_string(),
    };
    let model = model_with(
        "Root",
        object(vec![field(
            "s",
            TypeNode::new(NodeKind::Sequence {
                element: TypeRef::inline(TypeNode::new(NodeKind::Enum {
                    variants: vec![
                        variant("Empty", VariantShape::Unit),
                        variant("Full", VariantShape::Struct(vec![field("x", integer())])),
                    ],
                    discriminator: internal(),
                })),
            }),
        )]),
    );
    let r = convert_with(
        "(s: [Empty, Full { \"x\": 1 }])",
        Some(RonToJsonBinding::new(&model, "Root")),
        CommentMode::Dropped,
    );
    let expected = json("{\"s\":[{\"type\":\"Empty\"},{\"type\":\"Full\",\"x\":1}]}");
    assert!(same(&r.value, &expected), "got {:?}", r.value);
    let back = json_to_ron(&r.value, Some(JsonToRonBinding::new(&model, "Root")), None);
    assert_eq!(back.text, "(s: [Empty, Full(x: 1)])\n");
}

fn goes(discriminator: Discriminator) -> TypeNode {
    TypeNode::new(NodeKind::Enum {
        variants: vec![
            variant("Stay", VariantShape::Unit),
            variant(
                "Go",
                VariantShape::Struct(vec![
                    field("x", integer()),
                    field("y", moves(adjacent())),
                ]),
            ),
            variant("At", VariantShape::Struct(vec![field("x", integer())])),
        ],
        discriminator,
    })
}

#[test]
fn struct_variants_come_back() {
    for discriminator in [
        Discriminator::External,
        Discriminator::Internal {
            tag: "type".to_string(),
        },
        adjacent(),
    ] {
        let model = model_with(
            "Root",
            object(vec![field(
                "s",
                TypeNode::new(NodeKind::Sequence {
                    element: TypeRef::inline(goes(discriminator)),
                }),
            )]),
        );
        let src = "(s: [Go(/* left */ x: 1, y: Move(2, /* three */ 3)), Stay, At(x: 4)])";
        assert_eq!(
            there_and_back(src, Some(&model)),
            "(s: [Go(/* left */ x: 1, y: Move(2, /* three */ 3)), Stay, At(x: 4)])\n"
        );
    }
    let model = model_with("Root", goes(adjacent()));
    let r = convert_with(
        "At(x: 1)",
        Some(RonToJsonBinding::new(&model, "Root")),
        CommentMode::Dropped,
    );
    let expected = json("{\"t\":\"At\",\"c\":{\"x\":1}}");
    assert!(same(&r.value, &expected), "got {:?}", r.value);
}

#[test]
fn named_structs_stay_objects() {
    let model = model_with("Root", object(vec![field("p", object(vec![field("x", integer())]))]));
    let r = convert_with(
        "Config(p: Point(x: 1))",
        Some(RonToJsonBinding::new(&model, "Root")),
        CommentMode::Dropped,
    );
    assert!(same(&r.value, &json("{\"p\":{\"x\":1}}")), "got {:?}", r.value);
}

#[test]
fn untagged_variants_below_the_root_are_their_payload() {
    let model = model_with("Root", object(vec![field("m", moves(Discriminator::Untagged))]));
    let r = convert_with(
        "(m: Move(1, 2))",
        Some(RonToJsonBinding::new(&model, "Root")),
        CommentMode::Dropped,
    );
    assert!(same(&r.value, &json("{\"m\":[1,2]}")), "got {:?}", r.value);
}

#[test]
fn keys_inside_a_variant_are_canonical() {
    let r = convert("Table({ (1,  2): 'x', (0,1): { (3,  4): 5 } })");
    let expected = json("{\"Table\":{\"(0, 1)\":{\"(3, 4)\":5},\"(1, 2)\":\"x\"}}");
    assert!(same(&r.value, &expected), "got {:?}", r.value);
}

#[test]
fn anchors_move_with_renamed_keys() {
    let r = convert("{ /* a */ 'x': /* b */ 1, (1,  2): [ /* c */ 2 ] }");
    let anchors: Vec<&str> = r
        .comments
        .comments()
        .iter()
        .map(|c| c.anchor_pointer.as_str())
        .collect();
    assert_eq!(anchors, vec!["/'x'", "/'x'", "/(1, 2)/0"]);
    let text = render_json(&r.value, &r.comments, 2, JsoncStyle::Jsonc);
    let read = parse_jsonc(&text).expect("rendered JSON is read");
    let found: Vec<(&str, &str)> = read
        .comments
        .iter()
        .map(|c| (c.text.as_str(), c.anchor_pointer.as_str()))
        .collect();
    assert_eq!(
        found,
        vec![
            ("/* a */", "/'x'"),
            ("/* b */", "/'x'"),
            ("/* c */", "/(1, 2)/0"),
        ]
    );
}

#[test]
fn anchors_move_with_tags() {
    let model = model_with("Root", object(vec![field("m", moves(adjacent()))]));
    let src = "(\n  // about m\n  m: Move(/* first */ 1, /* second */ 2),\n)";
    let r = convert_with(
        src,
        Some(RonToJsonBinding::new(&model, "Root")),
        CommentMode::JsoncInline,
    );
    let anchors: Vec<&str> = r
        .comments
        .comments()
        .iter()
        .map(|c| c.anchor_pointer.as_str())
        .collect();
    assert_eq!(anchors, vec!["/m", "/m/c/0", "/m/c/1"]);
    assert_eq!(
        there_and_back(src, Some(&model)),
        "(// about m\nm: Move(/* first */ 1, /* second */ 2))\n"
    );
}

#[test]
fn anchors_move_into_internal_and_untagged_variants() {
    let internal = model_with(
        "Root",
        TypeNode::new(NodeKind::Enum {
            variants: vec![variant(
                "Held",
                VariantShape::Newtype(TypeRef::inline(object(vec![field("x", integer())]))),
            )],
            discriminator: Discriminator::Internal {
                tag: "type".to_string(),
            },
        }),
    );
    let r = convert_with(
        "Held((x: /* one */ 1))",
        Some(RonToJsonBinding::new(&internal, "Root")),
        CommentMode::JsoncInline,
    );
    assert!(same(&r.value, &json("{\"type\":\"Held\",\"x\":1}")));
    assert_eq!(r.comments.comments()[0].anchor_pointer, "/x");
    let untagged = model_with("Root", moves(Discriminator::Untagged));
    let r = convert_with(
        "Move(1, /* two */ 2)",
        Some(RonToJsonBinding::new(&untagged, "Root")),
        CommentMode::JsoncInline,
    );
    assert!(same(&r.value, &json("[1,2]")));
    assert_eq!(r.comments.comments()[0].anchor_pointer, "/1");
}

#[test]
fn pointers_are_split_and_joined() {
    let path = split_pointer("/a~1b/0/~0x/");
    assert_eq!(path, vec!["a/b", "0", "~x", ""]);
    assert_eq!(join_pointer(&path), "/a~1b/0/~0x/");
    assert!(split_pointer("").is_empty());
    assert_eq!(join_pointer(&Vec::new()), "");
}

#[test]
fn inline_comments_are_read_back_with_their_form_and_anchor() {
    let comment = |text: &str, kind: CommentKind, anchor: &str| Comment {
        text: text.to_string(),
        kind,
        source_range: TextRange { start: 0, end: 0 },
        anchor_pointer: anchor.to_string(),
    };
    let written = vec![
        comment("// head", CommentKind::Line, ""),
        comment("/* two\n   lines */", CommentKind::Block, "/list/1/a~1b"),
        comment("// one", CommentKind::Line, "/list/1/a~1b"),
        comment("/* empty */", CommentKind::Block, "/none"),
        comment("/**/", CommentKind::Block, "/list"),
        comment("// gone", CommentKind::Line, "/nowhere"),
    ];
    let carrier = CommentCarrier::from_comments(CommentMode::JsoncInline, written);
    let value = json("{\"list\":[1,{\"a/b\":\"// no \\\" comment\"},[]],\"none\":{}}");
    for indent in [0, 2] {
        let text = render_json(&value, &carrier, indent, JsoncStyle::Jsonc);
        let read = parse_jsonc(&text).expect("rendered JSON is read");
        assert!(same(&read.value, &value));
        let found: Vec<(&str, CommentKind, &str)> = read
            .comments
            .iter()
            .map(|c| (c.text.as_str(), c.kind, c.anchor_pointer.as_str()))
            .collect();
        assert_eq!(
            found,
            vec![
                ("// head", CommentKind::Line, ""),
                ("/**/", CommentKind::Block, "/list"),
                ("/* two\n   lines */", CommentKind::Block, "/list/1/a~1b"),
                ("// one", CommentKind::Line, "/list/1/a~1b"),
                ("/* empty */", CommentKind::Block, "/none"),
            ]
        );
    }
}

#[test]
fn a_value_pointer_is_a_span_and_a_pointer() {
    let doc = parse("(x: 1)");
    let (range, pointer) = value_pointer_map(&doc).remove(1);
    let found = ValuePointer { range, pointer };
    let expected = ValuePointer {
        range: TextRange { start: 4, end: 5 },
        pointer: "/x".to_string(),
    };
    assert_eq!(found, expected.clone());
}

#[test]
fn comments_come_back_at_their_anchor() {
    assert_eq!(
        there_and_back("// head\n(\n  // about x\n  x: [\n    1,\n    /* two */ 2,\n  ],\n)", None),
        "// head\n(// about x\nx: [1, /* two */ 2])\n"
    );
}

// ---- Scaffolds --------------------------------------------------------------------------

fn assert_parses(scaffold: &DeriveScaffold) {
    assert!(
        grammar_verify(&scaffold.text),
        "scaffold must parse cleanly: {:?}",
        scaffold.text
    );
}

#[test]
fn struct_with_scalar_fields_uses_typed_placeholders() {
    let model = model_with(
        "Config",
        object(vec![
            field("count", TypeNode::primitive(Primitive::Integer)),
            field("ratio", TypeNode::primitive(Primitive::Number)),
            field("name", TypeNode::primitive(Primitive::String)),
            field("enabled", TypeNode::primitive(Primitive::Boolean)),
        ]),
    );
    let s = derive_scaffold(&model, "Config");
    assert_parses(&s);
    assert!(s.text.contains("count: 0"), "int → 0: {}", s.text);
    assert!(s.text.contains("ratio: 0.0"), "float → 0.0: {}", s.text);
    assert!(s.text.contains("name: \"\""), "string → \"\": {}", s.text);
    assert!(
        s.text.contains("enabled: false"),
        "bool → false: {}",
        s.text
    );
    assert!(s.fill_in_diagnostics.is_empty(), "no unknowns ⇒ no fill-in");
}

#[test]
fn collection_and_ron_kinds_use_fixed_placeholders() {
    let model = model_with(
        "Bag",
        object(vec![
            field(
                "list",
                TypeNode::new(NodeKind::Sequence {
                    element: TypeRef::inline(integer()),
                }),
            ),
            field(
                "pair",
                TypeNode::tuple(vec![
                    TypeRef::inline(integer()),
                    TypeRef::inline(TypeNode::primitive(Primitive::String)),
                ]),
            ),
            field("ch", TypeNode::char_()),
            field("maybe", TypeNode::option(TypeRef::inline(integer()))),
            field("u", TypeNode::unit()),
        ]),
    );
    let s = derive_scaffold(&model, "Bag");
    assert_parses(&s);
    assert!(s.text.contains("list: []"), "seq → []: {}", s.text);
    assert!(
        s.text.contains("pair: (0, \"\")"),
        "tuple arity-filled: {}",
        s.text
    );
    assert!(s.text.contains("ch: '\\0'"), "char → '\\0': {}", s.text);
    assert!(s.text.contains("maybe: None"), "Option → None: {}", s.text);
    assert!(s.text.contains("u: ()"), "unit → (): {}", s.text);
}

#[test]
fn enum_uses_first_declared_variant_with_payload() {
    let model = model_with(
        "State",
        TypeNode::new(NodeKind::Enum {
            variants: vec![
                variant("Idle", VariantShape::Unit),
                variant("Running", VariantShape::Newtype(TypeRef::inline(integer()))),
            ],
            discriminator: Discriminator::External,
        }),
    );
    let s = derive_scaffold(&model, "State");
    assert_parses(&s);
    assert_eq!(
        s.text.trim(),
        "Idle",
        "first-declared unit variant: {}",
        s.text
    );
}

#[test]
fn enum_first_variant_with_tuple_payload() {
    let model = model_with(
        "Shape",
        TypeNode::new(NodeKind::Enum {
            variants: vec![variant(
                "Rect",
                VariantShape::Tuple(vec![
                    TypeRef::inline(integer()),
                    TypeRef::inline(integer()),
                ]),
            )],
            discriminator: Discriminator::External,
        }),
    );
    let s = derive_scaffold(&model, "Shape");
    assert_parses(&s);
    assert_eq!(
        s.text.trim(),
        "Rect(0, 0)",
        "tuple-variant payload: {}",
        s.text
    );
}

#[test]
fn unknown_field_gets_sentinel_and_fill_in_diagnostic() {
    let model = model_with(
        "Partial",
        object(vec![
            field("known", integer()),
            field("mystery", TypeNode::unknown()),
        ]),
    );
    let s = derive_scaffold(&model, "Partial");
    assert_parses(&s);
    assert!(s.text.contains("known: 0"));
    assert!(
        s.text.contains(&format!("mystery: {UNKNOWN_SENTINEL}")),
        "unknown field → sentinel: {}",
        s.text
    );
    assert_eq!(s.fill_in_diagnostics.len(), 1);
    let c = &s.fill_in_diagnostics.constructs()[0];
    assert_eq!(c.kind(), LossKind::UnparseableRegion);
    assert_eq!(c.code(), "RON-I0010");
    let span = c.source_range();
    assert_eq!(
        &s.text[span.start..span.end], UNKNOWN_SENTINEL,
        "diagnostic anchors exactly on the sentinel"
    );
}

#[test]
fn unregistered_root_type_yields_a_fill_in_sentinel_scaffold() {
    let model = TypeModel::new();
    let s = derive_scaffold(&model, "NotRegistered");
    assert_parses(&s);
    assert_eq!(s.text.trim(), UNKNOWN_SENTINEL);
    assert_eq!(s.fill_in_diagnostics.len(), 1);
}

#[test]
fn recursive_type_is_bounded_and_parses() {
    let model = model_with(
        "Node",
        object(vec![field(
            "next",
            TypeNode::option(TypeRef::named("Node")),
        )]),
    );
    let s = derive_scaffold(&model, "Node");
    assert_parses(&s);
    assert!(
        s.text.contains("next: None"),
        "Option short-circuits: {}",
        s.text
    );
}

#[test]
fn deeply_recursive_newtype_is_depth_bounded() {
    let model = model_with(
        "Wrap",
        object(vec![Field {
            serialized_key: "inner".to_string(),
            value: TypeRef::named("Wrap"),
            optional: false,
            flatten: false,
        }]),
    );
    let s = derive_scaffold(&model, "Wrap");
    assert_parses(&s);
    assert!(
        !s.fill_in_diagnostics.is_empty(),
        "the depth-bounded cut records a fill-in placeholder"
    );
}

#[test]
fn derive_is_deterministic() {
    let model = model_with(
        "Pair",
        TypeNode::tuple(vec![
            TypeRef::inline(integer()),
            TypeRef::inline(TypeNode::unknown()),
        ]),
    );
    let a = derive_scaffold(&model, "Pair");
    let b = derive_scaffold(&model, "Pair");
    assert_eq!(a.text, b.text, "same (type, model) ⇒ identical scaffold");
    assert_eq!(
        a.fill_in_diagnostics.len(),
        b.fill_in_diagnostics.len(),
        "deterministic fill-in count"
    );
}
