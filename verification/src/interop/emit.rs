//! Rendering of JSON, with or without comments.

use vstd::prelude::*;

use crate::interop::comments::{self, Comment, CommentCarrier, CommentMode, CommentModel};
use crate::interop::json::{self, Entry, Json, JsonModel};
use crate::interop::pointer;
use crate::text;

verus! {

/// Whether comments are written.
#[derive(Clone, Copy, Debug, PartialEq, Eq, Structural)]
pub enum JsoncStyle {
    /// Standard JSON: no comments.
    Strict,
    /// JSON with comments, each on a line of its own before its value.
    Jsonc,
}

impl JsoncStyle {
    /// The style in which comments that travel this way are written.
    pub fn from_comment_mode(mode: CommentMode) -> (r: Self)
        ensures
            r is Jsonc <==> mode is JsoncInline,
    {
        match mode {
            CommentMode::JsoncInline => JsoncStyle::Jsonc,
            CommentMode::Sidecar | CommentMode::Dropped => JsoncStyle::Strict,
        }
    }
}

/// The comments anchored to `pointer` among the first `n`, each on a line of its own.
pub open spec fn comment_lines(
    comments: Seq<CommentModel>,
    pointer: Seq<char>,
    pad: Seq<char>,
    n: nat,
) -> Seq<char>
    decreases n,
{
    if n == 0 {
        Seq::empty()
    } else {
        let before = comment_lines(comments, pointer, pad, (n - 1) as nat);
        if comments[n - 1].anchor == pointer {
            before + pad + comments[n - 1].text + seq!['\n']
        } else {
            before
        }
    }
}

/// The lines of all comments anchored to `pointer`.
pub open spec fn lines_at(comments: Seq<CommentModel>, pointer: Seq<char>, pad: Seq<char>) -> Seq<
    char,
> {
    comment_lines(comments, pointer, pad, comments.len())
}

/// The text of a value at `pointer`. `pad` is the indentation of its line, `step` what
/// each level adds.
pub open spec fn rendered(
    value: JsonModel,
    comments: Seq<CommentModel>,
    pointer: Seq<char>,
    pad: Seq<char>,
    step: Seq<char>,
) -> Seq<char>
    decreases value, 0nat,
{
    match value {
        JsonModel::Null => "null"@,
        JsonModel::Bool(b) => if b {
            "true"@
        } else {
            "false"@
        },
        JsonModel::Number(n) => n,
        JsonModel::Str(s) => json::string_literal(s),
        JsonModel::Array(items) => if items.len() == 0 {
            "[]"@
        } else {
            "[\n"@ + rendered_items(items, comments, pointer, pad, step, 0) + pad + seq![']']
        },
        JsonModel::Object(entries) => if entries.len() == 0 {
            "{}"@
        } else {
            "{\n"@ + rendered_entries(entries, comments, pointer, pad, step, 0) + pad + seq!['}']
        },
    }
}

/// What ends the line of position `i` of `n`.
pub open spec fn line_end(i: nat, n: nat) -> Seq<char> {
    if i + 1 < n {
        ",\n"@
    } else {
        seq!['\n']
    }
}

/// The lines of the items from position `from` on.
pub open spec fn rendered_items(
    items: Seq<JsonModel>,
    comments: Seq<CommentModel>,
    pointer: Seq<char>,
    pad: Seq<char>,
    step: Seq<char>,
    from: nat,
) -> Seq<char>
    decreases items, items.len() - from,
{
    if from >= items.len() {
        Seq::empty()
    } else {
        let under = pointer::index_pointer(pointer, from);
        lines_at(comments, under, pad + step) + pad + step + rendered(
            items[from as int],
            comments,
            under,
            pad + step,
            step,
        ) + line_end(from, items.len()) + rendered_items(
            items,
            comments,
            pointer,
            pad,
            step,
            from + 1,
        )
    }
}

/// The lines of the properties from position `from` on.
pub open spec fn rendered_entries(
    entries: Seq<(Seq<char>, JsonModel)>,
    comments: Seq<CommentModel>,
    pointer: Seq<char>,
    pad: Seq<char>,
    step: Seq<char>,
    from: nat,
) -> Seq<char>
    decreases entries, entries.len() - from,
{
    if from >= entries.len() {
        Seq::empty()
    } else {
        let under = pointer::key_pointer(pointer, entries[from as int].0);
        lines_at(comments, under, pad + step) + pad + step + json::string_literal(
            entries[from as int].0,
        ) + ": "@ + rendered(
            entries[from as int].1,
            comments,
            under,
            pad + step,
            step,
        ) + line_end(from, entries.len()) + rendered_entries(
            entries,
            comments,
            pointer,
            pad,
            step,
            from + 1,
        )
    }
}

/// The comments that a style writes.
pub open spec fn written_comments(carrier: CommentCarrier, style: JsoncStyle) -> Seq<CommentModel> {
    if style is Jsonc {
        comments::models(carrier.inline())
    } else {
        Seq::empty()
    }
}

/// The indentation of one level: `indent` spaces, but at least one.
pub open spec fn step(indent: nat) -> Seq<char> {
    text::spaces(
        if indent == 0 {
            1
        } else {
            indent
        },
    )
}

/// The text of a whole document: the comments of the root, the value and a line end.
pub open spec fn document_text(
    value: JsonModel,
    comments: Seq<CommentModel>,
    indent: nat,
) -> Seq<char> {
    lines_at(comments, Seq::empty(), Seq::empty()) + rendered(
        value,
        comments,
        Seq::empty(),
        Seq::empty(),
        step(indent),
    ) + seq!['\n']
}

/// Strict output does not depend on the comments.
pub proof fn strict_output_ignores_comments(
    value: JsonModel,
    first: CommentCarrier,
    second: CommentCarrier,
    indent: nat,
)
    ensures
        document_text(value, written_comments(first, JsoncStyle::Strict), indent)
            == document_text(value, written_comments(second, JsoncStyle::Strict), indent),
{
}

/// Whether a value inside `value`, which stands at `pointer`, stands at `place`.
pub open spec fn stands_at(value: JsonModel, pointer: Seq<char>, place: Seq<char>) -> bool
    decreases value, 0nat,
{
    match value {
        JsonModel::Array(items) => item_stands_at(items, pointer, place, 0),
        JsonModel::Object(entries) => entry_stands_at(entries, pointer, place, 0),
        _ => false,
    }
}

/// Whether an item from position `from` on, or a value inside one, stands at `place`.
pub open spec fn item_stands_at(
    items: Seq<JsonModel>,
    pointer: Seq<char>,
    place: Seq<char>,
    from: nat,
) -> bool
    decreases items, items.len() - from,
{
    if from >= items.len() {
        false
    } else {
        let under = pointer::index_pointer(pointer, from);
        under == place || stands_at(items[from as int], under, place) || item_stands_at(
            items,
            pointer,
            place,
            from + 1,
        )
    }
}

/// Whether a property from position `from` on, or a value inside one, stands at `place`.
pub open spec fn entry_stands_at(
    entries: Seq<(Seq<char>, JsonModel)>,
    pointer: Seq<char>,
    place: Seq<char>,
    from: nat,
) -> bool
    decreases entries, entries.len() - from,
{
    if from >= entries.len() {
        false
    } else {
        let under = pointer::key_pointer(pointer, entries[from as int].0);
        under == place || stands_at(entries[from as int].1, under, place) || entry_stands_at(
            entries,
            pointer,
            place,
            from + 1,
        )
    }
}

proof fn lemma_line_is_written(comments: Seq<CommentModel>, pad: Seq<char>, n: nat, i: int)
    requires
        0 <= i < n <= comments.len(),
    ensures
        text::holds(comment_lines(comments, comments[i].anchor, pad, n), comments[i].text),
    decreases n,
{
    let before = comment_lines(comments, comments[i].anchor, pad, (n - 1) as nat);
    let c = comments[n - 1];
    if i == n - 1 {
        assert(before + pad + c.text + seq!['\n'] == ((before + pad) + c.text) + seq!['\n']);
    } else {
        lemma_line_is_written(comments, pad, (n - 1) as nat, i);
        if c.anchor == comments[i].anchor {
            text::lemma_holds(Seq::empty(), before, pad + c.text + seq!['\n'], comments[i].text);
            assert(before + pad + c.text + seq!['\n'] =~= before + (pad + c.text + seq!['\n']));
        }
    }
}

proof fn lemma_value_holds(
    value: JsonModel,
    comments: Seq<CommentModel>,
    pointer: Seq<char>,
    pad: Seq<char>,
    step: Seq<char>,
    i: int,
)
    requires
        0 <= i < comments.len(),
        stands_at(value, pointer, comments[i].anchor),
    ensures
        text::holds(rendered(value, comments, pointer, pad, step), comments[i].text),
    decreases value, 0nat,
{
    match value {
        JsonModel::Array(items) => {
            lemma_items_hold(items, comments, pointer, pad, step, 0, i);
            let inner = rendered_items(items, comments, pointer, pad, step, 0);
            text::lemma_holds("[\n"@, inner, pad + seq![']'], comments[i].text);
            assert("[\n"@ + inner + pad + seq![']'] =~= "[\n"@ + inner + (pad + seq![']']));
        },
        JsonModel::Object(entries) => {
            lemma_entries_hold(entries, comments, pointer, pad, step, 0, i);
            let inner = rendered_entries(entries, comments, pointer, pad, step, 0);
            text::lemma_holds("{\n"@, inner, pad + seq!['}'], comments[i].text);
            assert("{\n"@ + inner + pad + seq!['}'] =~= "{\n"@ + inner + (pad + seq!['}']));
        },
        _ => {},
    }
}

proof fn lemma_items_hold(
    items: Seq<JsonModel>,
    comments: Seq<CommentModel>,
    pointer: Seq<char>,
    pad: Seq<char>,
    step: Seq<char>,
    from: nat,
    i: int,
)
    requires
        0 <= i < comments.len(),
        item_stands_at(items, pointer, comments[i].anchor, from),
    ensures
        text::holds(
            rendered_items(items, comments, pointer, pad, step, from),
            comments[i].text,
        ),
    decreases items, items.len() - from,
{
    let part = comments[i].text;
    let under = pointer::index_pointer(pointer, from);
    let lines = lines_at(comments, under, pad + step);
    let value = rendered(items[from as int], comments, under, pad + step, step);
    let end = line_end(from, items.len());
    let rest = rendered_items(items, comments, pointer, pad, step, from + 1);
    let all = rendered_items(items, comments, pointer, pad, step, from);
    assert(all == lines + pad + step + value + end + rest);
    if under == comments[i].anchor {
        lemma_line_is_written(comments, pad + step, comments.len(), i);
        text::lemma_holds(Seq::empty(), lines, pad + step + value + end + rest, part);
        assert(all =~= lines + (pad + step + value + end + rest));
    } else if stands_at(items[from as int], under, comments[i].anchor) {
        lemma_value_holds(items[from as int], comments, under, pad + step, step, i);
        text::lemma_holds(lines + pad + step, value, end + rest, part);
        assert(all =~= lines + pad + step + value + (end + rest));
    } else {
        lemma_items_hold(items, comments, pointer, pad, step, from + 1, i);
        text::lemma_holds(lines + pad + step + value + end, rest, Seq::empty(), part);
    }
}

proof fn lemma_entries_hold(
    entries: Seq<(Seq<char>, JsonModel)>,
    comments: Seq<CommentModel>,
    pointer: Seq<char>,
    pad: Seq<char>,
    step: Seq<char>,
    from: nat,
    i: int,
)
    requires
        0 <= i < comments.len(),
        entry_stands_at(entries, pointer, comments[i].anchor, from),
    ensures
        text::holds(
            rendered_entries(entries, comments, pointer, pad, step, from),
            comments[i].text,
        ),
    decreases entries, entries.len() - from,
{
    let part = comments[i].text;
    let entry = entries[from as int];
    let under = pointer::key_pointer(pointer, entry.0);
    let lines = lines_at(comments, under, pad + step);
    let key = json::string_literal(entry.0) + ": "@;
    let value = rendered(entry.1, comments, under, pad + step, step);
    let end = line_end(from, entries.len());
    let rest = rendered_entries(entries, comments, pointer, pad, step, from + 1);
    let all = rendered_entries(entries, comments, pointer, pad, step, from);
    assert(decreases_to!(entries => entry));
    assert(all =~= lines + pad + step + key + value + end + rest);
    if under == comments[i].anchor {
        lemma_line_is_written(comments, pad + step, comments.len(), i);
        text::lemma_holds(Seq::empty(), lines, pad + step + key + value + end + rest, part);
        assert(all =~= lines + (pad + step + key + value + end + rest));
    } else if stands_at(entry.1, under, comments[i].anchor) {
        lemma_value_holds(entry.1, comments, under, pad + step, step, i);
        text::lemma_holds(lines + pad + step + key, value, end + rest, part);
        assert(all =~= lines + pad + step + key + value + (end + rest));
    } else {
        lemma_entries_hold(entries, comments, pointer, pad, step, from + 1, i);
        text::lemma_holds(lines + pad + step + key + value + end, rest, Seq::empty(), part);
    }
}

/// A comment that travels inline and is anchored to the document or to a value inside
/// it is written, word for word.
pub proof fn inline_comments_are_written(
    value: JsonModel,
    comments: Seq<CommentModel>,
    indent: nat,
    i: int,
)
    requires
        0 <= i < comments.len(),
        comments[i].anchor == Seq::<char>::empty() || stands_at(
            value,
            Seq::empty(),
            comments[i].anchor,
        ),
    ensures
        text::holds(document_text(value, comments, indent), comments[i].text),
{
    let lines = lines_at(comments, Seq::empty(), Seq::empty());
    let body = rendered(value, comments, Seq::empty(), Seq::empty(), step(indent));
    let all = document_text(value, comments, indent);
    if comments[i].anchor == Seq::<char>::empty() {
        lemma_line_is_written(comments, Seq::empty(), comments.len(), i);
        text::lemma_holds(Seq::empty(), lines, body + seq!['\n'], comments[i].text);
        assert(all =~= lines + (body + seq!['\n']));
    } else {
        lemma_value_holds(
            value,
            comments,
            Seq::empty(),
            Seq::empty(),
            step(indent),
            i,
        );
        text::lemma_holds(lines, body, seq!['\n'], comments[i].text);
    }
}

/// Writes JSON.
struct JsonWriter<'a> {
    comments: &'a [Comment],
    step: &'a str,
}

impl<'a> JsonWriter<'a> {
    /// Writes the comments anchored to `pointer`.
    fn emit_anchored_comments(&self, out: &mut String, pointer: &str, pad: &str)
        ensures
            final(out)@ == old(out)@ + lines_at(comments::models(self.comments@), pointer@, pad@),
    {
        let ghost all = comments::models(self.comments@);
        let mut i: usize = 0;
        assert(out@ =~= old(out)@ + comment_lines(all, pointer@, pad@, 0));
        while i < self.comments.len()
            invariant
                i <= self.comments@.len(),
                all == comments::models(self.comments@),
                out@ == old(out)@ + comment_lines(all, pointer@, pad@, i as nat),
            decreases self.comments@.len() - i,
        {
            assert(all[i as int] == self.comments@[i as int]@);
            if text::same_text(self.comments[i].anchor_pointer.as_str(), pointer) {
                out.push_str(pad);
                out.push_str(self.comments[i].text.as_str());
                out.push('\n');
            }
            assert(out@ =~= old(out)@ + comment_lines(all, pointer@, pad@, i as nat + 1));
            i += 1;
        }
    }

    fn write_value(&self, out: &mut String, value: &Json, pointer: &str, pad: &str)
        ensures
            final(out)@ == old(out)@ + rendered(
                value.model(),
                comments::models(self.comments@),
                pointer@,
                pad@,
                self.step@,
            ),
        decreases value, 0nat,
    {
        match value {
            Json::Null => out.push_str("null"),
            Json::Bool(b) => {
                if *b {
                    out.push_str("true");
                } else {
                    out.push_str("false");
                }
            },
            Json::Number(n) => out.push_str(n.as_str()),
            Json::Str(s) => {
                let literal = json::string_text(s.as_str());
                out.push_str(literal.as_str());
            },
            Json::Array(items) => {
                if items.len() == 0 {
                    out.push_str("[]");
                } else {
                    out.push_str("[\n");
                    self.write_array(out, items, pointer, pad);
                    out.push_str(pad);
                    out.push(']');
                }
            },
            Json::Object(entries) => {
                if entries.len() == 0 {
                    out.push_str("{}");
                } else {
                    out.push_str("{\n");
                    self.write_object(out, entries, pointer, pad);
                    out.push_str(pad);
                    out.push('}');
                }
            },
        }
        assert(out@ =~= old(out)@ + rendered(
            value.model(),
            comments::models(self.comments@),
            pointer@,
            pad@,
            self.step@,
        ));
    }

    fn write_array(&self, out: &mut String, items: &Vec<Json>, pointer: &str, pad: &str)
        ensures
            final(out)@ == old(out)@ + rendered_items(
                json::json_models(items@),
                comments::models(self.comments@),
                pointer@,
                pad@,
                self.step@,
                0,
            ),
        decreases items@, items@.len(),
    {
        let ghost all = json::json_models(items@);
        let ghost comments = comments::models(self.comments@);
        let mut inner = String::new();
        inner.push_str(pad);
        inner.push_str(self.step);
        assert(inner@ =~= pad@ + self.step@);
        let mut i: usize = 0;
        while i < items.len()
            invariant
                i <= items@.len(),
                all == json::json_models(items@),
                comments == comments::models(self.comments@),
                inner@ == pad@ + self.step@,
                out@ + rendered_items(all, comments, pointer@, pad@, self.step@, i as nat) == old(
                    out,
                )@ + rendered_items(all, comments, pointer@, pad@, self.step@, 0),
            decreases items@.len() - i,
        {
            let ghost before = out@;
            assert(all[i as int] == items@[i as int].model());
            let under = pointer::push_index(pointer, i);
            self.emit_anchored_comments(out, under.as_str(), inner.as_str());
            out.push_str(inner.as_str());
            self.write_value(out, &items[i], under.as_str(), inner.as_str());
            if i + 1 < items.len() {
                out.push_str(",\n");
            } else {
                out.push('\n');
            }
            assert(out@ + rendered_items(
                all,
                comments,
                pointer@,
                pad@,
                self.step@,
                i as nat + 1,
            ) =~= before + rendered_items(all, comments, pointer@, pad@, self.step@, i as nat));
            i += 1;
        }
        assert(out@ + rendered_items(all, comments, pointer@, pad@, self.step@, i as nat) =~= out@);
    }

    fn write_object(&self, out: &mut String, entries: &Vec<Entry>, pointer: &str, pad: &str)
        ensures
            final(out)@ == old(out)@ + rendered_entries(
                json::entry_models(entries@),
                comments::models(self.comments@),
                pointer@,
                pad@,
                self.step@,
                0,
            ),
        decreases entries@, entries@.len(),
    {
        let ghost all = json::entry_models(entries@);
        let ghost comments = comments::models(self.comments@);
        let mut inner = String::new();
        inner.push_str(pad);
        inner.push_str(self.step);
        assert(inner@ =~= pad@ + self.step@);
        let mut i: usize = 0;
        while i < entries.len()
            invariant
                i <= entries@.len(),
                all == json::entry_models(entries@),
                comments == comments::models(self.comments@),
                inner@ == pad@ + self.step@,
                out@ + rendered_entries(all, comments, pointer@, pad@, self.step@, i as nat) == old(
                    out,
                )@ + rendered_entries(all, comments, pointer@, pad@, self.step@, 0),
            decreases entries@.len() - i,
        {
            let ghost before = out@;
            assert(all[i as int] == entries@[i as int].model());
            assert(decreases_to!(entries@ => entries@[i as int]));
            let under = pointer::push_key(pointer, entries[i].key.as_str());
            self.emit_anchored_comments(out, under.as_str(), inner.as_str());
            out.push_str(inner.as_str());
            let key = json::string_text(entries[i].key.as_str());
            out.push_str(key.as_str());
            out.push_str(": ");
            self.write_value(out, &entries[i].value, under.as_str(), inner.as_str());
            if i + 1 < entries.len() {
                out.push_str(",\n");
            } else {
                out.push('\n');
            }
            assert(out@ + rendered_entries(
                all,
                comments,
                pointer@,
                pad@,
                self.step@,
                i as nat + 1,
            ) =~= before + rendered_entries(all, comments, pointer@, pad@, self.step@, i as nat));
            i += 1;
        }
        assert(out@ + rendered_entries(all, comments, pointer@, pad@, self.step@, i as nat)
            =~= out@);
    }
}

/// Renders a JSON value with `indent` spaces per level; zero stands for a single space.
/// Comments are written inline where the style and the carrier both say so; those of the
/// root come first.
pub fn render_json(
    value: &Json,
    carrier: &CommentCarrier,
    indent: usize,
    style: JsoncStyle,
) -> (r: String)
    ensures
        r@ == document_text(
            value.model(),
            written_comments(*carrier, style),
            indent as nat,
        ),
{
    let inline = carrier.inline_comments();
    let chosen = match style {
        JsoncStyle::Jsonc => inline,
        JsoncStyle::Strict => vstd::slice::slice_subrange(inline, 0, 0),
    };
    let mut step = String::new();
    let width: usize = if indent == 0 {
        1
    } else {
        indent
    };
    text::push_spaces(&mut step, width);
    let writer = JsonWriter { comments: chosen, step: step.as_str() };
    let mut out = String::new();
    proof {
        reveal_strlit("");
        assert(""@ =~= Seq::<char>::empty());
        assert(step@ =~= self::step(indent as nat));
        assert(comments::models(chosen@) =~= written_comments(*carrier, style));
    }
    writer.emit_anchored_comments(&mut out, "", "");
    writer.write_value(&mut out, value, "", "");
    out.push('\n');
    assert(out@ =~= document_text(
        value.model(),
        written_comments(*carrier, style),
        indent as nat,
    ));
    out
}

} // verus!
