//! JSON values and the calls into the JSON library.

use vstd::prelude::*;

use crate::text;
use crate::text_map::{self, Order};

verus! {

/// A JSON value. A number is kept as the text it is written with; the entries of an
/// object stand in ascending key order.
#[derive(Debug)]
pub enum Json {
    Null,
    Bool(bool),
    Number(String),
    Str(String),
    Array(Vec<Json>),
    Object(Vec<Entry>),
}

/// One property of a JSON object.
#[derive(Debug)]
pub struct Entry {
    pub key: String,
    pub value: Json,
}

/// The mathematical model of a JSON value.
pub enum JsonModel {
    Null,
    Bool(bool),
    Number(Seq<char>),
    Str(Seq<char>),
    Array(Seq<JsonModel>),
    Object(Seq<(Seq<char>, JsonModel)>),
}

/// A list of values as mathematical values.
pub open spec fn json_models(items: Seq<Json>) -> Seq<JsonModel>
    decreases items,
{
    Seq::new(
        items.len(),
        |i: int|
            if 0 <= i < items.len() {
                items[i].model()
            } else {
                JsonModel::Null
            },
    )
}

/// The properties of an object as mathematical values.
pub open spec fn entry_models(items: Seq<Entry>) -> Seq<(Seq<char>, JsonModel)>
    decreases items,
{
    Seq::new(
        items.len(),
        |i: int|
            if 0 <= i < items.len() {
                items[i].model()
            } else {
                (Seq::empty(), JsonModel::Null)
            },
    )
}

impl Entry {
    /// The property as a mathematical value.
    pub open spec fn model(self) -> (Seq<char>, JsonModel)
        decreases self,
    {
        (self.key@, self.value.model())
    }

    /// A copy of the property.
    pub fn copy(&self) -> (r: Entry)
        ensures
            r.model() == self.model(),
        decreases self,
    {
        Entry { key: self.key.clone(), value: self.value.copy() }
    }
}

impl Json {
    /// The value as a mathematical value.
    pub open spec fn model(self) -> JsonModel
        decreases self,
    {
        match self {
            Json::Null => JsonModel::Null,
            Json::Bool(b) => JsonModel::Bool(b),
            Json::Number(n) => JsonModel::Number(n@),
            Json::Str(s) => JsonModel::Str(s@),
            Json::Array(items) => JsonModel::Array(json_models(items@)),
            Json::Object(entries) => JsonModel::Object(entry_models(entries@)),
        }
    }

    /// A copy of the value.
    pub fn copy(&self) -> (r: Json)
        ensures
            r.model() == self.model(),
        decreases self,
    {
        match self {
            Json::Null => Json::Null,
            Json::Bool(b) => Json::Bool(*b),
            Json::Number(n) => Json::Number(n.clone()),
            Json::Str(s) => Json::Str(s.clone()),
            Json::Array(items) => Json::Array(copy_values(items)),
            Json::Object(entries) => Json::Object(copy_entries(entries)),
        }
    }

    /// Whether the value is `null`.
    pub fn is_null(&self) -> (r: bool)
        ensures
            r == (self.model() is Null),
    {
        matches!(self, Json::Null)
    }
}

/// Copies of values.
pub fn copy_values(items: &Vec<Json>) -> (r: Vec<Json>)
    ensures
        json_models(r@) == json_models(items@),
    decreases items@,
{
    let mut out: Vec<Json> = Vec::new();
    let mut i: usize = 0;
    while i < items.len()
        invariant
            i <= items@.len(),
            out@.len() == i,
            forall|j: int| 0 <= j < i ==> (#[trigger] out@[j]).model() == items@[j].model(),
        decreases items@.len() - i,
    {
        let item = items[i].copy();
        out.push(item);
        i += 1;
    }
    assert(json_models(out@) =~= json_models(items@));
    out
}

/// Copies of properties.
pub fn copy_entries(entries: &Vec<Entry>) -> (r: Vec<Entry>)
    ensures
        entry_models(r@) == entry_models(entries@),
    decreases entries@,
{
    let mut out: Vec<Entry> = Vec::new();
    let mut i: usize = 0;
    while i < entries.len()
        invariant
            i <= entries@.len(),
            out@.len() == i,
            forall|j: int| 0 <= j < i ==> (#[trigger] out@[j]).model() == entries@[j].model(),
        decreases entries@.len() - i,
    {
        let entry = entries[i].copy();
        out.push(entry);
        i += 1;
    }
    assert(entry_models(out@) =~= entry_models(entries@));
    out
}

/// The position of the first entry with `key` at or after `from`.
pub open spec fn key_position(entries: Seq<(Seq<char>, JsonModel)>, key: Seq<char>, from: nat) -> Option<
    nat,
>
    decreases entries.len() - from,
{
    if from >= entries.len() {
        None
    } else if entries[from as int].0 == key {
        Some(from)
    } else {
        key_position(entries, key, from + 1)
    }
}

/// The value stored under `key`.
pub open spec fn value_of(entries: Seq<(Seq<char>, JsonModel)>, key: Seq<char>) -> Option<JsonModel> {
    match key_position(entries, key, 0) {
        Some(i) => Some(entries[i as int].1),
        None => None,
    }
}

/// The entries whose key is not `key`.
pub open spec fn without_key(entries: Seq<(Seq<char>, JsonModel)>, key: Seq<char>) -> Seq<
    (Seq<char>, JsonModel),
>
    decreases entries.len(),
{
    if entries.len() == 0 {
        Seq::empty()
    } else if entries.last().0 == key {
        without_key(entries.drop_last(), key)
    } else {
        without_key(entries.drop_last(), key).push(entries.last())
    }
}

/// The entries with `value` stored under `key`: in the place of an entry that has this
/// key already, otherwise before the first entry whose key is greater.
pub open spec fn with_entry(
    entries: Seq<(Seq<char>, JsonModel)>,
    key: Seq<char>,
    value: JsonModel,
) -> Seq<(Seq<char>, JsonModel)>
    decreases entries.len(),
{
    if entries.len() == 0 {
        seq![(key, value)]
    } else if entries[0].0 == key {
        seq![(key, value)] + entries.drop_first()
    } else if text_map::precedes(key, entries[0].0) {
        seq![(key, value)] + entries
    } else {
        seq![entries[0]] + with_entry(entries.drop_first(), key, value)
    }
}

/// Whether keys strictly ascend.
pub open spec fn keys_ascend(entries: Seq<(Seq<char>, JsonModel)>) -> bool {
    forall|i: int, j: int|
        0 <= i < j < entries.len() ==> text_map::precedes(
            (#[trigger] entries[i]).0,
            (#[trigger] entries[j]).0,
        )
}

/// The position of the entry with `key`.
pub fn position_of(entries: &Vec<Entry>, key: &str) -> (r: Option<usize>)
    ensures
        match r {
            Some(i) => i < entries@.len() && key_position(entry_models(entries@), key@, 0) == Some(
                i as nat,
            ),
            None => key_position(entry_models(entries@), key@, 0) is None,
        },
{
    let mut i: usize = 0;
    while i < entries.len()
        invariant
            i <= entries@.len(),
            key_position(entry_models(entries@), key@, i as nat) == key_position(
                entry_models(entries@),
                key@,
                0,
            ),
        decreases entries@.len() - i,
    {
        assert(entry_models(entries@)[i as int].0 == entries@[i as int].key@);
        if text::same_text(entries[i].key.as_str(), key) {
            return Some(i);
        }
        i += 1;
    }
    None
}

/// Copies of the entries whose key is not `key`.
pub fn copy_without(entries: &Vec<Entry>, key: &str) -> (r: Vec<Entry>)
    ensures
        entry_models(r@) == without_key(entry_models(entries@), key@),
{
    let ghost all = entry_models(entries@);
    let mut out: Vec<Entry> = Vec::new();
    let mut i: usize = 0;
    assert(entry_models(out@) =~= without_key(all.take(0), key@));
    while i < entries.len()
        invariant
            i <= entries@.len(),
            all == entry_models(entries@),
            entry_models(out@) == without_key(all.take(i as int), key@),
        decreases entries@.len() - i,
    {
        assert(all.take(i + 1).drop_last() =~= all.take(i as int));
        assert(all[i as int] == entries@[i as int].model());
        if !text::same_text(entries[i].key.as_str(), key) {
            let ghost before = entry_models(out@);
            let entry = entries[i].copy();
            out.push(entry);
            assert(entry_models(out@) =~= before.push(all[i as int]));
        }
        i += 1;
    }
    assert(all.take(i as int) =~= all);
    out
}

/// Stores `value` under `key`.
pub fn insert_entry(entries: &mut Vec<Entry>, key: String, value: Json)
    ensures
        entry_models(final(entries)@) == with_entry(
            entry_models(old(entries)@),
            key@,
            value.model(),
        ),
{
    let ghost all = entry_models(entries@);
    let ghost model = (key@, value.model());
    let mut i: usize = 0;
    assert(all.skip(0) =~= all);
    assert(all.take(0) + with_entry(all.skip(0), key@, value.model()) =~= with_entry(
        all,
        key@,
        value.model(),
    ));
    while i < entries.len()
        invariant
            entries@ == old(entries)@,
            i <= entries@.len(),
            all == entry_models(entries@),
            model == (key@, value.model()),
            all.take(i as int) + with_entry(all.skip(i as int), key@, value.model()) == with_entry(
                all,
                key@,
                value.model(),
            ),
        decreases entries@.len() - i,
    {
        assert(all.skip(i as int)[0] == all[i as int]);
        assert(all[i as int].0 == entries@[i as int].key@);
        assert(all.skip(i as int).drop_first() =~= all.skip(i + 1));
        match text_map::order_of(key.as_str(), entries[i].key.as_str()) {
            Order::Same => {
                let ghost before = entries@;
                entries.set(i, Entry { key, value });
                assert(entry_models(entries@) =~= all.take(i as int) + (seq![model] + all.skip(
                    i + 1,
                )));
                return ;
            },
            Order::Before => {
                proof {
                    text_map::lemma_precedes_total(key@, all[i as int].0);
                }
                entries.insert(i, Entry { key, value });
                assert(entry_models(entries@) =~= all.take(i as int) + (seq![model] + all.skip(
                    i as int,
                )));
                return ;
            },
            Order::After => {
                proof {
                    text_map::lemma_precedes_total(key@, all[i as int].0);
                    assert(all.take(i + 1) =~= all.take(i as int) + seq![all[i as int]]);
                    assert(all.take(i + 1) + with_entry(all.skip(i + 1), key@, value.model())
                        =~= all.take(i as int) + (seq![all[i as int]] + with_entry(
                        all.skip(i + 1),
                        key@,
                        value.model(),
                    )));
                }
                i += 1;
            },
        }
    }
    entries.push(Entry { key, value });
    assert(entry_models(entries@) =~= all.take(i as int) + seq![model]);
}

/// A hexadecimal digit, in lower case.
pub open spec fn lower_hex(d: nat) -> char {
    if d < 10 {
        (48 + d) as char
    } else {
        (87 + d) as char
    }
}

/// A character as it stands in a JSON string.
pub open spec fn string_char(c: char) -> Seq<char> {
    let n = c as nat;
    if c == '"' || c == '\\' {
        seq!['\\', c]
    } else if n == 8 {
        seq!['\\', 'b']
    } else if n == 9 {
        seq!['\\', 't']
    } else if n == 10 {
        seq!['\\', 'n']
    } else if n == 12 {
        seq!['\\', 'f']
    } else if n == 13 {
        seq!['\\', 'r']
    } else if n < 32 {
        seq!['\\', 'u', '0', '0', lower_hex(n / 16), lower_hex(n % 16)]
    } else {
        seq![c]
    }
}

/// The characters of `s` as they stand in a JSON string.
pub open spec fn string_body(s: Seq<char>) -> Seq<char>
    decreases s.len(),
{
    if s.len() == 0 {
        Seq::empty()
    } else {
        string_char(s[0]) + string_body(s.drop_first())
    }
}

/// `s` as a JSON string.
pub open spec fn string_literal(s: Seq<char>) -> Seq<char> {
    seq!['"'] + string_body(s) + seq!['"']
}

/// The text of a JSON string value, as `serde_json` displays it: the string in quotes,
/// with the quote, the backslash and the control characters below U+0020 escaped.
#[verifier::external_body]
pub(crate) fn string_text(s: &str) -> (r: String)
    ensures
        r@ == string_literal(s@),
{
    serde_json::Value::String(s.to_owned()).to_string()
}

/// The value type of `serde_json`, carried from its parser to [`Json`].
#[verifier::external_type_specification]
#[verifier::external_body]
pub struct ExSerdeValue(serde_json::Value);

/// A `serde_json` value, variant by variant. Nothing is claimed of the result here; the
/// parser's contract names it.
#[verifier::external_body]
fn converted(value: serde_json::Value) -> Json {
    match value {
        serde_json::Value::Null => Json::Null,
        serde_json::Value::Bool(b) => Json::Bool(b),
        serde_json::Value::Number(n) => Json::Number(n.to_string()),
        serde_json::Value::String(s) => Json::Str(s),
        serde_json::Value::Array(items) => Json::Array(items.into_iter().map(converted).collect()),
        serde_json::Value::Object(map) => Json::Object(
            map.into_iter().map(|(key, v)| Entry { key, value: converted(v) }).collect(),
        ),
    }
}

/// What `serde_json` reads from a text: the value, or the message of the error.
pub uninterp spec fn parse_outcome(text: Seq<char>) -> Result<JsonModel, Seq<char>>;

/// A parse result as a mathematical value.
pub open spec fn outcome(result: Result<Json, String>) -> Result<JsonModel, Seq<char>> {
    match result {
        Ok(value) => Ok(value.model()),
        Err(message) => Err(message@),
    }
}

/// `serde_json::from_str` into a value: what it accepts, the value it gives and the
/// message of its error depend on the text alone.
#[verifier::external_body]
pub(crate) fn parse(text: &str) -> (r: Result<Json, String>)
    ensures
        outcome(r) == parse_outcome(text@),
{
    match serde_json::from_str::<serde_json::Value>(text) {
        Ok(value) => Ok(converted(value)),
        Err(error) => Err(error.to_string()),
    }
}

proof fn lemma_first_with_key(
    entries: Seq<(Seq<char>, JsonModel)>,
    key: Seq<char>,
    from: nat,
    i: int,
)
    requires
        from <= i <= entries.len(),
        forall|j: int| from <= j < i ==> (#[trigger] entries[j]).0 != key,
        i < entries.len() ==> entries[i].0 == key,
    ensures
        key_position(entries, key, from) == (if i < entries.len() {
            Some(i as nat)
        } else {
            None
        }),
    decreases i - from,
{
    if from < i {
        assert(entries[from as int].0 != key);
        lemma_first_with_key(entries, key, from + 1, i);
    }
}

/// The value under a key is the first that is stored under it, and there is none under
/// another key.
pub proof fn values_are_found_by_their_key(
    entries: Seq<(Seq<char>, JsonModel)>,
    key: Seq<char>,
    i: int,
)
    requires
        0 <= i <= entries.len(),
        forall|j: int| 0 <= j < i ==> (#[trigger] entries[j]).0 != key,
        i < entries.len() ==> entries[i].0 == key,
    ensures
        value_of(entries, key) == (if i < entries.len() {
            Some(entries[i].1)
        } else {
            None
        }),
{
    lemma_first_with_key(entries, key, 0, i);
}

proof fn lemma_without(entries: Seq<(Seq<char>, JsonModel)>, key: Seq<char>)
    ensures
        forall|i: int|
            0 <= i < without_key(entries, key).len() ==> (#[trigger] without_key(entries, key)[i]).0
                != key,
        without_key(entries, key).len() <= entries.len(),
    decreases entries.len(),
{
    if entries.len() > 0 {
        lemma_without(entries.drop_last(), key);
    }
}

/// Taking a key out leaves no entry with it, and all others in their order.
pub proof fn taking_a_key_out_leaves_the_others(
    entries: Seq<(Seq<char>, JsonModel)>,
    key: Seq<char>,
    entry: (Seq<char>, JsonModel),
)
    ensures
        value_of(without_key(entries, key), key) is None,
        entry.0 != key ==> without_key(entries.push(entry), key) == without_key(
            entries,
            key,
        ).push(entry),
        entry.0 == key ==> without_key(entries.push(entry), key) == without_key(entries, key),
        entries.len() == 0 ==> without_key(entries, key).len() == 0,
{
    let left = without_key(entries, key);
    lemma_without(entries, key);
    values_are_found_by_their_key(left, key, left.len() as int);
    assert(entries.push(entry).drop_last() =~= entries);
}

} // verus!
