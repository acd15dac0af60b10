//! Snippets: templates that expand into RON constructs.
//!
//! A snippet body is literal text with markers: `$1` and `${1}` for a bare tab stop,
//! `${1:default}` for one with a default text, `${1|a,b|}` for one with a choice, and
//! `$0` for the place where the cursor ends up. [`expand_snippet`] turns a body into
//! text and tab stops, [`insert_snippet`] puts that text into a buffer, and a
//! [`SnippetSession`] moves from stop to stop.
//!
//! A [`SnippetSet`] holds the built-in snippets and those of the user, by name. Only
//! snippets whose default expansion is RON get into it, and no insertion breaks a
//! buffer that was RON before.

use vstd::prelude::*;

use crate::interop::grammar;
use crate::text;
use crate::text_map::TextMap;

verus! {

/// Where a snippet is offered.
#[derive(Debug, Clone, Copy, PartialEq, Eq, Structural)]
pub enum SnippetScope {
    /// A general RON construct.
    Generic,
    /// The shape of a Bevy scene or component.
    Bevy,
}

impl Default for SnippetScope {
    fn default() -> (r: Self)
        ensures
            r == SnippetScope::Generic,
    {
        SnippetScope::Generic
    }
}

/// A character in lower case, if it is an ASCII letter.
pub open spec fn ascii_lower(c: char) -> char {
    if 'A' <= c <= 'Z' {
        (c as u32 + 32) as char
    } else {
        c
    }
}

/// Whether a tag names the Bevy scope.
pub open spec fn bevy_tag(tag: Seq<char>) -> bool {
    text::trimmed(tag).map_values(|c: char| ascii_lower(c)) == "bevy"@
}

impl SnippetScope {
    /// The scope that a tag names. Without a tag, or with an unknown one, it is
    /// [`SnippetScope::Generic`].
    pub fn from_tag(tag: Option<&str>) -> (r: Self)
        ensures
            r == (match tag {
                Some(t) => if bevy_tag(t@) {
                    SnippetScope::Bevy
                } else {
                    SnippetScope::Generic
                },
                None => SnippetScope::Generic,
            }),
    {
        let t = match tag {
            Some(t) => t,
            None => return SnippetScope::Generic,
        };
        let word = text::trim(t);
        let chars = text::chars_of(word.as_str());
        proof {
            reveal_strlit("bevy");
        }
        let ghost lower = text::trimmed(t@).map_values(|c: char| ascii_lower(c));
        if chars.len() == 4 && (chars[0] == 'b' || chars[0] == 'B') && (chars[1] == 'e'
            || chars[1] == 'E') && (chars[2] == 'v' || chars[2] == 'V') && (chars[3] == 'y'
            || chars[3] == 'Y') {
            assert(lower =~= "bevy"@);
            SnippetScope::Bevy
        } else {
            proof {
                if lower == "bevy"@ {
                    assert(chars@.len() == lower.len());
                    assert(ascii_lower(chars@[0]) == lower[0] == 'b');
                    assert(ascii_lower(chars@[1]) == lower[1] == 'e');
                    assert(ascii_lower(chars@[2]) == lower[2] == 'v');
                    assert(ascii_lower(chars@[3]) == lower[3] == 'y');
                }
            }
            SnippetScope::Generic
        }
    }
}

/// A named template.
#[derive(Debug, PartialEq, Eq)]
pub struct Snippet {
    /// What the snippet is known by.
    pub name: String,
    /// The text that brings it up.
    pub prefix: String,
    /// The template.
    pub body: String,
    /// What the menu says of it.
    pub description: String,
    /// Where it is offered.
    pub scope: SnippetScope,
}

/// A snippet as a mathematical value.
pub struct SnippetModel {
    pub name: Seq<char>,
    pub prefix: Seq<char>,
    pub body: Seq<char>,
    pub description: Seq<char>,
    pub scope: SnippetScope,
}

impl View for Snippet {
    type V = SnippetModel;

    open spec fn view(&self) -> SnippetModel {
        SnippetModel {
            name: self.name@,
            prefix: self.prefix@,
            body: self.body@,
            description: self.description@,
            scope: self.scope,
        }
    }
}

impl Clone for Snippet {
    fn clone(&self) -> (r: Self)
        ensures
            r@ == self@,
    {
        Snippet {
            name: self.name.clone(),
            prefix: self.prefix.clone(),
            body: self.body.clone(),
            description: self.description.clone(),
            scope: self.scope,
        }
    }
}

impl Snippet {
    fn new(
        name: &str,
        prefix: &str,
        body: &str,
        description: &str,
        scope: SnippetScope,
    ) -> (r: Self)
        ensures
            r@ == model(name@, prefix@, body@, description@, scope),
    {
        Snippet {
            name: name.to_owned(),
            prefix: prefix.to_owned(),
            body: body.to_owned(),
            description: description.to_owned(),
            scope,
        }
    }

    /// Whether the body, with every default left in place, is RON.
    pub fn default_expansion_round_trips(&self) -> (r: bool)
        ensures
            r == usable(self@),
    {
        let expansion = expand_snippet(self.body.as_str());
        body_round_trips(expansion.text.as_str())
    }
}

/// A snippet from its parts.
pub open spec fn model(
    name: Seq<char>,
    prefix: Seq<char>,
    body: Seq<char>,
    description: Seq<char>,
    scope: SnippetScope,
) -> SnippetModel {
    SnippetModel { name, prefix, body, description, scope }
}

/// Snippets as mathematical values.
pub open spec fn models(snippets: Seq<Snippet>) -> Seq<SnippetModel> {
    snippets.map_values(|s: Snippet| s@)
}

/// Whether the default expansion of a snippet is RON.
pub open spec fn usable(s: SnippetModel) -> bool {
    grammar::ron_accepts(expansion(s.body).text)
}

/// The built-in snippets.
pub open spec fn built_in_models() -> Seq<SnippetModel> {
    seq![
        model(
            "named-struct"@,
            "struct"@,
            "${1:Name}(${2:field}: ${3:value})"@,
            "Named struct  Name(field: value)"@,
            SnippetScope::Generic,
        ),
        model(
            "tuple-struct"@,
            "tuplestruct"@,
            "${1:Name}(${2:value})"@,
            "Tuple struct  Name(value)"@,
            SnippetScope::Generic,
        ),
        model(
            "unit-struct"@,
            "unitstruct"@,
            "${1:Name}"@,
            "Unit struct  Name"@,
            SnippetScope::Generic,
        ),
        model(
            "enum-unit-variant"@,
            "variant"@,
            "${1:Variant}"@,
            "Enum unit variant  Variant"@,
            SnippetScope::Generic,
        ),
        model(
            "enum-tuple-variant"@,
            "tuplevariant"@,
            "${1:Variant}(${2:value})"@,
            "Enum tuple variant  Variant(value)"@,
            SnippetScope::Generic,
        ),
        model(
            "enum-struct-variant"@,
            "structvariant"@,
            "${1:Variant}(${2:field}: ${3:value})"@,
            "Enum struct variant  Variant(field: value)"@,
            SnippetScope::Generic,
        ),
        model(
            "map"@,
            "map"@,
            "{${1:\"key\"}: ${2:value}}"@,
            "Map  {\"key\": value}"@,
            SnippetScope::Generic,
        ),
        model("list"@, "list"@, "[${1:value}]"@, "List  [value]"@, SnippetScope::Generic),
        model("tuple"@, "tuple"@, "(${1:a}, ${2:b})"@, "Tuple  (a, b)"@, SnippetScope::Generic),
        model(
            "some"@,
            "some"@,
            "Some(${1:value})"@,
            "Option Some  Some(value)"@,
            SnippetScope::Generic,
        ),
        model(
            "bevy-transform"@,
            "transform"@,
            "Transform(translation: (${1:0.0}, ${2:0.0}, ${3:0.0}))"@,
            "Bevy Transform component"@,
            SnippetScope::Bevy,
        ),
        model(
            "bevy-scene-entity"@,
            "entity"@,
            "(components: {${1:\"Name\"}: (${2:name}: ${3:\"value\"})})"@,
            "Bevy scene entity (components map)"@,
            SnippetScope::Bevy,
        ),
    ]
}

/// The built-in snippets.
pub fn built_ins() -> (r: Vec<Snippet>)
    ensures
        models(r@) == built_in_models(),
{
    let mut r: Vec<Snippet> = Vec::new();
    r.push(
        Snippet::new(
            "named-struct",
            "struct",
            "${1:Name}(${2:field}: ${3:value})",
            "Named struct  Name(field: value)",
            SnippetScope::Generic,
        ),
    );
    r.push(
        Snippet::new(
            "tuple-struct",
            "tuplestruct",
            "${1:Name}(${2:value})",
            "Tuple struct  Name(value)",
            SnippetScope::Generic,
        ),
    );
    r.push(
        Snippet::new(
            "unit-struct",
            "unitstruct",
            "${1:Name}",
            "Unit struct  Name",
            SnippetScope::Generic,
        ),
    );
    r.push(
        Snippet::new(
            "enum-unit-variant",
            "variant",
            "${1:Variant}",
            "Enum unit variant  Variant",
            SnippetScope::Generic,
        ),
    );
    r.push(
        Snippet::new(
            "enum-tuple-variant",
            "tuplevariant",
            "${1:Variant}(${2:value})",
            "Enum tuple variant  Variant(value)",
            SnippetScope::Generic,
        ),
    );
    r.push(
        Snippet::new(
            "enum-struct-variant",
            "structvariant",
            "${1:Variant}(${2:field}: ${3:value})",
            "Enum struct variant  Variant(field: value)",
            SnippetScope::Generic,
        ),
    );
    r.push(
        Snippet::new(
            "map",
            "map",
            "{${1:\"key\"}: ${2:value}}",
            "Map  {\"key\": value}",
            SnippetScope::Generic,
        ),
    );
    r.push(Snippet::new("list", "list", "[${1:value}]", "List  [value]", SnippetScope::Generic));
    r.push(
        Snippet::new("tuple", "tuple", "(${1:a}, ${2:b})", "Tuple  (a, b)", SnippetScope::Generic),
    );
    r.push(
        Snippet::new(
            "some",
            "some",
            "Some(${1:value})",
            "Option Some  Some(value)",
            SnippetScope::Generic,
        ),
    );
    r.push(
        Snippet::new(
            "bevy-transform",
            "transform",
            "Transform(translation: (${1:0.0}, ${2:0.0}, ${3:0.0}))",
            "Bevy Transform component",
            SnippetScope::Bevy,
        ),
    );
    r.push(
        Snippet::new(
            "bevy-scene-entity",
            "entity",
            "(components: {${1:\"Name\"}: (${2:name}: ${3:\"value\"})})",
            "Bevy scene entity (components map)",
            SnippetScope::Bevy,
        ),
    );
    assert(models(r@) =~= built_in_models());
    r
}

/// The number of built-in snippets.
pub fn built_in_count() -> (r: usize)
    ensures
        r == built_in_models().len(),
{
    let all = built_ins();
    assert(models(all@).len() == all@.len());
    all.len()
}

/// The built-in snippets.
#[allow(non_snake_case)]
pub fn BUILT_INS() -> (r: Vec<Snippet>)
    ensures
        models(r@) == built_in_models(),
{
    built_ins()
}

/// Whether one of the built-in snippets has this name.
pub open spec fn is_built_in(name: Seq<char>) -> bool {
    exists|i: int| 0 <= i < built_in_models().len() && (#[trigger] built_in_models()[i]).name == name
}

/// The built-in snippets cover the common constructs of RON and of Bevy scenes, and no
/// two have the same name.
pub proof fn built_ins_cover_the_constructs()
    ensures
        forall|i: int, j: int|
            0 <= i < j < built_in_models().len() ==> (#[trigger] built_in_models()[i]).name != (
            #[trigger] built_in_models()[j]).name,
        is_built_in("named-struct"@),
        is_built_in("tuple-struct"@),
        is_built_in("unit-struct"@),
        is_built_in("enum-unit-variant"@),
        is_built_in("enum-tuple-variant"@),
        is_built_in("enum-struct-variant"@),
        is_built_in("map"@),
        is_built_in("list"@),
        is_built_in("tuple"@),
        is_built_in("some"@),
        exists|i: int|
            0 <= i < built_in_models().len() && (#[trigger] built_in_models()[i]).scope
                == SnippetScope::Bevy,
{
    let all = built_in_models();
    reveal_strlit("named-struct");
    reveal_strlit("tuple-struct");
    reveal_strlit("unit-struct");
    reveal_strlit("enum-unit-variant");
    reveal_strlit("enum-tuple-variant");
    reveal_strlit("enum-struct-variant");
    reveal_strlit("map");
    reveal_strlit("list");
    reveal_strlit("tuple");
    reveal_strlit("some");
    reveal_strlit("bevy-transform");
    reveal_strlit("bevy-scene-entity");
    assert(all[0].name[0] == 'n' && all[1].name[0] == 't');
    assert(all[3].name[0] == 'e' && all[11].name[0] == 'b');
    assert(all[7].name[0] == 'l' && all[9].name[0] == 's');
    assert(all[2].name.len() == 11 && all[4].name.len() == 18 && all[5].name.len() == 19);
    assert(all[6].name.len() == 3 && all[8].name.len() == 5 && all[10].name.len() == 14);
    assert(all[0].name.len() == 12 && all[1].name.len() == 12);
    assert(all[3].name.len() == 17 && all[11].name.len() == 17);
    assert(all[7].name.len() == 4 && all[9].name.len() == 4);
    assert(all[10].scope == SnippetScope::Bevy);
}

/// Whether a text is RON.
pub fn body_round_trips(text: &str) -> (r: bool)
    ensures
        r == grammar::ron_accepts(text@),
{
    grammar::parses_as_ron(text)
}

/// How reading the snippet file of the user went.
#[derive(Debug, Clone, Copy, PartialEq, Eq, Structural)]
pub enum SnippetParseStatus {
    /// The file was read.
    Loaded,
    /// There is no such file.
    Missing,
    /// The file could not be read.
    Malformed,
}

/// One string or several.
#[derive(Debug)]
pub enum StringOrVec {
    One(String),
    Many(Vec<String>),
}

/// The texts, each but the first after a line break.
pub open spec fn lines(texts: Seq<Seq<char>>) -> Seq<char>
    decreases texts.len(),
{
    if texts.len() == 0 {
        Seq::empty()
    } else if texts.len() == 1 {
        texts[0]
    } else {
        lines(texts.drop_last()) + seq!['\n'] + texts.last()
    }
}

impl StringOrVec {
    /// The text: several strings are lines.
    pub open spec fn whole(self) -> Seq<char> {
        match self {
            StringOrVec::One(s) => s@,
            StringOrVec::Many(v) => lines(text::strings(v@)),
        }
    }

    /// The first text, if there is one.
    pub open spec fn front(self) -> Seq<char> {
        match self {
            StringOrVec::One(s) => s@,
            StringOrVec::Many(v) => if v@.len() > 0 {
                v@[0]@
            } else {
                Seq::empty()
            },
        }
    }

    fn joined(&self) -> (r: String)
        ensures
            r@ == self.whole(),
    {
        match self {
            StringOrVec::One(s) => s.clone(),
            StringOrVec::Many(v) => {
                let mut r = String::new();
                let ghost all = text::strings(v@);
                let mut i: usize = 0;
                while i < v.len()
                    invariant
                        i <= v@.len(),
                        all == text::strings(v@),
                        r@ == lines(all.take(i as int)),
                    decreases v@.len() - i,
                {
                    let ghost before = r@;
                    if i > 0 {
                        r.push('\n');
                    }
                    r.push_str(v[i].as_str());
                    proof {
                        assert(all.take(i + 1).drop_last() =~= all.take(i as int));
                        assert(all.take(i + 1).last() == v@[i as int]@);
                        if i == 0 {
                            assert(before =~= Seq::<char>::empty());
                            assert(r@ =~= v@[0]@);
                        } else {
                            assert(r@ =~= before + seq!['\n'] + v@[i as int]@);
                        }
                    }
                    i += 1;
                }
                assert(all.take(v@.len() as int) =~= all);
                r
            },
        }
    }

    fn first(&self) -> (r: String)
        ensures
            r@ == self.front(),
    {
        match self {
            StringOrVec::One(s) => s.clone(),
            StringOrVec::Many(v) => if v.len() > 0 {
                v[0].clone()
            } else {
                String::new()
            },
        }
    }
}

/// An entry of a snippet file.
#[derive(Debug)]
pub struct RawSnippet {
    pub prefix: Option<StringOrVec>,
    pub body: Option<StringOrVec>,
    pub description: Option<String>,
    pub scope: Option<String>,
}

impl RawSnippet {
    /// The snippet called `name` that the entry describes. There is none without a
    /// body.
    pub open spec fn meaning(self, name: Seq<char>) -> Option<SnippetModel> {
        match self.body {
            None => None,
            Some(body) => if body.whole().len() == 0 {
                None
            } else {
                Some(
                    SnippetModel {
                        name,
                        prefix: match self.prefix {
                            Some(p) => p.front(),
                            None => name,
                        },
                        body: body.whole(),
                        description: match self.description {
                            Some(d) => d@,
                            None => name,
                        },
                        scope: match self.scope {
                            Some(t) => if bevy_tag(t@) {
                                SnippetScope::Bevy
                            } else {
                                SnippetScope::Generic
                            },
                            None => SnippetScope::Generic,
                        },
                    },
                )
            },
        }
    }
}

/// The snippets that the first `n` entries describe.
pub open spec fn meanings(entries: Seq<(String, RawSnippet)>, n: nat) -> Seq<SnippetModel>
    decreases n,
{
    if n == 0 {
        Seq::empty()
    } else {
        let before = meanings(entries, (n - 1) as nat);
        match entries[n - 1].1.meaning(entries[n - 1].0@) {
            Some(s) => before.push(s),
            None => before,
        }
    }
}

/// What was read of the snippet file of the user.
#[derive(Debug)]
pub struct UserSnippetFile {
    /// Where the file was looked for.
    pub location: Option<String>,
    /// The snippets of the user.
    pub snippets: Vec<Snippet>,
    /// How reading went.
    pub parse_status: SnippetParseStatus,
}

impl UserSnippetFile {
    /// A file that was read, with its entries in order of their names. Entries without
    /// a body are passed over.
    pub fn from_entries(location: Option<String>, entries: &Vec<(String, RawSnippet)>) -> (r: Self)
        ensures
            r.location == location,
            r.parse_status == SnippetParseStatus::Loaded,
            models(r.snippets@) == meanings(entries@, entries@.len()),
    {
        let mut snippets: Vec<Snippet> = Vec::new();
        assert(models(snippets@) =~= meanings(entries@, 0));
        let mut i: usize = 0;
        while i < entries.len()
            invariant
                i <= entries@.len(),
                models(snippets@) == meanings(entries@, i as nat),
            decreases entries@.len() - i,
        {
            let ghost before = models(snippets@);
            match Self::convert(entries[i].0.as_str(), &entries[i].1) {
                Some(s) => {
                    let ghost m = s@;
                    snippets.push(s);
                    assert(models(snippets@) =~= before.push(m));
                },
                None => {},
            }
            i += 1;
        }
        UserSnippetFile { location, snippets, parse_status: SnippetParseStatus::Loaded }
    }

    /// A file that is not there (`Missing`) or could not be read (`Malformed`).
    pub fn unread(location: Option<String>, parse_status: SnippetParseStatus) -> (r: Self)
        ensures
            r.location == location,
            r.parse_status == parse_status,
            r.snippets@ == Seq::<Snippet>::empty(),
    {
        UserSnippetFile { location, snippets: Vec::new(), parse_status }
    }

    /// The snippet called `name` that an entry describes.
    fn convert(name: &str, entry: &RawSnippet) -> (r: Option<Snippet>)
        ensures
            match r {
                Some(s) => entry.meaning(name@) == Some(s@),
                None => entry.meaning(name@) is None,
            },
    {
        let body = match &entry.body {
            Some(b) => b.joined(),
            None => return None,
        };
        if body.as_str().is_empty() {
            return None;
        }
        let prefix = match &entry.prefix {
            Some(p) => p.first(),
            None => name.to_owned(),
        };
        let description = match &entry.description {
            Some(d) => d.clone(),
            None => name.to_owned(),
        };
        let scope = match &entry.scope {
            Some(t) => SnippetScope::from_tag(Some(t.as_str())),
            None => SnippetScope::Generic,
        };
        Some(Snippet { name: name.to_owned(), prefix, body, description, scope })
    }
}

/// What a new snippet file holds.
pub const USER_SNIPPET_TEMPLATE: &'static str = "{\n  \"example-point\": {\n    \"prefix\": \"point\",\n    \"body\": \"Point(x: ${1:0}, y: ${2:0})\",\n    \"description\": \"Example user snippet: a Point struct\",\n    \"scope\": \"Generic\"\n  }\n}\n";

/// The last usable snippet called `name`.
pub open spec fn last_usable(snippets: Seq<SnippetModel>, name: Seq<char>) -> Option<SnippetModel>
    decreases snippets.len(),
{
    if snippets.len() == 0 {
        None
    } else if snippets.last().name == name && usable(snippets.last()) {
        Some(snippets.last())
    } else {
        last_usable(snippets.drop_last(), name)
    }
}

/// How many snippets are not usable.
pub open spec fn unusable_count(snippets: Seq<SnippetModel>) -> nat
    decreases snippets.len(),
{
    if snippets.len() == 0 {
        0
    } else {
        unusable_count(snippets.drop_last()) + (if usable(snippets.last()) {
            0nat
        } else {
            1
        })
    }
}

/// The snippets that a file contributes.
pub open spec fn contributed(user: UserSnippetFile) -> Seq<SnippetModel> {
    if user.parse_status == SnippetParseStatus::Loaded {
        models(user.snippets@)
    } else {
        Seq::empty()
    }
}

/// What the user is told of a file.
pub open spec fn notice_on(user: UserSnippetFile) -> Option<Seq<char>> {
    match user.parse_status {
        SnippetParseStatus::Loaded => if unusable_count(models(user.snippets@)) > 0 {
            Some(
                "Ignored "@ + text::decimal(unusable_count(models(user.snippets@)))
                    + " user snippet(s) whose default expansion did not parse; built-ins and the rest are available."@,
            )
        } else {
            None
        },
        SnippetParseStatus::Missing => None,
        SnippetParseStatus::Malformed => Some(
            "Could not read the user snippet file; using built-in snippets only."@,
        ),
    }
}

/// The snippets on offer, by name.
pub struct SnippetSet {
    pub effective: TextMap<Snippet>,
    pub notice: Option<String>,
    pub user_status: SnippetParseStatus,
}

impl SnippetSet {
    /// The names ascend, each snippet is kept under its own name, and each is usable.
    pub open spec fn wf(&self) -> bool {
        &&& self.effective.wf()
        &&& forall|i: int|
            0 <= i < self.effective.entries@.len() ==> (
            #[trigger] self.effective.entries@[i]).1@.name == self.effective.entries@[i].0@
                && usable(self.effective.entries@[i].1@)
    }

    /// The snippet called `name`.
    pub open spec fn find(&self, name: Seq<char>) -> Option<SnippetModel> {
        match self.effective.at(name) {
            Some(s) => Some(s@),
            None => None,
        }
    }

    /// Offers the built-in snippets and those of the user. A snippet of the user takes
    /// the place of a built-in one of the same name. Snippets whose default expansion
    /// is not RON are left out.
    pub fn build(user: &UserSnippetFile) -> (r: Self)
        ensures
            r.wf(),
            forall|name: Seq<char>| #[trigger]
                r.find(name) == last_usable(built_in_models() + contributed(*user), name),
            match r.notice {
                Some(n) => notice_on(*user) == Some(n@),
                None => notice_on(*user) is None,
            },
            r.user_status == user.parse_status,
    {
        let mut set = SnippetSet {
            effective: TextMap::new(),
            notice: None,
            user_status: user.parse_status,
        };
        let defaults = built_ins();
        let ghost nothing = Seq::<SnippetModel>::empty();
        proof {
            set.effective.lemma_nothing_in_empty();
            assert(nothing + models(defaults@) =~= built_in_models());
        }
        set.overlay(&defaults, Ghost(nothing));
        if matches!(user.parse_status, SnippetParseStatus::Loaded) {
            let dropped = set.overlay(&user.snippets, Ghost(built_in_models()));
            let ghost merged = set;
            if dropped > 0 {
                let mut notice = "Ignored ".to_owned();
                text::push_decimal(&mut notice, dropped);
                notice.push_str(
                    " user snippet(s) whose default expansion did not parse; built-ins and the rest are available.",
                );
                set.notice = Some(notice);
            }
            assert forall|name: Seq<char>| #[trigger]
                set.find(name) == last_usable(
                    built_in_models() + contributed(*user),
                    name,
                ) by {
                assert(merged.find(name) == set.find(name));
            }
        } else {
            assert(built_in_models() + contributed(*user) =~= built_in_models());
        }
        let ghost merged = set;
        if matches!(user.parse_status, SnippetParseStatus::Malformed) {
            set.notice = Some(
                "Could not read the user snippet file; using built-in snippets only.".to_owned(),
            );
        }
        assert forall|name: Seq<char>| #[trigger]
            set.find(name) == last_usable(built_in_models() + contributed(*user), name) by {
            assert(merged.find(name) == set.find(name));
        }
        set
    }

    /// Adds the usable ones among `snippets`, and says how many are not.
    fn overlay(&mut self, snippets: &Vec<Snippet>, below: Ghost<Seq<SnippetModel>>) -> (r: usize)
        requires
            old(self).wf(),
            forall|name: Seq<char>| #[trigger]
                old(self).find(name) == last_usable(below@, name),
        ensures
            final(self).wf(),
            forall|name: Seq<char>| #[trigger]
                final(self).find(name) == last_usable(below@ + models(snippets@), name),
            r == unusable_count(models(snippets@)),
            final(self).notice == old(self).notice,
            final(self).user_status == old(self).user_status,
    {
        let ghost all = models(snippets@);
        let mut dropped: usize = 0;
        let mut i: usize = 0;
        assert(below@ + all.take(0) =~= below@);
        while i < snippets.len()
            invariant
                i <= snippets@.len(),
                dropped <= i,
                all == models(snippets@),
                self.wf(),
                forall|name: Seq<char>| #[trigger]
                    self.find(name) == last_usable(below@ + all.take(i as int), name),
                dropped == unusable_count(all.take(i as int)),
                self.notice == old(self).notice,
                self.user_status == old(self).user_status,
            decreases snippets@.len() - i,
        {
            let snippet = &snippets[i];
            let ghost before = *self;
            let ghost next = below@ + all.take(i + 1);
            proof {
                assert(next.drop_last() =~= below@ + all.take(i as int));
                assert(next.last() == snippet@);
                assert(all.take(i + 1).drop_last() =~= all.take(i as int));
                assert(all.take(i + 1).last() == snippet@);
            }
            if snippet.default_expansion_round_trips() {
                let copy = snippet.clone();
                let name = snippet.name.clone();
                let ghost key = name@;
                let ghost kept = copy;
                self.effective.insert(name, copy);
                proof {
                    assert forall|j: int| 0 <= j < self.effective.entries@.len() implies (
                    #[trigger] self.effective.entries@[j]).1@.name
                        == self.effective.entries@[j].0@ && usable(
                        self.effective.entries@[j].1@,
                    ) by {
                        let k = self.effective.entries@[j].0@;
                        self.effective.lemma_entry_is_at(j);
                        if k != key {
                            before.effective.lemma_at_is_entry(k);
                        }
                    }
                    assert forall|n: Seq<char>| #[trigger] self.find(n) == last_usable(next, n) by {
                        assert(before.find(n) == last_usable(next.drop_last(), n));
                        if n == key {
                            assert(self.effective.at(key) == Some(kept));
                        }
                    }
                }
            } else {
                dropped += 1;
                proof {
                    assert forall|n: Seq<char>| #[trigger] self.find(n) == last_usable(next, n) by {
                        assert(before.find(n) == last_usable(next.drop_last(), n));
                    }
                }
            }
            i += 1;
        }
        assert(all.take(snippets@.len() as int) =~= all);
        dropped
    }

    /// The number of snippets on offer.
    pub fn len(&self) -> (r: usize)
        ensures
            r == self.effective.entries@.len(),
    {
        self.effective.len()
    }

    /// Whether there are none.
    pub fn is_empty(&self) -> (r: bool)
        ensures
            r == (self.effective.entries@.len() == 0),
    {
        self.effective.is_empty()
    }

    /// The snippet called `name`.
    pub fn get(&self, name: &str) -> (r: Option<&Snippet>)
        requires
            self.wf(),
        ensures
            match r {
                Some(s) => self.effective.at(name@) == Some(*s) && self.find(name@) == Some(s@),
                None => self.find(name@) is None,
            },
    {
        self.effective.get(name)
    }

    /// The first snippet, in order of names, that `prefix` brings up.
    pub fn by_prefix(&self, prefix: &str) -> (r: Option<&Snippet>)
        ensures
            match r {
                Some(s) => exists|i: int|
                    0 <= i < self.effective.entries@.len() && *s == (
                    #[trigger] self.effective.entries@[i]).1 && s.prefix@ == prefix@ && (forall|
                        j: int,
                    |
                        0 <= j < i ==> (#[trigger] self.effective.entries@[j]).1.prefix@
                            != prefix@),
                None => forall|j: int|
                    0 <= j < self.effective.entries@.len() ==> (
                    #[trigger] self.effective.entries@[j]).1.prefix@ != prefix@,
            },
    {
        let mut i: usize = 0;
        while i < self.effective.entries.len()
            invariant
                i <= self.effective.entries@.len(),
                forall|j: int|
                    0 <= j < i ==> (#[trigger] self.effective.entries@[j]).1.prefix@ != prefix@,
            decreases self.effective.entries@.len() - i,
        {
            if text::same_text(self.effective.entries[i].1.prefix.as_str(), prefix) {
                return Some(&self.effective.entries[i].1);
            }
            i += 1;
        }
        None
    }

    /// All snippets, in order of names.
    pub fn iter(&self) -> (r: Vec<&Snippet>)
        ensures
            r@.len() == self.effective.entries@.len(),
            forall|i: int| 0 <= i < r@.len() ==> *(#[trigger] r@[i]) == self.effective.entries@[i].1,
    {
        let mut r: Vec<&Snippet> = Vec::new();
        let mut i: usize = 0;
        while i < self.effective.entries.len()
            invariant
                i <= self.effective.entries@.len(),
                r@.len() == i,
                forall|j: int| 0 <= j < i ==> *(#[trigger] r@[j]) == self.effective.entries@[j].1,
            decreases self.effective.entries@.len() - i,
        {
            r.push(&self.effective.entries[i].1);
            i += 1;
        }
        r
    }

    /// What the user is told of the snippet file.
    pub fn notice(&self) -> (r: Option<&str>)
        ensures
            match r {
                Some(n) => self.notice is Some && n@ == self.notice->0@,
                None => self.notice is None,
            },
    {
        match &self.notice {
            Some(n) => Some(n.as_str()),
            None => None,
        }
    }

    /// How reading the snippet file went.
    pub fn user_status(&self) -> (r: SnippetParseStatus)
        ensures
            r == self.user_status,
    {
        self.user_status
    }

    /// The prefix and the description of each snippet, in order of names.
    pub fn menu_entries(&self) -> (r: Vec<(String, String)>)
        ensures
            r@.len() == self.effective.entries@.len(),
            forall|i: int|
                0 <= i < r@.len() ==> (#[trigger] r@[i]).0@ == self.effective.entries@[i].1.prefix@
                    && r@[i].1@ == self.effective.entries@[i].1.description@,
    {
        let mut r: Vec<(String, String)> = Vec::new();
        let mut i: usize = 0;
        while i < self.effective.entries.len()
            invariant
                i <= self.effective.entries@.len(),
                r@.len() == i,
                forall|j: int|
                    0 <= j < i ==> (#[trigger] r@[j]).0@ == self.effective.entries@[j].1.prefix@
                        && r@[j].1@ == self.effective.entries@[j].1.description@,
            decreases self.effective.entries@.len() - i,
        {
            let s = &self.effective.entries[i].1;
            r.push((s.prefix.clone(), s.description.clone()));
            i += 1;
        }
        r
    }
}

/// What a tab stop is.
#[derive(Debug, PartialEq, Eq)]
pub enum TabStopKind {
    /// A place in the text.
    Plain,
    /// A default text to type over.
    Placeholder { default: String },
    /// A choice; its first option is the default text.
    Choice { options: Vec<String> },
}

/// What a tab stop is, as a mathematical value.
pub enum StopKind {
    Plain,
    Placeholder(Seq<char>),
    Choice(Seq<Seq<char>>),
}

impl StopKind {
    /// The text that stands in the expansion at first.
    pub open spec fn default_text(self) -> Seq<char> {
        match self {
            StopKind::Plain => Seq::empty(),
            StopKind::Placeholder(default) => default,
            StopKind::Choice(options) => if options.len() > 0 {
                options[0]
            } else {
                Seq::empty()
            },
        }
    }
}

impl View for TabStopKind {
    type V = StopKind;

    open spec fn view(&self) -> StopKind {
        match self {
            TabStopKind::Plain => StopKind::Plain,
            TabStopKind::Placeholder { default } => StopKind::Placeholder(default@),
            TabStopKind::Choice { options } => StopKind::Choice(text::strings(options@)),
        }
    }
}

impl Clone for TabStopKind {
    fn clone(&self) -> (r: Self)
        ensures
            r@ == self@,
    {
        match self {
            TabStopKind::Plain => TabStopKind::Plain,
            TabStopKind::Placeholder { default } => TabStopKind::Placeholder {
                default: default.clone(),
            },
            TabStopKind::Choice { options } => TabStopKind::Choice {
                options: text::copy_strings(options),
            },
        }
    }
}

impl TabStopKind {
    fn default_text(&self) -> (r: String)
        ensures
            r@ == self@.default_text(),
    {
        match self {
            TabStopKind::Plain => String::new(),
            TabStopKind::Placeholder { default } => default.clone(),
            TabStopKind::Choice { options } => if options.len() > 0 {
                options[0].clone()
            } else {
                String::new()
            },
        }
    }
}

/// A tab stop of an expansion.
#[derive(Debug, PartialEq, Eq)]
pub struct TabStop {
    /// Its number.
    pub index: u32,
    /// The character of the expansion at which it starts.
    pub char_start: usize,
    /// The character at which it ends.
    pub char_end: usize,
    /// What it is.
    pub kind: TabStopKind,
}

/// A tab stop as a mathematical value.
pub struct Stop {
    pub index: u32,
    pub start: nat,
    pub end: nat,
    pub kind: StopKind,
}

impl View for TabStop {
    type V = Stop;

    open spec fn view(&self) -> Stop {
        Stop {
            index: self.index,
            start: self.char_start as nat,
            end: self.char_end as nat,
            kind: self.kind@,
        }
    }
}

/// Tab stops as mathematical values.
pub open spec fn stop_models(stops: Seq<TabStop>) -> Seq<Stop> {
    stops.map_values(|s: TabStop| s@)
}

/// What a snippet body expands to.
#[derive(Debug, PartialEq, Eq)]
pub struct Expansion {
    /// The text, with the defaults in place of the markers.
    pub text: String,
    /// The tab stops in the order in which they are visited.
    pub stops: Vec<TabStop>,
}

/// An expansion as a mathematical value.
pub struct Expanded {
    pub text: Seq<char>,
    pub stops: Seq<Stop>,
}

impl View for Expansion {
    type V = Expanded;

    open spec fn view(&self) -> Expanded {
        Expanded { text: self.text@, stops: stop_models(self.stops@) }
    }
}

impl Expansion {
    /// The tab stops in the order in which they are visited.
    pub fn stops(&self) -> (r: &[TabStop])
        ensures
            r@ == self.stops@,
    {
        self.stops.as_slice()
    }

    /// The number of tab stops.
    pub fn stop_count(&self) -> (r: usize)
        ensures
            r == self.stops@.len(),
    {
        self.stops.len()
    }
}

/// Whether a character is a decimal digit.
pub open spec fn digit(c: char) -> bool {
    '0' <= c <= '9'
}

/// The end of the run of digits that starts at `from`.
pub open spec fn digits_end(s: Seq<char>, from: int) -> int
    decreases s.len() - from,
{
    if from < s.len() && digit(s[from]) {
        digits_end(s, from + 1)
    } else {
        from
    }
}

/// The number that digits denote.
pub open spec fn number_of(digits: Seq<char>) -> nat
    decreases digits.len(),
{
    if digits.len() == 0 {
        0
    } else {
        number_of(digits.drop_last()) * 10 + (digits.last() as nat - '0' as nat) as nat
    }
}

/// The number that stands at `from`, and where it ends. It has to fit in 32 bits.
pub open spec fn index_at(s: Seq<char>, from: int) -> Option<(u32, int)> {
    let end = digits_end(s, from);
    let n = number_of(s.subrange(from, end));
    if end <= from || n > u32::MAX {
        None
    } else {
        Some((n as u32, end))
    }
}

/// A marker: the number of its tab stop, what it is, and where the marker ends.
pub struct MarkerModel {
    pub index: u32,
    pub kind: StopKind,
    pub end: int,
}

/// The marker that starts with the `$` at `at`.
pub open spec fn marker_at(s: Seq<char>, at: int) -> Option<MarkerModel> {
    if at + 1 >= s.len() {
        None
    } else if digit(s[at + 1]) {
        match index_at(s, at + 1) {
            Some((index, end)) => Some(MarkerModel { index, kind: StopKind::Plain, end }),
            None => None,
        }
    } else if s[at + 1] == '{' {
        match index_at(s, at + 2) {
            Some((index, end)) => braced_marker(s, index, end),
            None => None,
        }
    } else {
        None
    }
}

/// The marker in braces whose number ends at `at`.
pub open spec fn braced_marker(s: Seq<char>, index: u32, at: int) -> Option<MarkerModel> {
    if at >= s.len() {
        None
    } else if s[at] == '}' {
        Some(MarkerModel { index, kind: StopKind::Plain, end: at + 1 })
    } else if s[at] == ':' {
        let close = text::index_from(s, '}', at + 1);
        if close >= s.len() {
            None
        } else {
            Some(
                MarkerModel {
                    index,
                    kind: StopKind::Placeholder(s.subrange(at + 1, close)),
                    end: close + 1,
                },
            )
        }
    } else if s[at] == '|' {
        let bar = text::index_from(s, '|', at + 1);
        let options = text::list_items(s.subrange(at + 1, bar), 0);
        if bar + 1 >= s.len() || s[bar + 1] != '}' || options.len() == 0 {
            None
        } else {
            Some(MarkerModel { index, kind: StopKind::Choice(options), end: bar + 2 })
        }
    } else {
        None
    }
}

/// What the rest of a body from `from` on expands to, `at` characters into the
/// expansion: the text, and the tab stops in the order of the body.
pub open spec fn expanded(s: Seq<char>, from: int, at: nat) -> Expanded
    decreases s.len() - from,
{
    if from < 0 || from >= s.len() {
        Expanded { text: Seq::empty(), stops: Seq::empty() }
    } else if s[from] == '\\' && from + 1 < s.len() && s[from + 1] == '$' {
        let rest = expanded(s, from + 2, at + 1);
        Expanded { text: seq!['$'] + rest.text, stops: rest.stops }
    } else if s[from] == '$' && marker_at(s, from) is Some {
        let marker = marker_at(s, from)->0;
        let default = marker.kind.default_text();
        proof {
            lemma_marker_end(s, from);
        }
        let rest = expanded(s, marker.end, at + default.len());
        let stop = Stop {
            index: marker.index,
            start: at,
            end: at + default.len(),
            kind: marker.kind,
        };
        Expanded { text: default + rest.text, stops: seq![stop] + rest.stops }
    } else {
        let rest = expanded(s, from + 1, at + 1);
        Expanded { text: seq![s[from]] + rest.text, stops: rest.stops }
    }
}

proof fn lemma_digits_end(s: Seq<char>, from: int)
    requires
        from <= s.len(),
    ensures
        from <= digits_end(s, from) <= s.len(),
    decreases s.len() - from,
{
    if from < s.len() && digit(s[from]) {
        lemma_digits_end(s, from + 1);
    }
}

proof fn lemma_index_from(s: Seq<char>, c: char, from: int)
    requires
        0 <= from <= s.len(),
    ensures
        from <= text::index_from(s, c, from) <= s.len(),
    decreases s.len() - from,
{
    if from < s.len() && s[from] != c {
        lemma_index_from(s, c, from + 1);
    }
}

/// A marker ends behind its `$`, within the body.
pub proof fn lemma_marker_end(s: Seq<char>, at: int)
    requires
        0 <= at < s.len(),
    ensures
        marker_at(s, at) matches Some(m) ==> at < m.end <= s.len(),
{
    if at + 1 < s.len() {
        if digit(s[at + 1]) {
            lemma_digits_end(s, at + 1);
        } else {
            lemma_digits_end(s, at + 2);
            let end = digits_end(s, at + 2);
            if end < s.len() {
                lemma_index_from(s, '}', end + 1);
                lemma_index_from(s, '|', end + 1);
            }
        }
    }
}

/// When a tab stop is visited: in order of the numbers, but zero last.
pub open spec fn rank(index: u32) -> nat {
    if index == 0 {
        u32::MAX as nat + 1
    } else {
        index as nat
    }
}

/// The tab stops in order, with one more put behind those that are visited no later.
pub open spec fn placed(stops: Seq<Stop>, stop: Stop) -> Seq<Stop>
    decreases stops.len(),
{
    if stops.len() == 0 || rank(stops.last().index) <= rank(stop.index) {
        stops.push(stop)
    } else {
        placed(stops.drop_last(), stop).push(stops.last())
    }
}

/// The tab stops of a body in the order in which they are visited.
pub open spec fn navigation(stops: Seq<Stop>) -> Seq<Stop>
    decreases stops.len(),
{
    if stops.len() == 0 {
        Seq::empty()
    } else {
        placed(navigation(stops.drop_last()), stops.last())
    }
}

/// What a body expands to.
pub open spec fn expansion(body: Seq<char>) -> Expanded {
    let e = expanded(body, 0, 0);
    Expanded { text: e.text, stops: navigation(e.stops) }
}

/// Expands a snippet body: the markers give way to their default texts, `\$` to `$`.
/// A `$` that starts no marker stays as it is.
pub fn expand_snippet(body: &str) -> (r: Expansion)
    ensures
        r@ == expansion(body@),
{
    let chars = text::chars_of(body);
    let n = chars.len();
    let mut text = String::new();
    let mut stops: Vec<TabStop> = Vec::new();
    let ghost mut found = Seq::<Stop>::empty();
    let ghost whole = expanded(chars@, 0, 0);
    let mut count: usize = 0;
    let mut i: usize = 0;
    proof {
        assert(stop_models(stops@) =~= navigation(found));
        assert(text@ + whole.text =~= whole.text);
        assert(found + whole.stops =~= whole.stops);
    }
    while i < n
        invariant
            n == chars@.len(),
            chars@ == body@,
            i <= n,
            whole == expanded(chars@, 0, 0),
            count == text@.len(),
            text@ + expanded(chars@, i as int, count as nat).text == whole.text,
            found + expanded(chars@, i as int, count as nat).stops == whole.stops,
            stop_models(stops@) == navigation(found),
        decreases n - i,
    {
        let c = chars[i];
        let ghost before = text@;
        if c == '\\' && i + 1 < n && chars[i + 1] == '$' {
            text.push('$');
            proof {
                let rest = expanded(chars@, i + 2, (count + 1) as nat);
                assert(before + (seq!['$'] + rest.text) =~= text@ + rest.text);
            }
            count = grown(count, 1, &text);
            i += 2;
            continue;
        }
        if c == '$' {
            if let Some(marker) = parse_marker(&chars, i) {
                let start = count;
                let default = marker.kind.default_text();
                text.push_str(default.as_str());
                count = grown(count, text::char_count(default.as_str()), &text);
                let stop = TabStop {
                    index: marker.index,
                    char_start: start,
                    char_end: count,
                    kind: marker.kind,
                };
                proof {
                    let rest = expanded(chars@, marker.end as int, count as nat);
                    assert(before + (default@ + rest.text) =~= text@ + rest.text);
                    assert(found + (seq![stop@] + rest.stops) =~= found.push(stop@) + rest.stops);
                    assert(found.push(stop@).drop_last() =~= found);
                    found = found.push(stop@);
                }
                place_stop(&mut stops, stop);
                i = marker.end;
                continue;
            }
        }
        text.push(c);
        proof {
            let rest = expanded(chars@, i + 1, (count + 1) as nat);
            assert(before + (seq![c] + rest.text) =~= text@ + rest.text);
        }
        count = grown(count, 1, &text);
        i += 1;
    }
    proof {
        assert(text@ + Seq::<char>::empty() =~= text@);
        assert(found + Seq::<Stop>::empty() =~= found);
    }
    Expansion { text, stops }
}

/// The length of a text that has grown from `count` characters by `by`.
fn grown(count: usize, by: usize, text: &String) -> (r: usize)
    requires
        count + by == text@.len(),
    ensures
        r == text@.len(),
{
    proof {
        text::lemma_empty_has_no_bytes(text@);
    }
    let limit = text.as_str().as_bytes().len();
    assert(count + by <= limit);
    count + by
}

/// A marker and where it ends.
struct Marker {
    index: u32,
    kind: TabStopKind,
    end: usize,
}

impl View for Marker {
    type V = MarkerModel;

    closed spec fn view(&self) -> MarkerModel {
        MarkerModel { index: self.index, kind: self.kind@, end: self.end as int }
    }
}

/// Reads the marker that starts with the `$` at `start`.
fn parse_marker(chars: &Vec<char>, start: usize) -> (r: Option<Marker>)
    requires
        start < chars@.len(),
    ensures
        match r {
            Some(m) => marker_at(chars@, start as int) == Some(m@) && start < m.end <= chars@.len(),
            None => marker_at(chars@, start as int) is None,
        },
{
    let n = chars.len();
    proof {
        lemma_marker_end(chars@, start as int);
    }
    if start + 1 >= n {
        return None;
    }
    let next = chars[start + 1];
    if '0' <= next && next <= '9' {
        return match parse_index(chars, start + 1) {
            Some((index, end)) => Some(Marker { index, kind: TabStopKind::Plain, end }),
            None => None,
        };
    }
    if next == '{' {
        return match parse_index(chars, start + 2) {
            Some((index, end)) => parse_braced_marker(chars, index, end),
            None => None,
        };
    }
    None
}

/// Reads the rest of a marker in braces whose number ends at `at`.
fn parse_braced_marker(chars: &Vec<char>, index: u32, at: usize) -> (r: Option<Marker>)
    requires
        at <= chars@.len(),
    ensures
        match r {
            Some(m) => braced_marker(chars@, index, at as int) == Some(m@),
            None => braced_marker(chars@, index, at as int) is None,
        },
{
    let n = chars.len();
    if at >= n {
        return None;
    }
    match chars[at] {
        '}' => Some(Marker { index, kind: TabStopKind::Plain, end: at + 1 }),
        ':' => {
            let close = text::find_from(chars, '}', at + 1);
            if close >= n {
                return None;
            }
            let default = text::slice(chars, at + 1, close);
            Some(Marker { index, kind: TabStopKind::Placeholder { default }, end: close + 1 })
        },
        '|' => {
            let bar = text::find_from(chars, '|', at + 1);
            if bar >= n || bar + 1 >= n || chars[bar + 1] != '}' {
                return None;
            }
            let raw = text::slice(chars, at + 1, bar);
            let options = text::list_of(raw.as_str());
            assert(text::strings(options@).len() == options@.len());
            if options.len() == 0 {
                return None;
            }
            Some(Marker { index, kind: TabStopKind::Choice { options }, end: bar + 2 })
        },
        _ => None,
    }
}

proof fn lemma_number_grows(digits: Seq<char>, from: int)
    requires
        0 <= from <= digits.len(),
    ensures
        number_of(digits.take(from)) <= number_of(digits),
    decreases digits.len() - from,
{
    if from == digits.len() {
        assert(digits.take(from) =~= digits);
    } else {
        lemma_number_grows(digits, from + 1);
        assert(digits.take(from + 1).drop_last() =~= digits.take(from));
    }
}

/// Reads the number at `from`: its value and where it ends.
fn parse_index(chars: &Vec<char>, from: usize) -> (r: Option<(u32, usize)>)
    requires
        from <= chars@.len(),
    ensures
        match r {
            Some((n, end)) => index_at(chars@, from as int) == Some((n, end as int)) && end
                <= chars@.len(),
            None => index_at(chars@, from as int) is None,
        },
{
    let ghost last = digits_end(chars@, from as int);
    proof {
        lemma_digits_end(chars@, from as int);
    }
    let ghost run = chars@.subrange(from as int, last);
    let mut value: u32 = 0;
    let mut i: usize = from;
    while i < chars.len() && '0' <= chars[i] && chars[i] <= '9'
        invariant
            from <= i <= last <= chars@.len(),
            last == digits_end(chars@, from as int),
            last == digits_end(chars@, i as int),
            run == chars@.subrange(from as int, last),
            value == number_of(run.take(i - from)),
        decreases chars@.len() - i,
    {
        let d: u32 = chars[i] as u32 - '0' as u32;
        proof {
            lemma_digits_end(chars@, i + 1);
            assert(run.take(i + 1 - from).drop_last() =~= run.take(i - from));
            assert(run.take(i + 1 - from).last() == chars@[i as int]);
            assert(number_of(run.take(i + 1 - from)) == value * 10 + d);
            lemma_number_grows(run, i + 1 - from);
        }
        if value > (u32::MAX - d) / 10 {
            return None;
        }
        value = value * 10 + d;
        i += 1;
    }
    assert(run.take(i - from) =~= run);
    if i == from {
        None
    } else {
        Some((value, i))
    }
}

/// Puts a tab stop behind those that are visited no later.
fn place_stop(stops: &mut Vec<TabStop>, stop: TabStop)
    ensures
        stop_models(final(stops)@) == placed(stop_models(old(stops)@), stop@),
{
    let ghost all = stop_models(stops@);
    let mut at: usize = stops.len();
    proof {
        assert(all.take(at as int) =~= all);
        assert(placed(all, stop@) + all.skip(at as int) =~= placed(all, stop@));
    }
    while at > 0 && later(stops[at - 1].index, stop.index)
        invariant
            at <= stops@.len(),
            all == stop_models(stops@),
            placed(all, stop@) == placed(all.take(at as int), stop@) + all.skip(at as int),
        decreases at,
    {
        proof {
            let part = all.take(at as int);
            assert(part.drop_last() =~= all.take(at - 1));
            assert(placed(part.drop_last(), stop@).push(part.last()) + all.skip(at as int)
                =~= placed(part.drop_last(), stop@) + all.skip(at - 1));
        }
        at -= 1;
    }
    let ghost put = stop@;
    stops.insert(at, stop);
    assert(stop_models(stops@) =~= all.take(at as int).push(put) + all.skip(at as int));
}

/// Whether the tab stop numbered `a` is visited later than the one numbered `b`.
fn later(a: u32, b: u32) -> (r: bool)
    ensures
        r == (rank(a) > rank(b)),
{
    if a == 0 {
        b != 0
    } else {
        b != 0 && a > b
    }
}

/// What an insertion into a buffer gives.
#[derive(Debug, PartialEq, Eq)]
pub struct SnippetInsertion {
    /// The buffer with the expansion in it.
    pub new_buffer: String,
    /// The visit of the tab stops.
    pub session: SnippetSession,
}

/// A visit of tab stops.
#[derive(Debug, PartialEq, Eq)]
pub struct SnippetSession {
    /// The tab stops in the order in which they are visited.
    pub stops: Vec<SessionStop>,
    /// The position in `stops` of the one that is being visited.
    pub active: Option<usize>,
}

/// A tab stop of a buffer.
#[derive(Debug, PartialEq, Eq)]
pub struct SessionStop {
    /// Its number.
    pub index: u32,
    /// The character of the buffer at which it starts.
    pub char_start: usize,
    /// The character at which it ends.
    pub char_end: usize,
    /// What it is.
    pub kind: TabStopKind,
}

impl View for SessionStop {
    type V = Stop;

    open spec fn view(&self) -> Stop {
        Stop {
            index: self.index,
            start: self.char_start as nat,
            end: self.char_end as nat,
            kind: self.kind@,
        }
    }
}

/// The position of the stop after the active one of `count`; none behind the last.
pub open spec fn after_next(active: Option<usize>, count: nat) -> Option<usize> {
    match active {
        Some(i) => if i + 1 < count {
            Some((i + 1) as usize)
        } else {
            None
        },
        None => None,
    }
}

/// The position of the stop before the active one of `count`; the first one stays.
pub open spec fn after_prev(active: Option<usize>, count: nat) -> Option<usize> {
    let i = match active {
        Some(i) => if i > 0 {
            i - 1
        } else {
            0
        },
        None => 0,
    };
    if i < count {
        Some(i as usize)
    } else {
        None
    }
}

impl SnippetSession {
    /// The active stop is one of the stops.
    pub open spec fn wf(&self) -> bool {
        self.active matches Some(i) ==> i < self.stops@.len()
    }

    /// The stop that is being visited.
    pub open spec fn current(&self) -> Option<SessionStop> {
        match self.active {
            Some(i) => if i < self.stops@.len() {
                Some(self.stops@[i as int])
            } else {
                None
            },
            None => None,
        }
    }

    /// The stop that is being visited.
    pub fn active_stop(&self) -> (r: Option<&SessionStop>)
        ensures
            match r {
                Some(s) => self.current() == Some(*s),
                None => self.current() is None,
            },
    {
        match self.active {
            Some(i) => if i < self.stops.len() {
                Some(&self.stops[i])
            } else {
                None
            },
            None => None,
        }
    }

    /// Whether a stop is being visited.
    pub fn is_active(&self) -> (r: bool)
        ensures
            r == (self.active is Some),
    {
        self.active.is_some()
    }

    /// Where the caret belongs.
    pub fn caret(&self) -> (r: Option<usize>)
        ensures
            r == (match self.current() {
                Some(s) => Some(s.char_start),
                None => None,
            }),
    {
        match self.active_stop() {
            Some(s) => Some(s.char_start),
            None => None,
        }
    }

    /// What to select: the default text of the stop, if it has one.
    pub fn selection(&self) -> (r: Option<(usize, usize)>)
        ensures
            r == (match self.current() {
                Some(s) => if s.char_end > s.char_start {
                    Some((s.char_start, s.char_end))
                } else {
                    None
                },
                None => None,
            }),
    {
        match self.active_stop() {
            Some(s) => if s.char_end > s.char_start {
                Some((s.char_start, s.char_end))
            } else {
                None
            },
            None => None,
        }
    }

    /// The number of stops.
    pub fn stop_count(&self) -> (r: usize)
        ensures
            r == self.stops@.len(),
    {
        self.stops.len()
    }

    /// Goes on to the next stop. Behind the last one the visit ends.
    pub fn next_stop(&mut self) -> (r: Option<usize>)
        ensures
            final(self).stops == old(self).stops,
            final(self).active == after_next(old(self).active, old(self).stops@.len()),
            final(self).wf(),
            r == (match final(self).current() {
                Some(s) => Some(s.char_start),
                None => None,
            }),
    {
        let count = self.stops.len();
        self.active = match self.active {
            Some(i) => if i < count && i + 1 < count {
                Some(i + 1)
            } else {
                None
            },
            None => None,
        };
        self.caret()
    }

    /// Goes back to the stop before. The first one stays, and an ended visit starts
    /// over there.
    pub fn prev_stop(&mut self) -> (r: Option<usize>)
        ensures
            final(self).stops == old(self).stops,
            final(self).active == after_prev(old(self).active, old(self).stops@.len()),
            final(self).wf(),
            r == (match final(self).current() {
                Some(s) => Some(s.char_start),
                None => None,
            }),
    {
        let i: usize = match self.active {
            Some(i) => if i > 0 {
                i - 1
            } else {
                0
            },
            None => 0,
        };
        self.active = if i < self.stops.len() {
            Some(i)
        } else {
            None
        };
        self.caret()
    }

    /// Ends the visit.
    pub fn end(&mut self)
        ensures
            final(self).stops == old(self).stops,
            final(self).active is None,
    {
        self.active = None;
    }
}

/// Going back undoes going on, while there is a next stop.
pub proof fn going_back_undoes_going_on(active: Option<usize>, count: nat)
    requires
        count <= usize::MAX,
        active is Some,
        after_next(active, count) is Some,
    ensures
        after_prev(after_next(active, count), count) == active,
{
}

/// A tab stop moved by `offset` characters.
pub open spec fn rebased(stop: Stop, offset: nat) -> Stop {
    Stop {
        index: stop.index,
        start: stop.start + offset,
        end: stop.end + offset,
        kind: stop.kind,
    }
}

/// The buffer with an expansion at `caret`.
pub open spec fn spliced(buffer: Seq<char>, caret: int, text: Seq<char>) -> Seq<char> {
    buffer.take(caret) + text + buffer.skip(caret)
}

/// Whether an insertion is what expanding `body` at `caret` gives.
pub open spec fn inserts(
    insertion: SnippetInsertion,
    buffer: Seq<char>,
    caret: nat,
    body: Seq<char>,
) -> bool {
    let e = expansion(body);
    let session = insertion.session;
    &&& insertion.new_buffer@ == spliced(buffer, caret as int, e.text)
    &&& session.stops@.len() == e.stops.len()
    &&& forall|i: int|
        0 <= i < e.stops.len() ==> (#[trigger] session.stops@[i])@ == rebased(e.stops[i], caret)
    &&& session.active == (if e.stops.len() == 0 {
        None::<usize>
    } else {
        Some(0usize)
    })
}

/// The buffer with the expansion of `body` at the caret; none for a caret that is not
/// in the buffer.
pub fn candidate_buffer(buffer: &str, caret_char: usize, body: &str) -> (r: Option<String>)
    ensures
        match r {
            Some(b) => caret_char <= buffer@.len() && b@ == spliced(
                buffer@,
                caret_char as int,
                expansion(body@).text,
            ),
            None => caret_char > buffer@.len(),
        },
{
    let chars = text::chars_of(buffer);
    if caret_char > chars.len() {
        return None;
    }
    let expansion = expand_snippet(body);
    Some(splice(&chars, caret_char, expansion.text.as_str()))
}

/// The text `inner` put into a text at `caret`.
fn splice(chars: &Vec<char>, caret: usize, inner: &str) -> (r: String)
    requires
        caret <= chars@.len(),
    ensures
        r@ == spliced(chars@, caret as int, inner@),
{
    let mut r = text::slice(chars, 0, caret);
    r.push_str(inner);
    let tail = text::slice(chars, caret, chars.len());
    r.push_str(tail.as_str());
    assert(r@ =~= spliced(chars@, caret as int, inner@));
    r
}

/// Puts the expansion of `body` into the buffer at the caret, where the text before
/// has `before` problems and the text after it `after`. An insertion that would add
/// problems is refused, and so is one at a caret that is not in the buffer.
pub fn insert_unless_worse(
    buffer: &str,
    caret_char: usize,
    body: &str,
    before: usize,
    after: usize,
) -> (r: Option<SnippetInsertion>)
    ensures
        r is Some <==> caret_char <= buffer@.len() && after <= before,
        r matches Some(i) ==> inserts(i, buffer@, caret_char as nat, body@) && i.session.wf(),
{
    let chars = text::chars_of(buffer);
    if caret_char > chars.len() || after > before {
        return None;
    }
    let expansion = expand_snippet(body);
    let new_buffer = splice(&chars, caret_char, expansion.text.as_str());
    let total = text::char_count(new_buffer.as_str());
    let ghost e = expansion@;
    proof {
        stops_cover_their_defaults(body@);
    }
    let mut stops: Vec<SessionStop> = Vec::new();
    let mut i: usize = 0;
    while i < expansion.stops.len()
        invariant
            i <= expansion.stops@.len(),
            e == expansion@,
            e == self::expansion(body@),
            e.stops.len() == expansion.stops@.len(),
            caret_char + e.text.len() <= total,
            forall|j: int| 0 <= j < e.stops.len() ==> covers(e.text, #[trigger] e.stops[j]),
            stops@.len() == i,
            forall|j: int|
                0 <= j < i ==> (#[trigger] stops@[j])@ == rebased(e.stops[j], caret_char as nat),
        decreases expansion.stops@.len() - i,
    {
        let s = &expansion.stops[i];
        assert(s@ == e.stops[i as int]);
        assert(covers(e.text, e.stops[i as int]));
        stops.push(
            SessionStop {
                index: s.index,
                char_start: caret_char + s.char_start,
                char_end: caret_char + s.char_end,
                kind: s.kind.clone(),
            },
        );
        i += 1;
    }
    let active: Option<usize> = if stops.len() == 0 {
        None
    } else {
        Some(0)
    };
    Some(SnippetInsertion { new_buffer, session: SnippetSession { stops, active } })
}

/// Puts the expansion of `body` into the buffer at the caret. It is refused where the
/// caret is not in the buffer, and where the buffer was RON and would not be any more.
/// The RON library says whether a text is RON, not how many problems it has: where a
/// parser counts them, [`insert_unless_worse`] refuses what adds to them.
pub fn insert_snippet(buffer: &str, caret_char: usize, body: &str) -> (r: Option<
    SnippetInsertion,
>)
    ensures
        r is Some <==> caret_char <= buffer@.len() && (grammar::ron_accepts(buffer@)
            ==> grammar::ron_accepts(
            spliced(buffer@, caret_char as int, expansion(body@).text),
        )),
        r matches Some(i) ==> inserts(i, buffer@, caret_char as nat, body@) && i.session.wf(),
{
    let candidate = match candidate_buffer(buffer, caret_char, body) {
        Some(c) => c,
        None => return None,
    };
    let before: usize = if body_round_trips(buffer) {
        0
    } else {
        1
    };
    let after: usize = if body_round_trips(candidate.as_str()) {
        0
    } else {
        1
    };
    insert_unless_worse(buffer, caret_char, body, before, after)
}

/// Whether a tab stop lies in a text and covers exactly its default text.
pub open spec fn covers(text: Seq<char>, stop: Stop) -> bool {
    &&& stop.start <= stop.end <= text.len()
    &&& text.subrange(stop.start as int, stop.end as int) == stop.kind.default_text()
}

proof fn lemma_placed_contains(stops: Seq<Stop>, stop: Stop, i: int)
    requires
        0 <= i < placed(stops, stop).len(),
    ensures
        placed(stops, stop)[i] == stop || stops.contains(placed(stops, stop)[i]),
        placed(stops, stop).len() == stops.len() + 1,
    decreases stops.len(),
{
    if stops.len() == 0 || rank(stops.last().index) <= rank(stop.index) {
        if i < stops.len() {
            assert(stops.contains(stops[i]));
        }
    } else {
        let inner = placed(stops.drop_last(), stop);
        if i < inner.len() {
            lemma_placed_contains(stops.drop_last(), stop, i);
            if stops.drop_last().contains(inner[i]) {
                let k = choose|k: int| 0 <= k < stops.len() - 1 && stops.drop_last()[k] == inner[i];
                assert(stops[k] == inner[i]);
            }
        } else {
            if inner.len() > 0 {
                lemma_placed_contains(stops.drop_last(), stop, 0);
            } else {
                lemma_placed_len(stops.drop_last(), stop);
            }
            assert(stops.contains(stops.last()));
        }
        lemma_placed_len(stops.drop_last(), stop);
    }
}

proof fn lemma_placed_len(stops: Seq<Stop>, stop: Stop)
    ensures
        placed(stops, stop).len() == stops.len() + 1,
    decreases stops.len(),
{
    if !(stops.len() == 0 || rank(stops.last().index) <= rank(stop.index)) {
        lemma_placed_len(stops.drop_last(), stop);
    }
}

proof fn lemma_navigation_contains(stops: Seq<Stop>, i: int)
    requires
        0 <= i < navigation(stops).len(),
    ensures
        stops.contains(navigation(stops)[i]),
    decreases stops.len(),
{
    let inner = navigation(stops.drop_last());
    lemma_placed_contains(inner, stops.last(), i);
    let x = navigation(stops)[i];
    if x == stops.last() {
        assert(stops[stops.len() - 1] == x);
    } else {
        let k = choose|k: int| 0 <= k < inner.len() && inner[k] == x;
        lemma_navigation_contains(stops.drop_last(), k);
        let m = choose|m: int| 0 <= m < stops.len() - 1 && stops.drop_last()[m] == x;
        assert(stops[m] == x);
    }
}

proof fn lemma_stops_cover(s: Seq<char>, from: int, at: nat)
    requires
        0 <= from <= s.len(),
    ensures
        forall|i: int|
            0 <= i < expanded(s, from, at).stops.len() ==> at <= (
            #[trigger] expanded(s, from, at).stops[i]).start && covers(
                expanded(s, from, at).text,
                Stop {
                    start: (expanded(s, from, at).stops[i].start - at) as nat,
                    end: (expanded(s, from, at).stops[i].end - at) as nat,
                    ..expanded(s, from, at).stops[i]
                },
            ) && expanded(s, from, at).stops[i].end >= at,
    decreases s.len() - from,
{
    let e = expanded(s, from, at);
    if from < s.len() {
        let marker = marker_at(s, from);
        let escaped = s[from] == '\\' && from + 1 < s.len() && s[from + 1] == '$';
        let marked = !escaped && s[from] == '$' && marker is Some;
        lemma_marker_end(s, from);
        let (next, shift) = if escaped {
            (from + 2, 1nat)
        } else if marked {
            (marker->0.end, marker->0.kind.default_text().len())
        } else {
            (from + 1, 1nat)
        };
        let rest = expanded(s, next, at + shift);
        lemma_stops_cover(s, next, at + shift);
        let first: int = if marked {
            1
        } else {
            0
        };
        assert(e.text.skip(shift as int) =~= rest.text);
        assert forall|i: int| 0 <= i < e.stops.len() implies at <= (#[trigger] e.stops[i]).start
            && covers(
            e.text,
            Stop {
                start: (e.stops[i].start - at) as nat,
                end: (e.stops[i].end - at) as nat,
                ..e.stops[i]
            },
        ) && e.stops[i].end >= at by {
            if i < first {
                assert(e.text.subrange(0, shift as int) =~= e.stops[i].kind.default_text());
            } else {
                let r = rest.stops[i - first];
                assert(e.stops[i] == r);
                let a = r.start - at;
                let b = r.end - at;
                assert(e.text.subrange(a, b) =~= rest.text.subrange(a - shift, b - shift));
            }
        }
    }
}

/// Each tab stop of an expansion lies in its text and covers exactly its default text.
pub proof fn stops_cover_their_defaults(body: Seq<char>)
    ensures
        forall|i: int|
            0 <= i < expansion(body).stops.len() ==> covers(
                expansion(body).text,
                #[trigger] expansion(body).stops[i],
            ),
{
    let e = expanded(body, 0, 0);
    lemma_stops_cover(body, 0, 0);
    assert forall|i: int| 0 <= i < expansion(body).stops.len() implies covers(
        e.text,
        #[trigger] expansion(body).stops[i],
    ) by {
        lemma_navigation_contains(e.stops, i);
        let x = expansion(body).stops[i];
        let k = choose|k: int| 0 <= k < e.stops.len() && e.stops[k] == x;
        assert(e.stops[k] == x);
    }
}

/// The tab stops of one number, in order.
pub open spec fn of_index(stops: Seq<Stop>, index: u32) -> Seq<Stop>
    decreases stops.len(),
{
    if stops.len() == 0 {
        Seq::empty()
    } else if stops.last().index == index {
        of_index(stops.drop_last(), index).push(stops.last())
    } else {
        of_index(stops.drop_last(), index)
    }
}

/// Whether tab stops come in the order in which they are visited.
pub open spec fn in_visiting_order(stops: Seq<Stop>) -> bool {
    forall|i: int, j: int|
        0 <= i < j < stops.len() ==> rank((#[trigger] stops[i]).index) <= rank(
            (#[trigger] stops[j]).index,
        )
}

proof fn lemma_placed_in_order(stops: Seq<Stop>, stop: Stop)
    requires
        in_visiting_order(stops),
    ensures
        in_visiting_order(placed(stops, stop)),
        forall|index: u32| #[trigger]
            of_index(placed(stops, stop), index) == (if stop.index == index {
                of_index(stops, index).push(stop)
            } else {
                of_index(stops, index)
            }),
    decreases stops.len(),
{
    let all = placed(stops, stop);
    if stops.len() == 0 || rank(stops.last().index) <= rank(stop.index) {
        assert(all.drop_last() =~= stops);
    } else {
        let inner = placed(stops.drop_last(), stop);
        assert(in_visiting_order(stops.drop_last()));
        lemma_placed_in_order(stops.drop_last(), stop);
        assert(all.drop_last() =~= inner);
        assert forall|i: int, j: int| 0 <= i < j < all.len() implies rank(
            (#[trigger] all[i]).index,
        ) <= rank((#[trigger] all[j]).index) by {
            if j == all.len() - 1 {
                lemma_placed_contains(stops.drop_last(), stop, i);
                if stops.drop_last().contains(inner[i]) {
                    let k = choose|k: int|
                        0 <= k < stops.len() - 1 && stops.drop_last()[k] == inner[i];
                    assert(stops[k] == inner[i]);
                }
            } else {
                assert(inner[i] == all[i] && inner[j] == all[j]);
            }
        }
        assert forall|index: u32| #[trigger]
            of_index(all, index) == (if stop.index == index {
                of_index(stops, index).push(stop)
            } else {
                of_index(stops, index)
            }) by {
            assert(of_index(inner, index) == (if stop.index == index {
                of_index(stops.drop_last(), index).push(stop)
            } else {
                of_index(stops.drop_last(), index)
            }));
        }
    }
}

/// The tab stops of an expansion come in order of their numbers, with zero last, and
/// those of one number in the order in which the body has them.
pub proof fn stops_are_visited_in_order(body: Seq<char>)
    ensures
        in_visiting_order(expansion(body).stops),
        forall|index: u32| #[trigger]
            of_index(expansion(body).stops, index) == of_index(expanded(body, 0, 0).stops, index),
{
    lemma_navigation_in_order(expanded(body, 0, 0).stops);
}

proof fn lemma_navigation_in_order(stops: Seq<Stop>)
    ensures
        in_visiting_order(navigation(stops)),
        forall|index: u32| #[trigger]
            of_index(navigation(stops), index) == of_index(stops, index),
    decreases stops.len(),
{
    if stops.len() > 0 {
        lemma_navigation_in_order(stops.drop_last());
        lemma_placed_in_order(navigation(stops.drop_last()), stops.last());
        assert forall|index: u32| #[trigger]
            of_index(navigation(stops), index) == of_index(stops, index) by {
            assert(of_index(navigation(stops.drop_last()), index) == of_index(
                stops.drop_last(),
                index,
            ));
        }
    }
}

/// A body without `$` expands to itself.
pub proof fn text_without_markers_is_kept(body: Seq<char>)
    requires
        forall|i: int| 0 <= i < body.len() ==> #[trigger] body[i] != '$',
    ensures
        expansion(body).text == body,
        expansion(body).stops.len() == 0,
{
    lemma_text_kept(body, 0, 0);
    assert(body.skip(0) =~= body);
}

proof fn lemma_text_kept(body: Seq<char>, from: int, at: nat)
    requires
        0 <= from <= body.len(),
        forall|i: int| 0 <= i < body.len() ==> #[trigger] body[i] != '$',
    ensures
        expanded(body, from, at).text == body.skip(from),
        expanded(body, from, at).stops.len() == 0,
    decreases body.len() - from,
{
    if from < body.len() {
        lemma_text_kept(body, from + 1, at + 1);
        assert(seq![body[from]] + body.skip(from + 1) =~= body.skip(from));
    }
}

/// An expansion is put in at the caret, and the text before and behind the caret stays.
pub proof fn insertions_keep_the_text_around(buffer: Seq<char>, caret: int, text: Seq<char>)
    requires
        0 <= caret <= buffer.len(),
    ensures
        spliced(buffer, caret, text).take(caret) == buffer.take(caret),
        spliced(buffer, caret, text).subrange(caret, caret + text.len()) == text,
        spliced(buffer, caret, text).skip(caret + text.len()) == buffer.skip(caret),
{
    let r = spliced(buffer, caret, text);
    assert(r.take(caret) =~= buffer.take(caret));
    assert(r.subrange(caret, caret + text.len()) =~= text);
    assert(r.skip(caret + text.len()) =~= buffer.skip(caret));
}

/// A tab stop of an inserted expansion covers its default text in the buffer.
pub proof fn inserted_stops_cover_their_defaults(
    insertion: SnippetInsertion,
    buffer: Seq<char>,
    caret: nat,
    body: Seq<char>,
    i: int,
)
    requires
        caret <= buffer.len(),
        inserts(insertion, buffer, caret, body),
        0 <= i < insertion.session.stops@.len(),
    ensures
        covers(insertion.new_buffer@, insertion.session.stops@[i]@),
{
    let e = expansion(body);
    stops_cover_their_defaults(body);
    let stop = e.stops[i];
    assert(covers(e.text, stop));
    assert(insertion.session.stops@[i]@ == rebased(stop, caret));
    let text = insertion.new_buffer@;
    assert(text.subrange((stop.start + caret) as int, (stop.end + caret) as int)
        =~= e.text.subrange(stop.start as int, stop.end as int));
}

/// The position after going on `n` times from the first stop of `count`.
pub open spec fn after_steps(n: nat, count: nat) -> Option<usize>
    decreases n,
{
    if n == 0 {
        Some(0)
    } else {
        after_next(after_steps((n - 1) as nat, count), count)
    }
}

/// Going on visits every stop in turn, and ends behind the last.
pub proof fn every_stop_is_visited(n: nat, count: nat)
    requires
        0 < count <= usize::MAX,
    ensures
        n < count ==> after_steps(n, count) == Some(n as usize),
        n >= count ==> after_steps(n, count) is None,
    decreases n,
{
    if n > 0 {
        every_stop_is_visited((n - 1) as nat, count);
    }
}

/// The snippet on offer under a name is the last usable one of that name.
pub proof fn later_snippets_take_the_place_of_earlier_ones(
    snippets: Seq<SnippetModel>,
    name: Seq<char>,
    i: int,
)
    requires
        0 <= i < snippets.len(),
        snippets[i].name == name,
        usable(snippets[i]),
        forall|j: int|
            i < j < snippets.len() ==> (#[trigger] snippets[j]).name != name || !usable(snippets[j]),
    ensures
        last_usable(snippets, name) == Some(snippets[i]),
    decreases snippets.len(),
{
    let end = snippets.len() - 1;
    if i < end {
        let less = snippets.drop_last();
        assert(snippets[end].name != name || !usable(snippets[end]));
        assert forall|j: int| i < j < less.len() implies (#[trigger] less[j]).name != name
            || !usable(less[j]) by {
            assert(less[j] == snippets[j]);
        }
        later_snippets_take_the_place_of_earlier_ones(less, name, i);
    }
}

/// Nothing is on offer under a name that no usable snippet has.
pub proof fn other_names_are_not_on_offer(snippets: Seq<SnippetModel>, name: Seq<char>)
    requires
        forall|j: int|
            0 <= j < snippets.len() ==> (#[trigger] snippets[j]).name != name || !usable(
                snippets[j],
            ),
    ensures
        last_usable(snippets, name) is None,
    decreases snippets.len(),
{
    if snippets.len() > 0 {
        let end = snippets.len() - 1;
        let less = snippets.drop_last();
        assert(snippets[end].name != name || !usable(snippets[end]));
        assert forall|j: int| 0 <= j < less.len() implies (#[trigger] less[j]).name != name
            || !usable(less[j]) by {
            assert(less[j] == snippets[j]);
        }
        other_names_are_not_on_offer(less, name);
    }
}

/// Lines are put one below the other.
pub proof fn lines_are_put_below_each_other(a: Seq<Seq<char>>, b: Seq<Seq<char>>)
    requires
        a.len() > 0,
        b.len() > 0,
    ensures
        lines(a + b) == lines(a) + seq!['\n'] + lines(b),
        a.len() == 1 ==> lines(a) == a[0],
    decreases b.len(),
{
    let all = a + b;
    assert(all.last() == b.last());
    if b.len() == 1 {
        assert(all.drop_last() =~= a);
    } else {
        let less = b.drop_last();
        lines_are_put_below_each_other(a, less);
        assert(all.drop_last() =~= a + less);
        assert(lines(all) =~= lines(a) + seq!['\n'] + lines(b));
    }
}

/// Every entry with a body is a snippet, with the body as it is written.
pub proof fn entries_with_a_body_are_snippets(
    entries: Seq<(String, RawSnippet)>,
    n: nat,
    k: int,
) -> (at: int)
    requires
        0 <= k < n <= entries.len(),
        entries[k].1.body matches Some(b) && b.whole().len() > 0,
    ensures
        0 <= at < meanings(entries, n).len(),
        meanings(entries, n)[at].name == entries[k].0@,
        meanings(entries, n)[at].body == entries[k].1.body->0.whole(),
        meanings(entries, n)[at].prefix == (match entries[k].1.prefix {
            Some(p) => p.front(),
            None => entries[k].0@,
        }),
    decreases n,
{
    let before = meanings(entries, (n - 1) as nat);
    if k == n - 1 {
        before.len() as int
    } else {
        entries_with_a_body_are_snippets(entries, (n - 1) as nat, k)
    }
}

/// Every snippet is that of an entry.
pub proof fn snippets_are_those_of_entries(
    entries: Seq<(String, RawSnippet)>,
    n: nat,
    at: int,
) -> (k: int)
    requires
        n <= entries.len(),
        0 <= at < meanings(entries, n).len(),
    ensures
        0 <= k < n,
        entries[k].1.body is Some,
        meanings(entries, n)[at].name == entries[k].0@,
        meanings(entries, n)[at].body == entries[k].1.body->0.whole(),
    decreases n,
{
    let before = meanings(entries, (n - 1) as nat);
    if at < before.len() {
        snippets_are_those_of_entries(entries, (n - 1) as nat, at)
    } else {
        n - 1
    }
}

} // verus!
