//! Opening, saving, exporting and importing files: what is decided around the reading
//! and writing.

use vstd::prelude::*;

use crate::fidelity::{self, ByteFidelityProfile};
use crate::interop::comments::{self, Comment, CommentCarrier, CommentKind, CommentMode, CommentModel};
use crate::interop::grammar;
use crate::interop::json::{self, JsonModel};
use crate::interop::json_to_ron::{self, JsonToRonBinding};
use crate::interop::jsonc::{self, JsoncError};
use crate::interop::read_back;
use crate::paths;
use crate::syntax::TextRange;
use crate::text;
use crate::text_map::TextMap;

pub use crate::fidelity::{normalise_to_lf, save_bytes};

verus! {

/// What went wrong with a file, as far as it makes a difference.
#[derive(Debug, Clone, Copy, PartialEq, Eq, Structural)]
pub enum IoKind {
    StorageFull,
    PermissionDenied,
    InvalidInput,
    Other,
}

/// An error that reading or writing a file gave.
#[derive(Debug, PartialEq, Eq)]
pub struct IoFailure {
    pub kind: IoKind,
    /// The number that the operating system gave it.
    pub os_code: Option<i32>,
    /// What it says.
    pub message: String,
}

/// Why a file could not be opened.
#[derive(Debug, PartialEq, Eq)]
pub enum OpenError {
    /// It is no UTF-8.
    NotUtf8,
    /// It could not be read.
    Io(IoFailure),
}

impl OpenError {
    /// The message for the user.
    pub fn message(&self) -> (r: String)
        ensures
            r@ == (match self {
                OpenError::NotUtf8 => "not valid UTF-8"@,
                OpenError::Io(e) => "I/O error: "@ + e.message@,
            }),
    {
        match self {
            OpenError::NotUtf8 => "not valid UTF-8".to_owned(),
            OpenError::Io(e) => after_prefix("I/O error: ", e.message.as_str()),
        }
    }
}

fn after_prefix(prefix: &str, rest: &str) -> (r: String)
    ensures
        r@ == prefix@ + rest@,
{
    let mut r = prefix.to_owned();
    r.push_str(rest);
    r
}

/// Why a file could not be saved. Whatever the reason, the file is as it was before.
#[derive(Debug, PartialEq, Eq)]
pub enum SaveError {
    /// There is no space left.
    DiskFull(IoFailure),
    /// Writing is not permitted.
    PermissionDenied(IoFailure),
    /// Writing the temporary file was interrupted.
    PartialWrite(IoFailure),
    /// The temporary file could not take the place of the file.
    ReplaceFailed(IoFailure),
    /// There is no directory for a temporary file.
    SameFilesystemImpossible(IoFailure),
    /// Anything else.
    Io(IoFailure),
}

/// The stage of a save.
#[derive(Debug, Clone, Copy, PartialEq, Eq, Structural)]
pub enum Stage {
    /// Writing the temporary file.
    Temp,
    /// Putting it in the place of the file.
    Replace,
}

impl IoFailure {
    /// Whether there is no space left: by its kind, or by its number on Unix or
    /// Windows.
    pub open spec fn disk_full(self) -> bool {
        ||| self.kind == IoKind::StorageFull
        ||| self.os_code == Some(28i32)
        ||| self.os_code == Some(112i32)
        ||| self.os_code == Some(39i32)
    }
}

impl SaveError {
    /// The error that writing or replacing the file gave.
    pub open spec fn cause(self) -> IoFailure {
        match self {
            SaveError::DiskFull(e) => e,
            SaveError::PermissionDenied(e) => e,
            SaveError::PartialWrite(e) => e,
            SaveError::ReplaceFailed(e) => e,
            SaveError::SameFilesystemImpossible(e) => e,
            SaveError::Io(e) => e,
        }
    }

    /// The error that writing or replacing the file gave.
    pub fn io(&self) -> (r: &IoFailure)
        ensures
            *r == self.cause(),
    {
        match self {
            SaveError::DiskFull(e) => e,
            SaveError::PermissionDenied(e) => e,
            SaveError::PartialWrite(e) => e,
            SaveError::ReplaceFailed(e) => e,
            SaveError::SameFilesystemImpossible(e) => e,
            SaveError::Io(e) => e,
        }
    }

    /// The reason for an error at a stage of a save.
    pub open spec fn reason(e: IoFailure, stage: Stage) -> Self {
        if e.disk_full() {
            SaveError::DiskFull(e)
        } else if e.kind == IoKind::PermissionDenied {
            SaveError::PermissionDenied(e)
        } else if stage == Stage::Temp {
            SaveError::PartialWrite(e)
        } else {
            SaveError::ReplaceFailed(e)
        }
    }

    /// The reason for an error at a stage of a save.
    pub fn from_io(e: IoFailure, stage: Stage) -> (r: Self)
        ensures
            r == Self::reason(e, stage),
    {
        let by_number = match e.os_code {
            Some(code) => code == 28 || code == 112 || code == 39,
            None => false,
        };
        if matches!(e.kind, IoKind::StorageFull) || by_number {
            return SaveError::DiskFull(e);
        }
        if matches!(e.kind, IoKind::PermissionDenied) {
            return SaveError::PermissionDenied(e);
        }
        match stage {
            Stage::Temp => SaveError::PartialWrite(e),
            Stage::Replace => SaveError::ReplaceFailed(e),
        }
    }

    /// What the message for the user starts with.
    pub open spec fn heading(self) -> Seq<char> {
        match self {
            SaveError::DiskFull(_) => "disk full: "@,
            SaveError::PermissionDenied(_) => "permission denied: "@,
            SaveError::PartialWrite(_) => "write interrupted: "@,
            SaveError::ReplaceFailed(_) => "atomic replace failed: "@,
            SaveError::SameFilesystemImpossible(
                _,
            ) => "atomic save not possible at this location: "@,
            SaveError::Io(_) => "I/O error: "@,
        }
    }

    /// The message for the user.
    pub fn message(&self) -> (r: String)
        ensures
            r@ == self.heading() + self.cause().message@,
    {
        let heading = match self {
            SaveError::DiskFull(_) => "disk full: ",
            SaveError::PermissionDenied(_) => "permission denied: ",
            SaveError::PartialWrite(_) => "write interrupted: ",
            SaveError::ReplaceFailed(_) => "atomic replace failed: ",
            SaveError::SameFilesystemImpossible(_) => "atomic save not possible at this location: ",
            SaveError::Io(_) => "I/O error: ",
        };
        after_prefix(heading, self.io().message.as_str())
    }
}

/// The bytes to put in the place of a file. A path without a directory has no room for
/// a temporary file.
pub fn prepare_save(buffer: &str, profile: &ByteFidelityProfile, path: &str) -> (r: Result<
    Vec<u8>,
    SaveError,
>)
    ensures
        match r {
            Ok(bytes) => paths::parent(path@) is Some && bytes@ == fidelity::saved_bytes(
                buffer@,
                *profile,
            ),
            Err(e) => paths::parent(path@) is None && e is SameFilesystemImpossible
                && e.cause().kind == IoKind::InvalidInput && e.cause().os_code is None
                && e.cause().message@
                == "target path has no parent directory; cannot place a same-filesystem temp"@,
        },
{
    if paths::parent_of(path).is_none() {
        return Err(
            SaveError::SameFilesystemImpossible(
                IoFailure {
                    kind: IoKind::InvalidInput,
                    os_code: None,
                    message:
                        "target path has no parent directory; cannot place a same-filesystem temp".to_owned(),
                },
            ),
        );
    }
    Ok(save_bytes(buffer, profile))
}

/// Why an export failed.
#[derive(Debug, PartialEq, Eq)]
pub enum ExportError {
    /// The file could not be written.
    Save(SaveError),
    /// The file was written, but not the comments beside it.
    Sidecar(SaveError),
    /// There is no directory for the comments.
    NoParentDirectory,
    /// The comments would not be beside the file.
    SidecarEscapesDirectory,
}

impl ExportError {
    /// The message for the user.
    pub fn message(&self) -> (r: String)
        ensures
            r@ == (match self {
                ExportError::Save(e) => "JSON export failed: "@ + (e.heading() + e.cause().message@),
                ExportError::Sidecar(e) => "comment sidecar write failed: "@ + (e.heading()
                    + e.cause().message@),
                ExportError::NoParentDirectory => "export target has no parent directory"@,
                ExportError::SidecarEscapesDirectory =>
                    "comment sidecar path would escape the target directory"@,
            }),
    {
        match self {
            ExportError::Save(e) => after_prefix("JSON export failed: ", e.message().as_str()),
            ExportError::Sidecar(e) => after_prefix(
                "comment sidecar write failed: ",
                e.message().as_str(),
            ),
            ExportError::NoParentDirectory => "export target has no parent directory".to_owned(),
            ExportError::SidecarEscapesDirectory =>
                "comment sidecar path would escape the target directory".to_owned(),
        }
    }
}

/// Whether two dots follow each other in a text, from `from` on.
pub open spec fn has_dots(s: Seq<char>, from: int) -> bool
    decreases s.len() - from,
{
    if from + 1 >= s.len() {
        false
    } else {
        (s[from] == '.' && s[from + 1] == '.') || has_dots(s, from + 1)
    }
}

/// Where the comments of an exported file go: into the same directory, under the name
/// of the file with a suffix. A name with two dots in a row is refused.
pub open spec fn comments_beside(target: Seq<char>) -> Result<Seq<char>, ExportError> {
    match paths::parent(target) {
        None => Err(ExportError::NoParentDirectory),
        Some(dir) => match paths::file_name(target) {
            None => Err(ExportError::SidecarEscapesDirectory),
            Some(name) => if has_dots(name + ".comments.json"@, 0) {
                Err(ExportError::SidecarEscapesDirectory)
            } else {
                Ok(paths::joined(dir, name + ".comments.json"@))
            },
        },
    }
}

fn contains_dots(s: &str) -> (r: bool)
    ensures
        r == has_dots(s@, 0),
{
    let chars = text::chars_of(s);
    let n = chars.len();
    let mut i: usize = 0;
    while i < n && n - i > 1
        invariant
            i <= n,
            n == chars@.len(),
            chars@ == s@,
            has_dots(s@, i as int) == has_dots(s@, 0),
        decreases n - i,
    {
        if chars[i] == '.' && chars[i + 1] == '.' {
            return true;
        }
        i += 1;
    }
    false
}

/// Where the comments of an exported file go.
pub fn sidecar_path(target: &str) -> (r: Result<String, ExportError>)
    ensures
        match r {
            Ok(path) => comments_beside(target@) == Ok::<Seq<char>, ExportError>(path@),
            Err(e) => comments_beside(target@) == Err::<Seq<char>, ExportError>(e),
        },
{
    let dir = match paths::parent_of(target) {
        Some(d) => d,
        None => return Err(ExportError::NoParentDirectory),
    };
    let mut name = match paths::file_name_of(target) {
        Some(n) => n,
        None => return Err(ExportError::SidecarEscapesDirectory),
    };
    name.push_str(".comments.json");
    if contains_dots(name.as_str()) {
        return Err(ExportError::SidecarEscapesDirectory);
    }
    Ok(paths::join(dir.as_str(), name.as_str()))
}

/// The comments of an export are in the directory of the exported file.
pub proof fn comments_stay_beside_the_file(target: Seq<char>)
    requires
        comments_beside(target) is Ok,
    ensures
        paths::parent(target) is Some,
        exists|name: Seq<char>|
            #![trigger paths::joined(paths::parent(target)->0, name)]
            comments_beside(target)->Ok_0 == paths::joined(paths::parent(target)->0, name)
                && forall|i: int| 0 <= i < name.len() ==> #[trigger] name[i] != '/',
{
    let name = paths::file_name(target)->0;
    let sidecar = name + ".comments.json"@;
    paths::lemma_file_name_has_no_slash(target);
    reveal_strlit(".comments.json");
    assert(comments_beside(target)->Ok_0 == paths::joined(paths::parent(target)->0, sidecar));
    assert forall|i: int| 0 <= i < sidecar.len() implies #[trigger] sidecar[i] != '/' by {
        if i < name.len() {
            assert(name[i] != '/');
        }
    }
}

/// What an export writes: the file, and the comments beside it where there are any.
#[derive(Debug, PartialEq, Eq)]
pub struct ExportPlan {
    pub profile: ByteFidelityProfile,
    pub sidecar: bool,
}

/// What exporting a text writes. The text is fresh, so it is written as it is.
pub fn plan_export(text: &str, sidecar: Option<&TextMap<Vec<String>>>) -> (r: ExportPlan)
    ensures
        r.profile == fidelity::profile_of(vstd::utf8::encode_utf8(text@)),
        r.sidecar == (sidecar matches Some(map) && map.entries@.len() > 0),
{
    ExportPlan {
        profile: ByteFidelityProfile::from_bytes(text.as_bytes()),
        sidecar: match sidecar {
            Some(map) => !map.is_empty(),
            None => false,
        },
    }
}

/// Fresh text whose lines all end in the same way is exported as it is.
pub proof fn exports_are_verbatim(text: Seq<char>)
    requires
        fidelity::is_unix(text) || fidelity::is_dos(text),
        text.len() > 0 ==> text[0] != '\u{FEFF}',
    ensures
        fidelity::saved_bytes(text, fidelity::profile_of(vstd::utf8::encode_utf8(text)))
            == vstd::utf8::encode_utf8(text),
{
    fidelity::uniform_files_are_kept(text);
}

/// The comments of a sidecar as mathematical values: each pointer with its comments.
pub open spec fn comment_lists(map: TextMap<Vec<String>>) -> Seq<(Seq<char>, Seq<Seq<char>>)> {
    Seq::new(
        map.entries@.len(),
        |i: int| (map.entries@[i].0@, text::strings(map.entries@[i].1@)),
    )
}

/// A list of texts as a JSON value.
pub open spec fn text_array(texts: Seq<Seq<char>>) -> JsonModel {
    JsonModel::Array(texts.map_values(|t: Seq<char>| JsonModel::Str(t)))
}

/// The comments of a sidecar as the properties of a JSON object.
pub open spec fn list_entries(lists: Seq<(Seq<char>, Seq<Seq<char>>)>) -> Seq<
    (Seq<char>, JsonModel),
> {
    lists.map_values(|l: (Seq<char>, Seq<Seq<char>>)| (l.0, text_array(l.1)))
}

/// The text that `serde_json` writes for a map from text to lists of texts, with line
/// ends and indentation.
pub uninterp spec fn pretty_map(lists: Seq<(Seq<char>, Seq<Seq<char>>)>) -> Seq<char>;

/// The map from text to lists of texts that `serde_json` reads from bytes, in ascending
/// order of its keys; none if they hold no such map.
pub uninterp spec fn map_in(bytes: Seq<u8>) -> Option<Seq<(Seq<char>, Seq<Seq<char>>)>>;

/// `serde_json::to_string_pretty` of a map from text to lists of texts. It writes every
/// such map, its text depends on the map alone, and with a line end behind it
/// `serde_json` reads the same map from it.
#[verifier::external_body]
fn map_text(map: &TextMap<Vec<String>>) -> (r: Option<String>)
    requires
        map.wf(),
    ensures
        r is Some,
        r->0@ == pretty_map(comment_lists(*map)),
        map_in(vstd::utf8::encode_utf8(r->0@.push('\n'))) == Some(comment_lists(*map)),
{
    let sorted: std::collections::BTreeMap<&String, &Vec<String>> = map.entries.iter().map(
        |entry| (&entry.0, &entry.1),
    ).collect();
    serde_json::to_string_pretty(&sorted).ok()
}

/// `serde_json::from_slice` into a map from text to lists of texts. What it reads depends
/// on the bytes alone, and the keys ascend. Where it reads a map, the bytes are UTF-8 and
/// hold the object with these lists.
#[verifier::external_body]
fn read_map(bytes: &[u8]) -> (r: Option<TextMap<Vec<String>>>)
    ensures
        match r {
            Some(map) => {
                &&& map.wf()
                &&& map_in(bytes@) == Some(comment_lists(map))
                &&& vstd::utf8::valid_utf8(bytes@)
                &&& json::parse_outcome(vstd::utf8::decode_utf8(bytes@)) == Ok::<
                    JsonModel,
                    Seq<char>,
                >(JsonModel::Object(list_entries(comment_lists(map))))
            },
            None => map_in(bytes@) is None,
        },
{
    let read = serde_json::from_slice::<std::collections::BTreeMap<String, Vec<String>>>(bytes);
    read.ok().map(|map| TextMap { entries: map.into_iter().collect() })
}

/// The text of a sidecar with the comments of an export. Reading it gives the comments
/// back.
pub fn sidecar_text(map: &TextMap<Vec<String>>) -> (r: String)
    requires
        map.wf(),
    ensures
        r@ == pretty_map(comment_lists(*map)).push('\n'),
        map_in(vstd::utf8::encode_utf8(r@)) == Some(comment_lists(*map)),
{
    let mut r = match map_text(map) {
        Some(t) => t,
        None => "{}".to_owned(),
    };
    r.push('\n');
    r
}

/// The comments that the bytes of a sidecar hold; none if they are no map from text to
/// lists of texts.
pub fn comment_map(bytes: &[u8]) -> (r: Option<TextMap<Vec<String>>>)
    ensures
        match r {
            Some(map) => {
                &&& map.wf()
                &&& map_in(bytes@) == Some(comment_lists(map))
                &&& vstd::utf8::valid_utf8(bytes@)
                &&& json::parse_outcome(vstd::utf8::decode_utf8(bytes@)) == Ok::<
                    JsonModel,
                    Seq<char>,
                >(JsonModel::Object(list_entries(comment_lists(map))))
            },
            None => map_in(bytes@) is None,
        },
{
    read_map(bytes)
}

/// What a map has for a pointer.
pub open spec fn texts_at(map: TextMap<Vec<String>>, pointer: Seq<char>) -> Option<Seq<Seq<char>>> {
    match map.at(pointer) {
        Some(texts) => Some(text::strings(texts@)),
        None => None,
    }
}

/// The comments that are written to a sidecar are read back from it, pointer by pointer:
/// what the bytes of the text hold is the map that was written.
pub proof fn sidecars_come_back(
    written: TextMap<Vec<String>>,
    text: Seq<char>,
    read: TextMap<Vec<String>>,
    pointer: Seq<char>,
)
    requires
        written.wf(),
        read.wf(),
        map_in(vstd::utf8::encode_utf8(text)) == Some(comment_lists(written)),
        map_in(vstd::utf8::encode_utf8(text)) == Some(comment_lists(read)),
    ensures
        texts_at(read, pointer) == texts_at(written, pointer),
{
    if read.at(pointer) is Some {
        lemma_found_alike(read, written, pointer);
    }
    if written.at(pointer) is Some {
        lemma_found_alike(written, read, pointer);
    }
}

proof fn lemma_found_alike(
    map: TextMap<Vec<String>>,
    other: TextMap<Vec<String>>,
    pointer: Seq<char>,
)
    requires
        other.wf(),
        comment_lists(map) == comment_lists(other),
        map.at(pointer) is Some,
    ensures
        texts_at(other, pointer) == texts_at(map, pointer),
{
    map.lemma_at_is_entry(pointer);
    let k = choose|k: int|
        0 <= k < map.entries@.len() && (#[trigger] map.entries@[k]).0@ == pointer && map.at(pointer)
            == Some(map.entries@[k].1);
    assert(comment_lists(map).len() == map.entries@.len());
    assert(comment_lists(other).len() == other.entries@.len());
    assert(comment_lists(map)[k] == (pointer, text::strings(map.entries@[k].1@)));
    assert(comment_lists(other)[k] == (
        other.entries@[k].0@,
        text::strings(other.entries@[k].1@),
    ));
    other.lemma_entry_is_at(k);
}

/// Why an import failed. Nothing was created.
#[derive(Debug, PartialEq, Eq)]
pub enum ImportError {
    /// The file is no UTF-8.
    NotUtf8,
    /// The file is no JSON: the message of the parser.
    MalformedJson(String),
    /// The file could not be read.
    Io(IoFailure),
}

impl ImportError {
    /// The message for the user.
    pub fn message(&self) -> (r: String)
        ensures
            r@ == (match self {
                ImportError::NotUtf8 => "not valid UTF-8"@,
                ImportError::MalformedJson(m) => "malformed JSON: "@ + m@,
                ImportError::Io(e) => "I/O error: "@ + e.message@,
            }),
    {
        match self {
            ImportError::NotUtf8 => "not valid UTF-8".to_owned(),
            ImportError::MalformedJson(m) => after_prefix("malformed JSON: ", m.as_str()),
            ImportError::Io(e) => after_prefix("I/O error: ", e.message.as_str()),
        }
    }
}

/// What an import gives.
#[derive(Debug)]
pub struct ImportedRon {
    /// The RON text.
    pub ron_text: String,
    /// What the conversion could not decide.
    pub notes: Vec<String>,
}

/// Whether a text is a block comment by how it starts.
pub open spec fn block_like(s: Seq<char>) -> bool {
    let t = text::trimmed_start(s);
    t.len() >= 2 && t[0] == '/' && t[1] == '*'
}

/// The kind of a comment by how its text starts.
pub open spec fn kind_of(s: Seq<char>) -> CommentKind {
    if block_like(s) {
        CommentKind::Block
    } else {
        CommentKind::Line
    }
}

/// The kind of a comment by how its text starts.
pub fn classify_comment(s: &str) -> (r: CommentKind)
    ensures
        r == kind_of(s@),
{
    let chars = text::chars_of(s);
    let n = chars.len();
    let mut i: usize = 0;
    assert(chars@.skip(0) =~= s@);
    while i < n && text::is_white_space(chars[i])
        invariant
            i <= n,
            n == chars@.len(),
            text::trimmed_start(chars@.skip(i as int)) == text::trimmed_start(s@),
        decreases n - i,
    {
        assert(chars@.skip(i as int).drop_first() =~= chars@.skip(i + 1));
        i += 1;
    }
    if n - i >= 2 && chars[i] == '/' && chars[i + 1] == '*' {
        CommentKind::Block
    } else {
        CommentKind::Line
    }
}

/// The first `n` of the comments that a sidecar has for a pointer.
pub open spec fn pointer_comments(pointer: Seq<char>, texts: Seq<Seq<char>>, n: nat) -> Seq<
    CommentModel,
>
    decreases n,
{
    if n == 0 {
        Seq::empty()
    } else {
        pointer_comments(pointer, texts, (n - 1) as nat).push(
            CommentModel {
                text: texts[n - 1],
                kind: kind_of(texts[n - 1]),
                source_range: TextRange { start: 0, end: 0 },
                anchor: pointer,
            },
        )
    }
}

/// The comments of the first `n` pointers of a sidecar.
pub open spec fn sidecar_comments(entries: Seq<(String, Vec<String>)>, n: nat) -> Seq<CommentModel>
    decreases n,
{
    if n == 0 {
        Seq::empty()
    } else {
        let texts = text::strings(entries[n - 1].1@);
        sidecar_comments(entries, (n - 1) as nat) + pointer_comments(
            entries[n - 1].0@,
            texts,
            texts.len(),
        )
    }
}

/// The comments of a sidecar.
pub open spec fn carried(sidecar: Option<&TextMap<Vec<String>>>) -> Seq<CommentModel> {
    match sidecar {
        Some(map) => sidecar_comments(map.entries@, map.entries@.len()),
        None => Seq::empty(),
    }
}

fn push_comments(list: &mut Vec<Comment>, pointer: &String, texts: &Vec<String>)
    ensures
        comments::models(final(list)@) == comments::models(old(list)@) + pointer_comments(
            pointer@,
            text::strings(texts@),
            text::strings(texts@).len(),
        ),
{
    let ghost before = comments::models(list@);
    let ghost all = text::strings(texts@);
    let mut i: usize = 0;
    assert(before + pointer_comments(pointer@, all, 0) =~= before);
    while i < texts.len()
        invariant
            i <= texts@.len(),
            all == text::strings(texts@),
            comments::models(list@) == before + pointer_comments(pointer@, all, i as nat),
        decreases texts@.len() - i,
    {
        let comment = Comment {
            text: texts[i].clone(),
            kind: classify_comment(texts[i].as_str()),
            source_range: TextRange::new(0, 0),
            anchor_pointer: pointer.clone(),
        };
        let ghost m = comment@;
        let ghost prior = comments::models(list@);
        list.push(comment);
        assert(comments::models(list@) =~= prior.push(m));
        assert(prior.push(m) =~= before + pointer_comments(pointer@, all, (i + 1) as nat));
        i += 1;
    }
}

/// Rebuilds RON from the bytes of a file with JSON or JSONC. The comments come from the
/// file itself and from the sidecar beside it.
pub fn reconstruct_ron_from_bytes<'a>(
    raw: &[u8],
    sidecar: Option<&TextMap<Vec<String>>>,
    consultation: Option<JsonToRonBinding<'a>>,
) -> (r: Result<ImportedRon, ImportError>)
    ensures
        ({
            let source = vstd::utf8::decode_utf8(raw@);
            if !vstd::utf8::valid_utf8(raw@) {
                r == Err::<ImportedRon, ImportError>(ImportError::NotUtf8)
            } else {
                match json::parse_outcome(jsonc::stripped(source)) {
                    Err(m) => r matches Err(ImportError::MalformedJson(text)) && text@
                        == "invalid JSON: "@ + m,
                    Ok(value) => {
                        let found = jsonc::comments_in(source) + carried(sidecar);
                        let rebuilt = json_to_ron::reconstruction(value, consultation, found);
                        let result = json_to_ron::cross_checked(
                            rebuilt,
                            grammar::ron_accepts(rebuilt.text),
                        );
                        r matches Ok(imported) && imported.ron_text@ == result.text
                            && text::strings(imported.notes@) == result.notes
                    },
                }
            }
        }),
{
    let source = match fidelity::decode_utf8(raw) {
        Some(s) => s,
        None => return Err(ImportError::NotUtf8),
    };
    proof {
        vstd::utf8::encode_utf8_valid_utf8(source@);
        vstd::utf8::encode_utf8_decode_utf8(source@);
    }
    let parsed = match jsonc::parse_jsonc(source.as_str()) {
        Ok(p) => p,
        Err(e) => return Err(ImportError::MalformedJson(e.message())),
    };
    let mut list = parsed.comments;
    let ghost inline = comments::models(list@);
    match sidecar {
        Some(map) => {
            let mut i: usize = 0;
            assert(inline + sidecar_comments(map.entries@, 0) =~= inline);
            while i < map.entries.len()
                invariant
                    i <= map.entries@.len(),
                    comments::models(list@) == inline + sidecar_comments(map.entries@, i as nat),
                decreases map.entries@.len() - i,
            {
                let entry = &map.entries[i];
                let ghost prior = sidecar_comments(map.entries@, i as nat);
                push_comments(&mut list, &entry.0, &entry.1);
                proof {
                    let texts = text::strings(entry.1@);
                    let more = pointer_comments(entry.0@, texts, texts.len());
                    assert(inline + prior + more =~= inline + (prior + more));
                }
                i += 1;
            }
        },
        None => {
            assert(inline + Seq::<CommentModel>::empty() =~= inline);
        },
    }
    let carrier = CommentCarrier::from_comments(CommentMode::JsoncInline, list);
    let result = json_to_ron::json_to_ron(&parsed.value, consultation, Some(&carrier));
    Ok(ImportedRon { ron_text: result.text, notes: result.notes })
}

/// The comments of an export have the name of the file with a suffix, in its directory.
pub proof fn comments_have_the_name_of_the_file(target: Seq<char>)
    requires
        comments_beside(target) is Ok,
    ensures
        paths::parent(comments_beside(target)->Ok_0) == paths::parent(target),
        paths::file_name(comments_beside(target)->Ok_0) == Some(
            paths::file_name(target)->0 + ".comments.json"@,
        ),
{
    reveal_strlit(".comments.json");
    let name = paths::file_name(target)->0;
    let sidecar = name + ".comments.json"@;
    paths::lemma_file_name_has_no_slash(target);
    assert forall|i: int| 0 <= i < sidecar.len() implies #[trigger] sidecar[i] != '/' by {
        if i < name.len() {
            assert(name[i] != '/');
        }
    }
    assert(sidecar.len() > 2);
    paths::files_beside_each_other_share_the_directory(target, sidecar);
}

proof fn lemma_dots(s: Seq<char>, from: int, i: int)
    requires
        0 <= from <= i,
        i + 1 < s.len(),
        s[i] == '.',
        s[i + 1] == '.',
    ensures
        has_dots(s, from),
    decreases i - from,
{
    if from < i {
        lemma_dots(s, from + 1, i);
    }
}

proof fn lemma_no_dots(s: Seq<char>, from: int) -> (i: int)
    requires
        0 <= from,
        has_dots(s, from),
    ensures
        from <= i,
        i + 1 < s.len(),
        s[i] == '.',
        s[i + 1] == '.',
    decreases s.len() - from,
{
    if s[from] == '.' && s[from + 1] == '.' {
        from
    } else {
        lemma_no_dots(s, from + 1)
    }
}

/// Whether a name ends with a dot or has two dots in a row.
pub open spec fn dotted(name: Seq<char>) -> bool {
    (name.len() > 0 && name.last() == '.') || exists|i: int|
        0 <= i < name.len() - 1 && #[trigger] name[i] == '.' && name[i + 1] == '.'
}

/// Only a file without a directory, without a name or with two dots in a row in the name
/// of its comments is refused.
pub proof fn exports_are_refused_for_dots_alone(target: Seq<char>)
    ensures
        comments_beside(target) is Ok <==> paths::parent(target) is Some && paths::file_name(
            target,
        ) is Some && !dotted(paths::file_name(target)->0),
{
    reveal_strlit(".comments.json");
    if paths::parent(target) is Some && paths::file_name(target) is Some {
        let name = paths::file_name(target)->0;
        let sidecar = name + ".comments.json"@;
        if has_dots(sidecar, 0) {
            let i = lemma_no_dots(sidecar, 0);
            if i < name.len() - 1 {
                assert(sidecar[i] == name[i] && sidecar[i + 1] == name[i + 1]);
            } else if i == name.len() - 1 {
                assert(sidecar[i] == name[i]);
            } else {
                assert(sidecar[i + 1] == ".comments.json"@[i + 1 - name.len()]);
            }
        } else {
            assert forall|i: int| 0 <= i < name.len() - 1 implies !(#[trigger] name[i] == '.'
                && name[i + 1] == '.') by {
                if name[i] == '.' && name[i + 1] == '.' {
                    assert(sidecar[i] == name[i] && sidecar[i + 1] == name[i + 1]);
                    lemma_dots(sidecar, 0, i);
                }
            }
            if name.len() > 0 && name.last() == '.' {
                assert(sidecar[name.len() - 1] == '.' && sidecar[name.len() as int] == '.');
                lemma_dots(sidecar, 0, name.len() - 1);
            }
        }
    }
}

/// A comment keeps its form in a sidecar.
pub proof fn comments_keep_their_form(s: Seq<char>, kind: CommentKind)
    requires
        read_back::is_comment(s, kind),
    ensures
        kind_of(s) == kind,
{
    assert(!text::white_space(s[0]));
    assert(text::trimmed_start(s) == s);
}

proof fn lemma_pointer_comments(pointer: Seq<char>, texts: Seq<Seq<char>>, n: nat)
    requires
        n <= texts.len(),
    ensures
        pointer_comments(pointer, texts, n).len() == n,
        forall|j: int|
            0 <= j < n ==> (#[trigger] pointer_comments(pointer, texts, n)[j]).text == texts[j]
                && pointer_comments(pointer, texts, n)[j].anchor == pointer && pointer_comments(
                pointer,
                texts,
                n,
            )[j].kind == kind_of(texts[j]),
    decreases n,
{
    if n > 0 {
        lemma_pointer_comments(pointer, texts, (n - 1) as nat);
    }
}

/// Every comment of a sidecar is carried, with its text, at its pointer.
pub proof fn sidecar_comments_are_carried(
    entries: Seq<(String, Vec<String>)>,
    n: nat,
    k: int,
    j: int,
) -> (at: int)
    requires
        0 <= k < n <= entries.len(),
        0 <= j < entries[k].1@.len(),
    ensures
        0 <= at < sidecar_comments(entries, n).len(),
        sidecar_comments(entries, n)[at].text == entries[k].1@[j]@,
        sidecar_comments(entries, n)[at].anchor == entries[k].0@,
        sidecar_comments(entries, n)[at].kind == kind_of(entries[k].1@[j]@),
    decreases n,
{
    let before = sidecar_comments(entries, (n - 1) as nat);
    if k == n - 1 {
        let texts = text::strings(entries[k].1@);
        lemma_pointer_comments(entries[k].0@, texts, texts.len());
        assert(texts[j] == entries[k].1@[j]@);
        before.len() + j
    } else {
        sidecar_comments_are_carried(entries, (n - 1) as nat, k, j)
    }
}

/// Every comment that is carried is one of the sidecar.
pub proof fn carried_comments_are_in_the_sidecar(
    entries: Seq<(String, Vec<String>)>,
    n: nat,
    at: int,
) -> (place: (int, int))
    requires
        n <= entries.len(),
        0 <= at < sidecar_comments(entries, n).len(),
    ensures
        0 <= place.0 < n,
        0 <= place.1 < entries[place.0].1@.len(),
        sidecar_comments(entries, n)[at].text == entries[place.0].1@[place.1]@,
        sidecar_comments(entries, n)[at].anchor == entries[place.0].0@,
    decreases n,
{
    let before = sidecar_comments(entries, (n - 1) as nat);
    if at < before.len() {
        carried_comments_are_in_the_sidecar(entries, (n - 1) as nat, at)
    } else {
        let texts = text::strings(entries[n - 1].1@);
        let j = at - before.len();
        lemma_pointer_comments(entries[n - 1].0@, texts, texts.len());
        assert(texts[j] == entries[n - 1].1@[j]@);
        (n - 1, j)
    }
}

/// A failed save keeps the error behind it, and says what the user can do about it: a
/// full disk and a lack of permission are told at every stage, and otherwise whether the
/// file was touched.
pub proof fn failures_keep_their_cause(e: IoFailure, stage: Stage)
    ensures
        SaveError::reason(e, stage).cause() == e,
        e.kind == IoKind::StorageFull ==> SaveError::reason(e, stage) is DiskFull,
        e.kind == IoKind::PermissionDenied && e.os_code is None ==> SaveError::reason(
            e,
            stage,
        ) is PermissionDenied,
        SaveError::reason(e, stage) is ReplaceFailed ==> stage == Stage::Replace,
        SaveError::reason(e, stage) is PartialWrite ==> stage == Stage::Temp,
        e.kind != IoKind::StorageFull && e.kind != IoKind::PermissionDenied && e.os_code is None
            ==> (SaveError::reason(e, stage) is PartialWrite) == (stage == Stage::Temp) && (
        SaveError::reason(e, stage) is ReplaceFailed) == (stage == Stage::Replace),
{
}

} // verus!
