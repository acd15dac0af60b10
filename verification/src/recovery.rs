//! Recovery of work after a crash.
//!
//! While a document has unsaved changes, its text is written now and then to a sidecar
//! file beside the document. When the document is opened again and the sidecar holds
//! another text than the file, the user is offered that text.

use vstd::prelude::*;

use crate::fidelity::{self, ByteFidelityProfile, LineEnding};
use crate::hash;
use crate::paths;
use crate::settings::AutosaveConfig;
use crate::text;

verus! {

/// Where the sidecar of a file is: beside it, as a hidden file with a suffix.
pub open spec fn sidecar_of(target: Seq<char>) -> Seq<char> {
    let name = match paths::file_name(target) {
        Some(n) => n,
        None => Seq::empty(),
    };
    let sidecar = seq!['.'] + name + ".ronin-recovery"@;
    match paths::parent(target) {
        Some(dir) => paths::joined(dir, sidecar),
        None => sidecar,
    }
}

/// Where the sidecar of a file is: beside it, as a hidden file with a suffix.
pub fn sidecar_path(target: &str) -> (r: String)
    ensures
        r@ == sidecar_of(target@),
{
    let mut sidecar = String::new();
    sidecar.push('.');
    if let Some(name) = paths::file_name_of(target) {
        sidecar.push_str(name.as_str());
    }
    sidecar.push_str(".ronin-recovery");
    proof {
        let name = match paths::file_name(target@) {
            Some(n) => n,
            None => Seq::empty(),
        };
        assert(sidecar@ =~= seq!['.'] + name + ".ronin-recovery"@);
    }
    match paths::parent_of(target) {
        Some(dir) => paths::join(dir.as_str(), sidecar.as_str()),
        None => sidecar,
    }
}

/// The sidecar of a file is in the directory of the file, under another name.
pub proof fn sidecars_stay_beside_the_file(target: Seq<char>)
    requires
        paths::file_name(target) is Some,
    ensures
        paths::parent(sidecar_of(target)) == paths::parent(target),
        paths::file_name(sidecar_of(target)) == Some(
            seq!['.'] + paths::file_name(target)->0 + ".ronin-recovery"@,
        ),
        paths::file_name(sidecar_of(target)) != paths::file_name(target),
{
    reveal_strlit(".ronin-recovery");
    let name = paths::file_name(target)->0;
    let sidecar = seq!['.'] + name + ".ronin-recovery"@;
    paths::lemma_file_name_has_no_slash(target);
    assert forall|i: int| 0 <= i < sidecar.len() implies #[trigger] sidecar[i] != '/' by {
        if 0 < i <= name.len() {
            assert(sidecar[i] == name[i - 1]);
        }
    }
    assert(sidecar.len() > 2);
    paths::files_beside_each_other_share_the_directory(target, sidecar);
}

/// How the lines of a file end, as a sidecar records it.
#[derive(Debug, Clone, Copy, PartialEq, Eq, Structural)]
pub enum SidecarLineEnding {
    Crlf,
    Lf,
    Mixed,
}

/// What a sidecar records of a line ending.
pub open spec fn recorded_ending(e: LineEnding) -> SidecarLineEnding {
    match e {
        LineEnding::Crlf => SidecarLineEnding::Crlf,
        LineEnding::Lf => SidecarLineEnding::Lf,
        LineEnding::Mixed => SidecarLineEnding::Mixed,
    }
}

/// The line ending that a sidecar records.
pub open spec fn ending_recorded(e: SidecarLineEnding) -> LineEnding {
    match e {
        SidecarLineEnding::Crlf => LineEnding::Crlf,
        SidecarLineEnding::Lf => LineEnding::Lf,
        SidecarLineEnding::Mixed => LineEnding::Mixed,
    }
}

impl vstd::std_specs::convert::FromSpecImpl<LineEnding> for SidecarLineEnding {
    open spec fn obeys_from_spec() -> bool {
        true
    }

    open spec fn from_spec(e: LineEnding) -> Self {
        recorded_ending(e)
    }
}

impl From<LineEnding> for SidecarLineEnding {
    fn from(e: LineEnding) -> (r: Self) {
        match e {
            LineEnding::Crlf => SidecarLineEnding::Crlf,
            LineEnding::Lf => SidecarLineEnding::Lf,
            LineEnding::Mixed => SidecarLineEnding::Mixed,
        }
    }
}

impl vstd::std_specs::convert::FromSpecImpl<SidecarLineEnding> for LineEnding {
    open spec fn obeys_from_spec() -> bool {
        true
    }

    open spec fn from_spec(e: SidecarLineEnding) -> Self {
        ending_recorded(e)
    }
}

impl From<SidecarLineEnding> for LineEnding {
    fn from(e: SidecarLineEnding) -> (r: Self) {
        match e {
            SidecarLineEnding::Crlf => LineEnding::Crlf,
            SidecarLineEnding::Lf => LineEnding::Lf,
            SidecarLineEnding::Mixed => LineEnding::Mixed,
        }
    }
}

/// A line ending comes back from a sidecar as it was.
pub proof fn line_endings_come_back(e: LineEnding, s: SidecarLineEnding)
    ensures
        ending_recorded(recorded_ending(e)) == e,
        recorded_ending(ending_recorded(s)) == s,
{
}

/// What a sidecar records of how the file was written.
#[derive(Debug, Clone, Copy, PartialEq, Eq, Structural)]
pub struct FidelityHint {
    pub line_ending: SidecarLineEnding,
    pub dominant: SidecarLineEnding,
    pub had_trailing_newline: bool,
    pub had_bom: bool,
}

/// What a sidecar records of a profile.
pub open spec fn hint_of(p: ByteFidelityProfile) -> FidelityHint {
    FidelityHint {
        line_ending: recorded_ending(p.line_ending),
        dominant: recorded_ending(p.dominant),
        had_trailing_newline: p.had_trailing_newline,
        had_bom: p.had_bom,
    }
}

impl vstd::std_specs::convert::FromSpecImpl<&ByteFidelityProfile> for FidelityHint {
    open spec fn obeys_from_spec() -> bool {
        true
    }

    open spec fn from_spec(p: &ByteFidelityProfile) -> Self {
        hint_of(*p)
    }
}

impl From<&ByteFidelityProfile> for FidelityHint {
    fn from(p: &ByteFidelityProfile) -> (r: Self) {
        FidelityHint {
            line_ending: SidecarLineEnding::from(p.line_ending),
            dominant: SidecarLineEnding::from(p.dominant),
            had_trailing_newline: p.had_trailing_newline,
            had_bom: p.had_bom,
        }
    }
}

impl FidelityHint {
    /// The profile that the hint stands for, without a hash.
    pub open spec fn seed(self) -> ByteFidelityProfile {
        ByteFidelityProfile {
            line_ending: ending_recorded(self.line_ending),
            dominant: ending_recorded(self.dominant),
            had_trailing_newline: self.had_trailing_newline,
            had_bom: self.had_bom,
            original_hash: 0,
        }
    }

    /// The profile for a recovered text: that of the file which a save of it writes.
    pub fn to_profile(self, buffer: &str) -> (r: ByteFidelityProfile)
        ensures
            r == fidelity::profile_of(fidelity::saved_bytes(buffer@, self.seed())),
    {
        let seed = ByteFidelityProfile {
            line_ending: LineEnding::from(self.line_ending),
            dominant: LineEnding::from(self.dominant),
            had_trailing_newline: self.had_trailing_newline,
            had_bom: self.had_bom,
            original_hash: 0,
        };
        let emitted = fidelity::save_bytes(buffer, &seed);
        ByteFidelityProfile::from_bytes(emitted.as_slice())
    }
}

/// A recovered text is saved as it would have been before the crash. This leaves out
/// a text that starts with a byte order mark of its own and one that keeps a line end
/// where the file had none.
pub proof fn recovered_text_is_saved_alike(buffer: Seq<char>, profile: ByteFidelityProfile)
    requires
        fidelity::plain_buffer(buffer, profile),
    ensures
        fidelity::saved_bytes(
            buffer,
            fidelity::profile_of(fidelity::saved_bytes(buffer, hint_of(profile).seed())),
        ) == fidelity::saved_bytes(buffer, profile),
{
    assert(fidelity::saved_bytes(buffer, hint_of(profile).seed()) == fidelity::saved_bytes(
        buffer,
        profile,
    ));
    fidelity::saving_again_changes_nothing(buffer, profile);
}

/// The marker of some bytes: their hash and their number.
pub open spec fn marker(bytes: Seq<u8>) -> Seq<char> {
    hash::hex(hash::fnv1a(bytes) as nat, 16) + seq![':'] + text::decimal(bytes.len())
}

/// The marker of some bytes: their hash and their number.
pub fn content_marker(bytes: &[u8]) -> (r: String)
    ensures
        r@ == marker(bytes@),
{
    let mut r = String::new();
    hash::push_hex(&mut r, hash::hash_bytes(bytes), 16);
    r.push(':');
    text::push_decimal(&mut r, bytes.len());
    assert(r@ =~= marker(bytes@));
    r
}

proof fn lemma_hex_len(n: nat, width: nat)
    ensures
        hash::hex(n, width).len() == width,
    decreases width,
{
    if width > 0 {
        lemma_hex_len(n / 16, (width - 1) as nat);
    }
}

proof fn lemma_decimal_injective(a: nat, b: nat)
    requires
        text::decimal(a) == text::decimal(b),
    ensures
        a == b,
    decreases a,
{
    reveal_with_fuel(text::decimal, 2);
    let da = text::decimal(a);
    let db = text::decimal(b);
    assert(da.last() == text::digit_char(a % 10));
    assert(db.last() == text::digit_char(b % 10));
    assert(text::digit_char(a % 10) as nat == 48 + a % 10);
    assert(text::digit_char(b % 10) as nat == 48 + b % 10);
    assert(a % 10 == b % 10);
    assert(da.drop_last() == db.drop_last());
    if a >= 10 && b >= 10 {
        assert(da.drop_last() =~= text::decimal(a / 10));
        assert(db.drop_last() =~= text::decimal(b / 10));
        lemma_decimal_injective(a / 10, b / 10);
    } else if a >= 10 {
        assert(da.drop_last() =~= text::decimal(a / 10));
        assert(text::decimal(a / 10).len() > 0);
    } else if b >= 10 {
        assert(db.drop_last() =~= text::decimal(b / 10));
        assert(text::decimal(b / 10).len() > 0);
    }
}

/// Texts of different lengths have different markers.
pub proof fn markers_tell_lengths_apart(a: Seq<u8>, b: Seq<u8>)
    requires
        a.len() != b.len(),
    ensures
        marker(a) != marker(b),
{
    lemma_hex_len(hash::fnv1a(a) as nat, 16);
    lemma_hex_len(hash::fnv1a(b) as nat, 16);
    if marker(a) == marker(b) {
        assert(marker(a).skip(17) =~= text::decimal(a.len()));
        assert(marker(b).skip(17) =~= text::decimal(b.len()));
        lemma_decimal_injective(a.len(), b.len());
    }
}

/// The smallest number with more than `width` hexadecimal digits.
pub open spec fn hex_bound(width: nat) -> nat
    decreases width,
{
    if width == 0 {
        1
    } else {
        16 * hex_bound((width - 1) as nat)
    }
}

pub proof fn lemma_hex_digits(n: nat, width: nat)
    requires
        n < hex_bound(width),
    ensures
        text::hex_number(hash::hex(n, width)) == Some(n),
    decreases width,
{
    if width > 0 {
        let digits = hash::hex(n, width);
        lemma_hex_digits(n / 16, (width - 1) as nat);
        assert(digits.drop_last() =~= hash::hex(n / 16, (width - 1) as nat));
        assert(digits.last() == hash::hex_char(n % 16));
        assert(text::hex_digit(hash::hex_char(n % 16)) == Some(n % 16));
        assert(n / 16 * 16 + n % 16 == n);
    }
}

/// A marker starts with the hash of the bytes in sixteen hexadecimal digits, and ends
/// with their number.
pub proof fn markers_hold_the_hash(bytes: Seq<u8>)
    ensures
        marker(bytes).len() > 17,
        text::hex_number(marker(bytes).take(16)) == Some(hash::fnv1a(bytes) as nat),
        marker(bytes).skip(17) == text::decimal(bytes.len()),
{
    let n = hash::fnv1a(bytes) as nat;
    assert(hex_bound(16) == 0x1_0000_0000_0000_0000) by {
        reveal_with_fuel(hex_bound, 17);
    }
    lemma_hex_digits(n, 16);
    lemma_hex_len(n, 16);
    assert(marker(bytes).take(16) =~= hash::hex(n, 16));
    assert(marker(bytes).skip(17) =~= text::decimal(bytes.len()));
    assert(text::decimal(bytes.len()).len() > 0);
}

/// Bytes that differ in one place have different markers.
pub proof fn markers_tell_single_bytes_apart(a: Seq<u8>, b: Seq<u8>, i: int)
    requires
        a.len() == b.len(),
        0 <= i < a.len(),
        a[i] != b[i],
        forall|j: int| 0 <= j < a.len() && j != i ==> a[j] == b[j],
    ensures
        marker(a) != marker(b),
{
    markers_hold_the_hash(a);
    markers_hold_the_hash(b);
    hash::every_byte_counts(a, b, i);
}

/// What is kept of unsaved work.
#[derive(Debug, PartialEq, Eq)]
pub struct RecoverySidecar {
    /// The file that the work belongs to.
    pub source_path: String,
    /// The text.
    pub buffer: String,
    /// The marker of the text.
    pub content_marker: String,
    /// When it was kept, in milliseconds since 1970.
    pub timestamp: u64,
    /// How the file was written.
    pub fidelity_hint: FidelityHint,
}

impl RecoverySidecar {
    /// Keeps a text at the time `timestamp`.
    pub fn new(
        source_path: String,
        buffer: String,
        profile: &ByteFidelityProfile,
        timestamp: u64,
    ) -> (r: Self)
        ensures
            r.source_path == source_path,
            r.buffer == buffer,
            r.content_marker@ == marker(vstd::utf8::encode_utf8(buffer@)),
            r.timestamp == timestamp,
            r.fidelity_hint == hint_of(*profile),
    {
        let content_marker = content_marker(buffer.as_str().as_bytes());
        RecoverySidecar {
            source_path,
            buffer,
            content_marker,
            timestamp,
            fidelity_hint: FidelityHint::from(profile),
        }
    }

    /// The profile to go on with when the text is recovered.
    pub fn restored_profile(&self) -> (r: ByteFidelityProfile)
        ensures
            r == fidelity::profile_of(
                fidelity::saved_bytes(self.buffer@, self.fidelity_hint.seed()),
            ),
    {
        self.fidelity_hint.to_profile(self.buffer.as_str())
    }
}

/// The profile with which a sidecar itself is written: its text stays as it is.
pub open spec fn neutral() -> ByteFidelityProfile {
    ByteFidelityProfile {
        line_ending: LineEnding::Lf,
        dominant: LineEnding::Lf,
        had_trailing_newline: false,
        had_bom: false,
        original_hash: 0,
    }
}

/// The profile with which a sidecar itself is written.
pub fn neutral_profile() -> (r: ByteFidelityProfile)
    ensures
        r == neutral(),
{
    ByteFidelityProfile {
        line_ending: LineEnding::Lf,
        dominant: LineEnding::Lf,
        had_trailing_newline: false,
        had_bom: false,
        original_hash: 0,
    }
}

/// The text of a sidecar, on one line, is written as it is.
pub proof fn sidecars_are_written_verbatim(json: Seq<char>)
    requires
        forall|i: int| 0 <= i < json.len() ==> #[trigger] json[i] != '\n' && json[i] != '\r',
    ensures
        fidelity::saved_bytes(json, neutral()) == vstd::utf8::encode_utf8(json),
{
    fidelity::plain_text_is_kept(json, neutral());
}

/// What opening a file finds.
#[derive(Debug, PartialEq, Eq)]
pub enum RecoveryDetection {
    /// No work to recover.
    Nothing,
    /// A sidecar with another text than the file.
    Offer(RecoverySidecar),
}

/// What the text of some bytes is when bytes that are no UTF-8 are replaced.
pub uninterp spec fn lossy_text(bytes: Seq<u8>) -> Seq<char>;

/// `String::from_utf8_lossy`: the text of some bytes, with replacement characters for
/// what is no UTF-8. UTF-8 is decoded as it is.
#[verifier::external_body]
fn decode_lossy(bytes: &[u8]) -> (r: String)
    ensures
        r@ == lossy_text(bytes@),
        vstd::utf8::valid_utf8(bytes@) ==> vstd::utf8::encode_utf8(r@) == bytes@,
{
    String::from_utf8_lossy(bytes).into_owned()
}

/// The text that opening a file with these bytes gives.
pub open spec fn opened_text(bytes: Seq<u8>) -> Seq<char> {
    fidelity::without_bom(lossy_text(bytes))
}

/// Whether a marker is that of the text of a file, with its own line ends or with those
/// of the editor.
pub open spec fn same_content(content_marker: Seq<char>, bytes: Seq<u8>) -> bool {
    ||| content_marker == marker(vstd::utf8::encode_utf8(opened_text(bytes)))
    ||| content_marker == marker(
        vstd::utf8::encode_utf8(fidelity::unix_lines(opened_text(bytes), 0)),
    )
}

/// Whether to offer the text of a sidecar for a file with these bytes: where there is a
/// sidecar, and it holds another text.
pub fn detect_recovery(sidecar: Option<RecoverySidecar>, on_disk_bytes: &[u8]) -> (r:
    RecoveryDetection)
    ensures
        r == (match sidecar {
            Some(s) => if same_content(s.content_marker@, on_disk_bytes@) {
                RecoveryDetection::Nothing
            } else {
                RecoveryDetection::Offer(s)
            },
            None => RecoveryDetection::Nothing,
        }),
{
    let s = match sidecar {
        Some(s) => s,
        None => return RecoveryDetection::Nothing,
    };
    let decoded = decode_lossy(on_disk_bytes);
    let opened = fidelity::strip_bom(decoded.as_str());
    let unix = fidelity::normalise_to_lf(opened.as_str());
    let as_opened = content_marker(opened.as_str().as_bytes());
    let as_edited = content_marker(unix.as_str().as_bytes());
    if text::same_text(s.content_marker.as_str(), as_opened.as_str()) || text::same_text(
        s.content_marker.as_str(),
        as_edited.as_str(),
    ) {
        RecoveryDetection::Nothing
    } else {
        RecoveryDetection::Offer(s)
    }
}

/// The text of a file in UTF-8 is not offered back, and a text with the line ends of
/// the editor that differs from it in one byte is offered.
pub proof fn changed_work_is_told_from_the_file(
    buffer: Seq<char>,
    bytes: Seq<u8>,
    i: int,
)
    ensures
        buffer == opened_text(bytes) ==> same_content(
            marker(vstd::utf8::encode_utf8(buffer)),
            bytes,
        ),
        fidelity::unix_lines(opened_text(bytes), 0) == opened_text(bytes) && (
        text::byte_len(buffer) != text::byte_len(opened_text(bytes)) || differ_at(
            vstd::utf8::encode_utf8(buffer),
            vstd::utf8::encode_utf8(opened_text(bytes)),
            i,
        )) ==> !same_content(marker(vstd::utf8::encode_utf8(buffer)), bytes),
{
    let a = vstd::utf8::encode_utf8(buffer);
    let b = vstd::utf8::encode_utf8(opened_text(bytes));
    if a.len() != b.len() {
        markers_tell_lengths_apart(a, b);
    }
    if differ_at(a, b, i) {
        markers_tell_single_bytes_apart(a, b, i);
    }
}

/// Whether bytes differ in one place and nowhere else.
pub open spec fn differ_at(a: Seq<u8>, b: Seq<u8>, i: int) -> bool {
    &&& a.len() == b.len()
    &&& 0 <= i < a.len()
    &&& a[i] != b[i]
    &&& forall|j: int| 0 <= j < a.len() && j != i ==> a[j] == b[j]
}

/// When to write a sidecar: some time after the last edit, or after some number of
/// edits, but only if there are any.
///
/// Times are in nanoseconds of one clock.
#[derive(Debug, Clone, Copy, PartialEq, Eq)]
pub struct AutosaveDebounce {
    pub config: AutosaveConfig,
    /// The edit that was seen last.
    pub last_seen_generation: Option<u64>,
    /// The edit that was written last.
    pub last_written_generation: Option<u64>,
    /// When the last edit was seen.
    pub last_change_at: Option<u64>,
    /// The number of edits since the last write.
    pub edits_since_write: u32,
}

/// The time between two moments; none if they are the wrong way round.
pub open spec fn elapsed(from: u64, to: u64) -> nat {
    if to >= from {
        (to - from) as nat
    } else {
        0
    }
}

impl AutosaveDebounce {
    /// Whether there are edits that were not written.
    pub open spec fn changed(self) -> bool {
        self.last_seen_generation is Some && self.last_seen_generation
            != self.last_written_generation
    }

    /// Whether the edits are to be written now.
    pub open spec fn due(self, now: u64) -> bool {
        self.changed() && (self.edits_since_write >= self.config.normal().edit_count_trigger || (
        self.last_change_at matches Some(at) && elapsed(at, now)
            >= self.config.normal().idle_debounce_ms * 1_000_000))
    }

    /// The state after seeing an edit. One that was seen already makes no difference.
    pub open spec fn noted(self, generation: u64, now: u64) -> Self {
        if self.last_seen_generation == Some(generation) {
            self
        } else {
            AutosaveDebounce {
                last_seen_generation: Some(generation),
                last_change_at: Some(now),
                edits_since_write: if self.edits_since_write == u32::MAX {
                    u32::MAX
                } else {
                    (self.edits_since_write + 1) as u32
                },
                ..self
            }
        }
    }

    /// The state after a write.
    pub open spec fn written(self) -> Self {
        AutosaveDebounce {
            last_written_generation: self.last_seen_generation,
            edits_since_write: 0,
            ..self
        }
    }

    /// Nothing seen and nothing written.
    pub fn new(config: AutosaveConfig) -> (r: Self)
        ensures
            r == (AutosaveDebounce {
                config,
                last_seen_generation: None,
                last_written_generation: None,
                last_change_at: None,
                edits_since_write: 0,
            }),
    {
        AutosaveDebounce {
            config,
            last_seen_generation: None,
            last_written_generation: None,
            last_change_at: None,
            edits_since_write: 0,
        }
    }

    /// Sets other triggers.
    pub fn set_config(&mut self, config: AutosaveConfig)
        ensures
            *final(self) == (AutosaveDebounce { config, ..*old(self) }),
    {
        self.config = config;
    }

    /// Sees the edit numbered `generation`.
    pub fn note_change(&mut self, generation: u64, now: u64)
        ensures
            *final(self) == old(self).noted(generation, now),
    {
        if let Some(seen) = self.last_seen_generation {
            if seen == generation {
                return ;
            }
        }
        self.last_seen_generation = Some(generation);
        self.last_change_at = Some(now);
        if self.edits_since_write < u32::MAX {
            self.edits_since_write = self.edits_since_write + 1;
        }
    }

    /// Whether there are edits that were not written.
    pub fn has_unsaved_change(&self) -> (r: bool)
        ensures
            r == self.changed(),
    {
        match (self.last_seen_generation, self.last_written_generation) {
            (Some(seen), Some(written)) => seen != written,
            (Some(_), None) => true,
            (None, _) => false,
        }
    }

    /// Whether the edits are to be written now.
    pub fn poll(&self, now: u64) -> (r: bool)
        ensures
            r == self.due(now),
    {
        if !self.has_unsaved_change() {
            return false;
        }
        if self.edits_since_write >= self.config.effective_edit_count_trigger() {
            return true;
        }
        match self.last_change_at {
            Some(at) => {
                let idle: u64 = if now >= at {
                    now - at
                } else {
                    0
                };
                idle >= self.config.effective_idle_debounce()
            },
            None => false,
        }
    }

    /// The edits were written.
    pub fn mark_written(&mut self)
        ensures
            *final(self) == old(self).written(),
    {
        self.last_written_generation = self.last_seen_generation;
        self.edits_since_write = 0;
    }

    /// Whether a write that does not wait for a trigger has anything to write.
    pub fn force_tick(&self) -> (r: bool)
        ensures
            r == self.changed(),
    {
        self.has_unsaved_change()
    }
}

/// Edits are written once: after a write nothing is due until the next edit.
pub proof fn written_edits_are_not_due(debounce: AutosaveDebounce, now: u64)
    ensures
        !debounce.written().changed(),
        !debounce.written().due(now),
{
}

/// An edit counts once, however often it is seen.
pub proof fn edits_count_once(debounce: AutosaveDebounce, generation: u64, first: u64, again: u64)
    ensures
        debounce.noted(generation, first).noted(generation, again) == debounce.noted(
            generation,
            first,
        ),
{
}

/// An edit that was not written becomes due at the latest after the idle time.
pub proof fn edits_become_due(debounce: AutosaveDebounce, generation: u64, at: u64, now: u64)
    requires
        debounce.last_seen_generation != Some(generation),
        debounce.last_written_generation != Some(generation),
        elapsed(at, now) >= debounce.config.normal().idle_debounce_ms * 1_000_000,
    ensures
        debounce.noted(generation, at).due(now),
{
}

/// An edit is not written before the idle time is over, as long as there are fewer
/// than the number that is written at once.
pub proof fn edits_wait(debounce: AutosaveDebounce, generation: u64, at: u64, now: u64)
    requires
        debounce.last_seen_generation != Some(generation),
        debounce.edits_since_write + 1 < debounce.config.normal().edit_count_trigger,
        now < at + debounce.config.normal().idle_debounce_ms * 1_000_000,
        debounce.config.normal().idle_debounce_ms > 0,
    ensures
        !debounce.noted(generation, at).due(now),
{
}

/// Edits that were not written.
pub open spec fn after_edits(
    debounce: AutosaveDebounce,
    edits: Seq<(u64, u64)>,
) -> AutosaveDebounce
    decreases edits.len(),
{
    if edits.len() == 0 {
        debounce
    } else {
        after_edits(debounce, edits.drop_last()).noted(edits.last().0, edits.last().1)
    }
}

proof fn lemma_after_edits(debounce: AutosaveDebounce, edits: Seq<(u64, u64)>)
    requires
        forall|i: int| 0 < i < edits.len() ==> (#[trigger] edits[i]).0 != edits[i - 1].0,
        edits.len() > 0 ==> debounce.last_seen_generation != Some(edits[0].0),
        debounce.edits_since_write + edits.len() <= u32::MAX,
    ensures
        after_edits(debounce, edits).config == debounce.config,
        after_edits(debounce, edits).edits_since_write == debounce.edits_since_write
            + edits.len(),
        after_edits(debounce, edits).last_written_generation
            == debounce.last_written_generation,
        after_edits(debounce, edits).last_seen_generation == if edits.len() == 0 {
            debounce.last_seen_generation
        } else {
            Some(edits.last().0)
        },
    decreases edits.len(),
{
    if edits.len() > 0 {
        lemma_after_edits(debounce, edits.drop_last());
        if edits.len() > 1 {
            assert(edits[edits.len() - 1].0 != edits[edits.len() - 2].0);
        }
    }
}

/// As many edits since a write as are written at once are due, whenever they came; one
/// fewer within the idle time are not.
pub proof fn many_edits_are_due_at_once(
    debounce: AutosaveDebounce,
    edits: Seq<(u64, u64)>,
    now: u64,
)
    requires
        0 < edits.len() <= u32::MAX,
        forall|i: int| 0 < i < edits.len() ==> (#[trigger] edits[i]).0 != edits[i - 1].0,
        debounce.last_seen_generation != Some(edits[0].0),
        debounce.last_seen_generation != Some(edits.last().0),
        edits.last().1 <= now < edits.last().1
            + debounce.config.normal().idle_debounce_ms * 1_000_000,
    ensures
        after_edits(debounce.written(), edits).due(now) == (edits.len()
            >= debounce.config.normal().edit_count_trigger),
{
    let start = debounce.written();
    lemma_after_edits(start, edits);
    lemma_after_edits(start, edits.drop_last());
    let before = after_edits(start, edits.drop_last());
    if edits.len() > 1 {
        assert(edits[edits.len() - 1].0 != edits[edits.len() - 2].0);
        assert(edits.drop_last().last() == edits[edits.len() - 2]);
    }
    assert(before.last_seen_generation != Some(edits.last().0));
    assert(after_edits(start, edits).last_change_at == Some(edits.last().1));
}

/// Work is not lost: while the edit that was seen last is not the one that was written,
/// closing writes it.
pub proof fn unwritten_edits_are_kept(debounce: AutosaveDebounce, generation: u64, now: u64)
    ensures
        debounce.last_written_generation != Some(generation) ==> debounce.noted(
            generation,
            now,
        ).changed(),
        !debounce.noted(generation, now).written().changed(),
        debounce.written().noted(generation, now).changed() == (debounce.last_seen_generation
            != Some(generation)),
{
}

/// How a write of a sidecar went.
#[derive(Debug, Clone, Copy, PartialEq, Eq, Structural)]
pub struct AutosaveOutcome {
    /// Whether the sidecar was written.
    pub committed: bool,
}

} // verus!
