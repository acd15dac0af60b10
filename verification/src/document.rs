//! A document in the editor.
//!
//! An [`EditorDocument`] holds the text with the file it belongs to, what was derived
//! from the text, and the history of edits. It numbers its edits: what was derived
//! from an older text is never put in place of anything newer.
//!
//! Times are in nanoseconds of one clock.

use vstd::prelude::*;

use crate::diagnostics::{self, Diagnostic, DiagnosticView, Finding, Marked};
use crate::editor_view::{self, HighlightModel};
use crate::fidelity;
use crate::fileio::OpenError;
use crate::paths;
use crate::recovery::{self, AutosaveDebounce, RecoverySidecar};
use crate::reparse::{BoundScene, BoundType, BoundValidation, ParseResult, ReparseJob};
use crate::settings::{self, AutosaveConfig, DocumentOverride, Mode, TypeSourceLocator, UndoConfig};
use crate::snippets::SnippetSession;
use crate::text;
use crate::undo::{self, CursorState, History, State, UndoEntry, UndoStack};

pub use crate::fidelity::{ByteFidelityProfile, LineEnding, SavedSnapshot};

verus! {

/// Where a binding comes from.
#[derive(Debug, Clone, Copy, PartialEq, Eq, Structural)]
pub enum BindingOrigin {
    /// From the user, for this document.
    Override,
    /// From the rules of the project.
    Config,
}

/// The type that a document is bound to.
#[derive(Debug, PartialEq, Eq)]
pub enum BindingState {
    Bound { named_type: String, type_source: TypeSourceLocator, origin: BindingOrigin },
    NoBinding,
}

/// Where a mode comes from.
#[derive(Debug, Clone, Copy, PartialEq, Eq, Structural)]
pub enum ModeOrigin {
    /// From the name of the file.
    AutoDetected,
    /// From the user.
    Override,
}

/// What a document is validated as, and the registry it is bound to.
#[derive(Debug, PartialEq, Eq)]
pub struct ModeState {
    pub active_mode: Mode,
    pub mode_origin: ModeOrigin,
    /// The registry that is bound.
    pub bound_registry_path: Option<String>,
    /// Whether it was loaded.
    pub has_registry: bool,
    /// The version of Bevy that is expected of it.
    pub expected_bevy_version: Option<String>,
    /// The version of Bevy that it is of.
    pub apparent_bevy_version: Option<String>,
    /// Whether the two differ.
    pub is_stale: bool,
}

impl ModeState {
    /// Whether this is the state of a document that is bound to no registry.
    pub open spec fn is_default(&self) -> bool {
        &&& self.active_mode == Mode::Serde
        &&& self.mode_origin == ModeOrigin::AutoDetected
        &&& self.bound_registry_path is None
        &&& !self.has_registry
        &&& self.expected_bevy_version is None
        &&& self.apparent_bevy_version is None
        &&& !self.is_stale
    }
}

impl Default for ModeState {
    fn default() -> (r: Self)
        ensures
            r.is_default(),
    {
        ModeState {
            active_mode: Mode::Serde,
            mode_origin: ModeOrigin::AutoDetected,
            bound_registry_path: None,
            has_registry: false,
            expected_bevy_version: None,
            apparent_bevy_version: None,
            is_stale: false,
        }
    }
}

/// What editing changes, as a mathematical value.
pub struct Editing {
    pub text: Seq<char>,
    pub cursor: CursorState,
    /// The number of the last edit.
    pub generation: u64,
    pub history: History,
    /// The edit whose text was recorded last.
    pub snapshot: Option<u64>,
    /// When it was recorded, if the next edit may belong to it.
    pub anchor: Option<u64>,
    /// Whether what is shown is older than the text.
    pub stale: bool,
}

/// The number of the edit after `generation`.
pub open spec fn next_generation(generation: u64) -> u64 {
    if generation == u64::MAX {
        0
    } else {
        (generation + 1) as u64
    }
}

/// Whether an edit at `now` belongs to the unit of the one that was recorded last.
pub open spec fn belongs(anchor: Option<u64>, now: u64, window_ms: u64) -> bool {
    anchor matches Some(at) && recovery::elapsed(at, now) < window_ms * 1_000_000
}

impl Editing {
    /// The current state.
    pub open spec fn state(self) -> State {
        State { text: self.text, cursor: self.cursor }
    }

    /// After an edit.
    pub open spec fn edited(self) -> Editing {
        Editing { generation: next_generation(self.generation), stale: true, ..self }
    }

    /// With a state to start from.
    pub open spec fn seeded(self, cap: undo::UndoCap) -> Editing {
        if self.snapshot is Some {
            self
        } else {
            Editing {
                history: self.history.recorded(self.state(), false, cap),
                snapshot: Some(self.generation),
                ..self
            }
        }
    }

    /// With the current state recorded, unless it was already.
    pub open spec fn recorded(self, now: u64, cap: undo::UndoCap, window_ms: u64) -> Editing {
        let s = self.seeded(cap);
        if s.snapshot == Some(s.generation) {
            s
        } else {
            Editing {
                history: s.history.recorded(s.state(), belongs(s.anchor, now, window_ms), cap),
                snapshot: Some(s.generation),
                anchor: Some(now),
                ..s
            }
        }
    }

    /// With a recorded state in place of the current one.
    pub open spec fn restored(self, state: State) -> Editing {
        Editing {
            text: state.text,
            cursor: state.cursor,
            generation: next_generation(self.generation),
            snapshot: Some(next_generation(self.generation)),
            anchor: None,
            stale: true,
            ..self
        }
    }

    /// After going back one unit, if there is one.
    pub open spec fn undone(self, now: u64, cap: undo::UndoCap, window_ms: u64) -> Editing {
        let s = self.recorded(now, cap, window_ms);
        if s.history.can_undo() {
            let h = s.history.undone();
            (Editing { history: h, ..s }).restored(h.current->0)
        } else {
            s
        }
    }

    /// After going forward one unit, if there is one.
    pub open spec fn redone(self) -> Editing {
        if self.history.can_redo() {
            let h = self.history.redone();
            (Editing { history: h, ..self }).restored(h.current->0)
        } else {
            self
        }
    }

    /// With another text, as a unit of its own.
    pub open spec fn committed(
        self,
        text: Seq<char>,
        now: u64,
        cap: undo::UndoCap,
        window_ms: u64,
    ) -> Editing {
        let s = self.recorded(now, cap, window_ms);
        let e = (Editing { text, ..s }).edited();
        (Editing { anchor: None, ..e }).recorded(now, cap, window_ms)
    }

    /// Whether there is a state to start from, and the recorded state is the current
    /// text unless an edit came after it.
    pub open spec fn wf(self) -> bool {
        &&& self.snapshot is Some
        &&& self.history.current is Some
        &&& self.snapshot == Some(self.generation) ==> self.history.current->0.text == self.text
    }
}

/// Going back after a text was committed restores the text before; going forward again
/// gives the committed text.
pub proof fn commits_are_undone_in_one_step(
    e: Editing,
    text: Seq<char>,
    now: u64,
    later: u64,
    cap: undo::UndoCap,
    window_ms: u64,
)
    requires
        e.wf(),
    ensures
        e.committed(text, now, cap, window_ms).text == text,
        e.committed(text, now, cap, window_ms).undone(later, cap, window_ms).text == e.text,
        e.committed(text, now, cap, window_ms).undone(later, cap, window_ms).redone().text == text,
{
    let s = e.recorded(now, cap, window_ms);
    let c = e.committed(text, now, cap, window_ms);
    assert(s.history.current->0.text == e.text);
    let mid = (Editing { text, ..s }).edited();
    undo::undo_restores_what_was_recorded_over(s.history, mid.state(), cap);
    assert(c.history == s.history.recorded(mid.state(), false, cap));
    assert(c.history.can_undo());
    let u = c.undone(later, cap, window_ms);
    assert(u.history == c.history.undone());
    undo::redo_undoes_undo(c.history);
}

/// Going forward after going back restores the text.
pub proof fn redo_brings_the_text_back(
    e: Editing,
    now: u64,
    cap: undo::UndoCap,
    window_ms: u64,
)
    requires
        e.wf(),
        e.recorded(now, cap, window_ms).history.can_undo(),
    ensures
        e.undone(now, cap, window_ms).redone().text == e.text,
{
    let s = e.recorded(now, cap, window_ms);
    undo::redo_undoes_undo(s.history);
}

/// Every step keeps the document in order.
pub proof fn steps_keep_documents_well_formed(
    e: Editing,
    text: Seq<char>,
    now: u64,
    cap: undo::UndoCap,
    window_ms: u64,
)
    requires
        e.wf(),
    ensures
        e.recorded(now, cap, window_ms).wf(),
        e.undone(now, cap, window_ms).wf(),
        e.redone().wf(),
        e.committed(text, now, cap, window_ms).wf(),
{
}

/// What became of a change to the structure of a document.
#[derive(Debug, PartialEq, Eq)]
pub enum TransformOutcome {
    /// The text with the change.
    Applied(String),
    /// Why there is none.
    Blocked(String),
}

/// A document.
#[derive(Debug)]
pub struct EditorDocument {
    /// The identity of the document.
    pub id: u64,
    /// The text.
    pub buffer: String,
    /// The file that it belongs to.
    pub path: Option<String>,
    /// The text that was opened or saved last.
    pub last_saved: SavedSnapshot,
    /// How the file was written.
    pub byte_profile: ByteFidelityProfile,
    pub cursor: CursorState,
    /// What was parsed last.
    pub parse: Option<ParseResult>,
    pub highlight: Option<HighlightModel>,
    pub diagnostics: Vec<DiagnosticView>,
    /// The number of a document without a file.
    pub untitled_seq: Option<u32>,
    /// The number of the last edit.
    pub edit_generation: u64,
    /// The edit for which a parse was asked last.
    pub last_requested_generation: u64,
    /// Where the caret is to go.
    pub pending_cursor_jump: Option<usize>,
    /// The visit of tab stops.
    pub snippet_session: Option<SnippetSession>,
    /// The type that it is validated against.
    pub bound_type: Option<String>,
    pub mode_state: ModeState,
    /// The type that it is bound to.
    pub binding: BindingState,
    pub override_: Option<DocumentOverride>,
    /// Whether it is too large to be validated.
    pub validation_suppressed: bool,
    pub recovery: AutosaveDebounce,
    pub undo: UndoStack,
    /// The edit whose text was recorded last.
    pub last_undo_generation: Option<u64>,
    /// When it was recorded, if the next edit may belong to it.
    pub last_undo_instant: Option<u64>,
    /// Edits closer to each other than this many milliseconds are one undo unit.
    pub undo_coalesce_window_ms: u64,
    /// Whether what is shown is older than the text.
    pub view_stale: bool,
    /// Why the last change to the structure was refused.
    pub tree_error: Option<String>,
}

impl EditorDocument {
    /// What editing changes.
    pub open spec fn editing(&self) -> Editing {
        Editing {
            text: self.buffer@,
            cursor: self.cursor,
            generation: self.edit_generation,
            history: self.undo@,
            snapshot: self.last_undo_generation,
            anchor: self.last_undo_instant,
            stale: self.view_stale,
        }
    }

    /// Whether nothing else is different in another document.
    pub open spec fn differs_in_editing_only(&self, other: &EditorDocument) -> bool {
        &&& self.last_requested_generation == other.last_requested_generation
        &&& self.same_around(other)
    }

    /// Whether another document is the same but for what editing changes and for what
    /// was asked to be parsed.
    pub open spec fn same_around(&self, other: &EditorDocument) -> bool {
        &&& self.id == other.id
        &&& self.path == other.path
        &&& self.last_saved == other.last_saved
        &&& self.byte_profile == other.byte_profile
        &&& self.parse == other.parse
        &&& self.highlight == other.highlight
        &&& self.diagnostics == other.diagnostics
        &&& self.untitled_seq == other.untitled_seq
        &&& self.pending_cursor_jump == other.pending_cursor_jump
        &&& self.snippet_session == other.snippet_session
        &&& self.bound_type == other.bound_type
        &&& self.mode_state == other.mode_state
        &&& self.binding == other.binding
        &&& self.override_ == other.override_
        &&& self.validation_suppressed == other.validation_suppressed
        &&& self.recovery == other.recovery
        &&& self.undo.cap == other.undo.cap
        &&& self.undo_coalesce_window_ms == other.undo_coalesce_window_ms
        &&& self.tree_error == other.tree_error
    }

    /// Whether nothing was derived from the text yet, and nothing was edited.
    pub open spec fn fresh(&self) -> bool {
        &&& self.parse is None
        &&& self.highlight is None
        &&& self.diagnostics@.len() == 0
        &&& self.edit_generation == 0
        &&& self.last_requested_generation == 0
        &&& self.pending_cursor_jump is None
        &&& self.snippet_session is None
        &&& self.bound_type is None
        &&& self.mode_state.is_default()
        &&& self.binding == BindingState::NoBinding
        &&& self.override_ is None
        &&& !self.validation_suppressed
        &&& !self.view_stale
        &&& self.tree_error is None
        &&& self.recovery == (AutosaveDebounce {
            config: AutosaveConfig {
                idle_debounce_ms: settings::DEFAULT_AUTOSAVE_IDLE_MS,
                edit_count_trigger: settings::DEFAULT_AUTOSAVE_EDIT_COUNT,
            },
            last_seen_generation: None,
            last_written_generation: None,
            last_change_at: None,
            edits_since_write: 0,
        })
        &&& self.undo.cap == (undo::UndoCap {
            max_count: undo::DEFAULT_UNDO_COUNT_CAP,
            max_bytes: undo::DEFAULT_UNDO_BYTE_CAP,
        })
        &&& self.undo_coalesce_window_ms == undo::DEFAULT_COALESCE_WINDOW_MS
        &&& self.last_undo_instant is None
        &&& self.last_undo_generation == Some(0u64)
        &&& self.undo@.past.len() == 0
        &&& self.undo@.future.len() == 0
        &&& self.undo@.current == Some(self.editing().state())
    }

    fn fresh_document(
        id: u64,
        path: Option<String>,
        buffer: String,
        last_saved: SavedSnapshot,
        byte_profile: ByteFidelityProfile,
        cursor: CursorState,
        untitled_seq: Option<u32>,
    ) -> (r: Self)
        ensures
            r.fresh(),
            r.editing().wf(),
            r.id == id,
            r.path == path,
            r.buffer == buffer,
            r.last_saved == last_saved,
            r.byte_profile == byte_profile,
            r.cursor == cursor,
            r.untitled_seq == untitled_seq,
    {
        let mut doc = EditorDocument {
            id,
            buffer,
            path,
            last_saved,
            byte_profile,
            cursor,
            parse: None,
            highlight: None,
            diagnostics: Vec::new(),
            untitled_seq,
            edit_generation: 0,
            last_requested_generation: 0,
            pending_cursor_jump: None,
            snippet_session: None,
            bound_type: None,
            mode_state: ModeState::default(),
            binding: BindingState::NoBinding,
            override_: None,
            validation_suppressed: false,
            recovery: AutosaveDebounce::new(AutosaveConfig::default()),
            undo: UndoStack::with_cap(undo::UndoCap::default()),
            last_undo_generation: None,
            last_undo_instant: None,
            undo_coalesce_window_ms: undo::DEFAULT_COALESCE_WINDOW_MS,
            view_stale: false,
            tree_error: None,
        };
        doc.seed_undo();
        doc
    }

    /// A document from the bytes of a file. A byte order mark is remembered, but is no
    /// part of the text. Bytes that are no UTF-8 are refused.
    pub fn from_loaded(id: u64, path: String, raw: &[u8]) -> (r: Result<Self, OpenError>)
        ensures
            match r {
                Ok(doc) => {
                    &&& vstd::utf8::valid_utf8(raw@)
                    &&& doc.fresh()
                    &&& doc.editing().wf()
                    &&& doc.id == id
                    &&& doc.path == Some(path)
                    &&& doc.buffer@ == fidelity::without_bom(vstd::utf8::decode_utf8(raw@))
                    &&& doc.last_saved.fits(doc.buffer@)
                    &&& doc.byte_profile == fidelity::profile_of(raw@)
                    &&& doc.cursor == (CursorState { caret: 0, selection: None, scroll: 0 })
                    &&& doc.untitled_seq is None
                },
                Err(e) => e == OpenError::NotUtf8 && !vstd::utf8::valid_utf8(raw@),
            },
    {
        let profile = ByteFidelityProfile::from_bytes(raw);
        let decoded = match fidelity::decode_utf8(raw) {
            Some(t) => t,
            None => return Err(OpenError::NotUtf8),
        };
        proof {
            vstd::utf8::encode_utf8_valid_utf8(decoded@);
            vstd::utf8::encode_utf8_decode_utf8(decoded@);
        }
        let buffer = fidelity::strip_bom(decoded.as_str());
        let last_saved = SavedSnapshot::of(buffer.as_str());
        Ok(
            Self::fresh_document(
                id,
                Some(path),
                buffer,
                last_saved,
                profile,
                CursorState::default(),
                None,
            ),
        )
    }

    /// An empty document without a file.
    pub fn new_untitled(id: u64, seq: u32) -> (r: Self)
        ensures
            r.fresh(),
            r.editing().wf(),
            r.id == id,
            r.path is None,
            r.buffer@ == Seq::<char>::empty(),
            r.last_saved.fits(r.buffer@),
            r.byte_profile == fidelity::profile_of(Seq::empty()),
            r.cursor == (CursorState { caret: 0, selection: None, scroll: 0 }),
            r.untitled_seq == Some(seq),
    {
        let buffer = String::new();
        let last_saved = SavedSnapshot::of(buffer.as_str());
        let nothing: Vec<u8> = Vec::new();
        let profile = ByteFidelityProfile::from_bytes(nothing.as_slice());
        assert(nothing@ =~= Seq::<u8>::empty());
        Self::fresh_document(
            id,
            None,
            buffer,
            last_saved,
            profile,
            CursorState::default(),
            Some(seq),
        )
    }

    /// A document that was closed, as it was then.
    pub fn from_restorable(
        id: u64,
        path: Option<String>,
        buffer: String,
        last_saved: SavedSnapshot,
        byte_profile: ByteFidelityProfile,
        cursor: CursorState,
        untitled_seq: Option<u32>,
    ) -> (r: Self)
        ensures
            r.fresh(),
            r.editing().wf(),
            r.id == id,
            r.path == path,
            r.buffer == buffer,
            r.last_saved == last_saved,
            r.byte_profile == byte_profile,
            r.cursor == cursor,
            r.untitled_seq == untitled_seq,
    {
        Self::fresh_document(id, path, buffer, last_saved, byte_profile, cursor, untitled_seq)
    }

    /// The identity of the document.
    pub fn id(&self) -> (r: u64)
        ensures
            r == self.id,
    {
        self.id
    }

    /// Whether the text is another one than was opened or saved last.
    pub fn dirty(&self) -> (r: bool)
        ensures
            r == !self.last_saved.fits(self.buffer@),
    {
        !self.last_saved.matches(self.buffer.as_str())
    }

    /// The text was saved.
    pub fn mark_saved(&mut self)
        ensures
            final(self).last_saved.fits(final(self).buffer@),
            *final(self) == (EditorDocument { last_saved: final(self).last_saved, ..*old(self) }),
    {
        self.last_saved = SavedSnapshot::of(self.buffer.as_str());
    }

    /// Sets when recovery files are written.
    pub fn set_autosave_config(&mut self, config: AutosaveConfig)
        ensures
            *final(self) == (EditorDocument {
                recovery: AutosaveDebounce { config, ..old(self).recovery },
                ..*old(self)
            }),
    {
        self.recovery.set_config(config);
    }

    /// Sees the last edit.
    pub fn note_change(&mut self, now: u64)
        ensures
            *final(self) == (EditorDocument {
                recovery: old(self).recovery.noted(old(self).edit_generation, now),
                ..*old(self)
            }),
    {
        self.recovery.note_change(self.edit_generation, now);
    }

    /// Whether to write a recovery file now. A document without a file has none.
    pub fn should_autosave(&self, now: u64) -> (r: bool)
        ensures
            r == (self.path is Some && self.recovery.due(now)),
    {
        self.path.is_some() && self.recovery.poll(now)
    }

    /// Whether a recovery file that does not wait has anything to hold.
    pub fn force_autosave_tick(&self) -> (r: bool)
        ensures
            r == (self.path is Some && self.recovery.changed()),
    {
        self.path.is_some() && self.recovery.force_tick()
    }

    /// What a recovery file holds now. A document without a file has none.
    pub fn recovery_snapshot(&self, timestamp: u64) -> (r: Option<RecoverySidecar>)
        ensures
            match r {
                Some(s) => {
                    &&& self.path matches Some(p) && s.source_path@ == p@
                    &&& s.buffer@ == self.buffer@
                    &&& s.content_marker@ == recovery::marker(
                        vstd::utf8::encode_utf8(self.buffer@),
                    )
                    &&& s.timestamp == timestamp
                    &&& s.fidelity_hint == recovery::hint_of(self.byte_profile)
                },
                None => self.path is None,
            },
    {
        match &self.path {
            Some(p) => Some(
                RecoverySidecar::new(p.clone(), self.buffer.clone(), &self.byte_profile, timestamp),
            ),
            None => None,
        }
    }

    /// The recovery file was written.
    pub fn mark_autosaved(&mut self)
        ensures
            *final(self) == (EditorDocument { recovery: old(self).recovery.written(), ..*old(self) }),
    {
        self.recovery.mark_written();
    }

    /// Sets how much history is kept. Another setting than before starts a new history.
    pub fn set_undo_config(&mut self, config: UndoConfig)
        ensures
            ({
                let c = config.normal();
                let same = old(self).undo.cap.max_count == c.history_count_cap
                    && old(self).undo.cap.max_bytes == c.history_byte_cap
                    && old(self).undo_coalesce_window_ms == c.coalesce_window_ms;
                if same {
                    *final(self) == *old(self)
                } else {
                    &&& final(self).undo.cap.max_count == c.history_count_cap
                    &&& final(self).undo.cap.max_bytes == c.history_byte_cap
                    &&& final(self).undo_coalesce_window_ms == c.coalesce_window_ms
                    &&& final(self).last_undo_generation == Some(old(self).edit_generation)
                    &&& final(self).last_undo_instant is None
                    &&& final(self).undo@ == (History {
                        past: Seq::empty(),
                        current: Some(old(self).editing().state()),
                        future: Seq::empty(),
                    })
                    &&& *final(self) == (EditorDocument {
                        undo: final(self).undo,
                        undo_coalesce_window_ms: c.coalesce_window_ms,
                        last_undo_generation: Some(old(self).edit_generation),
                        last_undo_instant: None,
                        ..*old(self)
                    })
                }
            }),
    {
        let cap = config.to_engine_cap();
        let window = config.effective_coalesce_window_ms();
        if self.undo.cap().max_count != cap.max_count || self.undo.cap().max_bytes
            != cap.max_bytes || self.undo_coalesce_window_ms != window {
            self.undo = UndoStack::with_cap(cap);
            self.undo_coalesce_window_ms = window;
            self.last_undo_generation = None;
            self.last_undo_instant = None;
            self.seed_undo();
            assert(self.undo@.past =~= Seq::empty());
        }
    }

    /// Gives the history a state to start from, unless it has one.
    pub fn seed_undo(&mut self)
        ensures
            final(self).editing() == old(self).editing().seeded(old(self).undo.cap),
            *final(self) == (EditorDocument {
                undo: final(self).undo,
                last_undo_generation: final(self).last_undo_generation,
                ..*old(self)
            }),
            final(self).undo.cap == old(self).undo.cap,
            old(self).last_undo_generation is Some ==> *final(self) == *old(self),
    {
        if self.last_undo_generation.is_some() {
            return ;
        }
        let entry = self.current_entry();
        self.undo.record(entry, false);
        self.last_undo_generation = Some(self.edit_generation);
    }

    fn current_entry(&self) -> (r: UndoEntry)
        ensures
            r@ == self.editing().state(),
    {
        UndoEntry { source_text: self.buffer.clone(), cursor: self.cursor }
    }

    /// Records the current state, if an edit came after the one that was recorded last.
    /// An edit soon after that one extends its unit.
    pub fn record_undo_snapshot(&mut self, now: u64) -> (r: bool)
        ensures
            final(self).editing() == old(self).editing().recorded(
                now,
                old(self).undo.cap,
                old(self).undo_coalesce_window_ms,
            ),
            final(self).differs_in_editing_only(old(self)),
            final(self).buffer == old(self).buffer,
            r == (old(self).editing().seeded(old(self).undo.cap).snapshot != Some(
                old(self).edit_generation,
            )),
    {
        self.seed_undo();
        if let Some(recorded) = self.last_undo_generation {
            if recorded == self.edit_generation {
                return false;
            }
        }
        let coalesce = match self.last_undo_instant {
            Some(at) => {
                let passed: u64 = if now >= at {
                    now - at
                } else {
                    0
                };
                (passed as u128) < (self.undo_coalesce_window_ms as u128) * 1_000_000
            },
            None => false,
        };
        let entry = self.current_entry();
        self.undo.record(entry, coalesce);
        self.last_undo_generation = Some(self.edit_generation);
        self.last_undo_instant = Some(now);
        true
    }

    /// Whether there is a state to go back to.
    pub fn can_undo(&self) -> (r: bool)
        ensures
            r == self.undo@.can_undo(),
    {
        self.undo.can_undo()
    }

    /// Whether there is a state to go forward to.
    pub fn can_redo(&self) -> (r: bool)
        ensures
            r == self.undo@.can_redo(),
    {
        self.undo.can_redo()
    }

    /// Goes back one unit, if there is one. The file is not touched.
    pub fn undo(&mut self, now: u64) -> (r: bool)
        ensures
            final(self).editing() == old(self).editing().undone(
                now,
                old(self).undo.cap,
                old(self).undo_coalesce_window_ms,
            ),
            final(self).differs_in_editing_only(old(self)),
            r == old(self).editing().recorded(
                now,
                old(self).undo.cap,
                old(self).undo_coalesce_window_ms,
            ).history.can_undo(),
    {
        self.record_undo_snapshot(now);
        match self.undo.undo() {
            Some(entry) => {
                self.apply_restored(entry);
                true
            },
            None => false,
        }
    }

    /// Goes forward one unit, if there is one. The file is not touched.
    pub fn redo(&mut self) -> (r: bool)
        ensures
            final(self).editing() == old(self).editing().redone(),
            final(self).differs_in_editing_only(old(self)),
            r == old(self).undo@.can_redo(),
    {
        match self.undo.redo() {
            Some(entry) => {
                self.apply_restored(entry);
                true
            },
            None => false,
        }
    }

    fn apply_restored(&mut self, entry: UndoEntry)
        ensures
            final(self).editing() == old(self).editing().restored(entry@),
            final(self).differs_in_editing_only(old(self)),
    {
        self.buffer = entry.source_text;
        self.cursor = entry.cursor;
        self.on_edit();
        self.last_undo_generation = Some(self.edit_generation);
        self.last_undo_instant = None;
    }

    /// The number of states to go back to.
    pub fn undo_depth(&self) -> (r: usize)
        ensures
            r == self.undo@.past.len(),
    {
        self.undo.len()
    }

    /// The bytes of the states to go back and forward to.
    pub fn undo_total_bytes(&self) -> (r: usize)
        ensures
            r == (if undo::bytes_of(self.undo@.past) + undo::bytes_of(self.undo@.future)
                > usize::MAX {
                usize::MAX as nat
            } else {
                undo::bytes_of(self.undo@.past) + undo::bytes_of(self.undo@.future)
            }),
    {
        self.undo.total_bytes()
    }

    /// Whether the text has more than `threshold` bytes.
    pub fn oversize(&self, threshold: u64) -> (r: bool)
        ensures
            r == (text::byte_len(self.buffer@) > threshold),
    {
        self.buffer.as_str().as_bytes().len() as u64 > threshold
    }

    /// What the document is called.
    pub open spec fn titled(&self) -> Seq<char> {
        match self.path {
            Some(p) if paths::file_name(p@) is Some => paths::file_name(p@)->0,
            _ => match self.untitled_seq {
                Some(n) => "Untitled-"@ + text::decimal(n as nat),
                None => "Untitled"@,
            },
        }
    }

    /// What the document is called: after its file, or by its number.
    pub fn title(&self) -> (r: String)
        ensures
            r@ == self.titled(),
    {
        if let Some(p) = &self.path {
            if let Some(name) = paths::file_name_of(p.as_str()) {
                return name;
            }
        }
        match self.untitled_seq {
            Some(n) => {
                let mut r = "Untitled-".to_owned();
                text::push_decimal(&mut r, n as usize);
                r
            },
            None => "Untitled".to_owned(),
        }
    }

    /// The number of the last edit.
    pub fn edit_generation(&self) -> (r: u64)
        ensures
            r == self.edit_generation,
    {
        self.edit_generation
    }

    /// The text was edited.
    pub fn on_edit(&mut self)
        ensures
            *final(self) == (EditorDocument {
                edit_generation: next_generation(old(self).edit_generation),
                view_stale: true,
                ..*old(self)
            }),
            final(self).editing() == old(self).editing().edited(),
    {
        self.edit_generation = if self.edit_generation == u64::MAX {
            0
        } else {
            self.edit_generation + 1
        };
        self.view_stale = true;
    }

    /// Whether a job is that of the document as it is: marked with its identity and its
    /// edit, with its text and its binding.
    pub open spec fn asked_by(&self, job: ReparseJob) -> bool {
        &&& job.doc_id == self.id
        &&& job.generation == self.edit_generation
        &&& job.text@ == self.buffer@
        &&& if self.validation_suppressed {
            job.bound is None
        } else {
            self.binds(job.bound)
        }
    }

    /// The job to parse the text, unless it was asked for already. A text that is too
    /// large is not validated.
    pub fn request_reparse(&mut self) -> (r: Option<ReparseJob>)
        ensures
            match r {
                Some(job) => old(self).edit_generation != old(self).last_requested_generation
                    && old(self).asked_by(job),
                None => old(self).edit_generation == old(self).last_requested_generation,
            },
            *final(self) == (EditorDocument {
                last_requested_generation: old(self).edit_generation,
                ..*old(self)
            }),
    {
        if self.edit_generation == self.last_requested_generation {
            return None;
        }
        self.last_requested_generation = self.edit_generation;
        let bound = if self.validation_suppressed {
            None
        } else {
            self.bound_validation()
        };
        Some(
            ReparseJob {
                doc_id: self.id,
                generation: self.edit_generation,
                text: self.buffer.clone(),
                bound,
            },
        )
    }

    /// Whether this is what the document is validated against: in Bevy mode the
    /// registry, if it was loaded, and the type otherwise.
    pub open spec fn binds(&self, bound: Option<BoundValidation>) -> bool {
        if self.mode_state.active_mode == Mode::Bevy && self.mode_state.has_registry {
            bound matches Some(BoundValidation::Bevy(scene)) && same_option(
                scene.expected_version,
                self.mode_state.expected_bevy_version,
            )
        } else {
            match self.bound_type {
                Some(t) => bound matches Some(BoundValidation::Serde(b)) && b.named_type@ == t@,
                None => bound is None,
            }
        }
    }

    /// What the document is validated against.
    pub fn bound_validation(&self) -> (r: Option<BoundValidation>)
        ensures
            self.binds(r),
    {
        if matches!(self.mode_state.active_mode, Mode::Bevy) && self.mode_state.has_registry {
            return Some(
                BoundValidation::Bevy(
                    BoundScene {
                        expected_version: copy_option(&self.mode_state.expected_bevy_version),
                    },
                ),
            );
        }
        match &self.bound_type {
            Some(t) => Some(BoundValidation::Serde(BoundType { named_type: t.clone() })),
            None => None,
        }
    }

    /// Whether a result is for the text as it is.
    pub open spec fn takes(&self, result: ParseResult) -> bool {
        result.generation == self.edit_generation && result.doc_id == self.id
    }

    /// Takes the last of the results that is for the text as it is, and derives the
    /// findings and the colours from it. All others are passed over.
    pub fn poll_parse(&mut self, results: Vec<ParseResult>) -> (r: bool)
        ensures
            r == (exists|i: int| 0 <= i < results@.len() && old(self).takes(#[trigger] results@[i])),
            !r ==> *final(self) == *old(self),
            r ==> exists|i: int|
                0 <= i < results@.len() && old(self).takes(#[trigger] results@[i]) && (forall|
                    j: int,
                |
                    i < j < results@.len() ==> !old(self).takes(#[trigger] results@[j]))
                    && final(self).shows(results@[i]),
            *final(self) == (EditorDocument {
                parse: final(self).parse,
                highlight: final(self).highlight,
                diagnostics: final(self).diagnostics,
                view_stale: final(self).view_stale,
                ..*old(self)
            }),
    {
        let mut results = results;
        let ghost all = results@;
        let mut i: usize = results.len();
        while i > 0 && !(results[i - 1].generation == self.edit_generation && results[i - 1].doc_id
            == self.id)
            invariant
                i <= results@.len(),
                results@ == all,
                *self == *old(self),
                forall|j: int| i <= j < all.len() ==> !old(self).takes(#[trigger] all[j]),
            decreases i,
        {
            i -= 1;
        }
        if i == 0 {
            return false;
        }
        let result = results.remove(i - 1);
        assert(old(self).takes(all[i - 1]));
        self.diagnostics = merge_type_diagnostics(&result, self.buffer.as_str());
        self.highlight = Some(
            editor_view::build_highlight_model(&result, self.buffer.as_str(), result.generation),
        );
        self.view_stale = false;
        self.parse = Some(result);
        true
    }

    /// Whether what is shown is derived from a result.
    pub open spec fn shows(&self, result: ParseResult) -> bool {
        &&& self.parse == Some(result)
        &&& diagnostics::marks(self.diagnostics@) == merged(result, self.buffer@)
        &&& self.highlight matches Some(h) && h.generation == Some(result.generation)
            && editor_view::spans(h.spans@) == editor_view::token_spans(
            result.tokens@,
            self.buffer@,
            result.tokens@.len(),
        )
        &&& !self.view_stale
    }

    /// The number of characters of the text.
    pub fn char_len(&self) -> (r: usize)
        ensures
            r == self.buffer@.len(),
    {
        text::char_count(self.buffer.as_str())
    }

    /// Asks for the caret to go to a character.
    pub fn request_cursor_jump(&mut self, char_offset: usize)
        ensures
            *final(self) == (EditorDocument {
                pending_cursor_jump: Some(char_offset),
                ..*old(self)
            }),
    {
        self.pending_cursor_jump = Some(char_offset);
    }

    /// Where the caret is to go, if it was asked for: within the text, and once.
    pub fn take_cursor_jump(&mut self) -> (r: Option<usize>)
        ensures
            *final(self) == (EditorDocument { pending_cursor_jump: None, ..*old(self) }),
            r == (match old(self).pending_cursor_jump {
                Some(at) => if at > old(self).buffer@.len() {
                    Some(old(self).buffer@.len() as usize)
                } else {
                    Some(at)
                },
                None => None,
            }),
    {
        let pending = self.pending_cursor_jump;
        self.pending_cursor_jump = None;
        match pending {
            Some(at) => {
                let n = self.char_len();
                if at > n {
                    Some(n)
                } else {
                    Some(at)
                }
            },
            None => None,
        }
    }

    /// Whether the caret is to go somewhere.
    pub fn has_pending_cursor_jump(&self) -> (r: bool)
        ensures
            r == (self.pending_cursor_jump is Some),
    {
        self.pending_cursor_jump.is_some()
    }

    /// What the document is bound to, for the user.
    pub fn binding_label(&self) -> (r: String)
        ensures
            r@ == (match self.binding {
                BindingState::Bound { named_type, origin, .. } => "Type: "@ + named_type@ + " ("@
                    + (match origin {
                    BindingOrigin::Override => "override"@,
                    BindingOrigin::Config => "config"@,
                }) + ")"@,
                BindingState::NoBinding => "no type bound"@,
            }),
    {
        match &self.binding {
            BindingState::Bound { named_type, origin, .. } => {
                let mut r = "Type: ".to_owned();
                r.push_str(named_type.as_str());
                r.push_str(" (");
                r.push_str(
                    match origin {
                        BindingOrigin::Override => "override",
                        BindingOrigin::Config => "config",
                    },
                );
                r.push_str(")");
                r
            },
            BindingState::NoBinding => "no type bound".to_owned(),
        }
    }

    /// Where the type that the document is bound to is described, for the user.
    pub fn binding_source_label(&self) -> (r: Option<String>)
        ensures
            match self.binding {
                BindingState::Bound { type_source, .. } => r matches Some(label) && label@ == (
                match type_source {
                    TypeSourceLocator::RustSource(p) => "rust: "@ + p@,
                    TypeSourceLocator::SchemaFile(p) => "schema: "@ + p@,
                }),
                BindingState::NoBinding => r is None,
            },
    {
        match &self.binding {
            BindingState::Bound { type_source, .. } => {
                let (kind, path) = match type_source {
                    TypeSourceLocator::RustSource(p) => ("rust: ", p),
                    TypeSourceLocator::SchemaFile(p) => ("schema: ", p),
                };
                let mut r = kind.to_owned();
                r.push_str(path.as_str());
                Some(r)
            },
            BindingState::NoBinding => None,
        }
    }

    /// What the document is validated as.
    pub fn mode_state(&self) -> (r: &ModeState)
        ensures
            *r == self.mode_state,
    {
        &self.mode_state
    }

    /// What the document is validated as, to be changed. The text stays as it is.
    pub fn mode_state_mut(&mut self) -> (r: &mut ModeState)
        ensures
            *r == old(self).mode_state,
            *final(self) == (EditorDocument { mode_state: *final(r), ..*old(self) }),
    {
        &mut self.mode_state
    }

    /// Sets what the document is validated as. The text stays as it is.
    pub fn set_mode_state(&mut self, mode_state: ModeState)
        ensures
            *final(self) == (EditorDocument { mode_state, ..*old(self) }),
    {
        self.mode_state = mode_state;
    }

    /// Whether the document is validated as a Bevy scene.
    pub fn is_bevy_mode(&self) -> (r: bool)
        ensures
            r == (self.mode_state.active_mode == Mode::Bevy),
    {
        matches!(self.mode_state.active_mode, Mode::Bevy)
    }

    /// What the document is validated as, for the user.
    pub fn mode_label(&self) -> (r: String)
        ensures
            r@ == "Mode: "@ + self.mode_state.active_mode.name() + " ("@ + (
            match self.mode_state.mode_origin {
                ModeOrigin::AutoDetected => "auto"@,
                ModeOrigin::Override => "override"@,
            }) + ")"@,
    {
        let mut r = "Mode: ".to_owned();
        r.push_str(self.mode_state.active_mode.as_str());
        r.push_str(" (");
        r.push_str(
            match self.mode_state.mode_origin {
                ModeOrigin::AutoDetected => "auto",
                ModeOrigin::Override => "override",
            },
        );
        r.push_str(")");
        r
    }

    /// The registry of the document, for the user.
    pub fn registry_label(&self) -> (r: String)
        ensures
            r@ == (if self.mode_state.active_mode != Mode::Bevy {
                "Registry: n/a (serde mode)"@
            } else {
                match self.mode_state.bound_registry_path {
                    None => "Registry: none"@,
                    Some(p) => "Registry: "@ + (match paths::file_name(p@) {
                        Some(n) => n,
                        None => "<registry>"@,
                    }) + (if self.mode_state.has_registry {
                        " (loaded)"@
                    } else {
                        " (no registry loaded)"@
                    }),
                }
            }),
    {
        if !self.is_bevy_mode() {
            return "Registry: n/a (serde mode)".to_owned();
        }
        match &self.mode_state.bound_registry_path {
            None => "Registry: none".to_owned(),
            Some(p) => {
                let mut r = "Registry: ".to_owned();
                match paths::file_name_of(p.as_str()) {
                    Some(n) => r.push_str(n.as_str()),
                    None => r.push_str("<registry>"),
                }
                r.push_str(
                    if self.mode_state.has_registry {
                        " (loaded)"
                    } else {
                        " (no registry loaded)"
                    },
                );
                r
            },
        }
    }

    /// That the registry is of another version than expected, for the user.
    pub fn staleness_label(&self) -> (r: Option<String>)
        ensures
            if self.mode_state.is_stale {
                r matches Some(label) && label@ == "Stale: expected "@ + or_unknown(
                    self.mode_state.expected_bevy_version,
                ) + ", registry "@ + or_unknown(self.mode_state.apparent_bevy_version)
            } else {
                r is None
            },
    {
        if !self.mode_state.is_stale {
            return None;
        }
        let mut r = "Stale: expected ".to_owned();
        match &self.mode_state.expected_bevy_version {
            Some(v) => r.push_str(v.as_str()),
            None => r.push_str("?"),
        }
        r.push_str(", registry ");
        match &self.mode_state.apparent_bevy_version {
            Some(v) => r.push_str(v.as_str()),
            None => r.push_str("?"),
        }
        Some(r)
    }

    /// Asks for the text to be parsed and validated again, as it is.
    pub fn revalidate(&mut self) -> (r: Option<ReparseJob>)
        ensures
            ({
                let asking = EditorDocument {
                    edit_generation: next_generation(old(self).edit_generation),
                    view_stale: true,
                    ..*old(self)
                };
                &&& *final(self) == (EditorDocument {
                    last_requested_generation: asking.edit_generation,
                    ..asking
                })
                &&& match r {
                    Some(job) => asking.edit_generation != old(self).last_requested_generation
                        && asking.asked_by(job),
                    None => asking.edit_generation == old(self).last_requested_generation,
                }
            }),
    {
        self.on_edit();
        self.request_reparse()
    }

    /// Why the last change to the structure was refused.
    pub fn tree_error(&self) -> (r: Option<&str>)
        ensures
            match r {
                Some(m) => self.tree_error matches Some(e) && m@ == e@,
                None => self.tree_error is None,
            },
    {
        match &self.tree_error {
            Some(e) => Some(e.as_str()),
            None => None,
        }
    }

    /// Keeps why a change to the structure was refused.
    pub fn set_tree_error(&mut self, message: String)
        ensures
            *final(self) == (EditorDocument { tree_error: Some(message), ..*old(self) }),
    {
        self.tree_error = Some(message);
    }

    /// Forgets it.
    pub fn clear_tree_error(&mut self)
        ensures
            *final(self) == (EditorDocument { tree_error: None, ..*old(self) }),
    {
        self.tree_error = None;
    }

    /// Makes a change to the structure, as one undo unit, and asks for the new text to
    /// be parsed. A change that was refused changes nothing.
    pub fn apply_structural_edit(&mut self, outcome: TransformOutcome, now: u64) -> (r: Result<
        Option<ReparseJob>,
        String,
    >)
        ensures
            match outcome {
                TransformOutcome::Applied(text) => r matches Ok(job) && old(self).commits(
                    final(self),
                    text@,
                    now,
                    job,
                ),
                TransformOutcome::Blocked(reason) => r == Err::<Option<ReparseJob>, String>(reason)
                    && *final(self) == *old(self),
            },
    {
        match outcome {
            TransformOutcome::Applied(text) => Ok(self.commit_text(text, now)),
            TransformOutcome::Blocked(reason) => Err(reason),
        }
    }

    /// Puts the text of a changed document in place, as one undo unit, and asks for it
    /// to be parsed.
    pub fn commit_transformed_cst(&mut self, text: String, now: u64) -> (r: Option<ReparseJob>)
        ensures
            old(self).commits(final(self), text@, now, r),
    {
        self.commit_text(text, now)
    }

    /// Puts a converted text in place, as one undo unit, and asks for it to be parsed.
    pub fn commit_converted_text(&mut self, text: String, now: u64) -> (r: Option<ReparseJob>)
        ensures
            old(self).commits(final(self), text@, now, r),
    {
        self.commit_text(text, now)
    }

    /// Whether another document is this one with a text committed, and a job is the one
    /// that parses it.
    pub open spec fn commits(
        &self,
        after: &EditorDocument,
        text: Seq<char>,
        now: u64,
        job: Option<ReparseJob>,
    ) -> bool {
        &&& after.editing() == self.editing().committed(
            text,
            now,
            self.undo.cap,
            self.undo_coalesce_window_ms,
        )
        &&& after.same_around(self)
        &&& after.last_requested_generation == after.edit_generation
        &&& match job {
            Some(j) => after.edit_generation != self.last_requested_generation && after.asked_by(j),
            None => after.edit_generation == self.last_requested_generation,
        }
    }

    fn commit_text(&mut self, text: String, now: u64) -> (r: Option<ReparseJob>)
        ensures
            old(self).commits(final(self), text@, now, r),
    {
        self.record_undo_snapshot(now);
        self.buffer = text;
        self.on_edit();
        self.last_undo_instant = None;
        self.record_undo_snapshot(now);
        self.request_reparse()
    }
}

/// A version, or a question mark.
pub open spec fn or_unknown(version: Option<String>) -> Seq<char> {
    match version {
        Some(v) => v@,
        None => "?"@,
    }
}

/// Whether two optional texts are the same.
pub open spec fn same_option(a: Option<String>, b: Option<String>) -> bool {
    match (a, b) {
        (Some(x), Some(y)) => x@ == y@,
        (None, None) => true,
        _ => false,
    }
}

fn copy_option(a: &Option<String>) -> (r: Option<String>)
    ensures
        same_option(r, *a),
{
    match a {
        Some(x) => Some(x.clone()),
        None => None,
    }
}

/// Whether a finding overlaps one of others.
pub open spec fn covered(f: Finding, others: Seq<Finding>) -> bool {
    exists|i: int| 0 <= i < others.len() && diagnostics::overlap(f.range, (#[trigger] others[i]).range)
}

/// The first `n` findings as the editor shows them.
pub open spec fn marked_all(list: Seq<Finding>, s: Seq<char>, n: nat) -> Seq<Marked>
    decreases n,
{
    if n == 0 {
        Seq::empty()
    } else {
        marked_all(list, s, (n - 1) as nat).push(diagnostics::marked(list[n - 1], s))
    }
}

/// Those of the first `n` findings that overlap no structural one, as the editor shows
/// them.
pub open spec fn marked_uncovered(
    list: Seq<Finding>,
    structural: Seq<Finding>,
    s: Seq<char>,
    n: nat,
) -> Seq<Marked>
    decreases n,
{
    if n == 0 {
        Seq::empty()
    } else {
        let before = marked_uncovered(list, structural, s, (n - 1) as nat);
        if covered(list[n - 1], structural) {
            before
        } else {
            before.push(diagnostics::marked(list[n - 1], s))
        }
    }
}

/// The findings of a result as the editor shows them: all structural ones first, then
/// those of a type that overlap none of them, then those of a scene.
pub open spec fn merged(result: ParseResult, s: Seq<char>) -> Seq<Marked> {
    let structural = diagnostics::findings(result.diagnostics@);
    let types = diagnostics::findings(result.type_diagnostics@);
    let scene = diagnostics::findings(result.scene_diagnostics@);
    marked_all(structural, s, structural.len()) + marked_uncovered(
        types,
        structural,
        s,
        types.len(),
    ) + marked_all(scene, s, scene.len())
}

fn is_covered(d: &Diagnostic, structural: &Vec<Diagnostic>) -> (r: bool)
    ensures
        r == covered(d@, diagnostics::findings(structural@)),
{
    let ghost others = diagnostics::findings(structural@);
    let mut i: usize = 0;
    while i < structural.len()
        invariant
            i <= structural@.len(),
            others == diagnostics::findings(structural@),
            forall|j: int|
                0 <= j < i ==> !diagnostics::overlap(d@.range, (#[trigger] others[j]).range),
        decreases structural@.len() - i,
    {
        assert(others[i as int] == structural@[i as int]@);
        if diagnostics::overlaps(&d.range, &structural[i].range) {
            return true;
        }
        i += 1;
    }
    false
}

fn push_all(out: &mut Vec<DiagnosticView>, list: &Vec<Diagnostic>, chars: &Vec<char>)
    ensures
        diagnostics::marks(final(out)@) == diagnostics::marks(old(out)@) + marked_all(
            diagnostics::findings(list@),
            chars@,
            list@.len(),
        ),
{
    let ghost before = diagnostics::marks(out@);
    let ghost all = diagnostics::findings(list@);
    let mut i: usize = 0;
    assert(before + marked_all(all, chars@, 0) =~= before);
    while i < list.len()
        invariant
            i <= list@.len(),
            all == diagnostics::findings(list@),
            diagnostics::marks(out@) == before + marked_all(all, chars@, i as nat),
        decreases list@.len() - i,
    {
        let view = diagnostics::map_diagnostic(&list[i], chars);
        let ghost m = view@;
        let ghost prior = diagnostics::marks(out@);
        out.push(view);
        assert(diagnostics::marks(out@) =~= prior.push(m));
        assert(prior.push(m) =~= before + marked_all(all, chars@, (i + 1) as nat));
        i += 1;
    }
}

/// The findings of a result as the editor shows them. The structural ones come first
/// and are never left out; a finding of a type gives way to a structural one that it
/// overlaps.
pub fn merge_type_diagnostics(result: &ParseResult, buffer: &str) -> (r: Vec<DiagnosticView>)
    ensures
        diagnostics::marks(r@) == merged(*result, buffer@),
{
    let chars = text::chars_of(buffer);
    let mut out: Vec<DiagnosticView> = Vec::new();
    let ghost structural = diagnostics::findings(result.diagnostics@);
    let ghost types = diagnostics::findings(result.type_diagnostics@);
    push_all(&mut out, &result.diagnostics, &chars);
    let ghost head = marked_all(structural, buffer@, structural.len());
    assert(diagnostics::marks(out@) =~= head);
    let mut i: usize = 0;
    assert(head + marked_uncovered(types, structural, buffer@, 0) =~= head);
    while i < result.type_diagnostics.len()
        invariant
            i <= result.type_diagnostics@.len(),
            chars@ == buffer@,
            structural == diagnostics::findings(result.diagnostics@),
            types == diagnostics::findings(result.type_diagnostics@),
            diagnostics::marks(out@) == head + marked_uncovered(
                types,
                structural,
                buffer@,
                i as nat,
            ),
        decreases result.type_diagnostics@.len() - i,
    {
        let d = &result.type_diagnostics[i];
        assert(types[i as int] == d@);
        if !is_covered(d, &result.diagnostics) {
            let view = diagnostics::map_diagnostic(d, &chars);
            let ghost m = view@;
            let ghost prior = diagnostics::marks(out@);
            out.push(view);
            assert(diagnostics::marks(out@) =~= prior.push(m));
            assert(prior.push(m) =~= head + marked_uncovered(
                types,
                structural,
                buffer@,
                (i + 1) as nat,
            ));
        }
        i += 1;
    }
    push_all(&mut out, &result.scene_diagnostics, &chars);
    out
}

proof fn lemma_marked_all(list: Seq<Finding>, s: Seq<char>, n: nat)
    requires
        n <= list.len(),
    ensures
        marked_all(list, s, n).len() == n,
        forall|i: int|
            0 <= i < n ==> #[trigger] marked_all(list, s, n)[i] == diagnostics::marked(list[i], s),
    decreases n,
{
    if n > 0 {
        lemma_marked_all(list, s, (n - 1) as nat);
    }
}

proof fn lemma_uncovered_is_marked(
    list: Seq<Finding>,
    structural: Seq<Finding>,
    s: Seq<char>,
    n: nat,
    i: int,
) -> (at: int)
    requires
        0 <= i < n <= list.len(),
        !covered(list[i], structural),
    ensures
        0 <= at < marked_uncovered(list, structural, s, n).len(),
        marked_uncovered(list, structural, s, n)[at] == diagnostics::marked(list[i], s),
    decreases n,
{
    if i == n - 1 {
        marked_uncovered(list, structural, s, (n - 1) as nat).len() as int
    } else {
        lemma_uncovered_is_marked(list, structural, s, (n - 1) as nat, i)
    }
}

proof fn lemma_marked_is_uncovered(
    list: Seq<Finding>,
    structural: Seq<Finding>,
    s: Seq<char>,
    n: nat,
    at: int,
) -> (i: int)
    requires
        n <= list.len(),
        0 <= at < marked_uncovered(list, structural, s, n).len(),
    ensures
        0 <= i < n,
        !covered(list[i], structural),
        marked_uncovered(list, structural, s, n)[at] == diagnostics::marked(list[i], s),
    decreases n,
{
    let before = marked_uncovered(list, structural, s, (n - 1) as nat);
    if at < before.len() {
        lemma_marked_is_uncovered(list, structural, s, (n - 1) as nat, at)
    } else {
        n - 1
    }
}

/// Where a finding comes from.
pub enum Origin {
    /// The parser.
    Structure(int),
    /// The validation against a type.
    Types(int),
    /// The validation of a scene.
    Scene(int),
}

/// Whether a result has a finding of this origin that is to be shown: those of a type
/// only where no byte of them belongs to a structural one.
pub open spec fn to_be_shown(result: ParseResult, origin: Origin) -> bool {
    match origin {
        Origin::Structure(i) => 0 <= i < result.diagnostics@.len(),
        Origin::Types(i) => 0 <= i < result.type_diagnostics@.len() && forall|j: int, byte: int|
            0 <= j < result.diagnostics@.len() && diagnostics::belongs_to(
                byte,
                result.type_diagnostics@[i].range,
            ) ==> !#[trigger] diagnostics::belongs_to(byte, result.diagnostics@[j].range),
        Origin::Scene(i) => 0 <= i < result.scene_diagnostics@.len(),
    }
}

/// The finding of an origin.
pub open spec fn finding_from(result: ParseResult, origin: Origin) -> Finding {
    match origin {
        Origin::Structure(i) => result.diagnostics@[i]@,
        Origin::Types(i) => result.type_diagnostics@[i]@,
        Origin::Scene(i) => result.scene_diagnostics@[i]@,
    }
}

proof fn lemma_covered(result: ParseResult, i: int)
    requires
        0 <= i < result.type_diagnostics@.len(),
    ensures
        to_be_shown(result, Origin::Types(i)) == !covered(
            result.type_diagnostics@[i]@,
            diagnostics::findings(result.diagnostics@),
        ),
{
    let f = result.type_diagnostics@[i]@;
    let structural = diagnostics::findings(result.diagnostics@);
    if covered(f, structural) {
        let j = choose|j: int|
            0 <= j < structural.len() && diagnostics::overlap(
                f.range,
                (#[trigger] structural[j]).range,
            );
        let g = structural[j];
        assert(g == result.diagnostics@[j]@);
        let later = if f.range.start < g.range.start {
            g.range.start as int
        } else {
            f.range.start as int
        };
        diagnostics::overlapping_ranges_share_a_byte(f.range, g.range, later);
        assert(diagnostics::belongs_to(later, result.diagnostics@[j].range));
    } else {
        assert forall|j: int, byte: int|
            0 <= j < result.diagnostics@.len() && diagnostics::belongs_to(
                byte,
                result.type_diagnostics@[i].range,
            ) implies !#[trigger] diagnostics::belongs_to(byte, result.diagnostics@[j].range) by {
            assert(structural[j] == result.diagnostics@[j]@);
            diagnostics::overlapping_ranges_share_a_byte(
                f.range,
                result.diagnostics@[j].range,
                byte,
            );
        }
    }
}

/// No finding is kept back: what is to be shown is shown, with its own words.
pub proof fn findings_are_all_shown(result: ParseResult, s: Seq<char>, origin: Origin) -> (at: int)
    requires
        to_be_shown(result, origin),
    ensures
        0 <= at < merged(result, s).len(),
        merged(result, s)[at] == diagnostics::marked(finding_from(result, origin), s),
{
    let structural = diagnostics::findings(result.diagnostics@);
    let types = diagnostics::findings(result.type_diagnostics@);
    let scene = diagnostics::findings(result.scene_diagnostics@);
    lemma_marked_all(structural, s, structural.len());
    lemma_marked_all(scene, s, scene.len());
    let middle = marked_uncovered(types, structural, s, types.len());
    match origin {
        Origin::Structure(i) => {
            assert(structural[i] == result.diagnostics@[i]@);
            i
        },
        Origin::Types(i) => {
            assert(types[i] == result.type_diagnostics@[i]@);
            lemma_covered(result, i);
            structural.len() + lemma_uncovered_is_marked(types, structural, s, types.len(), i)
        },
        Origin::Scene(i) => {
            assert(scene[i] == result.scene_diagnostics@[i]@);
            structural.len() + middle.len() + i
        },
    }
}

/// Nothing else is shown.
pub proof fn shown_findings_have_an_origin(result: ParseResult, s: Seq<char>, at: int) -> (origin:
    Origin)
    requires
        0 <= at < merged(result, s).len(),
    ensures
        to_be_shown(result, origin),
        merged(result, s)[at] == diagnostics::marked(finding_from(result, origin), s),
{
    let structural = diagnostics::findings(result.diagnostics@);
    let types = diagnostics::findings(result.type_diagnostics@);
    let scene = diagnostics::findings(result.scene_diagnostics@);
    lemma_marked_all(structural, s, structural.len());
    lemma_marked_all(scene, s, scene.len());
    let middle = marked_uncovered(types, structural, s, types.len());
    if at < structural.len() {
        assert(structural[at] == result.diagnostics@[at]@);
        Origin::Structure(at)
    } else if at < structural.len() + middle.len() {
        let i = lemma_marked_is_uncovered(
            types,
            structural,
            s,
            types.len(),
            at - structural.len(),
        );
        assert(types[i] == result.type_diagnostics@[i]@);
        lemma_covered(result, i);
        Origin::Types(i)
    } else {
        let i = at - structural.len() - middle.len();
        assert(scene[i] == result.scene_diagnostics@[i]@);
        Origin::Scene(i)
    }
}

/// Edits within the window of the one before are undone with it; a later one is undone
/// alone.
pub proof fn edits_are_undone_by_their_time(
    e: Editing,
    text: Seq<char>,
    at: u64,
    now: u64,
    cap: undo::UndoCap,
    window_ms: u64,
)
    requires
        e.wf(),
        e.snapshot == Some(e.generation),
        e.anchor == Some(at),
        at <= now,
        e.history.within(cap),
    ensures
        now - at < window_ms * 1_000_000 && e.history.can_undo() ==> (Editing {
            text,
            ..e
        }).edited().undone(now, cap, window_ms).text == e.history.past.last().text,
        now - at >= window_ms * 1_000_000 ==> (Editing { text, ..e }).edited().undone(
            now,
            cap,
            window_ms,
        ).text == e.text,
        (Editing { text, ..e }).edited().generation != e.generation,
{
    let later = (Editing { text, ..e }).edited();
    if now - at >= window_ms * 1_000_000 {
        undo::undo_restores_what_was_recorded_over(e.history, later.state(), cap);
    } else {
        let h = e.history.recorded(later.state(), true, cap);
        assert(h.past == e.history.past);
    }
}

} // verus!
