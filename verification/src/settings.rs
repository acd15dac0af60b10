//! The settings of the application.
//!
//! Whatever a settings file says, the values in use are within their ranges: what is
//! too small or too large is pulled to the nearer end, so that no bound can be
//! switched off.

use vstd::prelude::*;

use crate::interop::comments::CommentMode;
use crate::text;
use crate::text_map::TextMap;
use crate::undo::{self, UndoCap};

verus! {

/// The large-file threshold in bytes, unless the user sets one.
pub const DEFAULT_LARGE_FILE_THRESHOLD: u64 = 5_242_880;

/// The smallest large-file threshold.
pub const MIN_LARGE_FILE_THRESHOLD: u64 = 65_536;

/// The indent width, unless the user sets one.
pub const DEFAULT_INDENT_WIDTH: u32 = 4;

/// The smallest indent width.
pub const MIN_INDENT_WIDTH: u32 = 1;

/// The largest indent width.
pub const MAX_INDENT_WIDTH: u32 = 16;

/// The smallest number of undo units to keep.
pub const MIN_UNDO_COUNT_CAP: usize = 1;

/// The largest number of undo units to keep.
pub const MAX_UNDO_COUNT_CAP: usize = 10_000;

/// The smallest number of bytes to keep for undo.
pub const MIN_UNDO_BYTE_CAP: usize = 1024 * 1024;

/// The largest number of bytes to keep for undo.
pub const MAX_UNDO_BYTE_CAP: usize = 1024 * 1024 * 1024;

/// The idle time before an autosave in milliseconds, unless the user sets one.
pub const DEFAULT_AUTOSAVE_IDLE_MS: u64 = 4_000;

/// The shortest idle time before an autosave.
pub const MIN_AUTOSAVE_IDLE_MS: u64 = 250;

/// The longest idle time before an autosave.
pub const MAX_AUTOSAVE_IDLE_MS: u64 = 300_000;

/// The number of edits before an autosave, unless the user sets one.
pub const DEFAULT_AUTOSAVE_EDIT_COUNT: u32 = 50;

/// The smallest number of edits before an autosave.
pub const MIN_AUTOSAVE_EDIT_COUNT: u32 = 1;

/// The largest number of edits before an autosave.
pub const MAX_AUTOSAVE_EDIT_COUNT: u32 = 10_000;

/// The shortest time within which edits count as one.
pub const MIN_COALESCE_WINDOW_MS: u64 = 50;

/// The longest time within which edits count as one.
pub const MAX_COALESCE_WINDOW_MS: u64 = 5_000;

/// The indent of JSON, unless the user sets one.
pub const DEFAULT_JSON_INDENT: u32 = 2;

/// The smallest indent of JSON.
pub const MIN_JSON_INDENT: u32 = 0;

/// The largest indent of JSON.
pub const MAX_JSON_INDENT: u32 = 16;

/// The number of the range from `low` to `high` that is nearest to `n`.
pub open spec fn clamped(n: int, low: int, high: int) -> int {
    if n < low {
        low
    } else if n > high {
        high
    } else {
        n
    }
}

fn clamp_u32(n: u32, low: u32, high: u32) -> (r: u32)
    ensures
        r == clamped(n as int, low as int, high as int),
{
    if n < low {
        low
    } else if n > high {
        high
    } else {
        n
    }
}

fn clamp_u64(n: u64, low: u64, high: u64) -> (r: u64)
    ensures
        r == clamped(n as int, low as int, high as int),
{
    if n < low {
        low
    } else if n > high {
        high
    } else {
        n
    }
}

fn clamp_usize(n: usize, low: usize, high: usize) -> (r: usize)
    ensures
        r == clamped(n as int, low as int, high as int),
{
    if n < low {
        low
    } else if n > high {
        high
    } else {
        n
    }
}

/// What the formatter does with blank lines.
#[derive(Debug, Clone, Copy, PartialEq, Eq, Structural)]
pub enum BlankLinePolicy {
    /// Several become one.
    Collapse,
    /// All stay.
    Preserve,
}

impl Default for BlankLinePolicy {
    fn default() -> (r: Self)
        ensures
            r == BlankLinePolicy::Collapse,
    {
        BlankLinePolicy::Collapse
    }
}

/// What kind of JSON a conversion writes.
#[derive(Debug, Clone, Copy, PartialEq, Eq, Structural)]
pub enum JsonFormat {
    /// JSON with comments.
    Jsonc,
    /// JSON.
    StrictJson,
}

impl Default for JsonFormat {
    fn default() -> (r: Self)
        ensures
            r == JsonFormat::Jsonc,
    {
        JsonFormat::Jsonc
    }
}

impl JsonFormat {
    /// The stable label.
    pub fn as_str(self) -> (r: &'static str)
        ensures
            r@ == (match self {
                JsonFormat::Jsonc => "jsonc"@,
                JsonFormat::StrictJson => "strict-json"@,
            }),
    {
        match self {
            JsonFormat::Jsonc => "jsonc",
            JsonFormat::StrictJson => "strict-json",
        }
    }

    /// Whether comments can be written inline.
    pub fn is_jsonc(self) -> (r: bool)
        ensures
            r == (self == JsonFormat::Jsonc),
    {
        matches!(self, JsonFormat::Jsonc)
    }
}

/// Where comments go when the JSON cannot hold them.
#[derive(Debug, Clone, Copy, PartialEq, Eq, Structural)]
pub enum StrictCommentCarrier {
    /// Into a file beside the JSON.
    Sidecar,
    /// Nowhere.
    PureNoComments,
}

impl Default for StrictCommentCarrier {
    fn default() -> (r: Self)
        ensures
            r == StrictCommentCarrier::Sidecar,
    {
        StrictCommentCarrier::Sidecar
    }
}

impl StrictCommentCarrier {
    /// The stable label.
    pub fn as_str(self) -> (r: &'static str)
        ensures
            r@ == (match self {
                StrictCommentCarrier::Sidecar => "sidecar"@,
                StrictCommentCarrier::PureNoComments => "pure-no-comments"@,
            }),
    {
        match self {
            StrictCommentCarrier::Sidecar => "sidecar",
            StrictCommentCarrier::PureNoComments => "pure-no-comments",
        }
    }
}

/// How conversions to JSON are done.
#[derive(Debug, Clone, Copy, PartialEq, Eq, Structural)]
pub struct ConversionSettings {
    /// What kind of JSON to write.
    pub default_format: JsonFormat,
    /// The indent per level in spaces; zero stands for a single space.
    pub json_indent: u32,
    /// Where comments go with strict JSON.
    pub strict_default_comment_carrier: StrictCommentCarrier,
}

impl Default for ConversionSettings {
    fn default() -> (r: Self)
        ensures
            r == (ConversionSettings {
                default_format: JsonFormat::Jsonc,
                json_indent: DEFAULT_JSON_INDENT,
                strict_default_comment_carrier: StrictCommentCarrier::Sidecar,
            }),
    {
        ConversionSettings {
            default_format: JsonFormat::Jsonc,
            json_indent: DEFAULT_JSON_INDENT,
            strict_default_comment_carrier: StrictCommentCarrier::Sidecar,
        }
    }
}

impl ConversionSettings {
    /// The settings with every value within its range.
    pub open spec fn normal(self) -> Self {
        ConversionSettings {
            json_indent: clamped(
                self.json_indent as int,
                MIN_JSON_INDENT as int,
                MAX_JSON_INDENT as int,
            ) as u32,
            ..self
        }
    }

    /// How comments travel with the JSON that a conversion writes.
    pub fn comment_mode(&self) -> (r: CommentMode)
        ensures
            r == (if self.default_format == JsonFormat::Jsonc {
                CommentMode::JsoncInline
            } else if self.strict_default_comment_carrier == StrictCommentCarrier::Sidecar {
                CommentMode::Sidecar
            } else {
                CommentMode::Dropped
            }),
    {
        match self.default_format {
            JsonFormat::Jsonc => CommentMode::JsoncInline,
            JsonFormat::StrictJson => match self.strict_default_comment_carrier {
                StrictCommentCarrier::Sidecar => CommentMode::Sidecar,
                StrictCommentCarrier::PureNoComments => CommentMode::Dropped,
            },
        }
    }

    /// The indent in use.
    pub fn effective_json_indent(&self) -> (r: u32)
        ensures
            r == self.normal().json_indent,
            MIN_JSON_INDENT <= r <= MAX_JSON_INDENT,
    {
        clamp_u32(self.json_indent, MIN_JSON_INDENT, MAX_JSON_INDENT)
    }

    /// Sets the indent.
    pub fn set_json_indent(&mut self, width: u32)
        ensures
            *final(self) == (ConversionSettings { json_indent: width, ..*old(self) }).normal(),
    {
        self.json_indent = clamp_u32(width, MIN_JSON_INDENT, MAX_JSON_INDENT);
    }

    /// The smallest indent.
    pub fn min_json_indent() -> (r: u32)
        ensures
            r == MIN_JSON_INDENT,
    {
        MIN_JSON_INDENT
    }

    /// The largest indent.
    pub fn max_json_indent() -> (r: u32)
        ensures
            r == MAX_JSON_INDENT,
    {
        MAX_JSON_INDENT
    }
}

/// What the formatter is told.
#[derive(Debug, Clone, Copy, PartialEq, Eq, Structural)]
pub struct FormatConfig {
    pub indent_width: u32,
    pub blank_line_policy: BlankLinePolicy,
}

impl FormatConfig {
    /// The spaces per level.
    pub fn indent_width(&self) -> (r: u32)
        ensures
            r == self.indent_width,
    {
        self.indent_width
    }

    /// What happens to blank lines.
    pub fn blank_line_policy(&self) -> (r: BlankLinePolicy)
        ensures
            r == self.blank_line_policy,
    {
        self.blank_line_policy
    }
}

/// How documents are formatted.
#[derive(Debug, Clone, Copy, PartialEq, Eq, Structural)]
pub struct FormattingConfig {
    /// The spaces per level.
    pub indent_width: u32,
    /// What happens to blank lines.
    pub blank_line_policy: BlankLinePolicy,
    /// Whether a save formats first.
    pub format_on_save: bool,
}

impl Default for FormattingConfig {
    fn default() -> (r: Self)
        ensures
            r == (FormattingConfig {
                indent_width: DEFAULT_INDENT_WIDTH,
                blank_line_policy: BlankLinePolicy::Collapse,
                format_on_save: false,
            }),
    {
        FormattingConfig {
            indent_width: DEFAULT_INDENT_WIDTH,
            blank_line_policy: BlankLinePolicy::Collapse,
            format_on_save: false,
        }
    }
}

impl FormattingConfig {
    /// The settings with every value within its range.
    pub open spec fn normal(self) -> Self {
        FormattingConfig {
            indent_width: clamped(
                self.indent_width as int,
                MIN_INDENT_WIDTH as int,
                MAX_INDENT_WIDTH as int,
            ) as u32,
            ..self
        }
    }

    /// The indent width in use.
    pub fn effective_indent_width(&self) -> (r: u32)
        ensures
            r == self.normal().indent_width,
            MIN_INDENT_WIDTH <= r <= MAX_INDENT_WIDTH,
    {
        clamp_u32(self.indent_width, MIN_INDENT_WIDTH, MAX_INDENT_WIDTH)
    }

    /// Sets the indent width.
    pub fn set_indent_width(&mut self, width: u32)
        ensures
            *final(self) == (FormattingConfig { indent_width: width, ..*old(self) }).normal(),
    {
        self.indent_width = clamp_u32(width, MIN_INDENT_WIDTH, MAX_INDENT_WIDTH);
    }

    /// The smallest indent width.
    pub fn min_indent_width() -> (r: u32)
        ensures
            r == MIN_INDENT_WIDTH,
    {
        MIN_INDENT_WIDTH
    }

    /// The largest indent width.
    pub fn max_indent_width() -> (r: u32)
        ensures
            r == MAX_INDENT_WIDTH,
    {
        MAX_INDENT_WIDTH
    }

    /// What the formatter is told.
    pub fn to_engine_config(&self) -> (r: FormatConfig)
        ensures
            r.indent_width == self.normal().indent_width,
            r.blank_line_policy == self.blank_line_policy,
    {
        FormatConfig {
            indent_width: self.effective_indent_width(),
            blank_line_policy: self.blank_line_policy,
        }
    }
}

/// How much undo history is kept.
#[derive(Debug, Clone, Copy, PartialEq, Eq, Structural)]
pub struct UndoConfig {
    /// The number of undo units.
    pub history_count_cap: usize,
    /// The number of bytes.
    pub history_byte_cap: usize,
    /// Edits closer to each other than this many milliseconds are one undo unit.
    pub coalesce_window_ms: u64,
}

impl Default for UndoConfig {
    fn default() -> (r: Self)
        ensures
            r == (UndoConfig {
                history_count_cap: undo::DEFAULT_UNDO_COUNT_CAP,
                history_byte_cap: undo::DEFAULT_UNDO_BYTE_CAP,
                coalesce_window_ms: undo::DEFAULT_COALESCE_WINDOW_MS,
            }),
    {
        UndoConfig {
            history_count_cap: undo::DEFAULT_UNDO_COUNT_CAP,
            history_byte_cap: undo::DEFAULT_UNDO_BYTE_CAP,
            coalesce_window_ms: undo::DEFAULT_COALESCE_WINDOW_MS,
        }
    }
}

impl UndoConfig {
    /// The settings with every value within its range.
    pub open spec fn normal(self) -> Self {
        UndoConfig {
            history_count_cap: clamped(
                self.history_count_cap as int,
                MIN_UNDO_COUNT_CAP as int,
                MAX_UNDO_COUNT_CAP as int,
            ) as usize,
            history_byte_cap: clamped(
                self.history_byte_cap as int,
                MIN_UNDO_BYTE_CAP as int,
                MAX_UNDO_BYTE_CAP as int,
            ) as usize,
            coalesce_window_ms: clamped(
                self.coalesce_window_ms as int,
                MIN_COALESCE_WINDOW_MS as int,
                MAX_COALESCE_WINDOW_MS as int,
            ) as u64,
        }
    }

    /// The number of undo units in use.
    pub fn effective_history_count_cap(&self) -> (r: usize)
        ensures
            r == self.normal().history_count_cap,
            MIN_UNDO_COUNT_CAP <= r <= MAX_UNDO_COUNT_CAP,
    {
        clamp_usize(self.history_count_cap, MIN_UNDO_COUNT_CAP, MAX_UNDO_COUNT_CAP)
    }

    /// The number of bytes in use.
    pub fn effective_history_byte_cap(&self) -> (r: usize)
        ensures
            r == self.normal().history_byte_cap,
            MIN_UNDO_BYTE_CAP <= r <= MAX_UNDO_BYTE_CAP,
    {
        clamp_usize(self.history_byte_cap, MIN_UNDO_BYTE_CAP, MAX_UNDO_BYTE_CAP)
    }

    /// The coalesce window in use, in milliseconds.
    pub fn effective_coalesce_window_ms(&self) -> (r: u64)
        ensures
            r == self.normal().coalesce_window_ms,
            MIN_COALESCE_WINDOW_MS <= r <= MAX_COALESCE_WINDOW_MS,
    {
        clamp_u64(self.coalesce_window_ms, MIN_COALESCE_WINDOW_MS, MAX_COALESCE_WINDOW_MS)
    }

    /// The coalesce window in use, in nanoseconds.
    pub fn effective_coalesce_window(&self) -> (r: u64)
        ensures
            r == self.normal().coalesce_window_ms * 1_000_000,
    {
        self.effective_coalesce_window_ms() * 1_000_000
    }

    /// The bounds of an undo stack.
    pub fn to_engine_cap(&self) -> (r: UndoCap)
        ensures
            r.max_count == self.normal().history_count_cap,
            r.max_bytes == self.normal().history_byte_cap,
    {
        UndoCap::new(self.effective_history_count_cap(), self.effective_history_byte_cap())
    }

    /// Sets the number of undo units.
    pub fn set_history_count_cap(&mut self, count: usize)
        ensures
            *final(self) == (UndoConfig {
                history_count_cap: (UndoConfig {
                    history_count_cap: count,
                    ..*old(self)
                }).normal().history_count_cap,
                ..*old(self)
            }),
    {
        self.history_count_cap = clamp_usize(count, MIN_UNDO_COUNT_CAP, MAX_UNDO_COUNT_CAP);
    }

    /// Sets the number of bytes.
    pub fn set_history_byte_cap(&mut self, bytes: usize)
        ensures
            *final(self) == (UndoConfig {
                history_byte_cap: (UndoConfig {
                    history_byte_cap: bytes,
                    ..*old(self)
                }).normal().history_byte_cap,
                ..*old(self)
            }),
    {
        self.history_byte_cap = clamp_usize(bytes, MIN_UNDO_BYTE_CAP, MAX_UNDO_BYTE_CAP);
    }

    /// Sets the coalesce window.
    pub fn set_coalesce_window_ms(&mut self, ms: u64)
        ensures
            *final(self) == (UndoConfig {
                coalesce_window_ms: (UndoConfig {
                    coalesce_window_ms: ms,
                    ..*old(self)
                }).normal().coalesce_window_ms,
                ..*old(self)
            }),
    {
        self.coalesce_window_ms = clamp_u64(ms, MIN_COALESCE_WINDOW_MS, MAX_COALESCE_WINDOW_MS);
    }
}

/// When recovery files are written.
#[derive(Debug, Clone, Copy, PartialEq, Eq, Structural)]
pub struct AutosaveConfig {
    /// The idle time in milliseconds.
    pub idle_debounce_ms: u64,
    /// The number of edits.
    pub edit_count_trigger: u32,
}

impl Default for AutosaveConfig {
    fn default() -> (r: Self)
        ensures
            r == (AutosaveConfig {
                idle_debounce_ms: DEFAULT_AUTOSAVE_IDLE_MS,
                edit_count_trigger: DEFAULT_AUTOSAVE_EDIT_COUNT,
            }),
    {
        AutosaveConfig {
            idle_debounce_ms: DEFAULT_AUTOSAVE_IDLE_MS,
            edit_count_trigger: DEFAULT_AUTOSAVE_EDIT_COUNT,
        }
    }
}

impl AutosaveConfig {
    /// The settings with every value within its range.
    pub open spec fn normal(self) -> Self {
        AutosaveConfig {
            idle_debounce_ms: clamped(
                self.idle_debounce_ms as int,
                MIN_AUTOSAVE_IDLE_MS as int,
                MAX_AUTOSAVE_IDLE_MS as int,
            ) as u64,
            edit_count_trigger: clamped(
                self.edit_count_trigger as int,
                MIN_AUTOSAVE_EDIT_COUNT as int,
                MAX_AUTOSAVE_EDIT_COUNT as int,
            ) as u32,
        }
    }

    /// The idle time in use, in milliseconds.
    pub fn effective_idle_debounce_ms(&self) -> (r: u64)
        ensures
            r == self.normal().idle_debounce_ms,
            MIN_AUTOSAVE_IDLE_MS <= r <= MAX_AUTOSAVE_IDLE_MS,
    {
        clamp_u64(self.idle_debounce_ms, MIN_AUTOSAVE_IDLE_MS, MAX_AUTOSAVE_IDLE_MS)
    }

    /// The idle time in use, in nanoseconds.
    pub fn effective_idle_debounce(&self) -> (r: u64)
        ensures
            r == self.normal().idle_debounce_ms * 1_000_000,
    {
        self.effective_idle_debounce_ms() * 1_000_000
    }

    /// The number of edits in use.
    pub fn effective_edit_count_trigger(&self) -> (r: u32)
        ensures
            r == self.normal().edit_count_trigger,
            MIN_AUTOSAVE_EDIT_COUNT <= r <= MAX_AUTOSAVE_EDIT_COUNT,
    {
        clamp_u32(self.edit_count_trigger, MIN_AUTOSAVE_EDIT_COUNT, MAX_AUTOSAVE_EDIT_COUNT)
    }

    /// Sets the idle time.
    pub fn set_idle_debounce_ms(&mut self, ms: u64)
        ensures
            *final(self) == (AutosaveConfig {
                idle_debounce_ms: (AutosaveConfig {
                    idle_debounce_ms: ms,
                    ..*old(self)
                }).normal().idle_debounce_ms,
                ..*old(self)
            }),
    {
        self.idle_debounce_ms = clamp_u64(ms, MIN_AUTOSAVE_IDLE_MS, MAX_AUTOSAVE_IDLE_MS);
    }

    /// Sets the number of edits.
    pub fn set_edit_count_trigger(&mut self, count: u32)
        ensures
            *final(self) == (AutosaveConfig {
                edit_count_trigger: (AutosaveConfig {
                    edit_count_trigger: count,
                    ..*old(self)
                }).normal().edit_count_trigger,
                ..*old(self)
            }),
    {
        self.edit_count_trigger = clamp_u32(
            count,
            MIN_AUTOSAVE_EDIT_COUNT,
            MAX_AUTOSAVE_EDIT_COUNT,
        );
    }
}

/// All settings but the geometry of the window.
pub struct AppSettings {
    /// Free preferences.
    pub preferences: TextMap<String>,
    /// Files with more bytes than this are large.
    pub large_file_threshold: u64,
    pub formatting: FormattingConfig,
    pub undo: UndoConfig,
    pub autosave: AutosaveConfig,
    pub conversion: ConversionSettings,
}

/// The threshold, but no less than the smallest.
pub open spec fn threshold_in_use(bytes: u64) -> u64 {
    if bytes < MIN_LARGE_FILE_THRESHOLD {
        MIN_LARGE_FILE_THRESHOLD
    } else {
        bytes
    }
}

impl AppSettings {
    /// The settings with every value within its range.
    pub open spec fn normal(self) -> Self {
        AppSettings {
            preferences: self.preferences,
            large_file_threshold: threshold_in_use(self.large_file_threshold),
            formatting: self.formatting.normal(),
            undo: self.undo.normal(),
            autosave: self.autosave.normal(),
            conversion: self.conversion.normal(),
        }
    }

    /// Whether every value is the one that holds when nothing is set.
    pub open spec fn is_default(self) -> bool {
        &&& self.preferences.entries@.len() == 0
        &&& self.large_file_threshold == DEFAULT_LARGE_FILE_THRESHOLD
        &&& self.formatting == (FormattingConfig {
            indent_width: DEFAULT_INDENT_WIDTH,
            blank_line_policy: BlankLinePolicy::Collapse,
            format_on_save: false,
        })
        &&& self.undo == (UndoConfig {
            history_count_cap: undo::DEFAULT_UNDO_COUNT_CAP,
            history_byte_cap: undo::DEFAULT_UNDO_BYTE_CAP,
            coalesce_window_ms: undo::DEFAULT_COALESCE_WINDOW_MS,
        })
        &&& self.autosave == (AutosaveConfig {
            idle_debounce_ms: DEFAULT_AUTOSAVE_IDLE_MS,
            edit_count_trigger: DEFAULT_AUTOSAVE_EDIT_COUNT,
        })
        &&& self.conversion == (ConversionSettings {
            default_format: JsonFormat::Jsonc,
            json_indent: DEFAULT_JSON_INDENT,
            strict_default_comment_carrier: StrictCommentCarrier::Sidecar,
        })
    }
}

impl Default for AppSettings {
    fn default() -> (r: Self)
        ensures
            r.is_default(),
            r.preferences.wf(),
    {
        AppSettings {
            preferences: TextMap::new(),
            large_file_threshold: DEFAULT_LARGE_FILE_THRESHOLD,
            formatting: FormattingConfig::default(),
            undo: UndoConfig::default(),
            autosave: AutosaveConfig::default(),
            conversion: ConversionSettings::default(),
        }
    }
}

impl AppSettings {
    /// The settings to start with, from what was read of the settings file. Where
    /// nothing could be read they are the defaults.
    pub fn from_parsed(parsed: Option<AppSettings>) -> (r: Self)
        ensures
            match parsed {
                Some(p) => r == p.normal(),
                None => r.is_default(),
            },
    {
        match parsed {
            None => AppSettings::default(),
            Some(p) => {
                let formatting = FormattingConfig {
                    indent_width: p.formatting.effective_indent_width(),
                    ..p.formatting
                };
                let undo = UndoConfig {
                    history_count_cap: p.undo.effective_history_count_cap(),
                    history_byte_cap: p.undo.effective_history_byte_cap(),
                    coalesce_window_ms: p.undo.effective_coalesce_window_ms(),
                };
                let autosave = AutosaveConfig {
                    idle_debounce_ms: p.autosave.effective_idle_debounce_ms(),
                    edit_count_trigger: p.autosave.effective_edit_count_trigger(),
                };
                let conversion = ConversionSettings {
                    json_indent: p.conversion.effective_json_indent(),
                    ..p.conversion
                };
                AppSettings {
                    large_file_threshold: p.effective_large_file_threshold(),
                    preferences: p.preferences,
                    formatting,
                    undo,
                    autosave,
                    conversion,
                }
            },
        }
    }

    /// Sets the large-file threshold, but to no less than the smallest.
    pub fn set_large_file_threshold(&mut self, bytes: u64)
        ensures
            final(self).large_file_threshold == threshold_in_use(bytes),
            final(self).preferences == old(self).preferences,
            final(self).formatting == old(self).formatting,
            final(self).undo == old(self).undo,
            final(self).autosave == old(self).autosave,
            final(self).conversion == old(self).conversion,
    {
        self.large_file_threshold = if bytes < MIN_LARGE_FILE_THRESHOLD {
            MIN_LARGE_FILE_THRESHOLD
        } else {
            bytes
        };
    }

    /// The large-file threshold in use.
    pub fn effective_large_file_threshold(&self) -> (r: u64)
        ensures
            r == threshold_in_use(self.large_file_threshold),
            r >= MIN_LARGE_FILE_THRESHOLD,
    {
        if self.large_file_threshold < MIN_LARGE_FILE_THRESHOLD {
            MIN_LARGE_FILE_THRESHOLD
        } else {
            self.large_file_threshold
        }
    }

    /// The smallest large-file threshold.
    pub fn min_large_file_threshold() -> (r: u64)
        ensures
            r == MIN_LARGE_FILE_THRESHOLD,
    {
        MIN_LARGE_FILE_THRESHOLD
    }
}

/// Settings that are within their ranges stay as they are: to read them back again
/// changes nothing.
pub proof fn normal_settings_stay(settings: AppSettings)
    ensures
        settings.normal().normal() == settings.normal(),
{
}

/// The defaults are within their ranges.
pub proof fn defaults_are_normal(settings: AppSettings)
    requires
        settings.is_default(),
    ensures
        settings.normal() == settings,
{
}

/// Where a type is described.
#[derive(Debug, PartialEq, Eq)]
pub enum TypeSourceLocator {
    /// In a schema file.
    SchemaFile(String),
    /// In Rust source.
    RustSource(String),
}

/// Whether a type is described in a schema file or in Rust source.
#[derive(Debug, Clone, Copy, PartialEq, Eq, Structural)]
pub enum SourceKind {
    Schema,
    Rust,
}

impl Default for SourceKind {
    fn default() -> (r: Self)
        ensures
            r == SourceKind::Schema,
    {
        SourceKind::Schema
    }
}

impl SourceKind {
    /// The locator of this kind for a path.
    pub open spec fn located(self, path: String) -> TypeSourceLocator {
        match self {
            SourceKind::Schema => TypeSourceLocator::SchemaFile(path),
            SourceKind::Rust => TypeSourceLocator::RustSource(path),
        }
    }

    /// The locator of this kind for a path.
    pub fn locator(self, path: String) -> (r: TypeSourceLocator)
        ensures
            r == self.located(path),
    {
        match self {
            SourceKind::Schema => TypeSourceLocator::SchemaFile(path),
            SourceKind::Rust => TypeSourceLocator::RustSource(path),
        }
    }

    /// The kind of a locator.
    pub fn of(locator: &TypeSourceLocator) -> (r: Self)
        ensures
            r == (match locator {
                TypeSourceLocator::SchemaFile(_) => SourceKind::Schema,
                TypeSourceLocator::RustSource(_) => SourceKind::Rust,
            }),
            exists|path: String| *locator == #[trigger] r.located(path),
    {
        match locator {
            TypeSourceLocator::SchemaFile(p) => {
                assert(*locator == SourceKind::Schema.located(*p));
                SourceKind::Schema
            },
            TypeSourceLocator::RustSource(p) => {
                assert(*locator == SourceKind::Rust.located(*p));
                SourceKind::Rust
            },
        }
    }
}

/// Binds the files that a pattern matches to a type.
#[derive(Debug, PartialEq, Eq)]
pub struct BindingRule {
    pub pattern: String,
    pub exclude: Option<Vec<String>>,
    pub named_type: String,
    pub type_source: TypeSourceLocator,
}

/// Binds one document to a type.
#[derive(Debug, PartialEq, Eq)]
pub struct DocumentOverride {
    pub named_type: String,
    pub type_source: TypeSourceLocator,
}

/// Whether a locator is that of `path` in a source of this kind.
pub open spec fn locates(locator: TypeSourceLocator, kind: SourceKind, path: Seq<char>) -> bool {
    match (locator, kind) {
        (TypeSourceLocator::SchemaFile(p), SourceKind::Schema) => p@ == path,
        (TypeSourceLocator::RustSource(p), SourceKind::Rust) => p@ == path,
        _ => false,
    }
}

/// Whether `exclude` holds the entries of a list written with commas; an empty list is
/// none at all.
pub open spec fn excludes(exclude: Option<Vec<String>>, written: Seq<char>) -> bool {
    match exclude {
        Some(list) => text::list_items(written, 0).len() > 0 && text::strings(list@)
            == text::list_items(written, 0),
        None => text::list_items(written, 0).len() == 0,
    }
}

fn exclude_list(written: &str) -> (r: Option<Vec<String>>)
    ensures
        excludes(r, written@),
{
    let list = text::list_of(written);
    assert(text::strings(list@).len() == list@.len());
    if list.len() == 0 {
        None
    } else {
        Some(list)
    }
}

/// What the user has entered to bind files or a document to a type.
#[derive(Debug)]
pub struct BindingFormDraft {
    pub pattern: String,
    /// Patterns with commas between them.
    pub exclude: String,
    pub named_type: String,
    pub source_path: String,
    pub source_kind: SourceKind,
}

impl Default for BindingFormDraft {
    fn default() -> (r: Self)
        ensures
            r.pattern@ == Seq::<char>::empty(),
            r.exclude@ == Seq::<char>::empty(),
            r.named_type@ == Seq::<char>::empty(),
            r.source_path@ == Seq::<char>::empty(),
            r.source_kind == SourceKind::Schema,
    {
        BindingFormDraft {
            pattern: String::new(),
            exclude: String::new(),
            named_type: String::new(),
            source_path: String::new(),
            source_kind: SourceKind::Schema,
        }
    }
}

impl BindingFormDraft {
    /// The rule, unless the pattern, the type or the source is blank.
    pub fn to_rule(&self) -> (r: Option<BindingRule>)
        ensures
            r is None <==> text::trimmed(self.pattern@).len() == 0 || text::trimmed(
                self.named_type@,
            ).len() == 0 || text::trimmed(self.source_path@).len() == 0,
            r matches Some(rule) ==> {
                &&& rule.pattern@ == text::trimmed(self.pattern@)
                &&& excludes(rule.exclude, self.exclude@)
                &&& rule.named_type@ == text::trimmed(self.named_type@)
                &&& locates(rule.type_source, self.source_kind, text::trimmed(self.source_path@))
            },
    {
        let pattern = text::trim(self.pattern.as_str());
        let named_type = text::trim(self.named_type.as_str());
        let source_path = text::trim(self.source_path.as_str());
        if pattern.as_str().is_empty() || named_type.as_str().is_empty()
            || source_path.as_str().is_empty() {
            return None;
        }
        Some(
            BindingRule {
                pattern,
                exclude: exclude_list(self.exclude.as_str()),
                named_type,
                type_source: self.source_kind.locator(source_path),
            },
        )
    }

    /// The override, unless the type or the source is blank.
    pub fn to_override(&self) -> (r: Option<DocumentOverride>)
        ensures
            r is None <==> text::trimmed(self.named_type@).len() == 0 || text::trimmed(
                self.source_path@,
            ).len() == 0,
            r matches Some(o) ==> {
                &&& o.named_type@ == text::trimmed(self.named_type@)
                &&& locates(o.type_source, self.source_kind, text::trimmed(self.source_path@))
            },
    {
        let named_type = text::trim(self.named_type.as_str());
        let source_path = text::trim(self.source_path.as_str());
        if named_type.as_str().is_empty() || source_path.as_str().is_empty() {
            return None;
        }
        Some(
            DocumentOverride { named_type, type_source: self.source_kind.locator(source_path) },
        )
    }
}

/// What a document is validated as.
#[derive(Debug, Clone, Copy, PartialEq, Eq, Structural)]
pub enum Mode {
    /// A value of a bound type.
    Serde,
    /// A Bevy scene.
    Bevy,
}

impl Mode {
    /// The name in labels.
    pub fn as_str(self) -> (r: &'static str)
        ensures
            r@ == self.name(),
    {
        match self {
            Mode::Serde => "serde",
            Mode::Bevy => "bevy",
        }
    }

    /// The name in labels.
    pub open spec fn name(self) -> Seq<char> {
        match self {
            Mode::Serde => "serde"@,
            Mode::Bevy => "bevy"@,
        }
    }
}

/// Binds the files that a pattern matches to a registry.
#[derive(Debug, PartialEq, Eq)]
pub struct RegistryBindingRule {
    pub pattern: String,
    pub exclude: Option<Vec<String>>,
    pub registry_export_path: String,
    pub mode: Option<Mode>,
    pub expected_bevy_version: Option<String>,
}

/// The version of the registry bindings that is read and written.
pub const REGISTRY_BINDING_CONFIG_VERSION: u32 = 1;

/// The registry bindings of a project.
#[derive(Debug, PartialEq, Eq)]
pub struct RegistryBindingConfig {
    pub rules: Vec<RegistryBindingRule>,
    pub project_default_mode: Option<Mode>,
    pub version: u32,
}

impl RegistryBindingConfig {
    /// Whether there are no bindings.
    pub open spec fn is_default(&self) -> bool {
        &&& self.rules@.len() == 0
        &&& self.project_default_mode is None
        &&& self.version == REGISTRY_BINDING_CONFIG_VERSION
    }
}

impl Default for RegistryBindingConfig {
    fn default() -> (r: Self)
        ensures
            r.is_default(),
    {
        RegistryBindingConfig {
            rules: Vec::new(),
            project_default_mode: None,
            version: REGISTRY_BINDING_CONFIG_VERSION,
        }
    }
}

/// The registry bindings of a project, from what was read of their file. Where nothing
/// could be read, or another version, there are none.
pub fn load_registry_binding_config(parsed: Option<RegistryBindingConfig>) -> (r:
    RegistryBindingConfig)
    ensures
        match parsed {
            Some(p) => if p.version == REGISTRY_BINDING_CONFIG_VERSION {
                r == p
            } else {
                r.is_default()
            },
            None => r.is_default(),
        },
{
    match parsed {
        Some(p) => if p.version == REGISTRY_BINDING_CONFIG_VERSION {
            p
        } else {
            RegistryBindingConfig::default()
        },
        None => RegistryBindingConfig::default(),
    }
}

/// Where the registry bindings of a project are kept, below its root.
pub fn registry_binding_file() -> (r: &'static str)
    ensures
        r@ == ".ronin/bevy-registries.json"@,
{
    ".ronin/bevy-registries.json"
}

/// What the user has entered to bind files to a registry.
#[derive(Debug)]
pub struct RegistryBindingFormDraft {
    pub pattern: String,
    /// Patterns with commas between them.
    pub exclude: String,
    pub registry_export_path: String,
    pub mode: Option<Mode>,
    pub expected_bevy_version: String,
}

impl Default for RegistryBindingFormDraft {
    fn default() -> (r: Self)
        ensures
            r.pattern@ == Seq::<char>::empty(),
            r.exclude@ == Seq::<char>::empty(),
            r.registry_export_path@ == Seq::<char>::empty(),
            r.mode is None,
            r.expected_bevy_version@ == Seq::<char>::empty(),
    {
        RegistryBindingFormDraft {
            pattern: String::new(),
            exclude: String::new(),
            registry_export_path: String::new(),
            mode: None,
            expected_bevy_version: String::new(),
        }
    }
}

impl RegistryBindingFormDraft {
    /// The rule, unless the pattern or the registry is blank. A blank version is none.
    pub fn to_rule(&self) -> (r: Option<RegistryBindingRule>)
        ensures
            r is None <==> text::trimmed(self.pattern@).len() == 0 || text::trimmed(
                self.registry_export_path@,
            ).len() == 0,
            r matches Some(rule) ==> {
                &&& rule.pattern@ == text::trimmed(self.pattern@)
                &&& excludes(rule.exclude, self.exclude@)
                &&& rule.registry_export_path@ == text::trimmed(self.registry_export_path@)
                &&& rule.mode == self.mode
                &&& match rule.expected_bevy_version {
                    Some(v) => v@ == text::trimmed(self.expected_bevy_version@) && v@.len() > 0,
                    None => text::trimmed(self.expected_bevy_version@).len() == 0,
                }
            },
    {
        let pattern = text::trim(self.pattern.as_str());
        let registry_export_path = text::trim(self.registry_export_path.as_str());
        if pattern.as_str().is_empty() || registry_export_path.as_str().is_empty() {
            return None;
        }
        let expected = text::trim(self.expected_bevy_version.as_str());
        let expected_bevy_version = if expected.as_str().is_empty() {
            None
        } else {
            Some(expected)
        };
        Some(
            RegistryBindingRule {
                pattern,
                exclude: exclude_list(self.exclude.as_str()),
                registry_export_path,
                mode: self.mode,
                expected_bevy_version,
            },
        )
    }
}

/// A number out of a range becomes the number in the range that is nearest to it.
pub proof fn numbers_go_to_the_nearest_in_range(n: int, low: int, high: int, other: int)
    requires
        low <= high,
    ensures
        low <= clamped(n, low, high) <= high,
        low <= other <= high ==> (if n <= clamped(n, low, high) {
            clamped(n, low, high) - n
        } else {
            n - clamped(n, low, high)
        }) <= (if n <= other {
            other - n
        } else {
            n - other
        }),
{
}

/// Settings that are read are within their ranges, and those that are within their
/// ranges already stay as they are.
pub proof fn settings_are_kept_within_their_ranges(s: AppSettings)
    ensures
        s.normal().preferences == s.preferences,
        s.normal().large_file_threshold >= MIN_LARGE_FILE_THRESHOLD,
        s.large_file_threshold >= MIN_LARGE_FILE_THRESHOLD ==> s.normal().large_file_threshold
            == s.large_file_threshold,
        MIN_INDENT_WIDTH <= s.normal().formatting.indent_width <= MAX_INDENT_WIDTH,
        MIN_INDENT_WIDTH <= s.formatting.indent_width <= MAX_INDENT_WIDTH ==> s.normal().formatting
            == s.formatting,
        s.normal().formatting.blank_line_policy == s.formatting.blank_line_policy,
        s.normal().formatting.format_on_save == s.formatting.format_on_save,
        MIN_UNDO_COUNT_CAP <= s.normal().undo.history_count_cap <= MAX_UNDO_COUNT_CAP,
        MIN_UNDO_COUNT_CAP <= s.undo.history_count_cap <= MAX_UNDO_COUNT_CAP
            ==> s.normal().undo.history_count_cap == s.undo.history_count_cap,
        MIN_UNDO_BYTE_CAP <= s.normal().undo.history_byte_cap <= MAX_UNDO_BYTE_CAP,
        MIN_UNDO_BYTE_CAP <= s.undo.history_byte_cap <= MAX_UNDO_BYTE_CAP
            ==> s.normal().undo.history_byte_cap == s.undo.history_byte_cap,
        MIN_COALESCE_WINDOW_MS <= s.normal().undo.coalesce_window_ms <= MAX_COALESCE_WINDOW_MS,
        MIN_COALESCE_WINDOW_MS <= s.undo.coalesce_window_ms <= MAX_COALESCE_WINDOW_MS
            ==> s.normal().undo.coalesce_window_ms == s.undo.coalesce_window_ms,
        MIN_AUTOSAVE_IDLE_MS <= s.normal().autosave.idle_debounce_ms <= MAX_AUTOSAVE_IDLE_MS,
        MIN_AUTOSAVE_IDLE_MS <= s.autosave.idle_debounce_ms <= MAX_AUTOSAVE_IDLE_MS
            ==> s.normal().autosave.idle_debounce_ms == s.autosave.idle_debounce_ms,
        MIN_AUTOSAVE_EDIT_COUNT <= s.normal().autosave.edit_count_trigger
            <= MAX_AUTOSAVE_EDIT_COUNT,
        MIN_AUTOSAVE_EDIT_COUNT <= s.autosave.edit_count_trigger <= MAX_AUTOSAVE_EDIT_COUNT
            ==> s.normal().autosave.edit_count_trigger == s.autosave.edit_count_trigger,
        MIN_JSON_INDENT <= s.normal().conversion.json_indent <= MAX_JSON_INDENT,
        MIN_JSON_INDENT <= s.conversion.json_indent <= MAX_JSON_INDENT ==> s.normal().conversion
            == s.conversion,
{
}

} // verus!
