//! Settings: defaults, limits and form drafts.

use ronin_app::document::EditorDocument;
use ronin_app::interop::CommentMode;
use ronin_app::settings::{
    load_registry_binding_config, registry_binding_file, AppSettings, AutosaveConfig,
    BindingFormDraft, BlankLinePolicy, ConversionSettings, FormattingConfig, JsonFormat, Mode,
    RegistryBindingConfig, RegistryBindingFormDraft, RegistryBindingRule, SourceKind,
    StrictCommentCarrier, TypeSourceLocator, UndoConfig, MAX_AUTOSAVE_EDIT_COUNT,
    MAX_AUTOSAVE_IDLE_MS, MAX_COALESCE_WINDOW_MS, MAX_UNDO_BYTE_CAP, MAX_UNDO_COUNT_CAP,
    MIN_AUTOSAVE_EDIT_COUNT, MIN_AUTOSAVE_IDLE_MS, MIN_COALESCE_WINDOW_MS, MIN_UNDO_BYTE_CAP,
    MIN_UNDO_COUNT_CAP, REGISTRY_BINDING_CONFIG_VERSION,
};
use ronin_app::undo::{DEFAULT_COALESCE_WINDOW_MS, DEFAULT_UNDO_BYTE_CAP, DEFAULT_UNDO_COUNT_CAP};

#[test]
fn default_threshold_is_5_mib() {
    assert_eq!(AppSettings::default().large_file_threshold, 5_242_880);
}

#[test]
fn setter_clamps_below_floor_but_keeps_valid_values() {
    let mut s = AppSettings::default();
    s.set_large_file_threshold(10);
    assert_eq!(s.large_file_threshold, 65_536);
    s.set_large_file_threshold(2_000_000);
    assert_eq!(s.large_file_threshold, 2_000_000);
    assert_eq!(s.effective_large_file_threshold(), 2_000_000);
}

#[test]
fn a_tiny_threshold_is_raised_to_the_floor() {
    let mut parsed = AppSettings::default();
    parsed.large_file_threshold = 1;
    let loaded = AppSettings::from_parsed(Some(parsed));
    assert_eq!(
        loaded.large_file_threshold,
        AppSettings::min_large_file_threshold()
    );
    assert_eq!(loaded.large_file_threshold, 65_536);
}

#[test]
fn a_normal_threshold_is_kept() {
    let mut parsed = AppSettings::default();
    parsed.large_file_threshold = 10_485_760;
    let loaded = AppSettings::from_parsed(Some(parsed));
    assert_eq!(loaded.large_file_threshold, 10_485_760);
}

#[test]
fn formatting_config_defaults() {
    let f = FormattingConfig::default();
    assert_eq!(f.indent_width, 4);
    assert_eq!(f.blank_line_policy, BlankLinePolicy::Collapse);
    assert!(!f.format_on_save);
    assert_eq!(
        AppSettings::default().formatting,
        FormattingConfig::default()
    );
}

#[test]
fn formatting_config_clamps_indent_width() {
    let mut f = FormattingConfig::default();
    f.set_indent_width(0);
    assert_eq!(f.indent_width, FormattingConfig::min_indent_width());
    f.set_indent_width(999);
    assert_eq!(f.indent_width, FormattingConfig::max_indent_width());
    f.set_indent_width(8);
    assert_eq!(f.indent_width, 8);
    assert_eq!(f.effective_indent_width(), 8);
}

#[test]
fn an_absurd_indent_is_lowered() {
    let mut parsed = AppSettings::default();
    parsed.formatting.indent_width = 9999;
    let loaded = AppSettings::from_parsed(Some(parsed));
    assert_eq!(
        loaded.formatting.indent_width,
        FormattingConfig::max_indent_width()
    );
}

#[test]
fn formatting_maps_to_engine_config() {
    let mut f = FormattingConfig::default();
    f.set_indent_width(2);
    f.blank_line_policy = BlankLinePolicy::Preserve;
    let engine = f.to_engine_config();
    assert_eq!(engine.indent_width(), 2);
    assert_eq!(engine.blank_line_policy(), BlankLinePolicy::Preserve);
}

#[test]
fn undo_config_defaults() {
    let u = UndoConfig::default();
    assert_eq!(u.history_count_cap, 200);
    assert_eq!(u.history_byte_cap, 64 * 1024 * 1024);
    assert_eq!(u.coalesce_window_ms, 500);
    assert_eq!(AppSettings::default().undo, UndoConfig::default());
    assert_eq!(u.history_count_cap, DEFAULT_UNDO_COUNT_CAP);
    assert_eq!(u.history_byte_cap, DEFAULT_UNDO_BYTE_CAP);
    assert_eq!(u.effective_coalesce_window_ms(), DEFAULT_COALESCE_WINDOW_MS);
}

#[test]
fn autosave_config_defaults() {
    let a = AutosaveConfig::default();
    assert_eq!(a.idle_debounce_ms, 4_000);
    assert_eq!(a.edit_count_trigger, 50);
    assert_eq!(AppSettings::default().autosave, AutosaveConfig::default());
}

#[test]
fn undo_config_clamps_tiny_and_huge_to_range() {
    let mut u = UndoConfig::default();
    u.set_history_count_cap(0);
    assert_eq!(u.history_count_cap, MIN_UNDO_COUNT_CAP);
    u.set_history_byte_cap(0);
    assert_eq!(u.history_byte_cap, MIN_UNDO_BYTE_CAP);
    u.set_coalesce_window_ms(0);
    assert_eq!(u.coalesce_window_ms, MIN_COALESCE_WINDOW_MS);
    u.set_history_count_cap(usize::MAX);
    assert_eq!(u.history_count_cap, MAX_UNDO_COUNT_CAP);
    u.set_history_byte_cap(usize::MAX);
    assert_eq!(u.history_byte_cap, MAX_UNDO_BYTE_CAP);
    u.set_coalesce_window_ms(u64::MAX);
    assert_eq!(u.coalesce_window_ms, MAX_COALESCE_WINDOW_MS);
    u.set_history_count_cap(500);
    assert_eq!(u.history_count_cap, 500);
    assert_eq!(u.effective_history_count_cap(), 500);
}

#[test]
fn autosave_config_clamps_tiny_and_huge_to_range() {
    let mut a = AutosaveConfig::default();
    a.set_idle_debounce_ms(0);
    assert_eq!(a.idle_debounce_ms, MIN_AUTOSAVE_IDLE_MS);
    a.set_edit_count_trigger(0);
    assert_eq!(a.edit_count_trigger, MIN_AUTOSAVE_EDIT_COUNT);
    a.set_idle_debounce_ms(u64::MAX);
    assert_eq!(a.idle_debounce_ms, MAX_AUTOSAVE_IDLE_MS);
    a.set_edit_count_trigger(u32::MAX);
    assert_eq!(a.edit_count_trigger, MAX_AUTOSAVE_EDIT_COUNT);
    a.set_idle_debounce_ms(10_000);
    assert_eq!(a.idle_debounce_ms, 10_000);
    assert_eq!(a.effective_idle_debounce_ms(), 10_000);
}

#[test]
fn undo_config_maps_to_engine_cap() {
    let mut u = UndoConfig::default();
    u.set_history_count_cap(42);
    u.set_history_byte_cap(2 * 1024 * 1024);
    let cap = u.to_engine_cap();
    assert_eq!(cap.max_count, 42);
    assert_eq!(cap.max_bytes, 2 * 1024 * 1024);
}

#[test]
fn limits_of_zero_are_raised() {
    let mut parsed = AppSettings::default();
    parsed.undo = UndoConfig {
        history_count_cap: 0,
        history_byte_cap: 0,
        coalesce_window_ms: 0,
    };
    parsed.autosave = AutosaveConfig {
        idle_debounce_ms: 0,
        edit_count_trigger: 0,
    };
    let loaded = AppSettings::from_parsed(Some(parsed));
    assert_eq!(loaded.undo.history_count_cap, MIN_UNDO_COUNT_CAP);
    assert_eq!(loaded.undo.history_byte_cap, MIN_UNDO_BYTE_CAP);
    assert_eq!(loaded.undo.coalesce_window_ms, MIN_COALESCE_WINDOW_MS);
    assert_eq!(loaded.autosave.idle_debounce_ms, MIN_AUTOSAVE_IDLE_MS);
    assert_eq!(loaded.autosave.edit_count_trigger, MIN_AUTOSAVE_EDIT_COUNT);
}

#[test]
fn huge_limits_are_lowered() {
    let mut parsed = AppSettings::default();
    parsed.undo = UndoConfig {
        history_count_cap: 1_000_000,
        history_byte_cap: 9_999_999_999_999,
        coalesce_window_ms: 999_999,
    };
    parsed.autosave = AutosaveConfig {
        idle_debounce_ms: 999_999_999,
        edit_count_trigger: 999_999,
    };
    let loaded = AppSettings::from_parsed(Some(parsed));
    assert_eq!(loaded.undo.history_count_cap, MAX_UNDO_COUNT_CAP);
    assert_eq!(loaded.undo.history_byte_cap, MAX_UNDO_BYTE_CAP);
    assert_eq!(loaded.undo.coalesce_window_ms, MAX_COALESCE_WINDOW_MS);
    assert_eq!(loaded.autosave.idle_debounce_ms, MAX_AUTOSAVE_IDLE_MS);
    assert_eq!(loaded.autosave.edit_count_trigger, MAX_AUTOSAVE_EDIT_COUNT);
}

#[test]
fn without_a_registry_file_there_are_no_rules() {
    let loaded = load_registry_binding_config(None);
    assert_eq!(loaded, RegistryBindingConfig::default());
    assert!(loaded.rules.is_empty());
    assert_eq!(registry_binding_file(), ".ronin/bevy-registries.json");
}

#[test]
fn a_registry_config_of_another_version_is_not_used() {
    let of_version = |version: u32| RegistryBindingConfig {
        rules: vec![RegistryBindingRule {
            pattern: "levels/*.scn.ron".to_string(),
            exclude: None,
            registry_export_path: "registries/world.json".to_string(),
            mode: Some(Mode::Bevy),
            expected_bevy_version: Some("0.16.0".to_string()),
        }],
        project_default_mode: None,
        version,
    };
    let current = load_registry_binding_config(Some(of_version(REGISTRY_BINDING_CONFIG_VERSION)));
    assert_eq!(current, of_version(REGISTRY_BINDING_CONFIG_VERSION));
    let other = load_registry_binding_config(Some(of_version(REGISTRY_BINDING_CONFIG_VERSION + 1)));
    assert_eq!(other, RegistryBindingConfig::default());
}

#[test]
fn registry_binding_form_draft_rejects_blank_and_builds_rule() {
    let mut draft = RegistryBindingFormDraft::default();
    assert!(draft.to_rule().is_none(), "blank draft ⇒ no rule");
    draft.pattern = "  ".to_string();
    draft.registry_export_path = "r.json".to_string();
    assert!(draft.to_rule().is_none(), "blank pattern ⇒ no rule");
    draft.pattern = "**/*.scn.ron".to_string();
    draft.registry_export_path = "  ".to_string();
    assert!(draft.to_rule().is_none(), "blank export path ⇒ no rule");

    draft.registry_export_path = "registries/r.json".to_string();
    draft.exclude = "wip/** , , tmp/**".to_string();
    draft.mode = Some(Mode::Bevy);
    draft.expected_bevy_version = " 0.16.0 ".to_string();
    let rule = draft.to_rule().expect("a valid rule");
    assert_eq!(rule.pattern, "**/*.scn.ron");
    assert_eq!(
        rule.exclude,
        Some(vec!["wip/**".to_string(), "tmp/**".to_string()])
    );
    assert_eq!(rule.registry_export_path, "registries/r.json");
    assert_eq!(rule.mode, Some(Mode::Bevy));
    assert_eq!(rule.expected_bevy_version, Some("0.16.0".to_string()));
}

#[test]
fn binding_form_draft_builds_rules_and_overrides() {
    let mut draft = BindingFormDraft::default();
    assert!(draft.to_rule().is_none());
    assert!(draft.to_override().is_none());
    draft.pattern = " *.ron ".to_string();
    draft.named_type = " game::Config ".to_string();
    draft.source_path = " types.json ".to_string();
    draft.source_kind = SourceKind::Schema;
    let rule = draft.to_rule().expect("a rule");
    assert_eq!(rule.pattern, "*.ron");
    assert_eq!(rule.exclude, None);
    assert_eq!(rule.named_type, "game::Config");
    assert_eq!(
        rule.type_source,
        TypeSourceLocator::SchemaFile("types.json".to_string())
    );
    draft.source_kind = SourceKind::Rust;
    let over = draft.to_override().expect("an override");
    assert_eq!(over.named_type, "game::Config");
    assert_eq!(
        over.type_source,
        TypeSourceLocator::RustSource("types.json".to_string())
    );
    assert_eq!(SourceKind::of(&over.type_source), SourceKind::Rust);
}

#[test]
fn conversion_settings_defaults() {
    let c = ConversionSettings::default();
    assert_eq!(c.default_format, JsonFormat::Jsonc);
    assert!(c.default_format.is_jsonc());
    assert_eq!(c.json_indent, 2);
    assert_eq!(
        c.strict_default_comment_carrier,
        StrictCommentCarrier::Sidecar
    );
    assert_eq!(
        AppSettings::default().conversion,
        ConversionSettings::default()
    );
}

#[test]
fn windows_are_clamped_in_nanoseconds_too() {
    let mut undo = UndoConfig::default();
    assert_eq!(undo.effective_coalesce_window(), 500_000_000);
    undo.coalesce_window_ms = u64::MAX;
    assert_eq!(undo.effective_coalesce_window(), 5_000_000_000);
    let mut autosave = AutosaveConfig::default();
    assert_eq!(autosave.effective_idle_debounce(), 4_000_000_000);
    autosave.idle_debounce_ms = 0;
    assert_eq!(autosave.effective_idle_debounce(), 250_000_000);
}

#[test]
fn conversion_settings_say_where_comments_go() {
    let mut c = ConversionSettings::default();
    assert_eq!(c.comment_mode(), CommentMode::JsoncInline);
    c.default_format = JsonFormat::StrictJson;
    assert_eq!(c.comment_mode(), CommentMode::Sidecar);
    c.strict_default_comment_carrier = StrictCommentCarrier::PureNoComments;
    assert_eq!(c.comment_mode(), CommentMode::Dropped);
}

#[test]
fn conversion_settings_clamp_json_indent() {
    let mut c = ConversionSettings::default();
    c.set_json_indent(0);
    assert_eq!(c.json_indent, ConversionSettings::min_json_indent());
    assert_eq!(c.json_indent, 0);
    c.set_json_indent(9999);
    assert_eq!(c.json_indent, ConversionSettings::max_json_indent());
    assert_eq!(c.json_indent, 16);
    c.set_json_indent(4);
    assert_eq!(c.json_indent, 4);
    assert_eq!(c.effective_json_indent(), 4);
}

#[test]
fn an_absurd_json_indent_is_lowered() {
    let mut parsed = AppSettings::default();
    parsed.conversion.json_indent = 9999;
    let loaded = AppSettings::from_parsed(Some(parsed));
    assert_eq!(
        loaded.conversion.json_indent,
        ConversionSettings::max_json_indent()
    );
}

#[test]
fn unreadable_settings_are_the_defaults() {
    let loaded = AppSettings::from_parsed(None);
    assert_eq!(loaded.conversion, ConversionSettings::default());
    assert_eq!(loaded.undo, UndoConfig::default());
    assert_eq!(loaded.autosave, AutosaveConfig::default());
    assert_eq!(loaded.formatting, FormattingConfig::default());
}

#[test]
fn loading_again_changes_nothing() {
    let mut parsed = AppSettings::default();
    parsed.conversion.json_indent = 9999;
    parsed.undo.history_count_cap = 0;
    let once = AppSettings::from_parsed(Some(parsed));
    let (conversion, undo) = (once.conversion, once.undo);
    let twice = AppSettings::from_parsed(Some(once));
    assert_eq!(twice.conversion, conversion);
    assert_eq!(twice.undo, undo);
}

#[test]
fn changing_threshold_reevaluates_document_oversize() {
    let doc = EditorDocument::from_loaded(1, "sample.ron".to_string(), b"(value: 1234567890)")
        .unwrap();
    let len = doc.buffer.len() as u64;
    assert!(doc.oversize(len - 1), "tiny threshold => oversize");
    assert!(!doc.oversize(len + 1), "large threshold => not oversize");
}

#[test]
fn labels_are_stable() {
    assert_eq!(JsonFormat::Jsonc.as_str(), "jsonc");
    assert_eq!(Mode::Serde.as_str(), "serde");
    assert_eq!(Mode::Bevy.as_str(), "bevy");
    assert_eq!(SourceKind::default(), SourceKind::Schema);
}
