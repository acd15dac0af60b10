//! Documents: their history, what is derived from them, and what is shown.

use ronin_app::diagnostics::{map_diagnostic, overlaps, Diagnostic, DiagnosticView, Severity};
use ronin_app::document::{
    merge_type_diagnostics, BindingOrigin, BindingState, EditorDocument, ModeOrigin, ModeState,
    TransformOutcome,
};
use ronin_app::editor_view::{
    build_highlight_model, byte_to_char, char_to_byte, completion_enabled, completion_label,
    gutter_label, layout_runs, line_count, popup_action, severity_squiggle_color, CompletionKind,
    HighlightClass, HighlightSpan, PopupAction, PopupInput, Rgb, Trigger,
};
use ronin_app::fidelity::{ByteFidelityProfile, SavedSnapshot};
use ronin_app::panels::{
    breadcrumb_is_clickable, combine_hint, combine_target, diagnostics_row, group_by_columns,
    group_sections, is_column_shown, is_outline_container, opens_by_default, outline_label,
    section_label, selection_is_table_able, shown_selection, split_combined, step_label,
    toggle_column, PathStep, StructuralPath, TableNavigation, TableSection, TreeNode, TreeNodeKind,
};
use ronin_app::problems_panel::{empty_label, problem_label, problem_order, severity_icon};
use ronin_app::reparse::{BoundFindings, BoundValidation, ParseResult, ReparseJob};
use ronin_app::settings::{AutosaveConfig, Mode, TypeSourceLocator, UndoConfig};
use ronin_app::syntax::{RonValue, Shape, SyntaxKind, TextRange, Token};
use ronin_app::undo::{CursorState, UndoCap, UndoEntry, UndoStack};

fn finding(severity: Severity, message: &str, start: usize, end: usize) -> Diagnostic {
    Diagnostic {
        severity,
        code: "RON-X0001".to_string(),
        message: message.to_string(),
        range: TextRange::new(start, end),
    }
}

fn token(kind: SyntaxKind, source: &str, start: usize, end: usize) -> Token {
    Token {
        kind,
        range: TextRange::new(start, end),
        text: source[start..end].to_string(),
    }
}

fn bevy_without_registry() -> ModeState {
    let mut state = ModeState::default();
    state.active_mode = Mode::Bevy;
    state
}

// ---- What a document is validated against ------------------------------------

#[test]
fn serde_mode_selects_serde_validation() {
    let mut doc = EditorDocument::new_untitled(1, 1);
    doc.bound_type = Some("Entity".to_string());
    assert!(!doc.is_bevy_mode());
    match doc.bound_validation() {
        Some(BoundValidation::Serde(b)) => assert_eq!(b.named_type, "Entity"),
        other => panic!("expected Serde validation, got {other:?}"),
    }
}

#[test]
fn serde_mode_without_binding_selects_none() {
    let doc = EditorDocument::new_untitled(1, 1);
    assert!(
        doc.bound_validation().is_none(),
        "no binding ⇒ structural-only"
    );
}

#[test]
fn bevy_mode_without_registry_falls_through_to_serde() {
    let mut doc = EditorDocument::new_untitled(1, 1);
    doc.path = Some("w.scn.ron".to_string());
    let state = bevy_without_registry();
    assert!(state.active_mode == Mode::Bevy);
    assert!(!state.has_registry);
    doc.set_mode_state(state);
    assert!(doc.is_bevy_mode());
    assert!(doc.bound_validation().is_none());
}

#[test]
fn a_loaded_registry_takes_the_place_of_the_type() {
    let mut doc = EditorDocument::from_loaded(1, "w.scn.ron".to_string(), b"").unwrap();
    doc.bound_type = Some("Entity".to_string());
    let mut state = bevy_without_registry();
    state.bound_registry_path = Some("registries/registry.json".to_string());
    state.has_registry = true;
    state.expected_bevy_version = Some("0.16.0".to_string());
    doc.set_mode_state(state);
    match doc.bound_validation() {
        Some(BoundValidation::Bevy(scene)) => {
            assert_eq!(scene.expected_version, Some("0.16.0".to_string()));
        }
        other => panic!("expected Bevy validation, got {other:?}"),
    }
    assert_eq!(doc.registry_label(), "Registry: registry.json (loaded)");
    let other = EditorDocument::new_untitled(2, 1);
    assert!(!other.is_bevy_mode(), "the other document is unaffected");
}

#[test]
fn documents_have_modes_of_their_own() {
    let mut a = EditorDocument::new_untitled(1, 1);
    let b = EditorDocument::new_untitled(2, 2);
    a.mode_state_mut().active_mode = Mode::Bevy;
    a.mode_state_mut().mode_origin = ModeOrigin::Override;
    assert!(a.is_bevy_mode());
    assert_eq!(a.mode_state().mode_origin, ModeOrigin::Override);
    assert!(!b.is_bevy_mode(), "the other document is unaffected");
}

#[test]
fn labels_say_what_a_document_is_bound_to() {
    let mut doc = EditorDocument::new_untitled(1, 3);
    assert_eq!(doc.title(), "Untitled-3");
    assert_eq!(doc.binding_label(), "no type bound");
    assert_eq!(doc.binding_source_label(), None);
    assert_eq!(doc.mode_label(), "Mode: serde (auto)");
    assert_eq!(doc.registry_label(), "Registry: n/a (serde mode)");
    assert_eq!(doc.staleness_label(), None);
    doc.path = Some("levels/one.ron".to_string());
    doc.binding = BindingState::Bound {
        named_type: "game::Level".to_string(),
        type_source: TypeSourceLocator::RustSource("src/level.rs".to_string()),
        origin: BindingOrigin::Override,
    };
    doc.mode_state = ModeState {
        active_mode: Mode::Bevy,
        mode_origin: ModeOrigin::Override,
        bound_registry_path: None,
        has_registry: false,
        expected_bevy_version: Some("0.16.0".to_string()),
        apparent_bevy_version: None,
        is_stale: true,
    };
    assert_eq!(doc.title(), "one.ron");
    assert_eq!(doc.binding_label(), "Type: game::Level (override)");
    assert_eq!(
        doc.binding_source_label(),
        Some("rust: src/level.rs".to_string())
    );
    assert_eq!(doc.mode_label(), "Mode: bevy (override)");
    assert_eq!(doc.registry_label(), "Registry: none");
    assert_eq!(
        doc.staleness_label(),
        Some("Stale: expected 0.16.0, registry ?".to_string())
    );
}

// ---- Parsing ---------------------------------------------------------------------

#[test]
fn no_binding_runs_structural_only() {
    let result = ParseResult::parse_with_binding(r#"(id: "x")"#, 1, Vec::new(), Vec::new(), None);
    assert!(result.type_diagnostics.is_empty(), "no serde validation");
    assert!(result.scene_diagnostics.is_empty(), "no scene validation");
}

#[test]
fn serde_variant_populates_type_diagnostics_only() {
    let result = ParseResult::parse_with_binding(
        r#"(id: "oops")"#,
        1,
        Vec::new(),
        Vec::new(),
        Some(BoundFindings::Serde(vec![finding(
            Severity::Error,
            "Entity: id is no integer",
            5,
            11,
        )])),
    );
    assert!(
        !result.type_diagnostics.is_empty(),
        "serde validation produces a type finding"
    );
    assert!(
        result.scene_diagnostics.is_empty(),
        "the scene set stays empty in serde mode (mutually exclusive)"
    );
}

#[test]
fn bevy_variant_populates_scene_diagnostics_only() {
    let scene = r#"(entities: {0: (components: {"game::Unknown": (a: 1)})})"#;
    let result = ParseResult::parse_with_binding(
        scene,
        1,
        Vec::new(),
        Vec::new(),
        Some(BoundFindings::Bevy(vec![finding(
            Severity::Warning,
            "unregistered component",
            29,
            44,
        )])),
    );
    assert!(
        !result.scene_diagnostics.is_empty(),
        "scene validation produces a finding"
    );
    assert!(
        result.type_diagnostics.is_empty(),
        "the type set stays empty in Bevy mode (mutually exclusive)"
    );
}

#[test]
fn diagnostic_ranges_are_clamped_to_source_len() {
    let scene = r#"(entities: {0: (components: {"game::Unknown": (a: 1)})})"#;
    let result = ParseResult::parse_with_binding(
        scene,
        1,
        Vec::new(),
        vec![finding(Severity::Error, "structural", 5, 999)],
        Some(BoundFindings::Bevy(vec![finding(
            Severity::Warning,
            "scene",
            50,
            5000,
        )])),
    );
    assert_eq!(result.source_len, scene.len());
    for d in &result.scene_diagnostics {
        assert!(d.range.end <= result.source_len, "scene range in bounds");
    }
    for d in &result.diagnostics {
        assert!(d.range.end <= result.source_len, "structural range in bounds");
    }
    assert_eq!(result.scene_diagnostics[0].range.start, 50);
}

#[test]
fn only_the_result_for_the_current_text_is_taken() {
    let mut doc = EditorDocument::new_untitled(7, 1);
    doc.buffer = "(a: 1)".to_string();
    doc.on_edit();
    let job = doc.request_reparse().expect("a job");
    assert_eq!((job.doc_id, job.generation), (7, 1));
    assert_eq!(job.text, "(a: 1)");
    assert!(doc.request_reparse().is_none(), "asked for already");
    let old = ParseResult::parse("", 0, Vec::new(), Vec::new());
    let foreign = ParseResult::parse(&job.text, 1, Vec::new(), Vec::new()).for_job(&ReparseJob {
        doc_id: 8,
        generation: 1,
        text: job.text.clone(),
        bound: None,
    });
    assert!(!doc.poll_parse(vec![old, foreign]));
    assert!(doc.parse.is_none());
    let source = job.text.clone();
    let own = ParseResult::parse(
        &source,
        1,
        vec![token(SyntaxKind::Ident, &source, 1, 2)],
        vec![finding(Severity::Warning, "why", 4, 5)],
    )
    .for_job(&job);
    assert!(own.supersedes(0));
    assert!(doc.poll_parse(vec![own]));
    assert_eq!(doc.diagnostics.len(), 1);
    assert_eq!(doc.diagnostics[0].char_range, (4, 5));
    let colours = doc.highlight.as_ref().expect("colours");
    assert_eq!(colours.generation, Some(1));
    assert_eq!(colours.spans.len(), 1);
}

#[test]
fn type_findings_are_merged_after_the_others() {
    let text = "(a: é, b: 2)";
    let result = ParseResult::parse_with_binding(
        text,
        1,
        Vec::new(),
        vec![finding(Severity::Error, "structural", 4, 6)],
        Some(BoundFindings::Serde(vec![
            finding(Severity::Error, "hidden by the structural one", 4, 6),
            finding(Severity::Error, "shown", 11, 12),
        ])),
    );
    let views = merge_type_diagnostics(&result, text);
    let messages: Vec<&str> = views.iter().map(|v| v.message.as_str()).collect();
    assert_eq!(messages, vec!["structural", "shown"]);
    assert_eq!(views[1].char_range, (10, 11), "offsets count characters");
    assert!(overlaps(&TextRange::new(4, 6), &TextRange::new(5, 9)));
    assert!(!overlaps(&TextRange::new(4, 6), &TextRange::new(6, 9)));
}

#[test]
fn findings_are_placed_by_line_and_column() {
    let chars: Vec<char> = "ab\ncé d".chars().collect();
    let view = map_diagnostic(&finding(Severity::Error, "m", 4, 6), &chars);
    assert_eq!(view.char_range, (4, 5));
    assert_eq!(view.line_col, ((1, 1), (1, 2)));
}

// ---- History -----------------------------------------------------------------------

const SECOND: u64 = 1_000_000_000;

fn type_text(doc: &mut EditorDocument, text: &str) {
    doc.buffer = text.to_string();
    doc.on_edit();
}

#[test]
fn undo_and_redo_move_between_states() {
    let mut doc = EditorDocument::new_untitled(1, 1);
    doc.seed_undo();
    type_text(&mut doc, "a");
    assert!(doc.record_undo_snapshot(SECOND));
    type_text(&mut doc, "ab");
    assert!(doc.record_undo_snapshot(10 * SECOND));
    assert!(!doc.record_undo_snapshot(11 * SECOND), "nothing was edited");
    assert_eq!(doc.undo_depth(), 2);
    assert!(doc.can_undo());
    assert!(doc.undo(12 * SECOND));
    assert_eq!(doc.buffer, "a");
    assert!(doc.can_redo());
    assert!(doc.undo(13 * SECOND));
    assert_eq!(doc.buffer, "");
    assert!(!doc.undo(14 * SECOND));
    assert!(doc.redo());
    assert!(doc.redo());
    assert_eq!(doc.buffer, "ab");
    assert!(!doc.redo());
}

#[test]
fn quick_edits_are_one_unit() {
    let mut doc = EditorDocument::new_untitled(1, 1);
    doc.seed_undo();
    type_text(&mut doc, "a");
    doc.record_undo_snapshot(SECOND);
    type_text(&mut doc, "ab");
    doc.record_undo_snapshot(SECOND + SECOND / 10);
    assert!(doc.undo(20 * SECOND));
    assert_eq!(doc.buffer, "");
}

#[test]
fn edits_after_undo_forget_the_future() {
    let mut doc = EditorDocument::new_untitled(1, 1);
    doc.seed_undo();
    type_text(&mut doc, "a");
    doc.undo(SECOND);
    type_text(&mut doc, "b");
    doc.record_undo_snapshot(5 * SECOND);
    assert!(!doc.can_redo());
    doc.undo(6 * SECOND);
    assert_eq!(doc.buffer, "");
}

#[test]
fn commits_are_undone_at_once() {
    let mut doc = EditorDocument::new_untitled(1, 1);
    type_text(&mut doc, "(a:1)");
    let job = doc.commit_transformed_cst("(a: 1)".to_string(), SECOND);
    assert!(job.is_some());
    assert_eq!(doc.buffer, "(a: 1)");
    assert!(doc.undo(2 * SECOND));
    assert_eq!(doc.buffer, "(a:1)");
    assert!(doc.redo());
    assert_eq!(doc.buffer, "(a: 1)");
    doc.commit_converted_text("{}".to_string(), 3 * SECOND);
    assert_eq!(doc.buffer, "{}");
    doc.undo(4 * SECOND);
    assert_eq!(doc.buffer, "(a: 1)");
}

#[test]
fn a_blocked_transformation_changes_nothing() {
    let mut doc = EditorDocument::new_untitled(1, 1);
    doc.buffer = "(a: 1)".to_string();
    let r = doc.apply_structural_edit(TransformOutcome::Blocked("no".to_string()), SECOND);
    assert_eq!(r, Err("no".to_string()));
    assert_eq!(doc.buffer, "(a: 1)");
    assert_eq!(doc.edit_generation(), 0);
    let r = doc.apply_structural_edit(TransformOutcome::Applied("(b: 1)".to_string()), SECOND);
    assert!(r.is_ok());
    assert_eq!(doc.buffer, "(b: 1)");
}

#[test]
fn history_is_bounded() {
    let mut stack = UndoStack::with_cap(UndoCap::new(2, 1_000));
    for text in ["a", "b", "c", "d"] {
        stack.record(
            UndoEntry {
                source_text: text.to_string(),
                cursor: CursorState::default(),
            },
            false,
        );
    }
    assert_eq!(stack.len(), 2);
    assert_eq!(stack.undo().expect("a state").source_text, "c");
    assert_eq!(stack.undo().expect("a state").source_text, "b");
    assert!(stack.undo().is_none());
    assert_eq!(stack.redo().expect("a state").source_text, "c");
    assert_eq!(stack.cap().max_count, 2);
    assert_eq!(stack.total_bytes(), 2);
}

#[test]
fn another_setting_starts_a_new_history() {
    let mut doc = EditorDocument::new_untitled(1, 1);
    doc.seed_undo();
    type_text(&mut doc, "a");
    doc.record_undo_snapshot(SECOND);
    let mut config = UndoConfig::default();
    doc.set_undo_config(config);
    assert!(doc.can_undo(), "the same setting keeps the history");
    config.set_history_count_cap(5);
    doc.set_undo_config(config);
    assert!(!doc.can_undo());
    assert_eq!(doc.buffer, "a");
}

#[test]
fn saving_makes_a_document_clean() {
    let mut doc = EditorDocument::from_loaded(1, "a.ron".to_string(), b"(a: 1)").unwrap();
    assert!(!doc.dirty());
    type_text(&mut doc, "(a: 2)");
    assert!(doc.dirty());
    doc.mark_saved();
    assert!(!doc.dirty());
    assert!(EditorDocument::from_loaded(1, "a.ron".to_string(), &[0xff]).is_err());
}

#[test]
fn a_closed_document_comes_back_as_it_was() {
    let profile = ByteFidelityProfile::from_bytes(b"(a: 1)\r\n");
    let cursor = CursorState {
        caret: 3,
        selection: Some((1, 3)),
        scroll: 0,
    };
    let doc = EditorDocument::from_restorable(
        7,
        Some("/data/a.ron".to_string()),
        "(a: 2)".to_string(),
        SavedSnapshot::of("(a: 1)"),
        profile,
        cursor,
        None,
    );
    assert_eq!(doc.id(), 7);
    assert_eq!(doc.buffer, "(a: 2)");
    assert_eq!(doc.cursor, cursor);
    assert_eq!(doc.byte_profile, profile);
    assert!(doc.dirty(), "what was not saved is still not saved");
    assert!(doc.parse.is_none() && doc.diagnostics.is_empty());
}

#[test]
fn unsaved_work_is_kept_for_documents_with_a_file() {
    let mut doc = match EditorDocument::from_loaded(1, "/data/a.ron".to_string(), b"(a: 1)\n") {
        Ok(doc) => doc,
        Err(e) => panic!("{}", e.message()),
    };
    doc.set_autosave_config(AutosaveConfig {
        idle_debounce_ms: 1_000,
        edit_count_trigger: 100,
    });
    assert!(!doc.should_autosave(9 * SECOND), "nothing was edited");
    assert!(!doc.force_autosave_tick());
    doc.buffer.push('x');
    doc.on_edit();
    doc.note_change(SECOND);
    assert!(!doc.should_autosave(SECOND + SECOND / 2));
    assert!(doc.should_autosave(2 * SECOND));
    assert!(doc.force_autosave_tick());
    let kept = match doc.recovery_snapshot(42) {
        Some(kept) => kept,
        None => panic!("a document with a file has a recovery file"),
    };
    assert_eq!(kept.source_path, "/data/a.ron");
    assert_eq!(kept.buffer, "(a: 1)\nx");
    assert_eq!(kept.timestamp, 42);
    doc.mark_autosaved();
    assert!(!doc.should_autosave(9 * SECOND), "it was written");

    let mut untitled = EditorDocument::new_untitled(2, 1);
    untitled.buffer.push('x');
    untitled.on_edit();
    untitled.note_change(SECOND);
    assert!(!untitled.should_autosave(9_000 * SECOND));
    assert!(untitled.recovery_snapshot(42).is_none());
}

#[test]
fn the_first_edit_of_a_new_document_is_kept() {
    let mut doc = match EditorDocument::from_loaded(1, "/data/a.ron".to_string(), b"1") {
        Ok(doc) => doc,
        Err(e) => panic!("{}", e.message()),
    };
    type_text(&mut doc, "2");
    doc.note_change(SECOND);
    assert!(!doc.should_autosave(4 * SECOND));
    assert!(doc.should_autosave(5 * SECOND), "after the default pause");
}

#[test]
fn a_document_is_validated_again_without_an_edit() {
    let mut doc = EditorDocument::new_untitled(3, 1);
    type_text(&mut doc, "(a: 1)");
    assert!(doc.request_reparse().is_some());
    assert!(doc.request_reparse().is_none(), "it was asked for already");
    doc.bound_type = Some("Entity".to_string());
    let job = match doc.revalidate() {
        Some(job) => job,
        None => panic!("a new binding asks for a new validation"),
    };
    assert_eq!(job.doc_id, 3);
    assert_eq!(job.text, "(a: 1)");
    assert!(matches!(job.bound, Some(BoundValidation::Serde(_))));
}

#[test]
fn the_last_refusal_is_shown_until_it_is_cleared() {
    let mut doc = EditorDocument::new_untitled(1, 1);
    assert_eq!(doc.tree_error(), None);
    doc.set_tree_error("the key is taken".to_string());
    assert_eq!(doc.tree_error(), Some("the key is taken"));
    doc.clear_tree_error();
    assert_eq!(doc.tree_error(), None);
}

#[test]
fn a_jump_is_made_once_and_within_the_text() {
    let mut doc = EditorDocument::new_untitled(1, 1);
    doc.buffer = "äb".to_string();
    doc.request_cursor_jump(9);
    assert!(doc.has_pending_cursor_jump());
    assert_eq!(doc.take_cursor_jump(), Some(2));
    assert_eq!(doc.take_cursor_jump(), None);
}

// ---- The editor ----------------------------------------------------------------------

#[test]
fn colours_follow_the_tokens() {
    let source = "é: 1";
    let parse = ParseResult::parse(
        source,
        4,
        vec![
            token(SyntaxKind::Ident, source, 0, 2),
            token(SyntaxKind::Colon, source, 2, 3),
            token(SyntaxKind::Whitespace, source, 3, 4),
            token(SyntaxKind::Integer, source, 4, 5),
        ],
        Vec::new(),
    );
    let model = build_highlight_model(&parse, source, 4);
    assert_eq!(model.generation, Some(4));
    let spans: Vec<(usize, usize, &str)> = model
        .spans
        .iter()
        .map(|s| (s.start, s.end, s.class.as_str()))
        .collect();
    assert!(spans.contains(&(0, 1, "ident")));
    assert!(spans.contains(&(3, 4, "number")));
    let runs = layout_runs(&model.spans, 4);
    assert_eq!(runs[0].class, HighlightClass::Ident);
    assert_eq!((runs[0].start, runs[0].end), (0, 1));
    assert_eq!(runs.last().expect("a run").end, 4);
}

#[test]
fn runs_cover_gaps_and_drop_what_lies_outside() {
    let spans = vec![
        HighlightSpan {
            start: 1,
            end: 2,
            class: "string".to_string(),
        },
        HighlightSpan {
            start: 1,
            end: 99,
            class: "number".to_string(),
        },
    ];
    let runs = layout_runs(&spans, 4);
    let mut at = 0;
    for run in &runs {
        assert_eq!(run.start, at);
        at = run.end;
    }
    assert_eq!(at, 4);
}

#[test]
fn classes_have_names_and_colours() {
    assert_eq!(
        HighlightClass::from_kind(SyntaxKind::RawString),
        HighlightClass::StringLit
    );
    assert_eq!(
        HighlightClass::from_str_name(HighlightClass::Boolean.as_str()),
        HighlightClass::Boolean
    );
    assert_eq!(
        HighlightClass::from_str_name("nothing"),
        HighlightClass::Default
    );
    assert_eq!(
        HighlightClass::Ident.color(true),
        Rgb {
            r: 0x9C,
            g: 0xDC,
            b: 0xFE
        }
    );
    assert_eq!(
        severity_squiggle_color(Severity::Warning, false),
        Rgb {
            r: 0xBF,
            g: 0x83,
            b: 0x03
        }
    );
}

#[test]
fn the_gutter_counts_lines() {
    assert_eq!(line_count(""), 1);
    assert_eq!(line_count("a\nb"), 2);
    assert_eq!(line_count("a\nb\n"), 3);
    assert_eq!(gutter_label(7, 120), "  7 ");
    assert_eq!(gutter_label(120, 120), "120 ");
}

#[test]
fn offsets_go_both_ways() {
    assert_eq!(char_to_byte("aéb", 2), 3);
    assert_eq!(char_to_byte("aéb", 9), 4);
    assert_eq!(byte_to_char("aéb", 3), 2);
    assert_eq!(byte_to_char("aéb", 99), 3);
}

#[test]
fn the_completion_list_decides() {
    let typing = PopupInput {
        collapsed_caret: true,
        open: true,
        highlighted: false,
        escape: false,
        enter_or_tab: true,
        manual: false,
    };
    assert_eq!(
        popup_action(typing),
        PopupAction::Recompute(Trigger::Auto),
        "nothing is taken that was not highlighted"
    );
    assert_eq!(
        popup_action(PopupInput {
            highlighted: true,
            ..typing
        }),
        PopupAction::Accept
    );
    assert_eq!(
        popup_action(PopupInput {
            escape: true,
            ..typing
        }),
        PopupAction::Dismiss
    );
    assert_eq!(
        popup_action(PopupInput {
            manual: true,
            ..typing
        }),
        PopupAction::Recompute(Trigger::Manual)
    );
    assert!(completion_enabled(false, false));
    assert!(!completion_enabled(true, false));
    assert!(!completion_enabled(false, true));
    assert_eq!(completion_label(CompletionKind::MapKey, "name"), "k  name");
}

// ---- Panels -----------------------------------------------------------------------------

fn view(line: usize, column: usize, message: &str) -> DiagnosticView {
    DiagnosticView {
        severity: Severity::Error,
        code: "RON-X0001".to_string(),
        message: message.to_string(),
        char_range: (0, 1),
        line_col: ((line, column), (line, column + 1)),
    }
}

#[test]
fn problems_are_listed_in_the_order_of_the_text() {
    let list = vec![view(3, 0, "c"), view(1, 4, "b"), view(1, 2, "a"), view(1, 4, "b2")];
    assert_eq!(problem_order(&list), vec![2, 1, 3, 0]);
    assert_eq!(empty_label(), "No problems");
    assert_eq!(severity_icon(Severity::Warning), "\u{26A0}");
    let label = problem_label(&list[2]);
    assert!(label.contains("2:3"), "positions count from one: {label}");
    assert!(label.contains('a'));
    assert!(diagnostics_row(&list[2]).contains("RON-X0001"));
}

fn path(steps: Vec<PathStep>) -> StructuralPath {
    StructuralPath { steps }
}

fn section(steps: Vec<PathStep>, rows: usize) -> TableSection {
    TableSection {
        path: path(steps),
        label: "units".to_string(),
        rows,
        cols: 3,
    }
}

#[test]
fn tables_are_grouped_by_their_first_step() {
    let a = || PathStep::Field("a".to_string());
    let sections = vec![
        section(vec![a()], 2),
        section(vec![PathStep::Index(0)], 9),
        section(vec![a(), PathStep::Key("1".to_string())], 5),
    ];
    let groups = group_sections(&sections);
    assert_eq!(groups.len(), 2);
    assert_eq!(groups[0].label, "a");
    assert_eq!(groups[0].members, vec![2, 0], "most rows first");
    assert_eq!(groups[1].label, "[0]");
    assert_eq!(section_label(&sections[0]), "units  (2\u{00D7}3)");
    assert_eq!(step_label(&PathStep::Key("k".to_string())), "(k)");
    assert_eq!(
        step_label(&PathStep::CombinedChild("x".to_string())),
        "\u{2217} x"
    );
}

#[test]
fn the_outline_lists_collections() {
    let leaf = |name: &str, kind: TreeNodeKind| TreeNode {
        label: name.to_string(),
        kind,
        node_ref: StructuralPath::root(),
        children: Vec::new(),
    };
    let list = TreeNode {
        children: vec![leaf("0", TreeNodeKind::Scalar)],
        ..leaf("list", TreeNodeKind::List)
    };
    assert!(is_outline_container(&list));
    assert!(!is_outline_container(&leaf("empty", TreeNodeKind::List)));
    let root = TreeNode {
        children: vec![list, leaf("n", TreeNodeKind::Scalar)],
        ..leaf("root", TreeNodeKind::Struct)
    };
    assert_eq!(outline_label(&root), "root  (1)");
    assert_eq!(outline_label(&leaf("n", TreeNodeKind::Scalar)), "n");
    assert!(opens_by_default(1));
    assert!(!opens_by_default(2));
}

#[test]
fn selections_fall_back_to_the_root() {
    let list = RonValue {
        range: TextRange::new(0, 2),
        text: "[]".to_string(),
        layout: Vec::new(),
        shape: Shape::List { items: Vec::new() },
    };
    let field = path(vec![PathStep::Field("a".to_string())]);
    assert!(selection_is_table_able(&field, Some(&list), &Vec::new()));
    assert!(!selection_is_table_able(&field, None, &Vec::new()));
    let combined = combine_target(&field, Some("x".to_string()));
    assert!(selection_is_table_able(
        &combined,
        None,
        &vec!["x".to_string()]
    ));
    assert!(!selection_is_table_able(&combined, Some(&list), &Vec::new()));
    let (parent, name) = split_combined(&combined);
    assert!(parent.same(&field));
    assert_eq!(name, Some("x".to_string()));
    assert!(shown_selection(Some(combined), false).same(&StructuralPath::root()));
    assert_eq!(
        combine_hint("x", 4),
        "Flatten x across all entries into one table (4 rows)"
    );
    assert!(breadcrumb_is_clickable(true, &StructuralPath::root(), &field));
    assert!(!breadcrumb_is_clickable(true, &field, &field));
    assert!(!breadcrumb_is_clickable(
        false,
        &StructuralPath::root(),
        &field
    ));
}

#[test]
fn columns_are_chosen_one_by_one() {
    assert!(is_column_shown(&Vec::new(), 7), "none chosen means all");
    let show = toggle_column(Vec::new(), 3, 1);
    assert_eq!(show, vec![0, 2]);
    assert!(!is_column_shown(&show, 1));
    assert_eq!(toggle_column(show, 3, 1), vec![0, 2, 1]);
    assert_eq!(group_by_columns(Some(1), Some(1)), vec![1]);
    assert_eq!(group_by_columns(Some(2), Some(1)), vec![2, 1]);
    assert_eq!(group_by_columns(None, Some(1)), vec![1]);
}

#[test]
fn tables_are_revisited() {
    let at = |n: usize| path(vec![PathStep::Index(n)]);
    let mut nav = TableNavigation {
        selected: None,
        back: Vec::new(),
        forward: Vec::new(),
    };
    nav.navigate_table_section(at(1));
    nav.navigate_table_section(at(2));
    nav.navigate_table_section(at(3));
    nav.table_go_back();
    assert_eq!(nav.selected, Some(at(2)));
    nav.table_go_forward();
    assert_eq!(nav.selected, Some(at(3)));
    nav.table_go_back_resolvable(&vec![true, true, false]);
    assert_eq!(nav.selected, Some(at(1)), "the one between cannot be shown");
    assert_eq!(nav.forward.len(), 2);
    nav.table_go_forward_resolvable(&vec![true, false]);
    assert_eq!(nav.selected, Some(at(3)));
    nav.navigate_table_section(at(4));
    assert!(nav.forward.is_empty());
}
