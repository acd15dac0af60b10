//! Files: opening, saving, recovering, exporting and importing.

use ronin_app::document::EditorDocument;
use ronin_app::fidelity::{strip_bom, ByteFidelityProfile, LineEnding, SavedSnapshot};
use ronin_app::fileio::{
    classify_comment, comment_map, normalise_to_lf, plan_export, prepare_save,
    reconstruct_ron_from_bytes, save_bytes, sidecar_path, sidecar_text, ExportError, ImportError,
    IoFailure, IoKind, OpenError, SaveError, Stage,
};
use ronin_app::hash::{hash_bytes, push_hex};
use ronin_app::interop::CommentKind;
use ronin_app::paths::{file_name_of, join, parent_of};
use ronin_app::recovery::{
    content_marker, detect_recovery, neutral_profile, AutosaveDebounce, FidelityHint,
    RecoveryDetection, RecoverySidecar, SidecarLineEnding,
};
use ronin_app::settings::AutosaveConfig;
use ronin_app::text_map::TextMap;

fn failure(kind: IoKind, os_code: Option<i32>) -> IoFailure {
    IoFailure {
        kind,
        os_code,
        message: "why".to_string(),
    }
}

// ---- Exporting and importing ---------------------------------------------------

#[test]
fn sidecar_path_is_a_deterministic_same_dir_sibling() {
    let target = "/some/dir/world.json";
    let sidecar = sidecar_path(target).expect("derived");
    assert_eq!(
        sidecar, "/some/dir/world.json.comments.json",
        "the sidecar is `<target>.comments.json` in the same directory"
    );
}

#[test]
fn sidecar_path_rejects_a_target_with_no_parent() {
    assert!(matches!(
        sidecar_path("/"),
        Err(ExportError::NoParentDirectory)
    ));
}

#[test]
fn names_with_two_dots_have_no_sidecar() {
    assert_eq!(
        sidecar_path("/dir/a..json"),
        Err(ExportError::SidecarEscapesDirectory)
    );
    assert_eq!(
        sidecar_path("/dir/.."),
        Err(ExportError::SidecarEscapesDirectory)
    );
    assert_eq!(
        sidecar_path("world.json"),
        Ok("world.json.comments.json".to_string())
    );
}

#[test]
fn a_sidecar_is_planned_only_for_comments() {
    let text = "{\n  \"a\": 1\n}\n";
    let empty: TextMap<Vec<String>> = TextMap::new();
    let mut map: TextMap<Vec<String>> = TextMap::new();
    map.insert("/a".to_string(), vec!["// about a".to_string()]);
    assert!(!plan_export(text, None).sidecar);
    assert!(!plan_export(text, Some(&empty)).sidecar);
    let plan = plan_export(text, Some(&map));
    assert!(plan.sidecar);
    assert_eq!(save_bytes(text, &plan.profile), text.as_bytes().to_vec());
}

#[test]
fn uniform_text_is_exported_as_it_is() {
    for text in ["{\n  \"a\": 1\n}\n", "{\r\n  \"a\": 1\r\n}\r\n", "{}"] {
        let plan = plan_export(text, None);
        assert_eq!(save_bytes(text, &plan.profile), text.as_bytes().to_vec());
    }
}

#[test]
fn a_sidecar_is_read_back() {
    let mut map: TextMap<Vec<String>> = TextMap::new();
    map.insert(
        "/b~1c".to_string(),
        vec!["// \"quoted\"".to_string(), "/* é */".to_string()],
    );
    map.insert("".to_string(), Vec::new());
    let text = sidecar_text(&map);
    assert_eq!(
        text,
        "{\n  \"\": [],\n  \"/b~1c\": [\n    \"// \\\"quoted\\\"\",\n    \"/* é */\"\n  ]\n}\n"
    );
    let read = comment_map(text.as_bytes()).expect("a comment map");
    assert_eq!(read.len(), 2);
    assert_eq!(read.get("/b~1c"), map.get("/b~1c"));
    assert_eq!(read.get(""), map.get(""));
}

#[test]
fn what_is_no_comment_map_is_not_read() {
    assert!(comment_map(b"{ \"/a\": [\"// from sidecar\"] }").is_some());
    assert!(comment_map(b"[]").is_none());
    assert!(comment_map(b"{ \"/a\": \"// text\" }").is_none());
    assert!(comment_map(b"{ \"/a\": [1] }").is_none());
    assert!(comment_map(b"{ nothing").is_none());
    assert!(
        comment_map(b"{ \"/a\": 1, \"/a\": [\"// text\"] }").is_none(),
        "every value is a list of texts, also under a name that comes again"
    );
    assert!(comment_map(&[0xff]).is_none());
}

#[test]
fn imports_plain_json_to_ron() {
    let r = reconstruct_ron_from_bytes(b"{ \"name\": \"hero\", \"level\": 3 }", None, None)
        .expect("import ok");
    assert!(r.ron_text.contains("name: \"hero\""), "got: {}", r.ron_text);
    assert!(r.ron_text.contains("level: 3"));
}

#[test]
fn imports_jsonc_and_reattaches_inline_comments() {
    let jsonc = "{\n  // about a\n  \"a\": 1\n}";
    let r = reconstruct_ron_from_bytes(jsonc.as_bytes(), None, None).expect("import ok");
    assert!(
        r.ron_text.contains("// about a"),
        "inline comment re-attached: {}",
        r.ron_text
    );
}

#[test]
fn malformed_json_is_rejected_with_no_document() {
    let err = reconstruct_ron_from_bytes(b"{ \"a\": }", None, None)
        .expect_err("malformed JSON is rejected");
    assert!(matches!(err, ImportError::MalformedJson(_)));
    assert!(err.message().starts_with("malformed JSON: "));
}

#[test]
fn non_utf8_is_rejected_with_no_document() {
    let err = reconstruct_ron_from_bytes(&[0xff, 0xfe, 0x00], None, None)
        .expect_err("non-UTF-8 is rejected");
    assert!(matches!(err, ImportError::NotUtf8));
}

#[test]
fn sidecar_comments_are_read_back() {
    let mut map: TextMap<Vec<String>> = TextMap::new();
    map.insert("/a".to_string(), vec!["// sidecar note".to_string()]);
    let r = reconstruct_ron_from_bytes(b"{ \"a\": 1 }", Some(&map), None).expect("import ok");
    assert!(
        r.ron_text.contains("// sidecar note"),
        "sidecar comment read back: {}",
        r.ron_text
    );
}

#[test]
fn comments_are_told_apart_by_their_start() {
    assert_eq!(classify_comment("  /* x */"), CommentKind::Block);
    assert_eq!(classify_comment("// x"), CommentKind::Line);
    assert_eq!(classify_comment(""), CommentKind::Line);
}

// ---- Errors -----------------------------------------------------------------------

#[test]
fn save_errors_are_told_apart() {
    let stage = |kind, code, stage| SaveError::from_io(failure(kind, code), stage);
    assert!(matches!(
        stage(IoKind::StorageFull, None, Stage::Replace),
        SaveError::DiskFull(_)
    ));
    assert!(matches!(
        stage(IoKind::Other, Some(28), Stage::Temp),
        SaveError::DiskFull(_)
    ));
    assert!(matches!(
        stage(IoKind::PermissionDenied, None, Stage::Temp),
        SaveError::PermissionDenied(_)
    ));
    assert!(matches!(
        stage(IoKind::Other, None, Stage::Temp),
        SaveError::PartialWrite(_)
    ));
    assert!(matches!(
        stage(IoKind::Other, Some(5), Stage::Replace),
        SaveError::ReplaceFailed(_)
    ));
    assert_eq!(
        stage(IoKind::StorageFull, None, Stage::Temp).message(),
        "disk full: why"
    );
    assert_eq!(
        SaveError::Io(failure(IoKind::Other, None)).message(),
        "I/O error: why"
    );
}

#[test]
fn messages_name_the_reason() {
    assert_eq!(OpenError::NotUtf8.message(), "not valid UTF-8");
    assert_eq!(
        OpenError::Io(failure(IoKind::Other, None)).message(),
        "I/O error: why"
    );
    assert_eq!(
        ExportError::Save(SaveError::PartialWrite(failure(IoKind::Other, None))).message(),
        "JSON export failed: write interrupted: why"
    );
    assert_eq!(
        ExportError::Sidecar(SaveError::ReplaceFailed(failure(IoKind::Other, None))).message(),
        "comment sidecar write failed: atomic replace failed: why"
    );
    assert_eq!(
        ExportError::NoParentDirectory.message(),
        "export target has no parent directory"
    );
    assert_eq!(
        ExportError::SidecarEscapesDirectory.message(),
        "comment sidecar path would escape the target directory"
    );
    assert_eq!(
        ImportError::Io(failure(IoKind::Other, None)).message(),
        "I/O error: why"
    );
}

#[test]
fn a_path_without_a_directory_cannot_be_saved() {
    let profile = neutral_profile();
    match prepare_save("a", &profile, "/") {
        Err(SaveError::SameFilesystemImpossible(e)) => assert_eq!(e.kind, IoKind::InvalidInput),
        other => panic!("expected an error, got {other:?}"),
    }
    assert_eq!(
        prepare_save("a", &profile, "/dir/a.ron"),
        Ok(b"a".to_vec())
    );
}

// ---- Byte fidelity --------------------------------------------------------------------

#[test]
fn a_file_is_saved_as_it_was_written() {
    let raw = "\u{FEFF}a\r\nb\r\n".as_bytes();
    let profile = ByteFidelityProfile::from_bytes(raw);
    assert_eq!(profile.line_ending, LineEnding::Crlf);
    assert!(profile.had_bom);
    assert!(profile.had_trailing_newline);
    assert_eq!(save_bytes("a\nb\n", &profile), raw.to_vec());
    assert_eq!(save_bytes("a\nb", &profile), raw.to_vec());
    let plain = ByteFidelityProfile::from_bytes(b"a\nb");
    assert_eq!(plain.line_ending, LineEnding::Lf);
    assert_eq!(save_bytes("x\n", &plain), b"x".to_vec());
}

#[test]
fn a_save_is_read_back_line_by_line() {
    let text = "a\r\nb\nc\n";
    for raw in ["x\r\n", "x\n", "\u{FEFF}x\r\ny\r\nz\n", "x"] {
        let profile = ByteFidelityProfile::from_bytes(raw.as_bytes());
        let saved = save_bytes(text, &profile);
        let opened = match EditorDocument::from_loaded(1, "/a".to_string(), &saved) {
            Ok(doc) => doc,
            Err(e) => panic!("{}", e.message()),
        };
        let end = if raw.ends_with('\n') { "\n" } else { "" };
        assert_eq!(normalise_to_lf(&opened.buffer), format!("a\nb\nc{end}"));
        assert_eq!(opened.byte_profile.had_bom, raw.starts_with('\u{FEFF}'));
    }
}

#[test]
fn mixed_line_ends_become_the_more_frequent_one() {
    let profile = ByteFidelityProfile::from_bytes(b"a\r\nb\r\nc\nd");
    assert_eq!(profile.line_ending, LineEnding::Mixed);
    assert_eq!(profile.dominant, LineEnding::Crlf);
}

#[test]
fn texts_are_normalised_for_editing() {
    assert_eq!(normalise_to_lf("a\r\nb\nc\r\n"), "a\nb\nc\n");
    assert_eq!(strip_bom("\u{FEFF}a"), "a");
    assert_eq!(strip_bom("a"), "a");
}

#[test]
fn a_snapshot_knows_its_text() {
    let snapshot = SavedSnapshot::of("(a: 1)");
    assert!(snapshot.matches("(a: 1)"));
    assert!(!snapshot.matches("(a: 2)"));
    assert!(!snapshot.matches("(a: 10)"));
    assert_eq!(hash_bytes(b""), 0xcbf2_9ce4_8422_2325);
    assert_eq!(hash_bytes(b"a"), 0xaf63_dc4c_8601_ec8c);
    let mut out = String::new();
    push_hex(&mut out, 0xbeef, 6);
    assert_eq!(out, "00beef");
}

#[test]
fn paths_are_taken_apart() {
    assert_eq!(file_name_of("/a/b.ron"), Some("b.ron".to_string()));
    assert_eq!(file_name_of("/a/.."), None);
    assert_eq!(file_name_of("/"), None);
    assert_eq!(parent_of("/a/b.ron"), Some("/a".to_string()));
    assert_eq!(parent_of("b.ron"), Some("".to_string()));
    assert_eq!(parent_of("/"), None);
    assert_eq!(join("/a", "b"), "/a/b");
    assert_eq!(join("", "b"), "b");
}

// ---- Recovery ---------------------------------------------------------------------------

fn kept(buffer: &str) -> RecoverySidecar {
    RecoverySidecar::new(
        "/dir/a.ron".to_string(),
        buffer.to_string(),
        &ByteFidelityProfile::from_bytes(b"a\r\n"),
        17,
    )
}

#[test]
fn a_sidecar_lies_hidden_beside_its_file() {
    assert_eq!(
        ronin_app::recovery::sidecar_path("/dir/a.ron"),
        "/dir/.a.ron.ronin-recovery"
    );
}

#[test]
fn other_text_is_offered() {
    assert_eq!(detect_recovery(None, b"a"), RecoveryDetection::Nothing);
    assert_eq!(
        detect_recovery(Some(kept("(a: 1)\n")), b"(a: 1)\n"),
        RecoveryDetection::Nothing
    );
    assert_eq!(
        detect_recovery(Some(kept("(a: 1)\n")), "\u{FEFF}(a: 1)\r\n".as_bytes()),
        RecoveryDetection::Nothing,
        "the same content with other line ends"
    );
    match detect_recovery(Some(kept("(a: 2)\n")), b"(a: 1)\n") {
        RecoveryDetection::Offer(s) => {
            assert_eq!(s.buffer, "(a: 2)\n");
            assert_eq!(s.timestamp, 17);
        }
        RecoveryDetection::Nothing => panic!("expected an offer"),
    }
    match detect_recovery(Some(kept("a\u{FFFD}")), &[b'a', 0xff]) {
        RecoveryDetection::Nothing => {}
        other => panic!("bytes that are no text are replaced, got {other:?}"),
    }
}

#[test]
fn a_recovered_text_is_saved_like_the_file() {
    let sidecar = kept("x\ny\n");
    assert_eq!(
        sidecar.fidelity_hint,
        FidelityHint {
            line_ending: SidecarLineEnding::Crlf,
            dominant: SidecarLineEnding::Crlf,
            had_trailing_newline: true,
            had_bom: false,
        }
    );
    let profile = sidecar.restored_profile();
    assert_eq!(
        save_bytes(&sidecar.buffer, &profile),
        b"x\r\ny\r\n".to_vec()
    );
    assert_eq!(
        LineEnding::from(SidecarLineEnding::from(LineEnding::Mixed)),
        LineEnding::Mixed
    );
    assert_eq!(sidecar.content_marker, content_marker(b"x\ny\n"));
    assert!(content_marker(b"x\ny\n").ends_with(":4"));
}

const MS: u64 = 1_000_000;

#[test]
fn a_sidecar_is_due_after_a_pause_or_many_edits() {
    let mut debounce = AutosaveDebounce::new(AutosaveConfig::default());
    assert!(!debounce.poll(0));
    assert!(!debounce.force_tick());
    debounce.note_change(1, 0);
    assert!(debounce.has_unsaved_change());
    assert!(!debounce.poll(3_999 * MS));
    assert!(debounce.poll(4_000 * MS));
    debounce.mark_written();
    assert!(!debounce.poll(9_000 * MS));
    for generation in 2..52 {
        debounce.note_change(generation, 10_000 * MS);
    }
    assert!(debounce.poll(10_000 * MS), "as many edits as configured");
    debounce.note_change(51, 10_000 * MS);
    assert_eq!(debounce.edits_since_write, 50, "an edit counts once");
}
