//! Snippets: the built-in set, expansion, insertion and navigation.

use ronin_app::editor_view::{choices, session_goes_on, snippet_navigation, take_choice, NavigationKey};
use ronin_app::snippets::{
    body_round_trips, built_in_count, built_ins, candidate_buffer, expand_snippet, insert_snippet,
    insert_unless_worse, RawSnippet, SnippetParseStatus, SnippetScope, SnippetSet, StringOrVec,
    TabStopKind, UserSnippetFile, BUILT_INS, USER_SNIPPET_TEMPLATE,
};

fn no_user_file() -> UserSnippetFile {
    UserSnippetFile {
        location: None,
        snippets: Vec::new(),
        parse_status: SnippetParseStatus::Missing,
    }
}

fn raw(prefix: &str, body: &str, description: &str) -> RawSnippet {
    RawSnippet {
        prefix: Some(StringOrVec::One(prefix.to_string())),
        body: Some(StringOrVec::One(body.to_string())),
        description: Some(description.to_string()),
        scope: None,
    }
}

fn byte_at(text: &str, char_offset: usize) -> usize {
    text.char_indices()
        .nth(char_offset)
        .map_or(text.len(), |(b, _)| b)
}

#[test]
fn built_ins_cover_the_common_constructs() {
    let names: Vec<String> = built_ins().into_iter().map(|s| s.name).collect();
    for expected in [
        "named-struct",
        "tuple-struct",
        "unit-struct",
        "enum-unit-variant",
        "enum-tuple-variant",
        "enum-struct-variant",
        "map",
        "list",
        "tuple",
        "some",
    ] {
        assert!(
            names.iter().any(|n| n == expected),
            "built-ins must include `{expected}`"
        );
    }
    assert!(
        built_ins().iter().any(|s| s.scope == SnippetScope::Bevy),
        "built-ins must include a generic Bevy pattern"
    );
    assert_eq!(built_in_count(), built_ins().len());
    assert_eq!(BUILT_INS().len(), built_ins().len());
}

#[test]
fn every_built_in_default_expansion_round_trips() {
    for snippet in built_ins() {
        assert!(
            snippet.default_expansion_round_trips(),
            "built-in `{}` default expansion must round-trip: body={:?} -> {:?}",
            snippet.name,
            snippet.body,
            expand_snippet(&snippet.body).text
        );
    }
}

#[test]
fn every_built_in_is_in_the_effective_set() {
    let set = SnippetSet::build(&no_user_file());
    assert_eq!(set.len(), built_in_count());
    assert!(set.get("list").is_some());
    assert_eq!(set.by_prefix("list").map(|s| s.name.as_str()), Some("list"));
}

#[test]
fn plain_tab_stops_have_zero_width_and_sort_by_index() {
    let exp = expand_snippet("$2-$1-$0");
    assert_eq!(exp.text, "--");
    let order: Vec<u32> = exp.stops.iter().map(|s| s.index).collect();
    assert_eq!(order, vec![1, 2, 0], "ascending index, then $0 last");
    for stop in &exp.stops {
        assert_eq!(stop.char_start, stop.char_end);
        assert_eq!(stop.kind, TabStopKind::Plain);
    }
}

#[test]
fn placeholder_default_is_inlined_and_ranged() {
    let exp = expand_snippet("Foo(${1:bar}: ${2:1})");
    assert_eq!(exp.text, "Foo(bar: 1)");
    let first = &exp.stops[0];
    assert_eq!(first.index, 1);
    assert_eq!(
        first.kind,
        TabStopKind::Placeholder {
            default: "bar".into()
        }
    );
    assert_eq!(
        &exp.text[byte_at(&exp.text, first.char_start)..byte_at(&exp.text, first.char_end)],
        "bar"
    );
}

#[test]
fn choice_placeholder_offers_options_first_is_default() {
    let exp = expand_snippet("${1|true,false|}");
    assert_eq!(exp.text, "true");
    let stop = &exp.stops[0];
    assert_eq!(
        stop.kind,
        TabStopKind::Choice {
            options: vec!["true".into(), "false".into()]
        }
    );
    assert_eq!(&exp.text[..stop.char_end], "true");
}

#[test]
fn final_cursor_sorts_last_even_with_high_indices() {
    let exp = expand_snippet("a$0b$3c$1");
    let order: Vec<u32> = exp.stops.iter().map(|s| s.index).collect();
    assert_eq!(order, vec![1, 3, 0]);
    assert_eq!(exp.text, "abc");
}

#[test]
fn escaped_dollar_is_literal_and_unknown_dollar_kept() {
    let exp = expand_snippet("price: \\$5 and $notamarker");
    assert_eq!(exp.text, "price: $5 and $notamarker");
    assert!(exp.stops.is_empty());
}

#[test]
fn expansion_reports_its_stops() {
    let exp = expand_snippet("[${1:é}, ${2}]");
    assert_eq!(exp.text, "[é, ]");
    assert_eq!(exp.stop_count(), 2);
    assert_eq!(exp.stops().len(), 2);
    assert_eq!(
        (exp.stops()[0].char_start, exp.stops()[0].char_end),
        (1, 2),
        "offsets count characters"
    );
    assert_eq!((exp.stops()[1].char_start, exp.stops()[1].char_end), (4, 4));
}

#[test]
fn unclosed_markers_are_plain_text() {
    let exp = expand_snippet("${1:open");
    assert_eq!(exp.text, "${1:open");
    assert_eq!(exp.stop_count(), 0);
    let exp = expand_snippet("end$");
    assert_eq!(exp.text, "end$");
}

#[test]
fn without_a_user_file_there_are_the_built_ins() {
    let user = UserSnippetFile::unread(None, SnippetParseStatus::Missing);
    assert_eq!(user.parse_status, SnippetParseStatus::Missing);
    let set = SnippetSet::build(&user);
    assert_eq!(set.len(), built_in_count(), "built-ins still available");
    assert!(set.notice().is_none());
}

#[test]
fn an_unreadable_user_file_leaves_the_built_ins_and_a_notice() {
    let user = UserSnippetFile::unread(
        Some("snippets.json".to_string()),
        SnippetParseStatus::Malformed,
    );
    let set = SnippetSet::build(&user);
    assert_eq!(set.user_status(), SnippetParseStatus::Malformed);
    assert_eq!(set.len(), built_in_count(), "built-ins still available");
    assert!(set.notice().is_some(), "a malformed file is announced");
}

#[test]
fn a_user_snippet_takes_the_place_of_a_built_in() {
    let user = UserSnippetFile::from_entries(
        None,
        &vec![(
            "list".to_string(),
            raw("mylist", "[${1:1}, ${2:2}]", "My custom list"),
        )],
    );
    assert_eq!(user.parse_status, SnippetParseStatus::Loaded);
    let set = SnippetSet::build(&user);
    let listed = set.get("list").expect("merged list snippet");
    assert_eq!(listed.prefix, "mylist", "user override wins");
    assert_eq!(listed.description, "My custom list");
    assert_eq!(set.len(), built_in_count());
}

#[test]
fn a_user_snippet_can_be_new() {
    let user = UserSnippetFile::from_entries(
        None,
        &vec![(
            "my-point".to_string(),
            raw("pt", "Point(x: ${1:0}, y: ${2:0})", "A point"),
        )],
    );
    let set = SnippetSet::build(&user);
    assert_eq!(set.len(), built_in_count() + 1, "a new name adds one entry");
    assert!(set.get("my-point").is_some());
    assert_eq!(
        set.by_prefix("pt").map(|s| s.name.as_str()),
        Some("my-point")
    );
}

#[test]
fn a_user_snippet_that_does_not_parse_is_dropped() {
    let user = UserSnippetFile::from_entries(
        None,
        &vec![(
            "broken".to_string(),
            RawSnippet {
                prefix: Some(StringOrVec::One("brk".to_string())),
                body: Some(StringOrVec::One("Foo(${1:x}".to_string())),
                description: None,
                scope: None,
            },
        )],
    );
    assert_eq!(user.parse_status, SnippetParseStatus::Loaded);
    let set = SnippetSet::build(&user);
    assert!(
        set.get("broken").is_none(),
        "a user snippet that does not parse is dropped"
    );
    assert!(set.notice().is_some(), "dropping a bad entry surfaces a notice");
    assert_eq!(set.len(), built_in_count());
}

#[test]
fn user_entries_need_a_prefix_and_a_body() {
    let user = UserSnippetFile::from_entries(
        None,
        &vec![
            (
                "no-body".to_string(),
                RawSnippet {
                    prefix: Some(StringOrVec::One("p".to_string())),
                    body: None,
                    description: None,
                    scope: None,
                },
            ),
            (
                "lines".to_string(),
                RawSnippet {
                    prefix: Some(StringOrVec::Many(vec!["a".to_string(), "b".to_string()])),
                    body: Some(StringOrVec::Many(vec!["[".to_string(), "]".to_string()])),
                    description: None,
                    scope: Some("Bevy".to_string()),
                },
            ),
        ],
    );
    assert_eq!(user.snippets.len(), 1);
    let s = &user.snippets[0];
    assert_eq!(s.name, "lines");
    assert_eq!(s.prefix, "a", "the first trigger counts");
    assert_eq!(s.body, "[\n]", "lines are joined");
    assert_eq!(s.scope, SnippetScope::Bevy);
}

#[test]
fn menu_entries_list_prefix_and_description() {
    let set = SnippetSet::build(&no_user_file());
    let entries = set.menu_entries();
    assert_eq!(entries.len(), built_in_count());
    assert!(
        entries.iter().any(|(p, d)| p == "list" && !d.is_empty()),
        "menu lists each prefix with a description"
    );
    assert_eq!(set.iter().len(), set.len());
    assert!(!set.is_empty());
}

#[test]
fn the_template_is_a_usable_snippet() {
    let parsed: serde_json::Value = serde_json::from_str(USER_SNIPPET_TEMPLATE).expect("valid JSON");
    let entry = &parsed["example-point"];
    let user = UserSnippetFile::from_entries(
        None,
        &vec![(
            "example-point".to_string(),
            raw(
                entry["prefix"].as_str().expect("a prefix"),
                entry["body"].as_str().expect("a body"),
                entry["description"].as_str().expect("a description"),
            ),
        )],
    );
    assert_eq!(user.parse_status, SnippetParseStatus::Loaded);
    assert!(user.snippets.iter().any(|s| s.name == "example-point"));
    let set = SnippetSet::build(&user);
    assert!(set.get("example-point").is_some());
}

#[test]
fn insert_into_empty_buffer_round_trips_and_starts_at_first_stop() {
    let body = "${1:Name}(${2:field}: ${3:value})";
    let ins = insert_snippet("", 0, body).expect("insertion round-trips");
    assert_eq!(ins.new_buffer, "Name(field: value)");
    assert!(body_round_trips(&ins.new_buffer));
    assert_eq!(ins.session.caret(), Some(0));
    assert_eq!(ins.session.selection(), Some((0, 4)));
    assert!(ins.session.is_active());
    assert_eq!(ins.session.stop_count(), 3);
}

#[test]
fn tab_navigates_stops_in_index_order_then_ends() {
    let body = "Some(${1:value})$0";
    let mut ins = insert_snippet("[]", 1, body).expect("insertion round-trips");
    assert_eq!(ins.new_buffer, "[Some(value)]");
    assert_eq!(ins.session.active_stop().map(|s| s.index), Some(1));
    ins.session.next_stop();
    assert_eq!(ins.session.active_stop().map(|s| s.index), Some(0));
    assert_eq!(ins.session.next_stop(), None);
    assert!(!ins.session.is_active());
}

#[test]
fn shift_tab_returns_to_the_previous_stop() {
    let body = "(${1:a}, ${2:b})$0";
    let mut ins = insert_snippet("", 0, body).expect("round-trips");
    assert_eq!(ins.session.active_stop().map(|s| s.index), Some(1));
    ins.session.next_stop();
    assert_eq!(ins.session.active_stop().map(|s| s.index), Some(2));
    ins.session.prev_stop();
    assert_eq!(ins.session.active_stop().map(|s| s.index), Some(1));
    ins.session.prev_stop();
    assert_eq!(ins.session.active_stop().map(|s| s.index), Some(1));
}

#[test]
fn choice_stop_carries_its_options_for_the_inline_picker() {
    let body = "${1|true,false|}";
    let ins = insert_snippet("", 0, body).expect("round-trips");
    assert_eq!(ins.new_buffer, "true");
    match &ins.session.active_stop().unwrap().kind {
        TabStopKind::Choice { options } => {
            assert_eq!(options, &vec!["true".to_string(), "false".to_string()]);
        }
        other => panic!("expected a choice stop, got {other:?}"),
    }
}

#[test]
fn insertion_that_would_corrupt_is_refused() {
    assert!(
        insert_snippet("[1]", 3, "Foo(${1:x}").is_none(),
        "a corrupting insertion must be refused"
    );
}

#[test]
fn insertion_with_stale_caret_does_not_panic() {
    assert!(
        insert_snippet("[]", 999, "Some(${1:x})").is_none(),
        "a caret past the buffer end is refused, never panics"
    );
}

#[test]
fn buffer_absolute_offsets_account_for_the_caret() {
    let ins = insert_snippet("[, 2]", 1, "${1:1}").expect("round-trips");
    assert_eq!(ins.new_buffer, "[1, 2]");
    assert_eq!(ins.session.selection(), Some((1, 2)));
}

#[test]
fn insertion_goes_by_the_number_of_findings() {
    assert_eq!(
        candidate_buffer("[]", 1, "${1:7}"),
        Some("[7]".to_string())
    );
    assert_eq!(candidate_buffer("[]", 3, "7"), None);
    assert!(insert_unless_worse("[]", 1, "7", 2, 3).is_none());
    let ins = insert_unless_worse("[]", 1, "7", 2, 2).expect("not worse");
    assert_eq!(ins.new_buffer, "[7]");
    assert_eq!(ins.session.caret(), None, "no stop, no session");
}

#[test]
fn a_session_can_be_ended() {
    let mut ins = insert_snippet("", 0, "(${1:a}, ${2:b})").expect("round-trips");
    ins.session.end();
    assert!(!ins.session.is_active());
    assert_eq!(ins.session.selection(), None);
}

#[test]
fn keys_move_through_a_session() {
    let ins = insert_snippet("", 0, "(${1:a}, ${2:b})").expect("round-trips");
    let len = ins.new_buffer.chars().count();
    assert!(session_goes_on(&ins.session, len));
    let (session, selected) = snippet_navigation(ins.session, len, NavigationKey::Tab);
    assert_eq!(selected, Some((4, 5)));
    let (session, selected) =
        snippet_navigation(session.expect("still active"), len, NavigationKey::ShiftTab);
    assert_eq!(selected, Some((1, 2)));
    let (session, selected) =
        snippet_navigation(session.expect("still active"), len, NavigationKey::Escape);
    assert!(session.is_none());
    assert_eq!(selected, None);
}

#[test]
fn a_session_ends_where_the_text_is_too_short() {
    let ins = insert_snippet("", 0, "(${1:a}, ${2:b})").expect("round-trips");
    assert!(!session_goes_on(&ins.session, 1));
    let (session, _) = snippet_navigation(ins.session, 1, NavigationKey::Tab);
    assert!(session.is_none());
}

#[test]
fn a_choice_replaces_its_stop() {
    let ins = insert_snippet("[]", 1, "${1|true,false|}").expect("round-trips");
    assert_eq!(ins.new_buffer, "[true]");
    let (start, end, options) = choices(&ins.session).expect("a choice stop");
    assert_eq!((start, end), (1, 5));
    assert_eq!(options.len(), 2);
    let taken = take_choice(&ins.new_buffer, start, end, &options[1], 0, 0);
    assert_eq!(taken, Some(("[false]".to_string(), 6)));
    assert_eq!(
        take_choice(&ins.new_buffer, start, end, "(", 0, 1),
        None,
        "a choice that makes the text worse is refused"
    );
    assert_eq!(take_choice("[]", 2, 1, "x", 0, 0), None, "the wrong way round");
}
