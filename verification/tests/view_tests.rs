use treeq::color::Color;
use treeq::json_tree::JsonScalar;
use treeq::tui::flatten::Line;
use treeq::tui::pathset::PathSet;
use treeq::tui::state::AppState;
use treeq::tui::view::{
    tag_palette_index,
    help_entry_spans, help_lines, infer_json_value_color, inspect_lines, line_spans, match_spans,
    popup_body, popup_header, status_text, tree_rows, PopupBody, Tint,
};

fn p(segments: &[&str]) -> Vec<String> {
    segments.iter().map(|s| s.to_string()).collect()
}

fn line(key: &str, has_children: bool, value: Option<(&str, Color)>, depth: usize, path: &[&str]) -> Line {
    Line {
        depth,
        key: key.to_string(),
        value: value.map(|(v, c)| (v.to_string(), c)),
        path: p(path),
        has_children,
        is_array_summary: false,
        type_label: if has_children {
            "object (0 fields)".to_string()
        } else {
            "string (0 chars)".to_string()
        },
    }
}

fn state_with(lines: Vec<Line>, cursor: usize) -> AppState {
    let mut s = AppState::opening(lines, PathSet::new(), Vec::new(), false, true, false);
    s.cursor = cursor;
    s
}

#[test]
fn infer_value_color_covers_every_json_scalar_kind() {
    assert_eq!(infer_json_value_color("\"hi\""), Color::Str);
    assert_eq!(infer_json_value_color("42"), Color::Number);
    assert_eq!(infer_json_value_color("-1.5"), Color::Number);
    assert_eq!(infer_json_value_color("true"), Color::Bool);
    assert_eq!(infer_json_value_color("false"), Color::Bool);
    assert_eq!(infer_json_value_color("null"), Color::Null);
}

#[test]
fn match_spans_splits_path_and_value_with_a_colon_only_when_a_value_exists() {
    let path = p(&["a", "b"]);
    let with_value = match_spans(&path, "a.b: \"x\"", true, true);
    assert_eq!(with_value.len(), 3);
    assert_eq!(with_value[0].text, "a.b");
    assert_eq!(with_value[1].text, ": ");
    assert_eq!(with_value[2].text, "\"x\"");
    assert_eq!(with_value[2].tint, Some(Tint::Role(Color::Str)));
    let without_value = match_spans(&path, "a.b", true, true);
    assert_eq!(without_value.len(), 1);
    assert_eq!(without_value[0].text, "a.b");
}

#[test]
fn xml_values_are_always_treated_as_strings_never_json_scalar_types() {
    let spans = match_spans(&p(&["active"]), "active: true", false, true);
    assert_eq!(spans[2].tint, Some(Tint::Role(Color::Str)));
    let json = match_spans(&p(&["active"]), "active: true", true, true);
    assert_eq!(json[2].tint, Some(Tint::Role(Color::Bool)));
}

#[test]
fn line_spans_for_a_container_has_no_value_segment() {
    let l = line("user", true, None, 0, &["user"]);
    let spans = line_spans(&l, false);
    assert_eq!(spans.len(), 2);
    assert!(spans[0].text.contains('▸'));
    assert_eq!(spans[1].text, "user");
}

#[test]
fn line_spans_for_a_leaf_includes_value_segment() {
    let l = line("name", false, Some(("Alice", Color::Str)), 1, &["user", "name"]);
    let spans = line_spans(&l, false);
    assert_eq!(spans.len(), 4);
    assert_eq!(spans[0].text, "  ");
    assert_eq!(spans[1].text, "name");
    assert_eq!(spans[2].text, ": ");
    assert_eq!(spans[3].text, "Alice");
}

#[test]
fn line_spans_indent_scales_with_depth() {
    let l = line("x", false, Some(("1", Color::Number)), 3, &["x"]);
    let spans = line_spans(&l, false);
    assert!(spans[0].text.starts_with("      "));
}

#[test]
fn key_span_is_bold_when_color_is_enabled_but_not_when_disabled() {
    let l = line("user", true, None, 0, &["user"]);
    let colored = line_spans(&l, true);
    assert!(colored[1].bold);
    assert_eq!(colored[1].tint, Some(Tint::Role(Color::Key)));
    assert_eq!(colored[0].tint, Some(Tint::Role(Color::Structure)));
    let plain = line_spans(&l, false);
    assert!(!plain[1].bold);
    assert_eq!(plain[1].tint, None);
}

#[test]
fn tagged_node_renders_with_the_tags_background_color() {
    let mut state = state_with(
        vec![line("root", true, None, 0, &["root"]), line("user", true, None, 0, &["user"])],
        0,
    );
    state.use_color = true;
    state.tags.insert(p(&["user"]), 2);
    let rows = tree_rows(&state);
    assert_eq!(rows[1].background, Some(2));
    assert!(rows[1].segments[1].bold);
    assert!(!rows[1].reversed);
}

#[test]
fn a_tag_is_skipped_on_the_cursors_own_line_to_avoid_clashing_with_reversed_video() {
    let mut state = state_with(vec![line("user", true, None, 0, &["user"])], 0);
    state.use_color = true;
    state.tags.insert(p(&["user"]), 2);
    let rows = tree_rows(&state);
    assert!(rows[0].reversed);
    assert_eq!(rows[0].background, None);
}

#[test]
fn tags_have_no_background_without_colors() {
    let mut state = state_with(
        vec![line("root", true, None, 0, &["root"]), line("user", true, None, 0, &["user"])],
        0,
    );
    state.tags.insert(p(&["user"]), 2);
    assert_eq!(tree_rows(&state)[1].background, None);
}

#[test]
fn every_fuzzy_search_match_is_underlined_not_just_the_cursors() {
    let mut state = state_with(
        vec![
            line("name", false, Some(("Alice", Color::Str)), 0, &["name"]),
            line("nickname", false, Some(("Al", Color::Str)), 0, &["nickname"]),
            line("age", false, Some(("30", Color::Number)), 0, &["age"]),
        ],
        0,
    );
    state.searching = true;
    state.search = "name".to_string();
    let rows = tree_rows(&state);
    assert!(rows[0].underlined);
    assert!(rows[1].underlined);
    assert!(!rows[2].underlined);
}

#[test]
fn status_line_shows_the_search_count_message_or_path() {
    let mut state = state_with(vec![line("user", true, None, 0, &["user.x"])], 0);
    assert_eq!(status_text(&state), "user\\.x  (?: help)");
    state.status_message = Some("tagged 1: user".to_string());
    assert_eq!(status_text(&state), "tagged 1: user");
    state.count_buffer = Some("12".to_string());
    assert_eq!(status_text(&state), "g12");
    state.searching = true;
    state.search = "na".to_string();
    assert_eq!(status_text(&state), "/na");
    let empty = state_with(Vec::new(), 0);
    assert_eq!(status_text(&empty), "  (?: help)");
}

#[test]
fn inspector_shows_type_path_and_tag() {
    let mut state = state_with(vec![line("name", false, Some(("\"A\"", Color::Str)), 1, &["user", "name"])], 0);
    state.use_color = true;
    state.tags.insert(p(&["user", "name"]), 3);
    let lines = inspect_lines(&state);
    assert_eq!(lines.len(), 3);
    assert_eq!(lines[0][0].text, "type: ");
    assert!(lines[0][0].bold);
    assert_eq!(lines[0][1].text, "string (0 chars)");
    assert_eq!(lines[0][1].tint, Some(Tint::Role(Color::Str)));
    assert_eq!(lines[1][1].text, "user.name");
    assert_eq!(lines[2][0].text, "tag:  ");
    assert_eq!(lines[2][1].text, "3");
    assert_eq!(lines[2][1].tint, Some(Tint::Tag(3)));
    let untagged = state_with(vec![line("user", true, None, 0, &["user"])], 0);
    let lines = inspect_lines(&untagged);
    assert_eq!(lines[2][1].text, "none");
    assert_eq!(lines[0][1].tint, None);
    let nothing = state_with(Vec::new(), 0);
    assert_eq!(inspect_lines(&nothing)[0][0].text, "no node under the cursor");
}

#[test]
fn popup_lists_hint_no_matches_or_matching_entries() {
    let all = vec![
        (p(&["user", "name"]), "user.name: \"Alice\"".to_string()),
        (p(&["user", "age"]), "user.age: 30".to_string()),
    ];
    let mut state = AppState::opening(Vec::new(), PathSet::new(), all, false, true, false);
    match popup_body(&state) {
        PopupBody::Message(m) => assert_eq!(m, "type to search the whole document"),
        PopupBody::Matches(_) => panic!("expected the hint"),
    }
    state.popup_query = "zzz".to_string();
    match popup_body(&state) {
        PopupBody::Message(m) => assert_eq!(m, "no matches"),
        PopupBody::Matches(_) => panic!("expected no matches"),
    }
    state.popup_query = "age".to_string();
    assert_eq!(popup_header(&state).text, "/age");
    match popup_body(&state) {
        PopupBody::Matches(rows) => {
            assert_eq!(rows.len(), 1);
            assert_eq!(rows[0][0].text, "user.age");
            assert_eq!(rows[0][2].text, "30");
            assert_eq!(rows[0][2].tint, None);
        }
        PopupBody::Message(m) => panic!("unexpected message {m}"),
    }
}

#[test]
fn help_pads_keys_to_fourteen_columns_and_frames_the_legend() {
    let entry = help_entry_spans("g", "count", false);
    assert_eq!(entry[0].text, "g             ");
    assert!(entry[0].bold);
    assert_eq!(entry[1].text, "count");
    let long = help_entry_spans("a-very-long-key", "x", true);
    assert_eq!(long[0].text, "a-very-long-key");
    assert_eq!(long[0].tint, Some(Tint::Role(Color::Key)));
    let lines = help_lines(false);
    assert_eq!(lines.len(), 20);
    assert_eq!(lines[0][0].text, "Keybindings");
    assert!(lines[1].is_empty());
    assert_eq!(lines[2][0].text, "↑ / ↓         ");
    assert_eq!(lines[17][1].text, "quit");
    assert_eq!(lines[19][0].text, "press ? or Esc to close");
}

#[test]
fn popup_value_colors_agree_with_tree_colors() {
    for s in [
        JsonScalar::Str("true".to_string()),
        JsonScalar::Str("".to_string()),
        JsonScalar::Number("-1.5e3".to_string()),
        JsonScalar::Bool(true),
        JsonScalar::Bool(false),
        JsonScalar::Null,
    ] {
        assert_eq!(infer_json_value_color(&s.display()), s.color());
    }
}

fn popup_state(is_json: bool, use_color: bool, query: &str, all: Vec<(Vec<String>, String)>) -> AppState {
    let mut s = AppState::opening(
        vec![line("root", true, None, 0, &["root"])],
        PathSet::new(),
        all,
        use_color,
        is_json,
        false,
    );
    s.popup_visible = true;
    s.popup_query = query.to_string();
    s
}

fn popup_rows(state: &AppState) -> Vec<Vec<treeq::tui::view::Segment>> {
    match popup_body(state) {
        PopupBody::Matches(rows) => rows,
        PopupBody::Message(m) => panic!("expected matches, got {m}"),
    }
}

fn popup_message(state: &AppState) -> String {
    match popup_body(state) {
        PopupBody::Message(m) => m,
        PopupBody::Matches(_) => panic!("expected a message"),
    }
}

fn joined(segments: &[treeq::tui::view::Segment]) -> String {
    segments.iter().map(|s| s.text.as_str()).collect()
}

#[test]
fn a_tagged_lines_key_is_still_bold_alongside_the_tag_background() {
    let mut state = state_with(
        vec![line("root", true, None, 0, &["root"]), line("user", true, None, 0, &["user"])],
        0,
    );
    state.use_color = true;
    state.tags.insert(p(&["user"]), 2);
    let rows = tree_rows(&state);
    assert_eq!(rows[1].background, Some(2));
    assert_eq!(rows[1].segments[1].text, "user");
    assert!(rows[1].segments[1].bold);
}

#[test]
fn a_key_value_spanning_query_underlines_the_matching_line() {
    let mut state = state_with(
        vec![
            line("author", false, Some(("\"user0\"", Color::Str)), 0, &["author"]),
            line("id", false, Some(("\"c7-0\"", Color::Str)), 0, &["id"]),
        ],
        0,
    );
    state.searching = true;
    state.search = "author: \"user".to_string();
    let rows = tree_rows(&state);
    assert!(rows[0].underlined);
    assert!(!rows[1].underlined);
}

#[test]
fn render_draws_lines_and_status_bar() {
    let state = state_with(
        vec![
            line("user", true, None, 0, &["user"]),
            line("name", false, Some(("Alice", Color::Str)), 1, &["user", "name"]),
        ],
        1,
    );
    let rows = tree_rows(&state);
    assert_eq!(joined(&rows[0].segments), "▸ user");
    assert_eq!(joined(&rows[1].segments), "  name: Alice");
    assert!(rows[1].reversed);
    assert!(status_text(&state).contains("user.name"));
}

#[test]
fn render_does_not_panic_on_an_empty_document() {
    let state = state_with(vec![], 0);
    assert!(tree_rows(&state).is_empty());
    assert_eq!(status_text(&state), "  (?: help)");
}

#[test]
fn render_shows_search_prompt_when_searching() {
    let mut state = state_with(vec![line("user", true, None, 0, &["user"])], 0);
    state.searching = true;
    state.search = "ali".to_string();
    assert_eq!(status_text(&state), "/ali");
}

#[test]
fn render_shows_the_pending_count_buffer_in_the_status_bar() {
    let mut state = state_with(vec![line("user", true, None, 0, &["user"])], 0);
    state.count_buffer = Some("12".to_string());
    assert_eq!(status_text(&state), "g12");
}

#[test]
fn render_shows_status_message_over_path_when_present() {
    let mut state = state_with(vec![line("user", true, None, 0, &["user"])], 0);
    state.status_message = Some("copied: user".to_string());
    assert_eq!(status_text(&state), "copied: user");
}

#[test]
fn status_bar_hints_at_the_help_key() {
    let state = state_with(vec![line("user", true, None, 0, &["user"])], 0);
    assert!(status_text(&state).contains("?: help"));
}

#[test]
fn status_bar_hint_escapes_control_bytes_in_the_current_path() {
    let state = state_with(
        vec![line("before\\u001bafter", false, Some(("\"x\"", Color::Str)), 0, &["before\u{1b}after"])],
        0,
    );
    let text = status_text(&state);
    assert!(!text.contains('\u{1b}'));
    assert!(text.contains("before\\u001bafter"));
}

#[test]
fn popup_shows_a_hint_instead_of_the_whole_document_when_query_is_empty() {
    let state = popup_state(
        true,
        false,
        "",
        vec![(p(&["user"]), "user".to_string()), (p(&["other"]), "other".to_string())],
    );
    assert!(popup_message(&state).contains("type to search"));
}

#[test]
fn popup_shows_no_matches_for_an_unmatched_query() {
    let state = popup_state(true, false, "zzz", vec![(p(&["user"]), "user".to_string())]);
    assert_eq!(popup_message(&state), "no matches");
}

#[test]
fn popup_matches_are_plain_without_color() {
    let state = popup_state(true, false, "zq", vec![(p(&["zqx", "leaf"]), "zqx.leaf".to_string())]);
    let rows = popup_rows(&state);
    assert_eq!(rows[0][0].text, "zqx.leaf");
    assert_eq!(rows[0][0].tint, None);
}

#[test]
fn popup_matches_are_colored_when_color_is_enabled() {
    let state = popup_state(true, true, "zq", vec![(p(&["zqx", "leaf"]), "zqx.leaf".to_string())]);
    let rows = popup_rows(&state);
    assert_eq!(rows[0][0].tint, Some(Tint::Role(Color::Key)));
}

#[test]
fn popup_match_value_is_colored_by_its_inferred_type() {
    let state = popup_state(
        true,
        true,
        "zq",
        vec![
            (p(&["zq1"]), "zq1: \"hello\"".to_string()),
            (p(&["zq2"]), "zq2: 42".to_string()),
            (p(&["zq3"]), "zq3: true".to_string()),
            (p(&["zq4"]), "zq4: null".to_string()),
        ],
    );
    let rows = popup_rows(&state);
    assert_eq!(rows.len(), 4);
    assert_eq!(rows[0][2].tint, Some(Tint::Role(Color::Str)));
    assert_eq!(rows[1][2].tint, Some(Tint::Role(Color::Number)));
    assert_eq!(rows[2][2].tint, Some(Tint::Role(Color::Bool)));
    assert_eq!(rows[3][2].tint, Some(Tint::Role(Color::Null)));
}

#[test]
fn popup_for_an_xml_document_colors_numeric_looking_text_as_a_string() {
    let state = popup_state(false, true, "zq", vec![(p(&["zqcount"]), "zqcount: 42".to_string())]);
    let rows = popup_rows(&state);
    assert_eq!(rows[0][2].text, "42");
    assert_eq!(rows[0][2].tint, Some(Tint::Role(Color::Str)));
}

#[test]
fn popup_shows_a_long_match_line_in_full_without_truncation() {
    let long_value = "\"a fairly long value that used to get cut off by a narrow popup\"";
    let state = popup_state(true, true, "zq", vec![(p(&["zqlong"]), format!("zqlong: {long_value}"))]);
    let rows = popup_rows(&state);
    assert_eq!(rows[0][2].text, long_value);
}

#[test]
fn popup_match_without_a_value_shows_only_the_path() {
    let state = popup_state(true, true, "zq", vec![(p(&["zqcontainer"]), "zqcontainer".to_string())]);
    let rows = popup_rows(&state);
    assert_eq!(rows[0].len(), 1);
    assert_eq!(joined(&rows[0]), "zqcontainer");
}

#[test]
fn inspect_popup_renders_as_a_centered_card_showing_type_path_and_tag() {
    let mut state = state_with(vec![line("name", false, Some(("\"Alice\"", Color::Str)), 0, &["user", "name"])], 0);
    state.inspect_visible = true;
    state.tags.insert(p(&["user", "name"]), 3);
    let lines = inspect_lines(&state);
    assert_eq!(joined(&lines[0]), "type: string (0 chars)");
    assert_eq!(joined(&lines[1]), "path: user.name");
    assert_eq!(joined(&lines[2]), "tag:  3");
}

#[test]
fn inspect_popup_on_an_array_summary_line_uses_the_arrays_real_path_and_tag() {
    let summary = Line {
        depth: 0,
        key: "…more".to_string(),
        value: Some(("3 more (Tab to show all)".to_string(), Color::Structure)),
        path: p(&["tags", "…more"]),
        has_children: false,
        is_array_summary: true,
        type_label: "array preview marker".to_string(),
    };
    let mut state = state_with(vec![summary], 0);
    state.inspect_visible = true;
    state.tags.insert(p(&["tags"]), 5);
    let lines = inspect_lines(&state);
    assert_eq!(joined(&lines[1]), "path: tags");
    assert_eq!(joined(&lines[2]), "tag:  5");
}

#[test]
fn inspect_popup_is_plain_without_color() {
    let mut state = state_with(vec![line("name", false, Some(("\"Alice\"", Color::Str)), 0, &["user", "name"])], 0);
    state.inspect_visible = true;
    state.tags.insert(p(&["user", "name"]), 3);
    let lines = inspect_lines(&state);
    assert_eq!(lines[1][1].tint, None);
    assert_eq!(lines[0][1].tint, None);
    assert_eq!(lines[2][1].tint, None);
}

#[test]
fn inspect_popup_colors_the_path_like_the_search_popup_and_the_type_like_its_value() {
    let mut state = state_with(vec![line("name", false, Some(("\"Alice\"", Color::Str)), 0, &["user", "name"])], 0);
    state.inspect_visible = true;
    state.use_color = true;
    state.tags.insert(p(&["user", "name"]), 3);
    let lines = inspect_lines(&state);
    assert_eq!(lines[1][1].tint, Some(Tint::Role(Color::Key)));
    assert_eq!(lines[0][1].tint, Some(Tint::Role(Color::Str)));
    assert_eq!(lines[2][1].tint, Some(Tint::Tag(3)));
}

#[test]
fn inspect_popup_escapes_control_bytes_in_the_path() {
    let mut state = state_with(
        vec![line("before\\u001bafter", false, Some(("\"x\"", Color::Str)), 0, &["before\u{1b}after"])],
        0,
    );
    state.inspect_visible = true;
    let text: String = inspect_lines(&state).iter().map(|l| joined(l)).collect();
    assert!(!text.contains('\u{1b}'));
    assert!(text.contains("before\\u001bafter"));
}

#[test]
fn inspect_popup_colors_a_container_type_as_structural_since_it_has_no_scalar_value() {
    let mut state = state_with(vec![line("user", true, None, 0, &["user"])], 0);
    state.inspect_visible = true;
    state.use_color = true;
    let lines = inspect_lines(&state);
    assert_eq!(lines[0][1].text, "object (0 fields)");
    assert_eq!(lines[0][1].tint, Some(Tint::Role(Color::Structure)));
}

#[test]
fn inspect_popup_shows_none_when_the_node_has_no_tag() {
    let mut state = state_with(vec![line("user", true, None, 0, &["user"])], 0);
    state.inspect_visible = true;
    assert_eq!(inspect_lines(&state)[2][1].text, "none");
}

#[test]
fn render_shows_help_overlay_with_every_keybinding_when_visible() {
    let text: String = help_lines(false).iter().map(|l| joined(l) + "\n").collect();
    assert!(text.contains("Keybindings"));
    for (key, desc) in [
        ("↑ / ↓", "move cursor (or j/k)"),
        ("g", "count-jump: digits+↑/↓; gg/G: first/last"),
        ("Tab / Space", "collapse / expand (or h/l)"),
        ("Backspace", "collapse parent"),
        ("Shift+C", "collapse ancestors"),
        ("/", "fuzzy search (Tab: cycle; n/N: repeat)"),
        ("F", "search-results popup (whole document)"),
        ("i", "inspect node (type, size, path, tag)"),
        ("1-8", "tag / untag node"),
        ("x", "clear all tags"),
        ("y", "yank current path"),
        ("Y", "yank as jq path (JSON only)"),
        ("c", "collapse all"),
        ("e", "expand all"),
        ("?", "toggle this help"),
        ("q / Esc", "quit"),
    ] {
        assert!(text.contains(key), "missing key '{key}'");
        assert!(text.contains(desc), "missing description '{desc}'");
    }
}

#[test]
fn help_entry_key_column_is_bold_and_plain_without_color() {
    let spans = help_entry_spans("q / Esc", "quit", false);
    assert_eq!(spans.len(), 2);
    assert!(spans[0].text.starts_with("q / Esc"));
    assert!(spans[0].bold);
    assert_eq!(spans[0].tint, None);
    assert_eq!(spans[1].text, "quit");
    assert_eq!(spans[1].tint, None);
}

#[test]
fn help_entry_key_column_is_colored_when_color_is_enabled() {
    let spans = help_entry_spans("q / Esc", "quit", true);
    assert_eq!(spans[0].tint, Some(Tint::Role(Color::Key)));
    assert_eq!(spans[1].tint, None);
}

#[test]
fn tag_color_wraps_instead_of_panicking_outside_the_palette() {
    assert_eq!(tag_palette_index(0), tag_palette_index(1));
    assert_eq!(tag_palette_index(9), tag_palette_index(1));
    assert_eq!(tag_palette_index(8), 7);
    assert_eq!(tag_palette_index(255), 254 % 8);
}
