use serde_json::Value;
use treeq::color::Color;
use treeq::json_tree::{JsonNode, JsonScalar};
use treeq::tui::flatten::Line;
use treeq::tui::fuzzy::{fuzzy_match_char_indices, fuzzy_matches};
use treeq::tui::jq::{is_jq_identifier, to_jq_path};
use treeq::tui::keys::{
    cycle_search_match, finish_clipboard, handle_key, jump_to_next_match, move_cursor_to_nth_path,
    move_cursor_to_path, popup_matches, visual_range, Key,
};
use treeq::tui::pathset::PathSet;
use treeq::tui::state::{rebuild_json_lines, AppState};

fn j(text: &str) -> JsonNode {
    fn node(v: &Value) -> JsonNode {
        match v {
            Value::Null => JsonNode::Scalar(JsonScalar::Null),
            Value::Bool(b) => JsonNode::Scalar(JsonScalar::Bool(*b)),
            Value::Number(n) => JsonNode::Scalar(JsonScalar::Number(n.to_string())),
            Value::String(s) => JsonNode::Scalar(JsonScalar::Str(s.clone())),
            Value::Array(a) => JsonNode::Array(a.iter().map(node).collect()),
            Value::Object(o) => {
                JsonNode::Object(o.iter().map(|(k, v)| (k.clone(), node(v))).collect())
            }
        }
    }
    node(&serde_json::from_str(text).unwrap())
}

fn p(segments: &[&str]) -> Vec<String> {
    segments.iter().map(|s| s.to_string()).collect()
}

fn line(key: &str, has_children: bool, path: &[&str]) -> Line {
    Line {
        depth: 0,
        key: key.to_string(),
        value: if has_children { None } else { Some((key.to_string(), Color::Str)) },
        path: p(path),
        has_children,
        is_array_summary: false,
        type_label: if has_children {
            "object (0 fields)".to_string()
        } else {
            "string (0 chars)".to_string()
        },
    }
}

fn array_summary_line(path: &[&str]) -> Line {
    Line {
        depth: 0,
        key: "…more".to_string(),
        value: Some(("3 more (Tab to show all)".to_string(), Color::Structure)),
        path: p(path),
        has_children: false,
        is_array_summary: true,
        type_label: "array preview marker".to_string(),
    }
}

fn paths_set(paths: &[&[&str]]) -> PathSet {
    let mut s = PathSet::new();
    for q in paths {
        s.insert(p(q));
    }
    s
}

fn state_of(lines: Vec<Line>, containers: &[&[&str]], all: &[(&[&str], &str)]) -> AppState {
    let all_paths = all.iter().map(|(q, t)| (p(q), t.to_string())).collect();
    AppState::opening(lines, paths_set(containers), all_paths, false, true, false)
}

fn fixture() -> AppState {
    state_of(
        vec![
            line("user", true, &["user"]),
            line("name", false, &["user", "name"]),
            line("age", false, &["user", "age"]),
        ],
        &[&["user"]],
        &[(&["user"], "user"), (&["user", "name"], "user.name"), (&["user", "age"], "user.age")],
    )
}

fn nested_fixture() -> AppState {
    let mut s = state_of(
        vec![
            line("root", true, &["root"]),
            line("user", true, &["root", "user"]),
            line("address", true, &["root", "user", "address"]),
            line("city", false, &["root", "user", "address", "city"]),
        ],
        &[&["root"], &["root", "user"], &["root", "user", "address"]],
        &[
            (&["root"], "root"),
            (&["root", "user"], "root.user"),
            (&["root", "user", "address"], "root.user.address"),
            (&["root", "user", "address", "city"], "root.user.address.city"),
        ],
    );
    s.cursor = 3;
    s
}

fn tall_fixture(n: usize, cursor: usize) -> AppState {
    let lines = (0..n).map(|i| line(&format!("item{i}"), false, &["item"])).collect();
    let mut s = state_of(lines, &[], &[]);
    s.cursor = cursor;
    s
}

fn duplicate_path_state() -> AppState {
    let mut state = fixture();
    state.lines = (1..=3)
        .map(|i| Line {
            depth: 0,
            key: "item".to_string(),
            value: Some((i.to_string(), Color::Number)),
            path: p(&["item"]),
            has_children: false,
            is_array_summary: false,
            type_label: "number".to_string(),
        })
        .collect();
    state.all_paths = (1..=3).map(|i: i32| (p(&["item"]), format!("item: {i}"))).collect();
    state.cursor = 0;
    state
}

/// A key press as the application handles it: a requested clipboard copy is
/// made (successfully) before the next key.
fn press(state: &mut AppState, key: Key) -> bool {
    let quit = handle_key(state, key);
    if state.clipboard_request.is_some() {
        finish_clipboard(state, Ok(()));
    }
    quit
}

#[test]
fn q_and_esc_quit_when_not_searching() {
    assert!(press(&mut fixture(), Key::Char('q')));
    assert!(press(&mut fixture(), Key::Esc));
}

#[test]
fn down_and_up_move_cursor_within_bounds() {
    let mut state = fixture();
    press(&mut state, Key::Down);
    assert_eq!(state.cursor, 1);
    press(&mut state, Key::Down);
    press(&mut state, Key::Down);
    assert_eq!(state.cursor, 2, "cursor must not go past the last line");
    press(&mut state, Key::Up);
    press(&mut state, Key::Up);
    press(&mut state, Key::Up);
    assert_eq!(state.cursor, 0, "cursor must not go below zero");
}

#[test]
fn tab_collapses_and_expands_a_container_line() {
    let mut state = fixture();
    press(&mut state, Key::Tab);
    assert!(state.collapsed.contains(&p(&["user"])));
    press(&mut state, Key::Tab);
    assert!(!state.collapsed.contains(&p(&["user"])));
}

#[test]
fn space_also_collapses_and_expands_a_container_line() {
    let mut state = fixture();
    press(&mut state, Key::Char(' '));
    assert!(state.collapsed.contains(&p(&["user"])));
    press(&mut state, Key::Char(' '));
    assert!(!state.collapsed.contains(&p(&["user"])));
}

#[test]
fn tab_on_a_leaf_line_does_nothing() {
    let mut state = fixture();
    state.cursor = 1;
    press(&mut state, Key::Tab);
    assert!(state.collapsed.is_empty());
}

#[test]
fn tab_on_an_array_truncation_marker_expands_the_array_via_override() {
    let mut state = fixture();
    state.lines.push(array_summary_line(&["user", "age", "…more"]));
    state.cursor = 3;
    press(&mut state, Key::Tab);
    assert!(state.array_overrides.contains(&p(&["user", "age"])));
    assert!(state.collapsed.is_empty(), "the marker line must not be treated as a collapsible container");
}

#[test]
fn a_real_key_that_looks_like_the_truncation_label_still_collapses_normally() {
    let mut state = fixture();
    state.lines.push(line("…more", true, &["user", "…more"]));
    state.cursor = 3;
    press(&mut state, Key::Tab);
    assert!(state.collapsed.contains(&p(&["user", "…more"])));
    assert!(state.array_overrides.is_empty());
}

#[test]
fn j_and_k_are_vim_aliases_for_down_and_up() {
    let mut state = fixture();
    press(&mut state, Key::Char('j'));
    assert_eq!(state.cursor, 1);
    press(&mut state, Key::Char('j'));
    assert_eq!(state.cursor, 2);
    press(&mut state, Key::Char('k'));
    assert_eq!(state.cursor, 1);
}

#[test]
fn expanding_a_container_at_the_bottom_edge_of_the_viewport_pins_it_to_the_top() {
    let mut state = nested_fixture();
    state.cursor = 1;
    state.collapsed.insert(p(&["root", "user"]));
    state.scroll_offset = 0;
    state.viewport_height = 2;
    press(&mut state, Key::Char('l'));
    assert_eq!(state.scroll_offset, 1, "must pin the expanded row to the top of the viewport");
}

#[test]
fn expanding_a_container_comfortably_inside_the_viewport_does_not_move_the_scroll_offset() {
    let mut state = nested_fixture();
    state.cursor = 1;
    state.collapsed.insert(p(&["root", "user"]));
    state.scroll_offset = 0;
    state.viewport_height = 10;
    press(&mut state, Key::Char('l'));
    assert_eq!(state.scroll_offset, 0);
}

#[test]
fn re_expanding_an_already_expanded_container_does_not_move_the_scroll_offset() {
    let mut state = nested_fixture();
    state.cursor = 1;
    state.scroll_offset = 0;
    state.viewport_height = 2;
    press(&mut state, Key::Char('l'));
    assert_eq!(state.scroll_offset, 0, "a no-op expand must not move the viewport");
}

#[test]
fn expanding_via_tab_at_the_bottom_edge_also_reveals_the_children() {
    let mut state = nested_fixture();
    state.cursor = 1;
    state.collapsed.insert(p(&["root", "user"]));
    state.scroll_offset = 0;
    state.viewport_height = 2;
    press(&mut state, Key::Tab);
    assert_eq!(state.scroll_offset, 1);
}

#[test]
fn collapsing_via_tab_does_not_trigger_a_reveal() {
    let mut state = nested_fixture();
    state.cursor = 1;
    state.scroll_offset = 0;
    state.viewport_height = 2;
    press(&mut state, Key::Tab);
    assert!(state.collapsed.contains(&p(&["root", "user"])));
    assert_eq!(state.scroll_offset, 0, "collapsing removes rows, never needs a reveal");
}

#[test]
fn expanding_an_array_summary_marker_at_the_bottom_edge_also_reveals_it() {
    let mut state = fixture();
    state.lines.push(array_summary_line(&["user", "age", "…more"]));
    state.cursor = 3;
    state.scroll_offset = 2;
    state.viewport_height = 2;
    press(&mut state, Key::Char('l'));
    assert_eq!(state.scroll_offset, 3);
}

#[test]
fn expand_reveal_is_a_no_op_before_the_first_frame_has_rendered() {
    let mut state = nested_fixture();
    state.cursor = 1;
    state.collapsed.insert(p(&["root", "user"]));
    press(&mut state, Key::Char('l'));
    assert_eq!(state.scroll_offset, 0);
}

#[test]
fn l_expands_a_collapsed_container_but_never_collapses_it() {
    let mut state = fixture();
    state.collapsed.insert(p(&["user"]));
    press(&mut state, Key::Char('l'));
    assert!(!state.collapsed.contains(&p(&["user"])));
    press(&mut state, Key::Char('l'));
    assert!(!state.collapsed.contains(&p(&["user"])));
}

#[test]
fn l_on_a_leaf_line_does_nothing() {
    let mut state = fixture();
    state.cursor = 1;
    press(&mut state, Key::Char('l'));
    assert!(state.collapsed.is_empty());
}

#[test]
fn l_on_an_array_truncation_marker_expands_the_array_via_override() {
    let mut state = fixture();
    state.lines.push(array_summary_line(&["user", "age", "…more"]));
    state.cursor = 3;
    press(&mut state, Key::Char('l'));
    assert!(state.array_overrides.contains(&p(&["user", "age"])));
}

#[test]
fn h_collapses_an_expanded_container_but_never_expands_it() {
    let mut state = fixture();
    press(&mut state, Key::Char('h'));
    assert!(state.collapsed.contains(&p(&["user"])));
    assert_eq!(state.cursor, 0, "collapsing in place must not move the cursor");
}

#[test]
fn h_on_a_leaf_jumps_to_its_parent_without_collapsing_anything() {
    let mut state = fixture();
    state.cursor = 1;
    press(&mut state, Key::Char('h'));
    assert_eq!(state.cursor, 0, "must land on \"user\"");
    assert!(state.collapsed.is_empty(), "unlike Backspace, h must not collapse the parent it jumps to");
}

#[test]
fn h_on_the_array_truncation_marker_jumps_to_the_arrays_own_line_not_past_it() {
    let mut state = fixture();
    state.lines.push(array_summary_line(&["user", "age", "…more"]));
    state.cursor = 3;
    press(&mut state, Key::Char('h'));
    assert_eq!(state.cursor, 2);
}

#[test]
fn count_prefix_works_with_the_vim_j_k_aliases_too() {
    let mut state = fixture();
    press(&mut state, Key::Char('g'));
    press(&mut state, Key::Char('2'));
    press(&mut state, Key::Char('j'));
    assert_eq!(state.cursor, 2, "g2j must move down 2 lines, same as g2\u{2193}");
}

#[test]
fn h_on_an_already_collapsed_container_jumps_to_its_parent() {
    let mut state = fixture();
    state.lines = vec![line("root", true, &["root"]), line("user", true, &["root", "user"])];
    state.collapsed.insert(p(&["root", "user"]));
    state.cursor = 1;
    press(&mut state, Key::Char('h'));
    assert_eq!(state.cursor, 0, "must land on the parent \"root\"");
}

#[test]
fn h_at_the_root_does_nothing() {
    let mut state = fixture();
    state.lines[0].has_children = false;
    state.lines[1].path = p(&["name"]);
    state.cursor = 1;
    press(&mut state, Key::Char('h'));
    assert_eq!(state.cursor, 1, "a top-level node has no parent to jump to");
}

#[test]
fn bare_shift_g_jumps_straight_to_the_last_line() {
    let mut state = fixture();
    press(&mut state, Key::Char('G'));
    assert_eq!(state.cursor, 2);
}

#[test]
fn gg_jumps_to_the_first_line() {
    let mut state = fixture();
    state.cursor = 2;
    press(&mut state, Key::Char('g'));
    press(&mut state, Key::Char('g'));
    assert_eq!(state.cursor, 0);
}

#[test]
fn g_digits_g_jumps_to_the_absolute_one_based_line() {
    let mut state = fixture();
    press(&mut state, Key::Char('g'));
    press(&mut state, Key::Char('2'));
    press(&mut state, Key::Char('g'));
    assert_eq!(state.cursor, 1, "line 2 (1-based) is index 1");
}

#[test]
fn g_digits_shift_g_also_jumps_to_the_absolute_line() {
    let mut state = fixture();
    press(&mut state, Key::Char('g'));
    press(&mut state, Key::Char('2'));
    press(&mut state, Key::Char('G'));
    assert_eq!(state.cursor, 1);
}

#[test]
fn g_digits_g_clamps_past_the_last_line() {
    let mut state = fixture();
    press(&mut state, Key::Char('g'));
    press(&mut state, Key::Char('9'));
    press(&mut state, Key::Char('g'));
    assert_eq!(state.cursor, 2, "must clamp to the last line, not panic");
}

#[test]
fn n_and_shift_n_repeat_the_last_search_forward_and_backward() {
    let mut state = fixture();
    state.search = "user".to_string();
    press(&mut state, Key::Char('n'));
    assert_eq!(state.pending_cursor_path.as_deref(), Some(p(&["user", "name"]).as_slice()));
    press(&mut state, Key::Char('N'));
    assert_eq!(state.pending_cursor_path.as_deref(), Some(p(&["user", "age"]).as_slice()));
}

#[test]
fn n_does_nothing_without_a_prior_search() {
    let mut state = fixture();
    press(&mut state, Key::Char('n'));
    assert!(state.pending_cursor_path.is_none());
}

#[test]
fn yanking_the_array_summary_line_copies_the_arrays_real_path() {
    let mut state = fixture();
    state.lines.push(array_summary_line(&["user", "age", "…more"]));
    state.cursor = 3;
    press(&mut state, Key::Char('y'));
    assert_eq!(state.status_message.as_deref(), Some("copied: user.age"));
}

#[test]
fn yank_status_message_escapes_control_bytes_in_the_path() {
    let mut state = fixture();
    state.lines[0] = line("before\u{1b}after", true, &["before\u{1b}after"]);
    press(&mut state, Key::Char('y'));
    let msg = state.status_message.as_deref().unwrap();
    assert!(!msg.contains('\u{1b}'));
    assert_eq!(msg, "copied: before\\u001bafter");
}

#[test]
fn yank_hands_the_raw_dotted_path_to_the_clipboard() {
    let mut state = fixture();
    state.cursor = 2;
    handle_key(&mut state, Key::Char('y'));
    let req = state.clipboard_request.as_ref().unwrap();
    assert_eq!(req.text, "user.age");
    finish_clipboard(&mut state, Err("no terminal".to_string()));
    assert_eq!(state.status_message.as_deref(), Some("copy failed: no terminal"));
    assert!(state.clipboard_request.is_none());
}

#[test]
fn recollapsing_an_array_clears_its_expand_override() {
    let mut state = fixture();
    state.array_overrides.insert(p(&["user"]));
    press(&mut state, Key::Tab);
    assert!(!state.array_overrides.contains(&p(&["user"])));
}

#[test]
fn viewport_nav_keys_do_nothing_on_an_empty_document_instead_of_panicking() {
    let mut state = tall_fixture(0, 0);
    state.viewport_height = 10;
    for key in [Key::Char('H'), Key::Char('M'), Key::Char('L'), Key::PageUp, Key::PageDown] {
        press(&mut state, key);
        assert_eq!(state.cursor, 0);
    }
}

#[test]
fn shift_h_jumps_to_the_top_of_the_viewport() {
    let mut state = tall_fixture(50, 25);
    state.scroll_offset = 20;
    state.viewport_height = 10;
    press(&mut state, Key::Char('H'));
    assert_eq!(state.cursor, 20);
}

#[test]
fn shift_l_jumps_to_the_bottom_of_the_viewport() {
    let mut state = tall_fixture(50, 25);
    state.scroll_offset = 20;
    state.viewport_height = 10;
    press(&mut state, Key::Char('L'));
    assert_eq!(state.cursor, 29, "20 + (10 - 1)");
}

#[test]
fn shift_l_clamps_to_the_last_line_when_the_viewport_extends_past_the_document() {
    let mut state = tall_fixture(5, 0);
    state.viewport_height = 20;
    press(&mut state, Key::Char('L'));
    assert_eq!(state.cursor, 4, "must clamp to the last real line");
}

#[test]
fn shift_m_jumps_to_the_middle_of_the_viewport() {
    let mut state = tall_fixture(50, 25);
    state.scroll_offset = 20;
    state.viewport_height = 10;
    press(&mut state, Key::Char('M'));
    assert_eq!(state.cursor, 24, "midpoint of visible rows 20..=29");
}

#[test]
fn page_down_moves_the_cursor_by_one_viewport_height() {
    let mut state = tall_fixture(50, 5);
    state.viewport_height = 10;
    press(&mut state, Key::PageDown);
    assert_eq!(state.cursor, 15);
}

#[test]
fn page_down_clamps_to_the_last_line() {
    let mut state = tall_fixture(20, 15);
    state.viewport_height = 10;
    press(&mut state, Key::PageDown);
    assert_eq!(state.cursor, 19);
}

#[test]
fn page_up_moves_the_cursor_by_one_viewport_height() {
    let mut state = tall_fixture(50, 25);
    state.viewport_height = 10;
    press(&mut state, Key::PageUp);
    assert_eq!(state.cursor, 15);
}

#[test]
fn page_up_clamps_to_the_first_line_instead_of_underflowing() {
    let mut state = tall_fixture(50, 5);
    state.viewport_height = 10;
    press(&mut state, Key::PageUp);
    assert_eq!(state.cursor, 0);
}

#[test]
fn page_up_and_down_fall_back_to_a_single_line_before_the_first_frame_renders() {
    let mut state = tall_fixture(50, 10);
    press(&mut state, Key::PageDown);
    assert_eq!(state.cursor, 11);
    press(&mut state, Key::PageUp);
    press(&mut state, Key::PageUp);
    assert_eq!(state.cursor, 9);
}

#[test]
fn g_then_digits_then_down_moves_the_cursor_that_many_lines() {
    let mut state = tall_fixture(20, 0);
    press(&mut state, Key::Char('g'));
    assert_eq!(state.count_buffer.as_deref(), Some(""));
    press(&mut state, Key::Char('5'));
    assert_eq!(state.count_buffer.as_deref(), Some("5"));
    press(&mut state, Key::Down);
    assert_eq!(state.cursor, 5);
    assert!(state.count_buffer.is_none(), "the count is consumed after the jump");
}

#[test]
fn g_then_multi_digit_count_then_up_moves_the_cursor_that_many_lines() {
    let mut state = tall_fixture(20, 15);
    press(&mut state, Key::Char('g'));
    press(&mut state, Key::Char('1'));
    press(&mut state, Key::Char('2'));
    press(&mut state, Key::Up);
    assert_eq!(state.cursor, 3);
}

#[test]
fn g_then_down_with_no_digits_moves_one_line_like_a_plain_arrow() {
    let mut state = tall_fixture(20, 0);
    press(&mut state, Key::Char('g'));
    press(&mut state, Key::Down);
    assert_eq!(state.cursor, 1);
}

#[test]
fn count_jump_clamps_to_the_last_line_instead_of_panicking() {
    let mut state = tall_fixture(5, 0);
    press(&mut state, Key::Char('g'));
    press(&mut state, Key::Char('9'));
    press(&mut state, Key::Char('9'));
    press(&mut state, Key::Down);
    assert_eq!(state.cursor, 4, "must clamp to the last line, not panic");
}

#[test]
fn count_jump_clamps_to_the_first_line_instead_of_underflowing() {
    let mut state = tall_fixture(20, 2);
    press(&mut state, Key::Char('g'));
    press(&mut state, Key::Char('9'));
    press(&mut state, Key::Up);
    assert_eq!(state.cursor, 0, "must clamp to the first line, not underflow");
}

#[test]
fn any_non_digit_non_arrow_key_cancels_a_pending_count() {
    let mut state = tall_fixture(20, 10);
    press(&mut state, Key::Char('g'));
    press(&mut state, Key::Char('5'));
    press(&mut state, Key::Esc);
    assert!(state.count_buffer.is_none());
    assert_eq!(state.cursor, 10, "canceling must not move the cursor");
}

#[test]
fn digit_beyond_the_max_buffer_length_is_ignored_not_appended() {
    let mut state = tall_fixture(20, 0);
    press(&mut state, Key::Char('g'));
    for _ in 0..8 {
        press(&mut state, Key::Char('9'));
    }
    assert_eq!(
        state.count_buffer.as_deref().map(str::len),
        Some(6),
        "the buffer must stop growing past its cap"
    );
}

#[test]
fn g_key_does_not_tag_the_current_node() {
    let mut state = fixture();
    press(&mut state, Key::Char('g'));
    assert_eq!(state.tags.len(), 0);
}

#[test]
fn shift_f_opens_the_popup_with_an_empty_query_by_default() {
    let mut state = fixture();
    press(&mut state, Key::Char('F'));
    assert!(state.popup_visible);
    assert_eq!(state.popup_query, "");
    assert_eq!(state.popup_selected, 0);
}

#[test]
fn shift_f_prefills_the_popup_from_an_in_progress_search() {
    let mut state = fixture();
    state.search = "nam".to_string();
    press(&mut state, Key::Char('F'));
    assert_eq!(state.popup_query, "nam");
}

#[test]
fn empty_popup_query_matches_nothing() {
    let state = fixture();
    assert!(popup_matches(&state).is_empty());
}

#[test]
fn typing_in_the_popup_filters_matches_and_resets_selection() {
    let mut state = fixture();
    press(&mut state, Key::Char('F'));
    state.popup_selected = 5;
    press(&mut state, Key::Char('a'));
    press(&mut state, Key::Char('g'));
    assert_eq!(state.popup_query, "ag");
    assert_eq!(state.popup_selected, 0);
    assert_eq!(popup_matches(&state), vec![p(&["user", "age"])]);
}

#[test]
fn popup_matches_a_key_value_combo_reaching_a_collapsed_or_off_screen_node() {
    let mut state = fixture();
    state.all_paths.push((p(&["author"]), "author: \"user0\"".to_string()));
    state.popup_query = "author: \"user".to_string();
    assert_eq!(popup_matches(&state), vec![p(&["author"])]);
}

#[test]
fn popup_backspace_shrinks_the_query() {
    let mut state = fixture();
    press(&mut state, Key::Char('F'));
    press(&mut state, Key::Char('a'));
    press(&mut state, Key::Backspace);
    assert_eq!(state.popup_query, "");
}

#[test]
fn popup_down_and_up_move_the_selection_clamped_to_the_match_list() {
    let mut state = fixture();
    press(&mut state, Key::Char('F'));
    press(&mut state, Key::Char('u'));
    assert_eq!(popup_matches(&state).len(), 3);
    for _ in 0..4 {
        press(&mut state, Key::Down);
    }
    assert_eq!(state.popup_selected, 2, "must clamp to the last match");
    for _ in 0..4 {
        press(&mut state, Key::Up);
    }
    assert_eq!(state.popup_selected, 0, "must clamp to the first match");
}

#[test]
fn tab_cycles_forward_and_wraps_past_the_last_match() {
    let mut state = fixture();
    press(&mut state, Key::Char('F'));
    press(&mut state, Key::Char('u'));
    assert_eq!(popup_matches(&state).len(), 3);
    press(&mut state, Key::Tab);
    press(&mut state, Key::Tab);
    press(&mut state, Key::Tab);
    assert_eq!(state.popup_selected, 0, "must wrap back to the first match");
}

#[test]
fn back_tab_cycles_backward_and_wraps_before_the_first_match() {
    let mut state = fixture();
    press(&mut state, Key::Char('F'));
    press(&mut state, Key::Char('u'));
    press(&mut state, Key::BackTab);
    assert_eq!(state.popup_selected, 2, "must wrap to the last match");
}

#[test]
fn tab_does_nothing_when_there_are_no_matches() {
    let mut state = fixture();
    press(&mut state, Key::Char('F'));
    press(&mut state, Key::Char('z'));
    assert!(popup_matches(&state).is_empty());
    press(&mut state, Key::Tab);
    assert_eq!(state.popup_selected, 0);
}

#[test]
fn tab_stays_put_with_exactly_one_match() {
    let mut state = fixture();
    press(&mut state, Key::Char('F'));
    for c in "name".chars() {
        press(&mut state, Key::Char(c));
    }
    assert_eq!(popup_matches(&state).len(), 1, "\"name\" matches only one path");
    press(&mut state, Key::Tab);
    assert_eq!(state.popup_selected, 0);
    press(&mut state, Key::BackTab);
    assert_eq!(state.popup_selected, 0);
}

#[test]
fn typing_after_cycling_resets_selection_even_if_still_in_range() {
    let mut state = fixture();
    press(&mut state, Key::Char('F'));
    press(&mut state, Key::Char('u'));
    press(&mut state, Key::Tab);
    press(&mut state, Key::Tab);
    assert_eq!(state.popup_selected, 2);
    press(&mut state, Key::Backspace);
    assert_eq!(state.popup_selected, 0);
}

#[test]
fn tab_and_back_tab_are_inverses_over_a_full_cycle() {
    let mut state = fixture();
    press(&mut state, Key::Char('F'));
    press(&mut state, Key::Char('u'));
    let n = popup_matches(&state).len();
    for _ in 0..n {
        press(&mut state, Key::Tab);
    }
    assert_eq!(state.popup_selected, 0, "cycling forward exactly n times must land back on the start");
    for _ in 0..n {
        press(&mut state, Key::BackTab);
    }
    assert_eq!(state.popup_selected, 0, "cycling backward exactly n times must also land back on the start");
}

#[test]
fn cycling_to_the_last_match_then_narrowing_the_query_keeps_selection_in_range() {
    let mut state = fixture();
    press(&mut state, Key::Char('F'));
    press(&mut state, Key::Char('u'));
    press(&mut state, Key::BackTab);
    assert_eq!(state.popup_selected, 2);
    press(&mut state, Key::Char('z'));
    assert!(popup_matches(&state).is_empty());
    assert_eq!(state.popup_selected, 0);
}

#[test]
fn down_clamp_then_tab_still_wraps_correctly() {
    let mut state = fixture();
    press(&mut state, Key::Char('F'));
    press(&mut state, Key::Char('u'));
    for _ in 0..4 {
        press(&mut state, Key::Down);
    }
    assert_eq!(state.popup_selected, 2, "Down clamps at the last match");
    press(&mut state, Key::Tab);
    assert_eq!(state.popup_selected, 0, "Tab still wraps past the clamp");
    press(&mut state, Key::BackTab);
    assert_eq!(state.popup_selected, 2, "BackTab wraps back to the last match");
}

#[test]
fn popup_esc_closes_without_moving_the_cursor_or_expanding_anything() {
    let mut state = nested_fixture();
    state.collapsed.insert(p(&["root", "user"]));
    state.lines = vec![line("root", true, &["root"]), line("user", true, &["root", "user"])];
    state.cursor = 0;
    press(&mut state, Key::Char('F'));
    for c in "city".chars() {
        press(&mut state, Key::Char(c));
    }
    press(&mut state, Key::Esc);
    assert!(!state.popup_visible);
    assert_eq!(state.cursor, 0);
    assert!(state.collapsed.contains(&p(&["root", "user"])));
    assert!(state.pending_cursor_path.is_none());
}

#[test]
fn popup_enter_expands_the_selected_matchs_ancestors_and_queues_the_cursor() {
    let mut state = nested_fixture();
    state.collapsed.insert(p(&["root", "user"]));
    state.lines = vec![line("root", true, &["root"]), line("user", true, &["root", "user"])];
    state.cursor = 0;
    press(&mut state, Key::Char('F'));
    for c in "city".chars() {
        press(&mut state, Key::Char(c));
    }
    assert_eq!(popup_matches(&state), vec![p(&["root", "user", "address", "city"])]);
    press(&mut state, Key::Enter);
    assert!(!state.popup_visible, "Enter must close the popup");
    assert!(!state.collapsed.contains(&p(&["root", "user"])));
    assert_eq!(
        state.pending_cursor_path.as_deref(),
        Some(p(&["root", "user", "address", "city"]).as_slice())
    );
}

#[test]
fn popup_enter_with_no_matches_just_closes_the_popup() {
    let mut state = fixture();
    press(&mut state, Key::Char('F'));
    for c in "zzz".chars() {
        press(&mut state, Key::Char(c));
    }
    assert!(popup_matches(&state).is_empty());
    press(&mut state, Key::Enter);
    assert!(!state.popup_visible);
    assert!(state.pending_cursor_path.is_none());
}

#[test]
fn typing_q_in_the_popup_appends_to_the_query_instead_of_quitting() {
    let mut state = fixture();
    press(&mut state, Key::Char('F'));
    let quit = press(&mut state, Key::Char('q'));
    assert!(!quit);
    assert_eq!(state.popup_query, "q");
}

#[test]
fn backspace_collapses_the_nearest_parent_and_moves_cursor_there() {
    let mut state = nested_fixture();
    press(&mut state, Key::Backspace);
    assert!(state.collapsed.contains(&p(&["root", "user", "address"])));
    assert_eq!(state.cursor, 2, "cursor must move to the collapsed parent");
}

#[test]
fn backspace_on_a_container_collapses_its_parent_not_itself() {
    let mut state = nested_fixture();
    state.cursor = 2;
    press(&mut state, Key::Backspace);
    assert!(!state.collapsed.contains(&p(&["root", "user", "address"])));
    assert!(state.collapsed.contains(&p(&["root", "user"])));
    assert_eq!(state.cursor, 1);
}

#[test]
fn backspace_at_the_root_does_nothing() {
    let mut state = nested_fixture();
    state.cursor = 0;
    press(&mut state, Key::Backspace);
    assert!(state.collapsed.is_empty());
    assert_eq!(state.cursor, 0);
}

#[test]
fn shift_c_collapses_every_ancestor_and_moves_cursor_to_the_root() {
    let mut state = nested_fixture();
    press(&mut state, Key::Char('C'));
    assert!(state.collapsed.contains(&p(&["root"])));
    assert!(state.collapsed.contains(&p(&["root", "user"])));
    assert!(state.collapsed.contains(&p(&["root", "user", "address"])));
    assert_eq!(state.cursor, 0);
    assert_eq!(state.status_message.as_deref(), Some("collapsed ancestors"));
}

#[test]
fn shift_c_at_the_root_does_nothing() {
    let mut state = nested_fixture();
    state.cursor = 0;
    press(&mut state, Key::Char('C'));
    assert!(state.collapsed.is_empty());
    assert_eq!(state.status_message, None);
}

#[test]
fn enter_no_longer_collapses_a_container_line() {
    let mut state = fixture();
    press(&mut state, Key::Enter);
    assert!(state.collapsed.is_empty());
}

#[test]
fn slash_enters_search_mode_and_clears_buffer() {
    let mut state = fixture();
    state.search = "stale".to_string();
    press(&mut state, Key::Char('/'));
    assert!(state.searching);
    assert_eq!(state.search, "");
}

#[test]
fn typing_while_searching_appends_and_does_not_quit_on_q() {
    let mut state = fixture();
    state.searching = true;
    let quit = press(&mut state, Key::Char('q'));
    assert!(!quit, "'q' must type into the search buffer, not quit");
    assert_eq!(state.search, "q");
}

#[test]
fn backspace_while_searching_pops_last_char() {
    let mut state = fixture();
    state.searching = true;
    state.search = "ab".to_string();
    press(&mut state, Key::Backspace);
    assert_eq!(state.search, "a");
}

#[test]
fn tab_while_searching_cycles_to_the_next_match_instead_of_toggling_collapse() {
    let mut state = fixture();
    state.searching = true;
    state.search = "user".to_string();
    let quit = press(&mut state, Key::Tab);
    assert!(!quit);
    assert_eq!(state.pending_cursor_path.as_deref(), Some(p(&["user", "name"]).as_slice()));
}

#[test]
fn backtab_while_searching_cycles_to_the_previous_match_and_wraps() {
    let mut state = fixture();
    state.searching = true;
    state.search = "user".to_string();
    press(&mut state, Key::BackTab);
    assert_eq!(state.pending_cursor_path.as_deref(), Some(p(&["user", "age"]).as_slice()));
}

#[test]
fn cycle_search_match_does_nothing_for_empty_search() {
    let mut state = fixture();
    cycle_search_match(&mut state, 1);
    assert!(state.pending_cursor_path.is_none());
}

#[test]
fn cycle_search_match_does_nothing_when_there_are_no_matches() {
    let mut state = fixture();
    state.search = "zzz".to_string();
    cycle_search_match(&mut state, 1);
    assert!(state.pending_cursor_path.is_none());
}

#[test]
fn cycle_search_match_jumps_to_the_first_match_when_the_cursor_is_not_on_one() {
    let mut state = fixture();
    state.search = "name".to_string();
    cycle_search_match(&mut state, 1);
    assert_eq!(state.pending_cursor_path.as_deref(), Some(p(&["user", "name"]).as_slice()));
}

#[test]
fn cycle_search_match_expands_a_collapsed_ancestor_to_reach_a_hidden_match() {
    let mut state = fixture();
    state.collapsed.insert(p(&["user"]));
    state.search = "age".to_string();
    cycle_search_match(&mut state, 1);
    assert!(
        !state.collapsed.contains(&p(&["user"])),
        "the collapsed ancestor must be expanded to reach the match"
    );
    assert_eq!(state.pending_cursor_path.as_deref(), Some(p(&["user", "age"]).as_slice()));
}

#[test]
fn cycle_search_match_advances_through_lines_sharing_the_same_path_instead_of_getting_stuck() {
    let mut state = duplicate_path_state();
    state.searching = true;
    state.search = "item".to_string();
    press(&mut state, Key::Tab);
    assert_eq!(
        (state.pending_cursor_path.clone(), state.pending_cursor_occurrence),
        (Some(p(&["item"])), 1),
        "must advance to the 2nd occurrence, not stay on the 1st"
    );
    let path = state.pending_cursor_path.take().unwrap();
    let occurrence = std::mem::take(&mut state.pending_cursor_occurrence);
    move_cursor_to_nth_path(&mut state, &path, occurrence);
    assert_eq!(state.cursor, 1, "cursor must land on the 2nd \"item\" line");
    press(&mut state, Key::Tab);
    assert_eq!(state.pending_cursor_occurrence, 2, "must advance to the 3rd occurrence");
}

#[test]
fn cycle_search_match_wraps_backward_across_lines_sharing_the_same_path() {
    let mut state = duplicate_path_state();
    state.searching = true;
    state.search = "item".to_string();
    press(&mut state, Key::BackTab);
    assert_eq!(
        (state.pending_cursor_path.clone(), state.pending_cursor_occurrence),
        (Some(p(&["item"])), 2),
        "backward from the 1st occurrence must wrap to the last (3rd)"
    );
}

#[test]
fn move_cursor_to_nth_path_lands_on_the_requested_occurrence() {
    let mut state = duplicate_path_state();
    move_cursor_to_nth_path(&mut state, &["item".to_string()], 2);
    assert_eq!(state.cursor, 2);
}

#[test]
fn enter_or_esc_exits_search_mode_without_collapsing() {
    let mut state = fixture();
    state.searching = true;
    press(&mut state, Key::Enter);
    assert!(!state.searching);
    assert!(state.collapsed.is_empty());
}

#[test]
fn c_collapses_every_known_container_and_sets_status() {
    let mut state = fixture();
    press(&mut state, Key::Char('c'));
    assert_eq!(state.collapsed.len(), state.all_container_paths.len());
    for path in state.all_container_paths.paths() {
        assert!(state.collapsed.contains(&path));
    }
    assert_eq!(state.status_message.as_deref(), Some("collapsed all"));
}

#[test]
fn e_expands_everything_and_sets_status() {
    let mut state = fixture();
    state.collapsed = state.all_container_paths.copy();
    press(&mut state, Key::Char('e'));
    assert!(state.collapsed.is_empty());
    assert_eq!(state.status_message.as_deref(), Some("expanded all"));
}

fn three_siblings_state() -> (AppState, JsonNode) {
    let node = j(r#"{"a": {"x": 1}, "b": {"y": 1}, "c": {"z": 1}}"#);
    (AppState::new_json(&node, false, false), node)
}

#[test]
fn collapse_all_repositions_the_cursor_to_the_root_ancestor_not_an_unrelated_node() {
    let (mut state, node) = three_siblings_state();
    move_cursor_to_path(&mut state, &p(&["b", "y"]));
    assert_eq!(state.lines[state.cursor].key, "y");
    press(&mut state, Key::Char('c'));
    rebuild_json_lines(&mut state, &node);
    assert_eq!(state.lines[state.cursor].path, p(&["b"]));
}

#[test]
fn expand_all_repositions_the_cursor_back_onto_the_same_node() {
    let (mut state, node) = three_siblings_state();
    state.collapsed.insert(p(&["a"]));
    rebuild_json_lines(&mut state, &node);
    move_cursor_to_path(&mut state, &p(&["b"]));
    assert_eq!(state.lines[state.cursor].key, "b");
    press(&mut state, Key::Char('e'));
    rebuild_json_lines(&mut state, &node);
    assert_eq!(state.lines[state.cursor].path, p(&["b"]));
}

#[test]
fn expand_all_leaves_the_cursor_on_a_still_truncated_arrays_summary_line() {
    let items = vec!["\"x\""; 205].join(",");
    let node = j(&format!("{{\"items\": [{items}]}}"));
    let mut state = AppState::new_json(&node, false, false);
    move_cursor_to_path(&mut state, &p(&["items", "…more"]));
    assert!(state.lines[state.cursor].is_array_summary);
    press(&mut state, Key::Char('e'));
    rebuild_json_lines(&mut state, &node);
    assert_eq!(state.lines[state.cursor].path, p(&["items", "…more"]));
}

#[test]
fn collapse_all_clears_array_overrides_so_a_recollapsed_array_resets_to_preview() {
    let mut state = fixture();
    state.array_overrides.insert(p(&["user"]));
    press(&mut state, Key::Char('c'));
    assert!(state.array_overrides.is_empty());
}

#[test]
fn y_sets_a_copied_status_message_with_the_current_path() {
    let mut state = fixture();
    state.cursor = 1;
    press(&mut state, Key::Char('y'));
    assert_eq!(state.status_message.as_deref(), Some("copied: user.name"));
}

#[test]
fn status_message_clears_on_the_next_non_search_keypress() {
    let mut state = fixture();
    state.status_message = Some("stale".to_string());
    press(&mut state, Key::Down);
    assert_eq!(state.status_message, None);
}

#[test]
fn jump_to_next_match_wraps_from_the_last_line_back_to_the_first() {
    let mut state = fixture();
    state.cursor = 2;
    state.search = "USER".to_string();
    jump_to_next_match(&mut state);
    assert_eq!(state.cursor, 0);
}

#[test]
fn jump_to_next_match_leaves_cursor_when_nothing_matches() {
    let mut state = fixture();
    state.search = "zzz".to_string();
    jump_to_next_match(&mut state);
    assert_eq!(state.cursor, 0);
}

#[test]
fn jump_to_next_match_does_nothing_for_empty_search() {
    let mut state = fixture();
    state.cursor = 1;
    jump_to_next_match(&mut state);
    assert_eq!(state.cursor, 1);
}

#[test]
fn fuzzy_matches_matches_non_contiguous_characters_in_order() {
    assert!(fuzzy_matches("user.name", "usnm"));
    assert!(fuzzy_matches("user.name", "user.name"));
    assert!(fuzzy_matches("USER", "user"));
    assert!(!fuzzy_matches("user", "usnm"));
    assert!(!fuzzy_matches("abc", "cab"), "order must be preserved");
}

#[test]
fn fuzzy_match_char_indices_finds_the_greedy_leftmost_positions() {
    assert_eq!(fuzzy_match_char_indices("user.name", "usnm"), Some(vec![0, 1, 5, 7]));
}

#[test]
fn fuzzy_match_char_indices_is_case_insensitive() {
    assert_eq!(fuzzy_match_char_indices("USER", "user"), Some(vec![0, 1, 2, 3]));
}

#[test]
fn fuzzy_match_char_indices_returns_none_when_a_pattern_char_is_missing() {
    assert_eq!(fuzzy_match_char_indices("user", "usnm"), None);
}

#[test]
fn fuzzy_match_char_indices_returns_none_when_order_is_violated() {
    assert_eq!(fuzzy_match_char_indices("abc", "cab"), None);
}

#[test]
fn fuzzy_match_char_indices_of_an_empty_pattern_matches_nothing_at_all() {
    assert_eq!(fuzzy_match_char_indices("anything", ""), Some(vec![]));
}

#[test]
fn jump_to_next_match_finds_a_fuzzy_non_contiguous_match() {
    let mut state = fixture();
    state.search = "nme".to_string();
    jump_to_next_match(&mut state);
    assert_eq!(state.cursor, 1, "must fuzzy-match \"name\" via non-contiguous chars");
}

#[test]
fn jump_to_next_match_matches_against_the_full_dotted_path_not_just_the_own_key() {
    let mut state = fixture();
    state.search = "usag".to_string();
    jump_to_next_match(&mut state);
    assert_eq!(state.cursor, 2, "\"user.age\" line must be reached");
}

#[test]
fn jump_to_next_match_finds_a_visible_lines_key_value_combo() {
    let mut state = fixture();
    state.lines.push(Line {
        depth: 0,
        key: "author".to_string(),
        value: Some(("\"user0\"".to_string(), Color::Str)),
        path: p(&["author"]),
        has_children: false,
        is_array_summary: false,
        type_label: "string (5 chars)".to_string(),
    });
    state.search = "author: \"user".to_string();
    jump_to_next_match(&mut state);
    assert_eq!(state.cursor, 3, "the author line must be reached");
}

#[test]
fn search_ignores_the_array_summary_lines_synthetic_boilerplate_value() {
    let mut state = fixture();
    state.lines.push(array_summary_line(&["user", "age", "…more"]));
    state.search = "tab to show".to_string();
    jump_to_next_match(&mut state);
    assert_eq!(state.cursor, 0, "the synthetic summary text must not be searchable");
}

#[test]
fn jump_to_next_match_reaches_into_a_collapsed_subtree() {
    let mut state = nested_fixture();
    state.collapsed.insert(p(&["root", "user"]));
    state.lines = vec![line("root", true, &["root"]), line("user", true, &["root", "user"])];
    state.cursor = 0;
    state.search = "city".to_string();
    jump_to_next_match(&mut state);
    assert!(
        !state.collapsed.contains(&p(&["root", "user"])),
        "the collapsed ancestor must be expanded so the match becomes reachable"
    );
    assert_eq!(
        state.pending_cursor_path.as_deref(),
        Some(p(&["root", "user", "address", "city"]).as_slice()),
        "the matched path must be queued for cursor placement once lines rebuild"
    );
}

#[test]
fn jump_to_next_match_prefers_a_visible_match_over_the_full_document_search() {
    let mut state = nested_fixture();
    state.search = "user".to_string();
    jump_to_next_match(&mut state);
    assert_eq!(state.cursor, 1, "a match already visible must win without touching collapsed state");
    assert!(state.pending_cursor_path.is_none());
}

#[test]
fn jump_to_next_match_reaches_a_leaf_beyond_the_array_preview_truncation() {
    let items = vec!["\"x\""; 300].join(",");
    let node = j(&format!("{{\"logs\": [{items}]}}"));
    let mut state = AppState::new_json(&node, false, false);
    state.search = "250".to_string();
    state.searching = true;
    jump_to_next_match(&mut state);
    rebuild_json_lines(&mut state, &node);
    assert!(state.array_overrides.contains(&p(&["logs"])));
    assert_eq!(state.lines[state.cursor].path, p(&["logs", "[250]"]));
}

#[test]
fn jump_to_next_match_leaves_state_untouched_when_nothing_matches_anywhere() {
    let mut state = nested_fixture();
    state.cursor = 0;
    state.search = "zzz".to_string();
    jump_to_next_match(&mut state);
    assert_eq!(state.cursor, 0);
    assert!(state.pending_cursor_path.is_none());
    assert!(state.collapsed.is_empty());
}

#[test]
fn question_mark_toggles_help_visibility() {
    let mut state = fixture();
    press(&mut state, Key::Char('?'));
    assert!(state.help_visible);
    press(&mut state, Key::Char('?'));
    assert!(!state.help_visible);
}

#[test]
fn while_help_is_visible_other_keys_are_swallowed_except_dismiss() {
    let mut state = fixture();
    state.help_visible = true;
    let quit = press(&mut state, Key::Down);
    assert!(!quit);
    assert_eq!(state.cursor, 0);
    assert!(state.help_visible);
}

#[test]
fn esc_dismisses_help_without_quitting() {
    let mut state = fixture();
    state.help_visible = true;
    assert!(!press(&mut state, Key::Esc));
    assert!(!state.help_visible);
}

#[test]
fn q_quits_even_while_help_is_visible() {
    let mut state = fixture();
    state.help_visible = true;
    assert!(press(&mut state, Key::Char('q')));
}

#[test]
fn digit_key_tags_the_current_node() {
    let mut state = fixture();
    press(&mut state, Key::Char('2'));
    assert_eq!(state.tags.get(&p(&["user"])), Some(2));
    assert_eq!(state.status_message.as_deref(), Some("tagged 2: user"));
}

#[test]
fn tag_status_message_escapes_control_bytes_in_the_path() {
    let mut state = fixture();
    state.lines[0] = line("before\u{1b}after", true, &["before\u{1b}after"]);
    press(&mut state, Key::Char('2'));
    let msg = state.status_message.as_deref().unwrap();
    assert!(!msg.contains('\u{1b}'));
    assert_eq!(msg, "tagged 2: before\\u001bafter");
    assert!(state.tags.get(&p(&["before\u{1b}after"])).is_some());
}

#[test]
fn pressing_the_same_digit_again_untags_the_node() {
    let mut state = fixture();
    press(&mut state, Key::Char('3'));
    press(&mut state, Key::Char('3'));
    assert_eq!(state.tags.len(), 0);
    assert_eq!(state.status_message.as_deref(), Some("untagged: user"));
}

#[test]
fn pressing_a_different_digit_replaces_the_existing_tag() {
    let mut state = fixture();
    press(&mut state, Key::Char('1'));
    press(&mut state, Key::Char('4'));
    assert_eq!(state.tags.get(&p(&["user"])), Some(4));
    assert_eq!(state.tags.len(), 1);
}

#[test]
fn digit_8_tags_the_node_using_the_expanded_palette() {
    let mut state = fixture();
    press(&mut state, Key::Char('8'));
    assert_eq!(state.tags.get(&p(&["user"])), Some(8));
    assert_eq!(state.status_message.as_deref(), Some("tagged 8: user"));
}

#[test]
fn digit_9_is_not_bound_to_tagging() {
    let mut state = fixture();
    press(&mut state, Key::Char('9'));
    assert_eq!(state.tags.len(), 0);
}

#[test]
fn x_key_clears_every_tag_at_once() {
    let mut state = fixture();
    press(&mut state, Key::Char('1'));
    state.cursor = 1;
    press(&mut state, Key::Char('2'));
    assert_eq!(state.tags.len(), 2);
    press(&mut state, Key::Char('x'));
    assert_eq!(state.tags.len(), 0);
    assert_eq!(state.status_message.as_deref(), Some("cleared 2 tags"));
}

#[test]
fn x_key_with_no_tags_reports_zero_cleared() {
    let mut state = fixture();
    press(&mut state, Key::Char('x'));
    assert_eq!(state.tags.len(), 0);
    assert_eq!(state.status_message.as_deref(), Some("cleared 0 tags"));
}

#[test]
fn tagging_the_array_summary_line_tags_the_arrays_real_path() {
    let mut state = fixture();
    state.lines.push(array_summary_line(&["user", "age", "…more"]));
    state.cursor = 3;
    press(&mut state, Key::Char('1'));
    assert_eq!(state.tags.get(&p(&["user", "age"])), Some(1));
}

#[test]
fn is_jq_identifier_accepts_plain_identifiers_and_rejects_the_rest() {
    assert!(is_jq_identifier("user"));
    assert!(is_jq_identifier("_private"));
    assert!(is_jq_identifier("user2"));
    assert!(!is_jq_identifier("2fast"), "must not start with a digit");
    assert!(!is_jq_identifier("odd key"), "must not contain a space");
    assert!(!is_jq_identifier(""), "must not be empty");
}

#[test]
fn to_jq_path_converts_object_keys_and_array_indices() {
    assert_eq!(to_jq_path(&p(&["user", "tags", "[0]"])), ".user.tags[0]");
}

#[test]
fn to_jq_path_quotes_a_key_that_is_not_a_valid_identifier() {
    assert_eq!(to_jq_path(&p(&["odd key"])), ".[\"odd key\"]");
}

#[test]
fn to_jq_path_escapes_embedded_quotes_and_backslashes_in_a_quoted_key() {
    assert_eq!(to_jq_path(&p(&["say \"hi\""])), ".[\"say \\\"hi\\\"\"]");
}

#[test]
fn to_jq_path_of_an_item_of_a_root_array_starts_with_a_dot() {
    assert_eq!(to_jq_path(&p(&["[0]"])), ".[0]");
    assert_eq!(to_jq_path(&p(&["[2]", "id"])), ".[2].id");
}

#[test]
fn to_jq_path_of_the_root_is_a_bare_dot() {
    assert_eq!(to_jq_path(&[]), ".");
}

#[test]
fn to_jq_path_escapes_control_characters_in_a_quoted_key() {
    assert_eq!(to_jq_path(&p(&["line\nbreak"])), ".[\"line\\nbreak\"]");
    assert_eq!(to_jq_path(&p(&["a\tb"])), ".[\"a\\tb\"]");
}

#[test]
fn a_key_shaped_like_a_bracketed_word_is_still_quoted_not_treated_as_an_index() {
    assert_eq!(to_jq_path(&p(&["[odd]"])), ".[\"[odd]\"]");
    assert_eq!(to_jq_path(&p(&["[]"])), ".[\"[]\"]");
}

#[test]
fn shift_y_yanks_a_jq_path_for_json_documents() {
    let mut state = fixture();
    state.cursor = 1;
    press(&mut state, Key::Char('Y'));
    assert_eq!(state.status_message.as_deref(), Some("copied: .user.name"));
}

#[test]
fn shift_y_is_unavailable_for_xml_documents() {
    let mut state = fixture();
    state.is_json = false;
    state.cursor = 1;
    press(&mut state, Key::Char('Y'));
    assert_eq!(state.status_message.as_deref(), Some("jq path is only available for JSON documents"));
}

#[test]
fn shift_y_on_the_array_summary_line_yanks_the_arrays_real_jq_path() {
    let mut state = fixture();
    state.lines.push(array_summary_line(&["user", "age", "…more"]));
    state.cursor = 3;
    press(&mut state, Key::Char('Y'));
    assert_eq!(state.status_message.as_deref(), Some("copied: .user.age"));
}

#[test]
fn enter_in_pick_mode_on_json_prints_a_jq_path_and_quits() {
    let mut state = fixture();
    state.pick_mode = true;
    state.cursor = 1;
    assert!(press(&mut state, Key::Enter));
    assert_eq!(state.pick_result.as_deref(), Some(".user.name"));
}

#[test]
fn enter_in_pick_mode_on_xml_prints_the_dotted_path_and_quits() {
    let mut state = fixture();
    state.pick_mode = true;
    state.is_json = false;
    state.cursor = 1;
    assert!(press(&mut state, Key::Enter));
    assert_eq!(state.pick_result.as_deref(), Some("user.name"));
}

#[test]
fn enter_in_pick_mode_on_the_array_summary_line_picks_the_arrays_real_path() {
    let mut state = fixture();
    state.pick_mode = true;
    state.lines.push(array_summary_line(&["user", "age", "…more"]));
    state.cursor = 3;
    assert!(press(&mut state, Key::Enter));
    assert_eq!(state.pick_result.as_deref(), Some(".user.age"));
}

#[test]
fn enter_without_pick_mode_does_nothing() {
    let mut state = fixture();
    assert!(!press(&mut state, Key::Enter));
    assert!(state.pick_result.is_none());
}

#[test]
fn i_opens_the_inspect_popup() {
    let mut state = fixture();
    press(&mut state, Key::Char('i'));
    assert!(state.inspect_visible);
}

#[test]
fn i_closes_the_inspect_popup_when_already_open() {
    let mut state = fixture();
    state.inspect_visible = true;
    press(&mut state, Key::Char('i'));
    assert!(!state.inspect_visible);
}

#[test]
fn esc_closes_the_inspect_popup_instead_of_quitting() {
    let mut state = fixture();
    state.inspect_visible = true;
    assert!(!press(&mut state, Key::Esc));
    assert!(!state.inspect_visible);
}

#[test]
fn q_still_quits_while_the_inspect_popup_is_open() {
    let mut state = fixture();
    state.inspect_visible = true;
    assert!(press(&mut state, Key::Char('q')));
}

#[test]
fn other_keys_are_ignored_while_the_inspect_popup_is_open() {
    let mut state = fixture();
    state.inspect_visible = true;
    press(&mut state, Key::Down);
    assert_eq!(state.cursor, 0);
    assert!(state.inspect_visible);
}

#[test]
fn shift_v_does_nothing_on_an_empty_document_instead_of_panicking() {
    let mut state = tall_fixture(0, 0);
    press(&mut state, Key::Char('V'));
    assert!(state.visual_anchor.is_none());
}

#[test]
fn visual_actions_do_not_panic_if_lines_become_empty_while_a_stale_anchor_is_set() {
    let mut state = tall_fixture(0, 0);
    for key in [Key::Char('l'), Key::Char('h'), Key::Char('c'), Key::Char('e')] {
        state.visual_anchor = Some(0);
        press(&mut state, key);
    }
}

#[test]
fn shift_v_enters_visual_mode_anchored_at_the_cursor() {
    let mut state = fixture();
    state.cursor = 1;
    press(&mut state, Key::Char('V'));
    assert_eq!(state.visual_anchor, Some(1));
}

#[test]
fn j_and_k_extend_the_selection_without_leaving_visual_mode() {
    let mut state = fixture();
    press(&mut state, Key::Char('V'));
    press(&mut state, Key::Char('j'));
    assert!(state.visual_anchor.is_some());
    assert_eq!(state.cursor, 1);
    assert_eq!(visual_range(&state), (0, 1));
}

#[test]
fn esc_cancels_visual_mode_without_any_changes() {
    let mut state = nested_fixture();
    state.cursor = 0;
    press(&mut state, Key::Char('V'));
    press(&mut state, Key::Char('j'));
    press(&mut state, Key::Esc);
    assert!(state.visual_anchor.is_none());
    assert!(state.collapsed.is_empty());
}

#[test]
fn shift_v_again_also_cancels_visual_mode() {
    let mut state = fixture();
    press(&mut state, Key::Char('V'));
    press(&mut state, Key::Char('V'));
    assert!(state.visual_anchor.is_none());
}

#[test]
fn q_still_quits_from_visual_mode() {
    let mut state = fixture();
    press(&mut state, Key::Char('V'));
    assert!(press(&mut state, Key::Char('q')));
}

#[test]
fn visual_l_expands_every_selected_container_and_exits_visual_mode() {
    let mut state = nested_fixture();
    state.collapsed.insert(p(&["root", "user"]));
    state.collapsed.insert(p(&["root", "user", "address"]));
    state.cursor = 0;
    press(&mut state, Key::Char('V'));
    press(&mut state, Key::Char('j'));
    press(&mut state, Key::Char('j'));
    press(&mut state, Key::Char('l'));
    assert!(state.visual_anchor.is_none(), "must auto-exit visual mode");
    assert!(!state.collapsed.contains(&p(&["root", "user"])));
    assert!(!state.collapsed.contains(&p(&["root", "user", "address"])));
}

#[test]
fn visual_h_collapses_every_selected_container_and_exits_visual_mode() {
    let mut state = nested_fixture();
    state.cursor = 0;
    press(&mut state, Key::Char('V'));
    press(&mut state, Key::Char('j'));
    press(&mut state, Key::Char('j'));
    press(&mut state, Key::Char('h'));
    assert!(state.visual_anchor.is_none());
    assert!(state.collapsed.contains(&p(&["root"])));
    assert!(state.collapsed.contains(&p(&["root", "user"])));
    assert!(state.collapsed.contains(&p(&["root", "user", "address"])));
}

#[test]
fn visual_h_never_jumps_to_a_parent_unlike_single_line_h() {
    let mut state = nested_fixture();
    state.cursor = 3;
    press(&mut state, Key::Char('V'));
    press(&mut state, Key::Char('h'));
    assert_eq!(state.cursor, 3);
    assert!(state.collapsed.is_empty());
}

#[test]
fn visual_c_collapses_every_descendant_of_the_selected_lines() {
    let mut state = nested_fixture();
    state.cursor = 0;
    press(&mut state, Key::Char('V'));
    press(&mut state, Key::Char('c'));
    assert!(state.visual_anchor.is_none());
    assert!(state.collapsed.contains(&p(&["root"])));
    assert!(state.collapsed.contains(&p(&["root", "user"])));
    assert!(state.collapsed.contains(&p(&["root", "user", "address"])));
    assert_eq!(state.pending_cursor_path.as_deref(), Some(p(&["root"]).as_slice()));
}

#[test]
fn visual_e_expands_every_descendant_of_the_selected_lines() {
    let mut state = nested_fixture();
    state.collapsed = state.all_container_paths.copy();
    state.cursor = 0;
    press(&mut state, Key::Char('V'));
    press(&mut state, Key::Char('e'));
    assert!(state.visual_anchor.is_none());
    assert!(state.collapsed.is_empty());
    assert_eq!(state.pending_cursor_path.as_deref(), Some(p(&["root"]).as_slice()));
}

#[test]
fn selection_direction_does_not_matter() {
    let mut state = nested_fixture();
    state.cursor = 2;
    press(&mut state, Key::Char('V'));
    press(&mut state, Key::Char('k'));
    press(&mut state, Key::Char('k'));
    assert_eq!(state.cursor, 0);
    assert_eq!(visual_range(&state), (0, 2));
    press(&mut state, Key::Char('h'));
    assert!(state.collapsed.contains(&p(&["root"])));
    assert!(state.collapsed.contains(&p(&["root", "user"])));
    assert!(state.collapsed.contains(&p(&["root", "user", "address"])));
}

#[test]
fn tab_twice_on_an_expanded_container_restores_the_collapsed_set() {
    let mut state = fixture();
    state.cursor = 0;
    assert!(!state.collapsed.contains(&p(&["user"])));
    press(&mut state, Key::Tab);
    assert!(state.collapsed.contains(&p(&["user"])));
    press(&mut state, Key::Tab);
    assert!(!state.collapsed.contains(&p(&["user"])));
    assert_eq!(state.collapsed.len(), 0);
}

#[test]
fn a_tag_key_twice_leaves_the_tags_as_they_were() {
    let mut state = fixture();
    state.cursor = 1;
    press(&mut state, Key::Char('4'));
    assert_eq!(state.tags.get(&p(&["user", "name"])), Some(4));
    press(&mut state, Key::Char('4'));
    assert_eq!(state.tags.get(&p(&["user", "name"])), None);
    assert_eq!(state.tags.len(), 0);
}

#[test]
fn typing_then_backspace_restores_the_search_query() {
    let mut state = fixture();
    press(&mut state, Key::Char('/'));
    press(&mut state, Key::Char('n'));
    let before = state.search.clone();
    press(&mut state, Key::Char('z'));
    press(&mut state, Key::Backspace);
    assert_eq!(state.search, before);
    assert!(state.searching);
}

#[test]
fn popup_tab_then_shift_tab_returns_to_the_same_selection() {
    let mut state = fixture();
    press(&mut state, Key::Char('F'));
    press(&mut state, Key::Char('u'));
    let n = popup_matches(&state).len();
    assert!(n >= 2);
    for start in 0..n {
        state.popup_selected = start;
        press(&mut state, Key::Tab);
        assert_eq!(state.popup_selected, (start + 1) % n);
        press(&mut state, Key::BackTab);
        assert_eq!(state.popup_selected, start);
    }
}

#[test]
fn the_cursor_stays_on_a_line_through_every_key() {
    let keys = [
        Key::Down, Key::Down, Key::Char('G'), Key::Char('k'), Key::Char('h'), Key::Tab,
        Key::Char('L'), Key::Char('M'), Key::Char('H'), Key::PageDown, Key::PageUp,
        Key::Backspace, Key::Char('C'), Key::Char('c'), Key::Char('e'), Key::Char('n'),
        Key::Char('V'), Key::Down, Key::Char('h'), Key::Char('g'), Key::Char('9'), Key::Down,
    ];
    let mut state = nested_fixture();
    for k in keys {
        press(&mut state, k);
        assert!(state.cursor < state.lines.len(), "cursor left the lines after {k:?}");
    }
}

#[test]
fn tab_twice_on_a_collapsed_container_restores_the_collapsed_set() {
    let mut state = fixture();
    state.cursor = 0;
    state.collapsed.insert(p(&["user"]));
    press(&mut state, Key::Tab);
    assert!(!state.collapsed.contains(&p(&["user"])));
    press(&mut state, Key::Tab);
    assert!(state.collapsed.contains(&p(&["user"])));
    assert_eq!(state.collapsed.len(), 1);
}

#[test]
fn fuzzy_match_positions_count_the_characters_of_the_text_itself() {
    assert_eq!(fuzzy_match_char_indices("\u{130}a", "a"), Some(vec![1]));
    assert_eq!(fuzzy_match_char_indices("\u{130}ab", "ib"), Some(vec![0, 2]));
    assert_eq!(fuzzy_match_char_indices("Name", "NE"), Some(vec![0, 3]));
}

#[test]
fn fuzzy_matching_lowercases_the_whole_text_so_a_final_sigma_matches() {
    assert_eq!(fuzzy_match_char_indices("\u{391}\u{3a3}", "\u{3c2}"), Some(vec![1]));
    assert!(fuzzy_matches("\u{391}\u{3a3}", "\u{3c2}"));
    assert_eq!(fuzzy_match_char_indices("user.name", "usnm"), Some(vec![0, 1, 5, 7]));
}
