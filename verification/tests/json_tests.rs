use serde_json::Value;
use treeq::color::ColorMode;
use treeq::documents::{json_tree_of, yaml_tree_of};
use treeq::json_tree::{
    escape_display_str, unescape_path_segment,
    escape_path_segment, find_json_path, split_path_segments, JsonNode, JsonScalar, RawYaml,
};
use treeq::paths::json_paths;
use treeq::render::render_json;
use treeq::stats::{json_stats, JsonStats};

/// The tree of a JSON text (object keys in document order).
fn j(text: &str) -> JsonNode {
    fn node(v: &Value) -> JsonNode {
        match v {
            Value::Null => JsonNode::Scalar(JsonScalar::Null),
            Value::Bool(b) => JsonNode::Scalar(JsonScalar::Bool(*b)),
            Value::Number(n) => JsonNode::Scalar(JsonScalar::Number(n.to_string())),
            Value::String(s) => JsonNode::Scalar(JsonScalar::Str(s.clone())),
            Value::Array(a) => JsonNode::Array(a.iter().map(node).collect()),
            Value::Object(o) => {
                JsonNode::Object(o.iter().map(|(k, v)| (k.clone(), node(v))).collect())
            }
        }
    }
    node(&serde_json::from_str(text).unwrap())
}

fn s(text: &str) -> JsonNode {
    JsonNode::Scalar(JsonScalar::Str(text.to_string()))
}

#[test]
fn display_quotes_strings_and_escapes_embedded_quotes_and_backslashes() {
    assert_eq!(JsonScalar::Str("Alice".to_string()).display(), "\"Alice\"");
    assert_eq!(
        JsonScalar::Str("He said \"hi\"".to_string()).display(),
        "\"He said \\\"hi\\\"\""
    );
    assert_eq!(JsonScalar::Str("back\\slash".to_string()).display(), "\"back\\\\slash\"");
}

#[test]
fn display_escapes_control_bytes_instead_of_passing_them_to_the_terminal_raw() {
    let evil = "before\u{1b}]52;c;aGFja2VkCg==\u{7}after";
    let out = JsonScalar::Str(evil.to_string()).display();
    assert!(!out.contains('\u{1b}'), "raw ESC byte must not survive display()");
    assert!(!out.contains('\u{7}'), "raw BEL byte must not survive display()");
    assert_eq!(out, "\"before\\u001b]52;c;aGFja2VkCg==\\u0007after\"");
}

#[test]
fn display_uses_short_escapes_for_newline_tab_and_carriage_return() {
    assert_eq!(JsonScalar::Str("a\nb\tc\rd".to_string()).display(), "\"a\\nb\\tc\\rd\"");
}

#[test]
fn display_leaves_number_bool_and_null_unquoted() {
    assert_eq!(JsonScalar::Number("30".to_string()).display(), "30");
    assert_eq!(JsonScalar::Bool(true).display(), "true");
    assert_eq!(JsonScalar::Null.display(), "null");
}

#[test]
fn json_tree_finds_nested_path() {
    let node = j(r#"{"user": {"tags": ["admin", "user"]}}"#);
    let found = find_json_path(&node, "user.tags.1").unwrap();
    assert_eq!(found, &s("user"));
}

#[test]
fn json_tree_reports_first_unmatched_segment() {
    let node = j(r#"{"user": {"name": "Alice"}}"#);
    let err = find_json_path(&node, "user.missing.deeper").unwrap_err();
    assert_eq!(err, "missing");
}

#[test]
fn resolves_a_key_containing_a_literal_dot_when_it_is_backslash_escaped() {
    let node = j(r#"{"a.b": {"c": 1}}"#);
    let found = find_json_path(&node, "a\\.b.c").unwrap();
    assert_eq!(found, &JsonNode::Scalar(JsonScalar::Number("1".to_string())));
}

#[test]
fn an_unescaped_dot_still_splits_a_dotted_key_into_two_segments() {
    let node = j(r#"{"a.b": 1}"#);
    let err = find_json_path(&node, "a.b").unwrap_err();
    assert_eq!(err, "a");
}

#[test]
fn escape_path_segment_and_split_path_segments_round_trip_a_dotted_key() {
    let escaped = escape_path_segment("a.b");
    assert_eq!(escaped, "a\\.b");
    assert_eq!(split_path_segments(&escaped), vec!["a.b".to_string()]);
}

#[test]
fn split_path_segments_round_trips_a_key_with_both_a_backslash_and_a_dot() {
    let escaped = escape_path_segment("a\\.b");
    assert_eq!(split_path_segments(&escaped), vec!["a\\.b".to_string()]);
}

#[test]
fn converts_yaml_mapping_and_sequence() {
    let raw = RawYaml::Mapping(vec![
        (Some("name".to_string()), RawYaml::Str("Alice".to_string())),
        (
            Some("tags".to_string()),
            RawYaml::Sequence(vec![
                RawYaml::Str("admin".to_string()),
                RawYaml::Str("user".to_string()),
            ]),
        ),
    ]);
    let node = JsonNode::from_yaml_value(&raw).unwrap();
    assert_eq!(
        node,
        JsonNode::Object(vec![
            ("name".to_string(), s("Alice")),
            ("tags".to_string(), JsonNode::Array(vec![s("admin"), s("user")])),
        ])
    );
}

#[test]
fn converts_yaml_scalars() {
    let raw = RawYaml::Mapping(vec![
        (Some("age".to_string()), RawYaml::Number("30".to_string())),
        (Some("active".to_string()), RawYaml::Bool(true)),
        (Some("middle_name".to_string()), RawYaml::Null),
    ]);
    let node = JsonNode::from_yaml_value(&raw).unwrap();
    assert_eq!(
        node,
        JsonNode::Object(vec![
            ("age".to_string(), JsonNode::Scalar(JsonScalar::Number("30".to_string()))),
            ("active".to_string(), JsonNode::Scalar(JsonScalar::Bool(true))),
            ("middle_name".to_string(), JsonNode::Scalar(JsonScalar::Null)),
        ])
    );
}

#[test]
fn errors_on_non_string_mapping_key() {
    let raw = RawYaml::Mapping(vec![
        (None, RawYaml::Str("one".to_string())),
        (None, RawYaml::Str("two".to_string())),
    ]);
    let err = JsonNode::from_yaml_value(&raw).unwrap_err();
    assert_eq!(err, "YAML mapping keys must be strings");
}

#[test]
fn errors_on_yaml_tagged_value() {
    let err = JsonNode::from_yaml_value(&RawYaml::Tagged).unwrap_err();
    assert_eq!(err, "YAML tags are not supported");
}

#[test]
fn a_nested_yaml_tag_is_reported_after_the_keys_before_it() {
    let raw = RawYaml::Mapping(vec![
        (Some("a".to_string()), RawYaml::Sequence(vec![RawYaml::Null, RawYaml::Tagged])),
        (None, RawYaml::Null),
    ]);
    assert_eq!(JsonNode::from_yaml_value(&raw).unwrap_err(), "YAML tags are not supported");
}

#[test]
fn lists_all_json_paths() {
    let node = j(r#"{"user": {"name": "Alice", "tags": ["admin", "user"]}}"#);
    assert_eq!(
        json_paths(&node),
        vec![
            "user".to_string(),
            "user.name".to_string(),
            "user.tags".to_string(),
            "user.tags.0".to_string(),
            "user.tags.1".to_string(),
        ]
    );
}

#[test]
fn escapes_control_bytes_in_a_json_key_within_a_listed_path() {
    let node = j("{\"before\\u001bafter\": 1}");
    assert_eq!(json_paths(&node), vec!["before\\u001bafter".to_string()]);
}

#[test]
fn escapes_a_literal_dot_in_a_json_key_so_it_is_distinguishable_from_the_path_separator() {
    let node = j(r#"{"a.b": {"c": 1}}"#);
    let paths = json_paths(&node);
    assert_eq!(paths, vec!["a\\.b".to_string(), "a\\.b.c".to_string()]);
    assert_eq!(
        find_json_path(&node, "a\\.b.c").unwrap(),
        &JsonNode::Scalar(JsonScalar::Number("1".to_string()))
    );
}

#[test]
fn every_listed_path_finds_its_node_again() {
    let node = j(r#"{"a.b": {"c\\d": [1, {"e": null}]}, "f": "g"}"#);
    for p in json_paths(&node) {
        assert!(find_json_path(&node, &p).is_ok(), "{p} must resolve");
    }
}

#[test]
fn computes_json_stats() {
    let node = j(r#"{"a": {"b": [1, 2, 3]}, "c": "x"}"#);
    assert_eq!(
        json_stats(&node),
        JsonStats { max_depth: 3, objects: 2, arrays: 1, scalars: 4 }
    );
}

#[test]
fn renders_nested_json_tree_without_color() {
    let node = j(r#"{"name": "Alice", "tags": ["admin", "user"]}"#);
    let output = render_json(&node, "root", None, None, ColorMode::Off);
    assert_eq!(
        output,
        "root\n├── name: \"Alice\"\n└── tags\n    ├── [0]: \"admin\"\n    └── [1]: \"user\"\n"
    );
}

#[test]
fn renders_json_tree_with_color() {
    let node = j(r#"{"name": "Alice"}"#);
    let output = render_json(&node, "root", None, None, ColorMode::Ansi16);
    assert!(output.contains("\x1b[36mname\x1b[0m"));
    assert!(output.contains("\x1b[32m\"Alice\"\x1b[0m"));
}

#[test]
fn renders_json_tree_with_truecolor() {
    let node = j(r#"{"name": "Alice"}"#);
    let output = render_json(&node, "root", None, None, ColorMode::Truecolor);
    assert!(output.contains("\x1b[38;2;86;182;194mname\x1b[0m"));
    assert!(output.contains("\x1b[38;2;152;195;121m\"Alice\"\x1b[0m"));
}

#[test]
fn json_guide_lines_are_tinted_by_depth_not_all_the_same_dim_gray() {
    let node = j(r#"{"user": {"name": "Alice"}}"#);
    let output = render_json(&node, "root", None, None, ColorMode::Ansi16);
    assert!(output.contains("\x1b[2m└── \x1b[0m"));
    assert!(output.contains("\x1b[2;34m    └── \x1b[0m"));
}

#[test]
fn escapes_control_bytes_in_a_json_object_key_not_just_scalar_values() {
    let node = j("{\"before\\u001bafter\": 1}");
    let output = render_json(&node, "root", None, None, ColorMode::Off);
    assert!(!output.contains('\u{1b}'));
    assert!(output.contains("before\\u001bafter"));
}

#[test]
fn renders_a_scalar_root_as_its_own_key_value_line_instead_of_nothing() {
    let node = j("42");
    assert_eq!(render_json(&node, "count", None, None, ColorMode::Off), "count: 42\n");
}

#[test]
fn renders_a_colored_scalar_root() {
    let node = j("\"Alice\"");
    let output = render_json(&node, "name", None, None, ColorMode::Ansi16);
    assert!(output.contains("\x1b[32m\"Alice\"\x1b[0m"));
    assert!(output.starts_with("name: "));
}

#[test]
fn truncates_json_tree_at_depth() {
    let node = j(r#"{"user": {"name": "Alice"}}"#);
    assert_eq!(render_json(&node, "root", Some(1), None, ColorMode::Off), "root\n└── user: …\n");
}

#[test]
fn array_limit_truncates_a_large_array_with_a_summary_line() {
    let node = j(r#"{"tags": ["a", "b", "c", "d", "e"]}"#);
    assert_eq!(
        render_json(&node, "root", None, Some(2), ColorMode::Off),
        "root\n└── tags\n    ├── [0]: \"a\"\n    ├── [1]: \"b\"\n    └── … (3 more)\n"
    );
}

#[test]
fn array_limit_does_not_affect_object_field_counts() {
    let node = j(r#"{"a": 1, "b": 2, "c": 3}"#);
    assert_eq!(
        render_json(&node, "root", None, Some(2), ColorMode::Off),
        "root\n├── a: 1\n├── b: 2\n└── c: 3\n"
    );
}

#[test]
fn array_limit_is_a_no_op_when_the_array_is_already_within_the_limit() {
    let node = j(r#"{"tags": ["a", "b"]}"#);
    assert_eq!(
        render_json(&node, "root", None, Some(5), ColorMode::Off),
        "root\n└── tags\n    ├── [0]: \"a\"\n    └── [1]: \"b\"\n"
    );
}

#[test]
fn empty_containers_show_their_shape_instead_of_looking_collapsed() {
    let node = j(r#"{"o": {}, "a": []}"#);
    assert_eq!(
        render_json(&node, "root", None, None, ColorMode::Off),
        "root\n├── o: {}\n└── a: []\n"
    );
}

#[test]
fn every_printed_path_resolves_back_to_a_node() {
    let doc = j(r#"{"a.b": {"c": [1, {"d\\e": null}]}, "list": [[true], []], "s": "x"}"#);
    let paths = json_paths(&doc);
    assert!(!paths.is_empty());
    for shown in &paths {
        assert!(find_json_path(&doc, shown).is_ok(), "{shown} does not resolve");
    }
    let leaf = find_json_path(&doc, "a\\.b.c.1.d\\\\e").unwrap();
    assert_eq!(*leaf, JsonNode::Scalar(JsonScalar::Null));
}

#[test]
fn converts_nested_object_and_array() {
    let node = json_tree_of(r#"{"name": "Alice", "tags": ["admin", "user"]}"#, false).unwrap();
    assert_eq!(
        node,
        JsonNode::Object(vec![
            ("name".to_string(), JsonNode::Scalar(JsonScalar::Str("Alice".to_string()))),
            (
                "tags".to_string(),
                JsonNode::Array(vec![
                    JsonNode::Scalar(JsonScalar::Str("admin".to_string())),
                    JsonNode::Scalar(JsonScalar::Str("user".to_string())),
                ])
            ),
        ])
    );
}

#[test]
fn converts_number_bool_and_null_scalars() {
    let node = json_tree_of(r#"{"age": 30, "active": true, "middle_name": null}"#, false).unwrap();
    assert_eq!(
        node,
        JsonNode::Object(vec![
            ("age".to_string(), JsonNode::Scalar(JsonScalar::Number("30".to_string()))),
            ("active".to_string(), JsonNode::Scalar(JsonScalar::Bool(true))),
            ("middle_name".to_string(), JsonNode::Scalar(JsonScalar::Null)),
        ])
    );
}

#[test]
fn an_invalid_json_input_gives_the_parsers_error_report() {
    let err = json_tree_of("{\"a\": }", false).unwrap_err();
    assert!(err.starts_with("error: invalid JSON at line 1, column "), "{err}");
}

#[test]
fn an_ndjson_input_gives_one_array_of_its_records() {
    let node = json_tree_of("1\n\n\"x\"\n", true).unwrap();
    assert_eq!(
        node,
        JsonNode::Array(vec![
            JsonNode::Scalar(JsonScalar::Number("1".to_string())),
            JsonNode::Scalar(JsonScalar::Str("x".to_string())),
        ])
    );
    let err = json_tree_of("1\n\nnope\n", true).unwrap_err();
    assert!(err.starts_with("error: invalid NDJSON: line 3: "), "{err}");
}

#[test]
fn a_yaml_input_with_several_documents_is_reported_as_unsupported() {
    assert_eq!(
        yaml_tree_of("a: 1\n---\nb: 2\n").unwrap_err(),
        "error: invalid YAML: multi-document YAML is not supported yet"
    );
    assert!(yaml_tree_of("key: [unterminated").unwrap_err().starts_with("error: invalid YAML: "));
    assert_eq!(yaml_tree_of("a: !Tag value\n").unwrap_err(), "error: invalid YAML: YAML tags are not supported");
    assert_eq!(
        yaml_tree_of("a: 1\n").unwrap(),
        JsonNode::Object(vec![("a".to_string(), JsonNode::Scalar(JsonScalar::Number("1".to_string())))])
    );
}

#[test]
fn rendering_without_color_writes_no_control_character_of_the_document() {
    let node = JsonNode::Object(vec![(
        "k\u{1b}]52".to_string(),
        JsonNode::Array(vec![JsonNode::Scalar(JsonScalar::Str("a\u{7}\tb\u{7f}".to_string()))]),
    )]);
    let out = render_json(&node, "root", None, None, ColorMode::Off);
    assert!(out.chars().all(|c| c == '\n' || !((c as u32) < 0x20 || c as u32 == 0x7f)), "{out:?}");
}

#[test]
fn the_json_error_report_carries_the_inputs_own_parse_error() {
    let input = "{\n  \"a\": 1,\n  \"b\": ]\n}";
    let err = serde_json::from_str::<Value>(input).unwrap_err();
    assert_eq!(
        json_tree_of(input, false).unwrap_err(),
        treeq::error_context::json_error_context(input, &err)
    );
    let yaml_err = serde_yaml::from_str::<serde_yaml::Value>("key: [unterminated").unwrap_err().to_string();
    assert_eq!(
        yaml_tree_of("key: [unterminated").unwrap_err(),
        format!("error: invalid YAML: {yaml_err}")
    );
}

#[test]
fn unescaping_reverses_the_display_escapes_of_a_hand_typed_segment() {
    for s in ["plain", "a.b", "say \"hi\"", "back\\slash", "tab\there", "bell\u{7}", "del\u{7f}"] {
        let shown: Vec<char> = escape_display_str(s).chars().collect();
        assert_eq!(unescape_path_segment(&shown), s);
    }
}
