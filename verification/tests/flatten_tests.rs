use serde_json::Value;
use treeq::json_tree::{JsonNode, JsonScalar};
use treeq::tui::flatten::{
    collect_all_paths_json, collect_all_paths_xml, collect_container_paths_json,
    collect_container_paths_xml, flatten_json, flatten_xml, json_type_label, xml_type_label,
    ARRAY_PREVIEW_LIMIT,
};
use treeq::stats::{json_stats, xml_stats};
use treeq::tui::pathset::PathSet;
use treeq::tui::state::{rebuild_json_lines, rebuild_xml_lines, AppState};
use treeq::xml_tree::{RawXml, XmlNode};

fn node(v: &Value) -> JsonNode {
    match v {
        Value::Null => JsonNode::Scalar(JsonScalar::Null),
        Value::Bool(b) => JsonNode::Scalar(JsonScalar::Bool(*b)),
        Value::Number(n) => JsonNode::Scalar(JsonScalar::Number(n.to_string())),
        Value::String(s) => JsonNode::Scalar(JsonScalar::Str(s.clone())),
        Value::Array(a) => JsonNode::Array(a.iter().map(node).collect()),
        Value::Object(o) => JsonNode::Object(o.iter().map(|(k, v)| (k.clone(), node(v))).collect()),
    }
}

fn j(text: &str) -> JsonNode {
    node(&serde_json::from_str(text).unwrap())
}

fn raw(n: roxmltree::Node) -> RawXml {
    if n.is_element() {
        RawXml::Element {
            name: n.tag_name().name().to_string(),
            attributes: n
                .attributes()
                .map(|a| (a.name().to_string(), a.value().to_string()))
                .collect(),
            children: n.children().map(raw).collect(),
        }
    } else if n.is_text() {
        RawXml::Text(n.text().unwrap_or("").to_string())
    } else {
        RawXml::Other
    }
}

fn x(xml: &str) -> XmlNode {
    let doc = roxmltree::Document::parse(xml).unwrap();
    XmlNode::from_document(&raw(doc.root_element())).unwrap()
}

fn path(segments: &[&str]) -> Vec<String> {
    segments.iter().map(|s| s.to_string()).collect()
}

fn numbers(n: usize) -> String {
    let items: Vec<String> = (0..n).map(|i| i.to_string()).collect();
    format!("{{\"tags\": [{}]}}", items.join(","))
}

#[test]
fn flattens_nested_json_when_expanded() {
    let tree = j(r#"{"user": {"name": "Alice", "tags": ["admin", "user"]}}"#);
    let mut out = Vec::new();
    flatten_json(&tree, &[], 0, &PathSet::new(), &PathSet::new(), &mut out);
    assert_eq!(out.len(), 5);
    assert_eq!(out[0].key, "user");
    assert_eq!(out[0].path, path(&["user"]));
    assert!(out[0].has_children);
    assert!(out[0].value.is_none());
    assert_eq!(out[1].key, "name");
    assert_eq!(out[1].path, path(&["user", "name"]));
    assert!(!out[1].has_children);
    assert_eq!(out[1].value.as_ref().unwrap().0, "\"Alice\"");
    assert_eq!(out[2].key, "tags");
    assert_eq!(out[2].path, path(&["user", "tags"]));
    assert_eq!(out[3].key, "[0]");
    assert_eq!(out[3].path, path(&["user", "tags", "[0]"]));
    assert_eq!(out[3].value.as_ref().unwrap().0, "\"admin\"");
    assert_eq!(out[4].key, "[1]");
    assert_eq!(out[4].path, path(&["user", "tags", "[1]"]));
    assert_eq!(out[4].value.as_ref().unwrap().0, "\"user\"");
}

#[test]
fn does_not_recurse_into_collapsed_json_containers() {
    let tree = j(r#"{"user": {"name": "Alice"}}"#);
    let mut collapsed = PathSet::new();
    collapsed.insert(path(&["user"]));
    let mut out = Vec::new();
    flatten_json(&tree, &[], 0, &collapsed, &PathSet::new(), &mut out);
    assert_eq!(out.len(), 1);
    assert_eq!(out[0].key, "user");
    assert!(out[0].has_children);
}

#[test]
fn truncates_a_large_array_with_a_summary_line() {
    let tree = j(&numbers(ARRAY_PREVIEW_LIMIT + 5));
    let mut out = Vec::new();
    flatten_json(&tree, &[], 0, &PathSet::new(), &PathSet::new(), &mut out);
    assert_eq!(out.len(), 1 + ARRAY_PREVIEW_LIMIT + 1);
    let summary = out.last().unwrap();
    assert_eq!(summary.key, "…more");
    assert!(!summary.has_children);
    assert!(summary.is_array_summary);
    assert_eq!(summary.value.as_ref().unwrap().0, "5 more (Tab to show all)");
    assert_eq!(summary.path, path(&["tags", "…more"]));
}

#[test]
fn array_override_shows_every_element_and_no_summary_line() {
    let tree = j(&numbers(ARRAY_PREVIEW_LIMIT + 5));
    let mut overrides = PathSet::new();
    overrides.insert(path(&["tags"]));
    let mut out = Vec::new();
    flatten_json(&tree, &[], 0, &PathSet::new(), &overrides, &mut out);
    assert_eq!(out.len(), 1 + ARRAY_PREVIEW_LIMIT + 5);
    assert!(out.iter().all(|l| !l.is_array_summary));
}

#[test]
fn small_arrays_are_never_truncated() {
    let tree = j(r#"{"tags": ["a", "b"]}"#);
    let mut out = Vec::new();
    flatten_json(&tree, &[], 0, &PathSet::new(), &PathSet::new(), &mut out);
    assert_eq!(out.len(), 3);
    assert!(out.iter().all(|l| !l.is_array_summary));
}

#[test]
fn flattens_xml_elements_with_text_children() {
    let tree = x("<root><user><name>Alice</name></user></root>");
    let mut out = Vec::new();
    flatten_xml(&tree, &[], 0, &PathSet::new(), &mut out);
    assert_eq!(out.len(), 2);
    assert_eq!(out[0].key, "user");
    assert!(out[0].has_children);
    assert_eq!(out[1].key, "name");
    assert_eq!(out[1].value.as_ref().unwrap().0, "Alice");
    assert_eq!(out[1].path, path(&["user", "name"]));
}

#[test]
fn xml_attributes_are_not_yet_surfaced_as_a_line_value() {
    let tree = x(r#"<root><user id="1"></user></root>"#);
    let mut out = Vec::new();
    flatten_xml(&tree, &[], 0, &PathSet::new(), &mut out);
    assert_eq!(out.len(), 1);
    assert_eq!(out[0].key, "user");
    assert!(out[0].value.is_none());
}

#[test]
fn does_not_recurse_into_collapsed_xml_containers() {
    let tree = x("<root><user><name>Alice</name></user></root>");
    let mut collapsed = PathSet::new();
    collapsed.insert(path(&["user"]));
    let mut out = Vec::new();
    flatten_xml(&tree, &[], 0, &collapsed, &mut out);
    assert_eq!(out.len(), 1);
    assert_eq!(out[0].key, "user");
}

#[test]
fn collects_all_json_container_paths_regardless_of_collapse_state() {
    let tree = j(r#"{"user": {"name": "Alice", "tags": ["admin"]}, "flag": true}"#);
    let mut out = PathSet::new();
    collect_container_paths_json(&tree, &[], &mut out);
    assert_eq!(out.len(), 2);
    assert!(out.contains(&path(&["user"])));
    assert!(out.contains(&path(&["user", "tags"])));
    assert!(!out.contains(&path(&["user", "name"])));
    assert!(!out.contains(&path(&["flag"])));
}

#[test]
fn collects_all_xml_container_paths() {
    let tree = x("<root><user><name>Alice</name></user><flag>true</flag></root>");
    let mut out = PathSet::new();
    collect_container_paths_xml(&tree, &[], &mut out);
    assert_eq!(out.len(), 1);
    assert!(out.contains(&path(&["user"])));
    assert!(!out.contains(&path(&["user", "name"])));
    assert!(!out.contains(&path(&["flag"])));
}

#[test]
fn collects_every_json_node_path_including_leaves() {
    let tree = j(r#"{"user": {"name": "Alice", "tags": ["admin"]}, "flag": true}"#);
    let mut out = Vec::new();
    collect_all_paths_json(&tree, &[], &mut out);
    let paths: Vec<_> = out.iter().map(|(p, _)| p.clone()).collect();
    assert!(paths.contains(&path(&["user"])));
    assert!(paths.contains(&path(&["user", "name"])));
    assert!(paths.contains(&path(&["user", "tags"])));
    assert!(paths.contains(&path(&["user", "tags", "[0]"])));
    assert!(paths.contains(&path(&["flag"])));
}

#[test]
fn collects_every_json_leafs_search_text_includes_its_value() {
    let tree = j(r#"{"author": "user0"}"#);
    let mut out = Vec::new();
    collect_all_paths_json(&tree, &[], &mut out);
    let (_, text) = out
        .iter()
        .find(|(p, _)| p == &path(&["author"]))
        .expect("author path must be collected");
    assert_eq!(text, "author: \"user0\"");
}

#[test]
fn collects_every_xml_node_path_including_leaves() {
    let tree = x("<root><user><name>Alice</name></user><flag>true</flag></root>");
    let mut out = Vec::new();
    collect_all_paths_xml(&tree, &[], &mut out);
    let paths: Vec<_> = out.iter().map(|(p, _)| p.clone()).collect();
    assert!(paths.contains(&path(&["user"])));
    assert!(paths.contains(&path(&["user", "name"])));
    assert!(paths.contains(&path(&["flag"])));
}

#[test]
fn collects_every_xml_leafs_search_text_includes_its_text() {
    let tree = x("<root><author>user0</author></root>");
    let mut out = Vec::new();
    collect_all_paths_xml(&tree, &[], &mut out);
    let (_, text) = out
        .iter()
        .find(|(p, _)| p == &path(&["author"]))
        .expect("author path must be collected");
    assert_eq!(text, "author: user0");
}

#[test]
fn json_type_label_describes_each_kind_of_node() {
    assert_eq!(json_type_label(&j(r#"{"a": 1, "b": 2}"#)), "object (2 fields)");
    assert_eq!(json_type_label(&j(r#"{"a": 1}"#)), "object (1 field)");
    assert_eq!(json_type_label(&j("[1, 2, 3]")), "array (3 items)");
    assert_eq!(json_type_label(&j(r#""hello""#)), "string (5 chars)");
    assert_eq!(json_type_label(&j("42")), "number");
    assert_eq!(json_type_label(&j("true")), "boolean");
    assert_eq!(json_type_label(&j("null")), "null");
}

#[test]
fn xml_type_label_describes_each_kind_of_node() {
    assert_eq!(xml_type_label(&x("<a><b/><c/></a>")), "element (2 children)");
    assert_eq!(xml_type_label(&x("<a>hello</a>")), "string (5 chars)");
    assert_eq!(xml_type_label(&x("<a/>")), "empty element");
}

fn state_with_cursor(cursor: usize) -> AppState {
    let mut s = AppState::opening(Vec::new(), PathSet::new(), Vec::new(), false, true, false);
    s.cursor = cursor;
    s
}

#[test]
fn rebuild_json_lines_repopulates_lines_from_the_tree() {
    let tree = j(r#"{"a": 1, "b": 2}"#);
    let mut state = state_with_cursor(0);
    rebuild_json_lines(&mut state, &tree);
    assert_eq!(state.lines.len(), 2);
}

#[test]
fn rebuild_json_lines_clamps_cursor_when_collapsing_shrinks_the_list() {
    let tree = j(r#"{"a": {"b": 1}}"#);
    let mut state = state_with_cursor(1);
    rebuild_json_lines(&mut state, &tree);
    assert_eq!(state.lines.len(), 2);
    state.collapsed.insert(vec!["a".to_string()]);
    state.cursor = 1;
    rebuild_json_lines(&mut state, &tree);
    assert_eq!(state.lines.len(), 1);
    assert_eq!(state.cursor, 0);
}

#[test]
fn rebuild_xml_lines_repopulates_lines_from_the_tree() {
    let tree = x("<root><a/><b/></root>");
    let mut state = state_with_cursor(5);
    rebuild_xml_lines(&mut state, &tree);
    assert_eq!(state.lines.len(), 2);
    assert_eq!(state.cursor, 1);
}

#[test]
fn rebuild_resolves_a_pending_cursor_path_to_its_new_index() {
    let tree = j(r#"{"a": {"b": 1}, "c": 2}"#);
    let mut state = state_with_cursor(0);
    state.pending_cursor_path = Some(vec!["c".to_string()]);
    rebuild_json_lines(&mut state, &tree);
    assert_eq!(state.lines[state.cursor].path, vec!["c".to_string()]);
    assert!(state.pending_cursor_path.is_none(), "a resolved pending path must be cleared");
}

#[test]
fn rebuild_leaves_cursor_alone_when_the_pending_path_is_not_present() {
    let tree = j(r#"{"a": 1}"#);
    let mut state = state_with_cursor(0);
    state.pending_cursor_path = Some(vec!["missing".to_string()]);
    rebuild_json_lines(&mut state, &tree);
    assert_eq!(state.cursor, 0);
    assert!(state.pending_cursor_path.is_none());
}

#[test]
fn the_whole_document_search_has_one_entry_per_node() {
    let tree = j(r#"{"a": {"b": [1, {"c": null}]}, "d": [], "e": "x"}"#);
    let mut out = Vec::new();
    collect_all_paths_json(&tree, &[], &mut out);
    let s = json_stats(&tree);
    assert_eq!(out.len(), s.objects + s.arrays + s.scalars - 1);
    let xtree = x("<r><a><b>t</b><b/></a><c/></r>");
    let mut xout = Vec::new();
    collect_all_paths_xml(&xtree, &[], &mut xout);
    assert_eq!(xout.len(), xml_stats(&xtree).elements - 1);
}
