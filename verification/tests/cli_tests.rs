use serde_json::Value;
use treeq::cli::{
    check_array_limit, check_options, choose_format, json_stats_report, output_mode,
    render_depth, strip_bom, xml_stats_report, yaml_error_message, OutputMode,
    AGENT_DEFAULT_DEPTH,
};
use treeq::ndjson::{ndjson_error, ndjson_records, parse_ndjson};
use treeq::clipboard::osc52_sequence;
use treeq::output::json_output;
use treeq::color::ColorMode;
use treeq::detect::Format;
use treeq::json_tree::{find_json_path, JsonNode, JsonScalar};
use treeq::paths::json_paths;
use treeq::render::{render_json, render_xml};
use treeq::stats::{json_stats, xml_stats};
use treeq::xml_tree::{RawXml, XmlNode};

fn node(v: &Value) -> JsonNode {
    match v {
        Value::Null => JsonNode::Scalar(JsonScalar::Null),
        Value::Bool(b) => JsonNode::Scalar(JsonScalar::Bool(*b)),
        Value::Number(n) => JsonNode::Scalar(JsonScalar::Number(n.to_string())),
        Value::String(s) => JsonNode::Scalar(JsonScalar::Str(s.clone())),
        Value::Array(a) => JsonNode::Array(a.iter().map(node).collect()),
        Value::Object(o) => JsonNode::Object(o.iter().map(|(k, v)| (k.clone(), node(v))).collect()),
    }
}

fn j(text: &str) -> JsonNode {
    node(&serde_json::from_str(text).unwrap())
}

fn raw(n: roxmltree::Node) -> RawXml {
    if n.is_element() {
        RawXml::Element {
            name: n.tag_name().name().to_string(),
            attributes: n
                .attributes()
                .map(|a| (a.name().to_string(), a.value().to_string()))
                .collect(),
            children: n.children().map(raw).collect(),
        }
    } else if n.is_text() {
        RawXml::Text(n.text().unwrap_or("").to_string())
    } else {
        RawXml::Other
    }
}

fn x(xml: &str) -> XmlNode {
    let doc = roxmltree::Document::parse(xml).unwrap();
    XmlNode::from_document(&raw(doc.root_element())).unwrap()
}

#[test]
fn static_render_of_a_json_object() {
    let out = render_json(&j(r#"{"name": "Alice"}"#), "root", None, None, ColorMode::Off);
    assert_eq!(out, "root\n└── name: \"Alice\"\n");
}

#[test]
fn static_render_of_an_xml_document() {
    let out = render_xml(&x("<person><name>Alice</name></person>"), None, ColorMode::Off);
    assert_eq!(out, "person\n└── name: Alice\n");
}

#[test]
fn a_path_scopes_the_render_to_its_subtree() {
    let doc = j(r#"{"user": {"name": "Alice", "age": 30}}"#);
    let user = find_json_path(&doc, "user").unwrap();
    assert_eq!(render_json(user, "root", None, None, ColorMode::Off), "root\n├── name: \"Alice\"\n└── age: 30\n");
    let name = find_json_path(&doc, "user.name").unwrap();
    assert_eq!(render_json(name, "root", None, None, ColorMode::Off), "root: \"Alice\"\n");
}

#[test]
fn an_array_limit_cuts_long_arrays_with_a_count_line() {
    let out = render_json(&j(r#"{"tags": ["a", "b", "c", "d"]}"#), "root", None, Some(2), ColorMode::Off);
    assert_eq!(out, "root\n└── tags\n    ├── [0]: \"a\"\n    ├── [1]: \"b\"\n    └── … (2 more)\n");
    let full = render_json(&j(r#"{"tags": ["a", "b", "c", "d"]}"#), "root", None, None, ColorMode::Off);
    assert!(!full.contains("more"));
}

#[test]
fn the_array_limit_is_refused_for_xml_only() {
    let err = check_array_limit(Some(1), Format::Xml).unwrap_err();
    assert_eq!(err, "--array-limit is not supported for XML input");
    assert!(check_array_limit(Some(1), Format::Json).is_ok());
    assert!(check_array_limit(None, Format::Xml).is_ok());
}

#[test]
fn option_combinations_that_are_refused() {
    assert_eq!(
        check_options(true, Some(Format::Xml), false, false).unwrap_err(),
        "--ndjson is not supported with --format xml"
    );
    assert_eq!(
        check_options(false, None, true, true).unwrap_err(),
        "--pick is not supported with --static"
    );
    assert!(check_options(true, Some(Format::Json), true, false).is_ok());
}

#[test]
fn format_is_the_requested_one_else_the_detected_one() {
    assert_eq!(choose_format(Some(Format::Yaml), "{}").unwrap(), Format::Yaml);
    assert_eq!(choose_format(None, "  <a/>").unwrap(), Format::Xml);
    assert_eq!(choose_format(None, " [1]").unwrap(), Format::Json);
    assert_eq!(choose_format(None, " \n\t").unwrap_err(), "empty input");
}

#[test]
fn a_leading_byte_order_mark_is_dropped() {
    assert_eq!(strip_bom("\u{feff}{\"a\": 1}"), "{\"a\": 1}");
    assert_eq!(strip_bom("{}"), "{}");
    assert_eq!(strip_bom(""), "");
}

#[test]
fn json_stats_report_lists_each_count() {
    let s = json_stats(&j(r#"{"a": {"b": [1, 2]}}"#));
    assert_eq!(
        json_stats_report(&s, 20),
        "input_bytes: 20\nmax_depth: 3\nobjects: 2\narrays: 1\nscalars: 2\n"
    );
}

#[test]
fn xml_stats_report_lists_each_count() {
    let s = xml_stats(&x(r#"<r a="1"><b>t</b><c/></r>"#));
    assert_eq!(
        xml_stats_report(&s, 7),
        "input_bytes: 7\nmax_depth: 1\nelements: 3\nattributes: 1\ntext_nodes: 1\n"
    );
}

#[test]
fn paths_escape_control_bytes_in_keys() {
    let paths = json_paths(&j(r#"{"before\u001bafter": 1}"#));
    assert_eq!(paths, vec!["before\\u001bafter".to_string()]);
}

#[test]
fn agent_output_comes_first_and_cuts_the_tree() {
    assert_eq!(output_mode(true, true, true, true, true, true, true), OutputMode::Agent);
    assert_eq!(output_mode(false, true, true, true, false, false, true), OutputMode::Paths);
    assert_eq!(output_mode(false, false, true, true, false, false, true), OutputMode::Stats);
    assert_eq!(output_mode(false, false, false, true, false, false, true), OutputMode::Schema);
    assert_eq!(output_mode(false, false, false, false, false, false, true), OutputMode::Interactive);
    assert_eq!(output_mode(false, false, false, false, false, true, false), OutputMode::Interactive);
    assert_eq!(output_mode(false, false, false, false, true, false, true), OutputMode::Static);
    assert_eq!(output_mode(false, false, false, false, false, false, false), OutputMode::Static);
    assert_eq!(render_depth(true, None), Some(AGENT_DEFAULT_DEPTH));
    assert_eq!(render_depth(true, Some(1)), Some(1));
    assert_eq!(render_depth(false, None), None);
}

#[test]
fn ndjson_records_are_numbered_by_physical_line() {
    let recs = ndjson_records("{\"a\": 1}\n\n  {\"a\": 2}  \r\n");
    assert_eq!(recs, vec![(1, "{\"a\": 1}".to_string()), (3, "{\"a\": 2}".to_string())]);
    assert!(ndjson_records("").is_empty());
    assert_eq!(ndjson_error(3, "expected value"), "line 3: expected value");
}

#[test]
fn multi_document_yaml_is_named_as_unsupported() {
    assert_eq!(
        yaml_error_message("deserializing from YAML containing more than one document is not supported"),
        "multi-document YAML is not supported yet"
    );
    assert_eq!(yaml_error_message("did not find expected key"), "did not find expected key");
}

#[test]
fn osc52_wraps_the_base64_of_the_text() {
    assert_eq!(osc52_sequence("hi"), "\u{1b}]52;c;aGk=\u{7}");
    assert_eq!(osc52_sequence(""), "\u{1b}]52;c;\u{7}");
}

fn value(text: &str) -> Value {
    serde_json::from_str(text).unwrap()
}

#[test]
fn parses_valid_multiline_input() {
    let input = "{\"a\": 1}\n{\"a\": 2}\n{\"a\": 3}";
    let result = parse_ndjson(input).unwrap();
    assert_eq!(result, node(&value(r#"[{"a": 1}, {"a": 2}, {"a": 3}]"#)));
}

#[test]
fn reports_line_number_on_failure() {
    let input = "{\"a\": 1}\nnot json\n{\"a\": 3}";
    let err = parse_ndjson(input).unwrap_err();
    assert!(err.starts_with("line 2:"), "unexpected error: {err}");
}

#[test]
fn reports_physical_line_number_across_blank_lines() {
    let input = "\n{\"a\": 1}\nnot json\n";
    let err = parse_ndjson(input).unwrap_err();
    assert!(err.starts_with("line 3:"), "unexpected error: {err}");
}

#[test]
fn skips_blank_lines() {
    let input = "{\"a\": 1}\n\n\n{\"a\": 2}\n";
    let result = parse_ndjson(input).unwrap();
    assert_eq!(result, node(&value(r#"[{"a": 1}, {"a": 2}]"#)));
}

#[test]
fn empty_input_yields_empty_array() {
    let result = parse_ndjson("").unwrap();
    assert_eq!(result, node(&value("[]")));
}

#[test]
fn an_ndjson_error_carries_the_parsers_message() {
    let err = parse_ndjson("{\"a\": }").unwrap_err();
    let parser = serde_json::from_str::<Value>("{\"a\": }").unwrap_err().to_string();
    assert_eq!(err, format!("line 1: {parser}"));
}

#[test]
fn paths_list_one_line_per_node_below_the_root() {
    let doc = j(r#"{"a": {"b": [1, {"c": null}]}, "d": []}"#);
    let s = json_stats(&doc);
    assert_eq!(json_paths(&doc).len(), s.objects + s.arrays + s.scalars - 1);
    let xdoc = x("<r><a><b/><b/></a><c/></r>");
    assert_eq!(treeq::paths::xml_paths(&xdoc).len(), xml_stats(&xdoc).elements - 1);
}

#[test]
fn each_output_mode_prints_its_own_text() {
    let input = r#"{"a": {"b": {"c": {"d": 1}}}, "e": [true]}"#;
    let tree = j(input);
    let stats = json_stats_report(&json_stats(&tree), input.len());
    let agent = json_output(&tree, input.len(), OutputMode::Agent, None, None, ColorMode::Off).unwrap();
    assert_eq!(agent, format!("{stats}\n{}", render_json(&tree, "root", Some(3), None, ColorMode::Off)));
    let paths = json_output(&tree, input.len(), OutputMode::Paths, None, None, ColorMode::Off).unwrap();
    assert_eq!(paths, "a\na.b\na.b.c\na.b.c.d\ne\ne.0\n");
    assert_eq!(json_output(&tree, input.len(), OutputMode::Stats, None, None, ColorMode::Off).unwrap(), stats);
    assert_eq!(
        json_output(&tree, input.len(), OutputMode::Static, Some(1), None, ColorMode::Off).unwrap(),
        render_json(&tree, "root", Some(1), None, ColorMode::Off)
    );
    assert!(json_output(&tree, input.len(), OutputMode::Interactive, None, None, ColorMode::Off).is_none());
}
