use serde_json::Value;
use treeq::json_tree::{JsonNode, JsonScalar};
use treeq::schema::{json_schema, xml_schema};
use treeq::xml_tree::{RawXml, XmlNode};

fn node(v: &Value) -> JsonNode {
    match v {
        Value::Null => JsonNode::Scalar(JsonScalar::Null),
        Value::Bool(b) => JsonNode::Scalar(JsonScalar::Bool(*b)),
        Value::Number(n) => JsonNode::Scalar(JsonScalar::Number(n.to_string())),
        Value::String(s) => JsonNode::Scalar(JsonScalar::Str(s.clone())),
        Value::Array(a) => JsonNode::Array(a.iter().map(node).collect()),
        Value::Object(o) => JsonNode::Object(o.iter().map(|(k, v)| (k.clone(), node(v))).collect()),
    }
}

fn schema_of(text: &str) -> String {
    json_schema(&node(&serde_json::from_str(text).unwrap()))
}

#[test]
fn infers_object_with_scalar_and_array_fields() {
    let out = schema_of(r#"{"user": {"name": "Alice", "tags": ["admin", "user"]}}"#);
    assert_eq!(out, "user: object\n  name: string\n  tags: array<string>\n");
}

#[test]
fn dedupes_and_sorts_mixed_scalar_array_types() {
    let out = schema_of(r#"{"vals": [1, "x", true, 2]}"#);
    assert_eq!(out, "vals: array<boolean|number|string>\n");
}

#[test]
fn unions_fields_across_array_of_objects() {
    let out = schema_of(r#"{"items": [{"a": 1}, {"b": "x"}]}"#);
    assert_eq!(out, "items: array<object>\n  a: number\n  b: string\n");
}

#[test]
fn unions_types_for_a_field_that_varies_across_elements() {
    let out = schema_of(r#"{"items": [{"a": 1}, {"a": "x"}]}"#);
    assert_eq!(out, "items: array<object>\n  a: number|string\n");
}

#[test]
fn root_array_prints_type_with_no_leading_label() {
    let out = schema_of(r#"["a", "b", 1]"#);
    assert_eq!(out, "array<number|string>\n");
}

#[test]
fn root_scalar_prints_just_the_type_name() {
    let out = schema_of("42");
    assert_eq!(out, "number\n");
}

#[test]
fn empty_array_has_no_element_type() {
    let out = schema_of(r#"{"items": []}"#);
    assert_eq!(out, "items: array<empty>\n");
}

#[test]
fn empty_root_object_is_shown_explicitly() {
    let out = schema_of("{}");
    assert_eq!(out, "object<empty>\n");
}

#[test]
fn a_null_element_among_objects_does_not_discard_field_info() {
    let out = schema_of(r#"{"items": [{"a": 1, "b": 2}, {"a": 3, "b": 4}, null]}"#);
    assert_eq!(out, "items: array<object|null>\n  a: number\n  b: number\n");
}

#[test]
fn a_nullable_nested_object_field_still_shows_its_fields() {
    let out = schema_of(r#"{"items": [{"address": {"city": "x"}}, {"address": null}]}"#);
    assert_eq!(out, "items: array<object>\n  address: object|null\n    city: string\n");
}

#[test]
fn a_nullable_array_field_still_shows_its_element_type() {
    let out = schema_of(r#"{"items": [{"tags": ["x"]}, {"tags": null}]}"#);
    assert_eq!(out, "items: array<object>\n  tags: array<string>|null\n");
}

#[test]
fn a_genuinely_mixed_kind_field_still_falls_back_to_a_label_union_including_null() {
    let out = schema_of(r#"{"items": [{"a": 1}, "x", null]}"#);
    assert_eq!(out, "items: array<null|object|string>\n");
}

#[test]
fn root_array_of_objects_lists_their_fields_one_level_in() {
    let out = schema_of(r#"[{"a": 1}, {"a": null, "b": [true]}]"#);
    assert_eq!(out, "array<object>\n  a: null|number\n  b: array<boolean>\n");
}

#[test]
fn nested_arrays_of_objects_show_the_innermost_fields() {
    let out = schema_of(r#"{"m": [[{"x": 1}], [{"y": "s"}]]}"#);
    assert_eq!(out, "m: array<array<object>>\n  x: number\n  y: string\n");
}

#[test]
fn a_field_that_is_only_ever_null_is_typed_null() {
    let out = schema_of(r#"{"a": null}"#);
    assert_eq!(out, "a: null\n");
}

#[test]
fn array_of_only_nulls_is_typed_null() {
    let out = schema_of("[null, null]");
    assert_eq!(out, "array<null>\n");
}

#[test]
fn root_null_and_boolean_scalars() {
    assert_eq!(schema_of("null"), "null\n");
    assert_eq!(schema_of("true"), "boolean\n");
    assert_eq!(schema_of(r#""s""#), "string\n");
}

fn raw(n: roxmltree::Node) -> RawXml {
    if n.is_element() {
        RawXml::Element {
            name: n.tag_name().name().to_string(),
            attributes: n
                .attributes()
                .map(|a| (a.name().to_string(), a.value().to_string()))
                .collect(),
            children: n.children().map(raw).collect(),
        }
    } else if n.is_text() {
        RawXml::Text(n.text().unwrap_or("").to_string())
    } else {
        RawXml::Other
    }
}

fn xml_node(xml: &str) -> XmlNode {
    let doc = roxmltree::Document::parse(xml).unwrap();
    XmlNode::from_document(&raw(doc.root_element())).unwrap()
}

#[test]
fn xml_schema_lists_children_attributes_and_repeats() {
    let node = xml_node(r#"<root><user id="1"><tag/><tag/></user><user id="2"/></root>"#);
    assert_eq!(xml_schema(&node), "user [id] (repeated)\n  tag (repeated)\n");
}

#[test]
fn xml_schema_unions_attributes_and_children_across_all_siblings_not_just_the_first() {
    let xml = r#"<root>
            <user><tag/></user>
            <user><tag/><extra/></user>
        </root>"#;
    let node = xml_node(xml);
    assert_eq!(xml_schema(&node), "user (repeated)\n  tag (repeated)\n  extra\n");
}

#[test]
fn xml_schema_unions_attribute_names_across_siblings() {
    let node = xml_node(r#"<root><user id="1"/><user id="2" class="admin"/></root>"#);
    assert_eq!(xml_schema(&node), "user [id, class] (repeated)\n");
}

#[test]
fn xml_schema_handles_no_children() {
    let node = xml_node("<root/>");
    assert_eq!(xml_schema(&node), "");
}

#[test]
fn xml_schema_keeps_first_appearance_order_across_names() {
    let node = xml_node(r#"<r><b x="1" y="2"/><a/><b y="3" z="4"><c/></b></r>"#);
    assert_eq!(xml_schema(&node), "b [x, y, z] (repeated)\n  c\na\n");
}

#[test]
fn xml_schema_indents_each_level_by_two_spaces() {
    let node = xml_node("<r><a><b><c k=\"v\"/></b></a></r>");
    assert_eq!(xml_schema(&node), "a\n  b\n    c [k]\n");
}

#[test]
fn schema_escapes_control_bytes_in_a_field_name() {
    let out = schema_of(r#"{"before\u001bafter": 1}"#);
    assert!(!out.contains('\u{1b}'));
    assert_eq!(out, "before\\u001bafter: number\n");
}
