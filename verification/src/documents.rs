//! Reading a whole input as a document: JSON (or NDJSON), YAML or XML text
//! to the tree the rest of the library works on, or the error report that
//! is shown instead.
use crate::cli::yaml_message_spec;
use crate::cli::yaml_error_message;
use crate::error_context::{
    error_context_spec, json_err_column, json_err_line, json_err_message, json_error_context,
    xml_err_message, xml_err_position, xml_error_context,
};
use crate::json_tree::{yaml_converts, yaml_error, JsonNode, JsonScalar, RawYaml};
use crate::ndjson::{
    ndjson_records_spec, parse_ndjson, record_documents, record_error_text, records_parse,
};
use crate::text::{decimal, decimal_string, push_str};
use crate::xml_tree::{
    attr_scan, depth_error, nesting_scan, raw_converts, raw_fails, xml_attribute_count_exceeds,
    xml_nesting_exceeds, RawXml, XmlNode, MAX_XML_ATTRIBUTES_PER_ELEMENT, MAX_XML_DEPTH,
};
use vstd::prelude::*;
use vstd::string::StringSliceAdditionalSpecFns;

verus! {

broadcast use vstd::string::group_string_axioms;

/// A parsed JSON value, carried through as it is.
#[verifier::external_type_specification]
#[verifier::external_body]
pub struct ExJsonValue(serde_json::Value);

/// A parsed YAML value, carried through as it is.
#[verifier::external_type_specification]
#[verifier::external_body]
pub struct ExYamlValue(serde_yaml::Value);

/// A node of a parsed XML document, carried through as it is.
#[verifier::external_type_specification]
#[verifier::external_body]
pub struct ExXmlNode<'a, 'input: 'a>(roxmltree::Node<'a, 'input>);

/// Whether `serde_json::from_str::<serde_json::Value>` accepts a text. The
/// parser reads nothing but the text, so the same text always gets the same
/// answer.
pub uninterp spec fn json_text_parses(text: Seq<char>) -> bool;

/// The tree of the value that `serde_json::from_str::<serde_json::Value>`
/// reads from a text it accepts (object keys in document order).
pub uninterp spec fn json_document(text: Seq<char>) -> JsonNode;

/// The line, column and message of the error that
/// `serde_json::from_str::<serde_json::Value>` reports for a text it
/// refuses (the parser reads nothing but the text).
pub uninterp spec fn json_parse_error(text: Seq<char>) -> (usize, usize, Seq<char>);

/// The message (`Display`) of the error that
/// `serde_yaml::from_str::<serde_yaml::Value>` reports for a text it
/// refuses.
pub uninterp spec fn yaml_parse_message(text: Seq<char>) -> Seq<char>;

/// The position (row, column) and message of the error that
/// `roxmltree::Document::parse` reports for a text it refuses.
pub uninterp spec fn xml_parse_error(text: Seq<char>) -> ((usize, usize), Seq<char>);

/// The node that `serde_yaml::from_str::<serde_yaml::Value>` reads from a
/// text, or `None` where it refuses the text.
pub uninterp spec fn yaml_document(text: Seq<char>) -> Option<RawYaml>;

/// The root element that `roxmltree::Document::parse` reads from a text, or
/// `None` where it refuses the text.
pub uninterp spec fn xml_document(text: Seq<char>) -> Option<RawXml>;

/// A parsed JSON value as a tree, one node for one value: an object's keys
/// in the parser's (document) order, a number as the parser prints it.
#[verifier::external_body]
fn json_value_node(value: &serde_json::Value) -> JsonNode {
    match value {
        serde_json::Value::Object(map) => {
            JsonNode::Object(map.iter().map(|(k, v)| (k.clone(), json_value_node(v))).collect())
        },
        serde_json::Value::Array(items) => JsonNode::Array(items.iter().map(json_value_node).collect()),
        serde_json::Value::String(s) => JsonNode::Scalar(JsonScalar::Str(s.clone())),
        serde_json::Value::Null => JsonNode::Scalar(JsonScalar::Null),
        serde_json::Value::Bool(b) => JsonNode::Scalar(JsonScalar::Bool(*b)),
        serde_json::Value::Number(n) => JsonNode::Scalar(JsonScalar::Number(n.to_string())),
    }
}

/// `serde_json::from_str::<serde_json::Value>` on `text`, the value taken
/// over as a tree by `json_value_node`. It succeeds exactly on the texts
/// named by `json_text_parses` and then gives `json_document(text)`; on
/// failure its error's line, column and message are `json_parse_error(text)`.
#[verifier::external_body]
pub(crate) fn parse_json_document(text: &str) -> (r: Result<JsonNode, serde_json::Error>)
    ensures
        r is Ok <==> json_text_parses(text@),
        r matches Ok(n) ==> n == json_document(text@),
        r matches Err(e) ==> (json_err_line(e), json_err_column(e), json_err_message(e))
            == json_parse_error(text@),
{
    serde_json::from_str::<serde_json::Value>(text).map(|v| json_value_node(&v))
}

/// A parsed YAML value as the library reads it, one node for one value (a
/// mapping key kept only where it is a string).
#[verifier::external_body]
fn yaml_value_node(value: &serde_yaml::Value) -> RawYaml {
    match value {
        serde_yaml::Value::Null => RawYaml::Null,
        serde_yaml::Value::Bool(b) => RawYaml::Bool(*b),
        serde_yaml::Value::Number(n) => RawYaml::Number(n.to_string()),
        serde_yaml::Value::String(s) => RawYaml::Str(s.clone()),
        serde_yaml::Value::Sequence(items) => RawYaml::Sequence(items.iter().map(yaml_value_node).collect()),
        serde_yaml::Value::Mapping(map) => RawYaml::Mapping(
            map.iter().map(|(k, v)| (k.as_str().map(str::to_string), yaml_value_node(v))).collect(),
        ),
        serde_yaml::Value::Tagged(_) => RawYaml::Tagged,
    }
}

/// `serde_yaml::from_str::<serde_yaml::Value>` on `text`, the value taken
/// over by `yaml_value_node`. It succeeds exactly where `yaml_document`
/// names a node and then gives that node; on failure it gives the parser's
/// message (its `Display`), `yaml_parse_message(text)`.
#[verifier::external_body]
fn parse_yaml_document(text: &str) -> (r: Result<RawYaml, String>)
    ensures
        r is Ok <==> yaml_document(text@) is Some,
        r matches Ok(y) ==> yaml_document(text@) == Some(y),
        r matches Err(m) ==> m@ == yaml_parse_message(text@),
{
    serde_yaml::from_str::<serde_yaml::Value>(text).map(|v| yaml_value_node(&v)).map_err(|e| e.to_string())
}

/// A parsed XML node as the library reads it: an element with its
/// attributes and child nodes, a text node, or anything else.
#[verifier::external_body]
fn xml_node_raw(node: roxmltree::Node) -> RawXml {
    if node.is_element() {
        RawXml::Element {
            name: node.tag_name().name().to_string(),
            attributes: node.attributes().map(|a| (a.name().to_string(), a.value().to_string())).collect(),
            children: node.children().map(xml_node_raw).collect(),
        }
    } else if node.is_text() {
        RawXml::Text(node.text().unwrap_or("").to_string())
    } else {
        RawXml::Other
    }
}

/// `roxmltree::Document::parse` on `text`, its root element taken over by
/// `xml_node_raw`. It succeeds exactly where `xml_document` names a node,
/// and then gives that node, which is an element (the document's root
/// element); on failure its error's position and message are
/// `xml_parse_error(text)`. The parser recurses once
/// per nested element with no guard of its own, so it is only handed text
/// that the lexical nesting check has passed.
#[verifier::external_body]
fn parse_xml_document(text: &str) -> (r: Result<RawXml, roxmltree::Error>)
    requires
        !nesting_scan(text.spec_bytes(), 0, 0, MAX_XML_DEPTH as nat),
    ensures
        r is Ok <==> xml_document(text@) is Some,
        r matches Ok(x) ==> xml_document(text@) == Some(x) && x is Element,
        r matches Err(e) ==> (xml_err_position(e), xml_err_message(e)) == xml_parse_error(text@),
{
    roxmltree::Document::parse(text).map(|d| xml_node_raw(d.root_element()))
}

/// The report of the error the JSON parser finds in `input`.
pub open spec fn json_error_report(input: Seq<char>) -> Seq<char> {
    error_context_spec(
        "JSON"@,
        input,
        json_parse_error(input).0 as nat,
        json_parse_error(input).1 as nat,
        true,
        json_parse_error(input).2,
    )
}

/// The report of the error the XML parser finds in `input`.
pub open spec fn xml_error_report(input: Seq<char>) -> Seq<char> {
    error_context_spec(
        "XML"@,
        input,
        xml_parse_error(input).0.0 as nat,
        xml_parse_error(input).0.1 as nat,
        false,
        xml_parse_error(input).1,
    )
}

fn prefixed(prefix: &str, message: &str) -> (r: String)
    ensures
        r@ == prefix@ + message@,
{
    let mut out = String::new();
    push_str(&mut out, prefix);
    push_str(&mut out, message);
    out
}

/// The tree of a JSON input, or of an NDJSON input (every record, as one
/// array), or the report to show instead: for JSON the parser's error
/// report, for NDJSON `error: invalid NDJSON: ` and the record's error.
pub fn json_tree_of(input: &str, ndjson: bool) -> (r: Result<JsonNode, String>)
    ensures
        !ndjson ==> (r is Ok <==> json_text_parses(input@)),
        !ndjson ==> (r matches Ok(n) ==> n == json_document(input@)),
        !ndjson ==> (r matches Err(e) ==> e@ == json_error_report(input@)),
        ndjson ==> (r is Ok <==> records_parse(
            ndjson_records_spec(input@),
            ndjson_records_spec(input@).len() as int,
        )),
        ndjson ==> (r matches Ok(n) ==> n matches JsonNode::Array(items) && items@
            == record_documents(ndjson_records_spec(input@))),
        ndjson ==> (r matches Err(e) ==> exists|i: int|
            0 <= i < ndjson_records_spec(input@).len()
            && records_parse(ndjson_records_spec(input@), i)
            && !json_text_parses(ndjson_records_spec(input@)[i].1)
            && e@ == "error: invalid NDJSON: "@ + #[trigger] record_error_text(
                ndjson_records_spec(input@),
                i,
            )),
{
    if ndjson {
        match parse_ndjson(input) {
            Ok(n) => Ok(n),
            Err(e) => {
                let r = prefixed("error: invalid NDJSON: ", e.as_str());
                proof {
                    let i = choose|i: int|
                        0 <= i < ndjson_records_spec(input@).len()
                        && records_parse(ndjson_records_spec(input@), i)
                        && !json_text_parses(ndjson_records_spec(input@)[i].1)
                        && e@ == #[trigger] record_error_text(ndjson_records_spec(input@), i);
                    assert(r@ == "error: invalid NDJSON: "@ + record_error_text(
                        ndjson_records_spec(input@),
                        i,
                    ));
                }
                Err(r)
            },
        }
    } else {
        match parse_json_document(input) {
            Ok(n) => Ok(n),
            Err(err) => {
                let r = json_error_context(input, &err);
                assert(r@ == json_error_report(input@));
                Err(r)
            },
        }
    }
}

/// The tree of a YAML input, or the report to show instead:
/// `error: invalid YAML: ` and the parser's message (a stream of several
/// documents named as unsupported), or the node the tree cannot hold (a
/// tag, a key that is not a string).
pub fn yaml_tree_of(input: &str) -> (r: Result<JsonNode, String>)
    ensures
        yaml_document(input@) is None ==> (r matches Err(e) && e@ == "error: invalid YAML: "@
            + yaml_message_spec(yaml_parse_message(input@))),
        yaml_document(input@) matches Some(raw) ==> {
            &&& r is Ok <==> yaml_error(raw) is None
            &&& r matches Ok(n) ==> yaml_converts(raw, n)
            &&& r matches Err(e) ==> e@ == "error: invalid YAML: "@ + yaml_error(raw)->Some_0
        },
{
    match parse_yaml_document(input) {
        Ok(raw) => match JsonNode::from_yaml_value(&raw) {
            Ok(n) => Ok(n),
            Err(e) => Err(prefixed("error: invalid YAML: ", e.as_str())),
        },
        Err(m) => {
            let shown = yaml_error_message(m.as_str());
            let r = prefixed("error: invalid YAML: ", shown.as_str());
            assert(r@ == "error: invalid YAML: "@ + yaml_message_spec(m@));
            Err(r)
        },
    }
}

/// The report when some element nests deeper than `MAX_XML_DEPTH`.
pub open spec fn xml_depth_report() -> Seq<char> {
    "error: "@ + depth_error()
}

/// The report when some element holds more than
/// `MAX_XML_ATTRIBUTES_PER_ELEMENT` attributes.
pub open spec fn xml_attribute_report() -> Seq<char> {
    "error: an XML element exceeds the max attribute count ("@ + decimal(
        MAX_XML_ATTRIBUTES_PER_ELEMENT as nat,
    ) + ")"@
}

/// The tree of an XML input, or the report to show instead. The lexical
/// checks come first (nesting past `MAX_XML_DEPTH`, then an element with too
/// many attributes); then the parser's own error report; then the tree,
/// refused where an element still lies too deep.
pub fn xml_tree_of(input: &str) -> (r: Result<XmlNode, String>)
    ensures
        nesting_scan(input.spec_bytes(), 0, 0, MAX_XML_DEPTH as nat) ==> (r matches Err(e) && e@
            == xml_depth_report()),
        !nesting_scan(input.spec_bytes(), 0, 0, MAX_XML_DEPTH as nat) && attr_scan(
            input.spec_bytes(),
            0,
            MAX_XML_ATTRIBUTES_PER_ELEMENT as nat,
        ) ==> (r matches Err(e) && e@ == xml_attribute_report()),
        !nesting_scan(input.spec_bytes(), 0, 0, MAX_XML_DEPTH as nat) && !attr_scan(
            input.spec_bytes(),
            0,
            MAX_XML_ATTRIBUTES_PER_ELEMENT as nat,
        ) ==> match xml_document(input@) {
            None => (r matches Err(e) && e@ == xml_error_report(input@)),
            Some(raw) => {
                &&& r is Ok <==> !raw_fails(raw, 0)
                &&& r matches Ok(n) ==> raw_converts(raw, 0, n)
                &&& r matches Err(e) ==> e@ == xml_depth_report()
            },
        },
{
    if xml_nesting_exceeds(input, MAX_XML_DEPTH) {
        let d = decimal_string(MAX_XML_DEPTH);
        let mut r = prefixed("error: XML nesting exceeds max depth (", d.as_str());
        push_str(&mut r, ")");
        proof {
            reveal_strlit("error: XML nesting exceeds max depth (");
            reveal_strlit("error: ");
            reveal_strlit("XML nesting exceeds max depth (");
            assert(r@ =~= xml_depth_report());
        }
        return Err(r);
    }
    if xml_attribute_count_exceeds(input, MAX_XML_ATTRIBUTES_PER_ELEMENT) {
        let d = decimal_string(MAX_XML_ATTRIBUTES_PER_ELEMENT);
        let mut r = prefixed("error: an XML element exceeds the max attribute count (", d.as_str());
        push_str(&mut r, ")");
        return Err(r);
    }
    match parse_xml_document(input) {
        Ok(raw) => match XmlNode::from_document(&raw) {
            Ok(n) => Ok(n),
            Err(e) => {
                let r = prefixed("error: ", e.as_str());
                Err(r)
            },
        },
        Err(err) => {
            let r = xml_error_context(input, &err);
            assert(r@ == xml_error_report(input@));
            Err(r)
        },
    }
}

} // verus!
