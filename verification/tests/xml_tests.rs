use treeq::color::ColorMode;
use treeq::documents::xml_tree_of;
use treeq::paths::xml_paths;
use treeq::render::render_xml;
use treeq::stats::{xml_stats, XmlStats};
use treeq::xml_tree::{
    find_xml_path, xml_attribute_count_exceeds, xml_nesting_exceeds, RawXml, XmlNode,
    MAX_XML_ATTRIBUTES_PER_ELEMENT, MAX_XML_DEPTH,
};

/// A parsed node as handed to the tree builder.
fn raw(n: roxmltree::Node) -> RawXml {
    if n.is_element() {
        RawXml::Element {
            name: n.tag_name().name().to_string(),
            attributes: n
                .attributes()
                .map(|a| (a.name().to_string(), a.value().to_string()))
                .collect(),
            children: n.children().map(raw).collect(),
        }
    } else if n.is_text() {
        RawXml::Text(n.text().unwrap_or("").to_string())
    } else {
        RawXml::Other
    }
}

fn build(xml: &str) -> Result<XmlNode, String> {
    let doc = roxmltree::Document::parse(xml).unwrap();
    XmlNode::from_document(&raw(doc.root_element()))
}

fn x(xml: &str) -> XmlNode {
    build(xml).unwrap()
}

#[test]
fn converts_element_with_attributes_text_and_children() {
    let node = x(r#"<person id="1"><name>Alice</name></person>"#);
    assert_eq!(
        node,
        XmlNode {
            name: "person".to_string(),
            attributes: vec![("id".to_string(), "1".to_string())],
            text: None,
            children: vec![XmlNode {
                name: "name".to_string(),
                attributes: vec![],
                text: Some("Alice".to_string()),
                children: vec![],
            }],
        }
    );
}

#[test]
fn joins_trimmed_text_nodes_around_children_with_single_spaces() {
    let node = x("<a>  one <b/> two  <!-- c --> three</a>");
    assert_eq!(node.text, Some("one two three".to_string()));
}

#[test]
fn xml_tree_finds_nested_path() {
    let node = x(r#"<root><user><name>Alice</name></user></root>"#);
    let found = find_xml_path(&node, "user.name").unwrap();
    assert_eq!(found.text, Some("Alice".to_string()));
}

#[test]
fn xml_tree_reports_first_unmatched_segment() {
    let node = x(r#"<root><user><name>Alice</name></user></root>"#);
    let err = find_xml_path(&node, "user.missing.deeper").unwrap_err();
    assert_eq!(err, "missing");
}

#[test]
fn rejects_xml_nested_past_the_max_depth_instead_of_overflowing_the_stack() {
    let depth = MAX_XML_DEPTH + 10;
    let xml = format!("{}leaf{}", "<a>".repeat(depth), "</a>".repeat(depth));
    let err = build(&xml).unwrap_err();
    assert!(err.contains("max depth"));
}

#[test]
fn accepts_xml_nested_exactly_at_the_max_depth() {
    let depth = MAX_XML_DEPTH;
    let xml = format!("{}leaf{}", "<a>".repeat(depth), "</a>".repeat(depth));
    assert!(build(&xml).is_ok());
}

#[test]
fn nesting_precheck_rejects_input_far_too_deep_for_roxmltree_to_even_parse() {
    let depth = 50_000;
    let xml = format!("{}leaf{}", "<a>".repeat(depth), "</a>".repeat(depth));
    assert!(xml_nesting_exceeds(&xml, MAX_XML_DEPTH));
}

#[test]
fn nesting_precheck_does_not_miscount_self_closing_siblings_as_depth() {
    let flat = "<a/>".repeat(MAX_XML_DEPTH * 2);
    assert!(!xml_nesting_exceeds(&flat, MAX_XML_DEPTH));
}

#[test]
fn nesting_precheck_ignores_comments_and_doctypes() {
    let xml = format!(
        "<!DOCTYPE root><!-- a comment --><root>{}</root>",
        "<a>".repeat(MAX_XML_DEPTH - 2)
    );
    assert!(!xml_nesting_exceeds(&xml, MAX_XML_DEPTH));
}

#[test]
fn nesting_precheck_accepts_shallow_wide_documents() {
    let wide = "<item>x</item>".repeat(10_000);
    assert!(!xml_nesting_exceeds(&wide, MAX_XML_DEPTH));
}

#[test]
fn nesting_precheck_is_not_fooled_by_a_quoted_attribute_ending_in_slash_gt() {
    let depth = MAX_XML_DEPTH + 10;
    let open = "<a attr=\"/>\">".repeat(depth);
    let close = "</a>".repeat(depth);
    let xml = format!("{open}leaf{close}");
    assert!(xml_nesting_exceeds(&xml, MAX_XML_DEPTH));
    let doc = roxmltree::Document::parse(&xml).unwrap();
    assert_eq!(doc.root_element().attribute("attr"), Some("/>"));
}

#[test]
fn attribute_count_precheck_rejects_an_element_with_too_many_attributes() {
    let attrs: String =
        (0..MAX_XML_ATTRIBUTES_PER_ELEMENT + 10).map(|i| format!(" a{i}=\"v\"")).collect();
    let xml = format!("<root{attrs}/>");
    assert!(xml_attribute_count_exceeds(&xml, MAX_XML_ATTRIBUTES_PER_ELEMENT));
}

#[test]
fn attribute_count_precheck_is_not_fooled_by_whitespace_around_the_equals_sign() {
    let attrs: String =
        (0..MAX_XML_ATTRIBUTES_PER_ELEMENT + 10).map(|i| format!(" a{i} = \"v\"")).collect();
    let xml = format!("<root{attrs}/>");
    assert!(xml_attribute_count_exceeds(&xml, MAX_XML_ATTRIBUTES_PER_ELEMENT));
}

#[test]
fn attribute_count_precheck_accepts_an_element_at_exactly_the_limit() {
    let attrs: String =
        (0..MAX_XML_ATTRIBUTES_PER_ELEMENT).map(|i| format!(" a{i}=\"v\"")).collect();
    let xml = format!("<root{attrs}/>");
    assert!(!xml_attribute_count_exceeds(&xml, MAX_XML_ATTRIBUTES_PER_ELEMENT));
}

#[test]
fn attribute_count_precheck_sums_per_element_not_across_the_whole_document() {
    let xml: String =
        (0..MAX_XML_ATTRIBUTES_PER_ELEMENT * 2).map(|i| format!("<item a=\"{i}\"/>")).collect();
    let xml = format!("<root>{xml}</root>");
    assert!(!xml_attribute_count_exceeds(&xml, MAX_XML_ATTRIBUTES_PER_ELEMENT));
}

#[test]
fn lists_all_xml_paths() {
    let node = x(r#"<root><user><name>Alice</name></user></root>"#);
    assert_eq!(xml_paths(&node), vec!["user".to_string(), "user.name".to_string()]);
}

#[test]
fn computes_xml_stats() {
    let node = x(r#"<root a="1"><child>text</child><child2/></root>"#);
    assert_eq!(
        xml_stats(&node),
        XmlStats { max_depth: 1, elements: 3, attributes: 1, text_nodes: 1 }
    );
}

#[test]
fn xml_guide_lines_are_tinted_by_depth() {
    let node = x("<root><a><b/></a></root>");
    let output = render_xml(&node, None, ColorMode::Ansi16);
    assert!(output.contains("\x1b[2m└── \x1b[0m"));
    assert!(output.contains("\x1b[2;34m    └── \x1b[0m"));
}

#[test]
fn renders_xml_tree_with_attributes_and_text_without_color() {
    let node = x(r#"<person id="1"><name>Alice</name></person>"#);
    assert_eq!(render_xml(&node, None, ColorMode::Off), "person [id=\"1\"]\n└── name: Alice\n");
}

#[test]
fn escapes_control_bytes_in_xml_attribute_values_and_text() {
    let node = x("<root a=\"before&#x7f;after\">text&#x7f;here</root>");
    let output = render_xml(&node, None, ColorMode::Off);
    assert!(!output.contains('\u{7f}'));
    assert!(output.contains("before\\u007fafter"));
    assert!(output.contains("text\\u007fhere"));
}

#[test]
fn escapes_control_bytes_in_an_xml_element_name() {
    let mut node = x("<root><ok>x</ok></root>");
    node.children[0].name = "before\u{1b}after".to_string();
    let output = render_xml(&node, None, ColorMode::Off);
    assert!(!output.contains('\u{1b}'));
    assert!(output.contains("before\\u001bafter"));
}

#[test]
fn escapes_control_bytes_in_an_xml_element_name_truncated_by_max_depth() {
    let mut node = x("<root><ok><inner>x</inner></ok></root>");
    node.children[0].name = "before\u{1b}after".to_string();
    let output = render_xml(&node, Some(1), ColorMode::Off);
    assert!(!output.contains('\u{1b}'));
    assert!(output.contains("before\\u001bafter …"));
}

#[test]
fn renders_xml_tree_with_color() {
    let node = x(r#"<person id="1"><name>Alice</name></person>"#);
    let output = render_xml(&node, None, ColorMode::Ansi16);
    assert!(output.contains("\x1b[36mperson\x1b[0m"));
    assert!(output.contains("\x1b[32mAlice\x1b[0m"));
}

#[test]
fn every_printed_xml_path_resolves_when_sibling_names_are_distinct() {
    let doc = x("<r><a><b/><c><d/></c></a><e/></r>");
    let paths = xml_paths(&doc);
    assert_eq!(paths, vec!["a", "a.b", "a.c", "a.c.d", "e"]);
    for shown in &paths {
        assert!(find_xml_path(&doc, shown).is_ok(), "{shown} does not resolve");
    }
}

#[test]
fn a_quote_inside_a_comment_does_not_hide_the_next_element_from_the_attribute_check() {
    assert!(xml_attribute_count_exceeds("<!-- don't --><r a=\"1\" b=\"2\"/>", 1));
    assert!(xml_attribute_count_exceeds("<?pi it's?><r a=\"1\" b=\"2\"/>", 1));
    assert!(xml_attribute_count_exceeds("<r><![CDATA[ it's ]]><s a=\"1\" b=\"2\"/></r>", 1));
    assert!(!xml_attribute_count_exceeds("<!-- don't --><r a=\"1\"/>", 1));
}

#[test]
fn a_quote_inside_a_comment_does_not_hide_deep_nesting() {
    assert!(xml_nesting_exceeds("<!-- don't --><a><b><c/></b></a>", 1));
    assert!(!xml_nesting_exceeds("<!-- don't --><a><b/></a>", 1));
}

#[test]
fn an_element_name_holding_a_dot_is_printed_escaped_and_found_again() {
    let doc = x("<r><a.b><c/></a.b></r>");
    let paths = xml_paths(&doc);
    assert_eq!(paths, vec!["a\\.b", "a\\.b.c"]);
    assert_eq!(find_xml_path(&doc, "a\\.b.c").unwrap().name, "c");
    assert_eq!(find_xml_path(&doc, "a\\.b").unwrap().name, "a.b");
    assert_eq!(find_xml_path(&doc, "a.b").unwrap_err(), "a");
}

#[test]
fn reading_an_xml_input_runs_the_checks_then_the_parser() {
    let t = xml_tree_of("<!-- don't --><r a=\"1\"><c>hi</c></r>").unwrap();
    assert_eq!(t.name, "r");
    assert_eq!(t.children[0].text.as_deref(), Some("hi"));
    let deep = "<a>".repeat(200) + &"</a>".repeat(200);
    assert_eq!(xml_tree_of(&deep).unwrap_err(), "error: XML nesting exceeds max depth (128)");
    let many = format!("<r {}/>", (0..10001).map(|i| format!("a{i}=\"v\"")).collect::<Vec<_>>().join(" "));
    assert_eq!(
        xml_tree_of(&many).unwrap_err(),
        "error: an XML element exceeds the max attribute count (10000)"
    );
    assert!(xml_tree_of("<r>").unwrap_err().starts_with("error: invalid XML at line "));
}

#[test]
fn the_nesting_check_counts_a_plain_chain_exactly() {
    for d in [1usize, 5, 128, 129, 300] {
        let input = "<a>".repeat(d) + "leaf" + &"</a>".repeat(d);
        for m in [0usize, 1, 5, 127, 128, 129, 299, 300] {
            assert_eq!(xml_nesting_exceeds(&input, m), d > m, "d = {d}, m = {m}");
        }
    }
    let deep = "<a>".repeat(50_000) + "leaf" + &"</a>".repeat(50_000);
    assert!(xml_nesting_exceeds(&deep, 128));
}
