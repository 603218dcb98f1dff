//! The browser's lines: one per visible node, in document order, below the
//! expanded containers; plus the whole document's paths for search.
use crate::color::Color;
use crate::json_tree::{scalar_color, scalar_display, JsonNode, JsonScalar};
use crate::json_tree::join_dot;
use crate::paths::{lemma_join_dot_push, strings_view};
use crate::render::index_label;
use crate::stats::{
    children_count, fields_count, items_count, json_count, json_height, json_size,
    lemma_fields_height_member, lemma_items_height_member, lemma_xml_height_member, xml_count,
    xml_height,
};
use crate::text::{decimal, decimal_string, push_str};
use crate::tui::pathset::{clone_path, PathSet};
use crate::xml_tree::XmlNode;
use vstd::prelude::*;
use vstd::string::StrSliceExecFns;

verus! {

broadcast use vstd::string::group_string_axioms;

/// One line of the browser.
pub struct Line {
    /// Nesting depth; top-level entries are at 0.
    pub depth: usize,
    /// The entry's key, `[i]` for an array item.
    pub key: String,
    /// A leaf's value as shown, and its color.
    pub value: Option<(String, Color)>,
    /// The node's path from the root.
    pub path: Vec<String>,
    /// A container (object, array, element with children).
    pub has_children: bool,
    /// The synthetic `N more` line closing a truncated array preview.
    pub is_array_summary: bool,
    /// Type and size, e.g. `object (3 fields)`.
    pub type_label: String,
}

/// A line as plain values.
pub struct LineView {
    pub depth: nat,
    pub key: Seq<char>,
    pub value: Option<(Seq<char>, Color)>,
    pub path: Seq<Seq<char>>,
    pub has_children: bool,
    pub is_array_summary: bool,
    pub type_label: Seq<char>,
}

impl View for Line {
    type V = LineView;

    open spec fn view(&self) -> LineView {
        LineView {
            depth: self.depth as nat,
            key: self.key@,
            value: match self.value {
                Some(v) => Some((v.0@, v.1)),
                None => None,
            },
            path: strings_view(self.path@),
            has_children: self.has_children,
            is_array_summary: self.is_array_summary,
            type_label: self.type_label@,
        }
    }
}

/// Every line, as plain values.
pub open spec fn lines_view(v: Seq<Line>) -> Seq<LineView> {
    v.map_values(|l: Line| l@)
}

/// Most array items shown before the `N more` line, until the array is
/// expanded in full.
pub const ARRAY_PREVIEW_LIMIT: usize = 200;

/// The key of the `N more` line (cosmetic: the line is told apart by
/// `is_array_summary`).
pub open spec fn truncation_label() -> Seq<char> {
    "\u{2026}more"@
}

pub open spec fn plural(n: nat) -> Seq<char> {
    if n == 1 {
        Seq::empty()
    } else {
        seq!['s']
    }
}

/// `what (n unit[s])`.
pub open spec fn counted(what: Seq<char>, n: nat, unit: Seq<char>) -> Seq<char> {
    what + " ("@ + decimal(n) + " "@ + unit + plural(n) + ")"@
}

/// A JSON node's type and size.
pub open spec fn json_type_label_spec(n: JsonNode) -> Seq<char> {
    match n {
        JsonNode::Object(f) => counted("object"@, f@.len(), "field"@),
        JsonNode::Array(items) => counted("array"@, items@.len(), "item"@),
        JsonNode::Scalar(JsonScalar::Str(s)) => counted("string"@, s@.len(), "char"@),
        JsonNode::Scalar(JsonScalar::Number(_)) => "number"@,
        JsonNode::Scalar(JsonScalar::Bool(_)) => "boolean"@,
        JsonNode::Scalar(JsonScalar::Null) => "null"@,
    }
}

/// An XML element's type and size.
pub open spec fn xml_type_label_spec(n: XmlNode) -> Seq<char> {
    if n.children@.len() > 0 {
        "element ("@ + decimal(n.children@.len()) + (if n.children@.len() == 1 {
            " child)"@
        } else {
            " children)"@
        })
    } else {
        match n.text {
            Some(t) => counted("string"@, t@.len(), "char"@),
            None => "empty element"@,
        }
    }
}

fn push_counted(out: &mut String, what: &str, n: usize, unit: &str)
    ensures
        final(out)@ == old(out)@ + counted(what@, n as nat, unit@),
{
    push_str(out, what);
    push_str(out, " (");
    let d = decimal_string(n);
    push_str(out, d.as_str());
    push_str(out, " ");
    push_str(out, unit);
    if n != 1 {
        out.push('s');
    }
    push_str(out, ")");
    assert(final(out)@ =~= old(out)@ + counted(what@, n as nat, unit@));
}

/// A JSON node's type and size, e.g. `object (2 fields)`, `string (5 chars)`.
pub fn json_type_label(node: &JsonNode) -> (r: String)
    ensures
        r@ == json_type_label_spec(*node),
{
    let mut out = String::new();
    match node {
        JsonNode::Object(fields) => push_counted(&mut out, "object", fields.len(), "field"),
        JsonNode::Array(items) => push_counted(&mut out, "array", items.len(), "item"),
        JsonNode::Scalar(JsonScalar::Str(s)) => push_counted(
            &mut out,
            "string",
            s.as_str().unicode_len(),
            "char",
        ),
        JsonNode::Scalar(JsonScalar::Number(_)) => push_str(&mut out, "number"),
        JsonNode::Scalar(JsonScalar::Bool(_)) => push_str(&mut out, "boolean"),
        JsonNode::Scalar(JsonScalar::Null) => push_str(&mut out, "null"),
    }
    out
}

/// An XML element's type and size, e.g. `element (2 children)`.
pub fn xml_type_label(node: &XmlNode) -> (r: String)
    ensures
        r@ == xml_type_label_spec(*node),
{
    let mut out = String::new();
    let n = node.children.len();
    if n > 0 {
        push_str(&mut out, "element (");
        let d = decimal_string(n);
        push_str(&mut out, d.as_str());
        if n == 1 {
            push_str(&mut out, " child)");
        } else {
            push_str(&mut out, " children)");
        }
    } else {
        match &node.text {
            Some(t) => push_counted(&mut out, "string", t.as_str().unicode_len(), "char"),
            None => push_str(&mut out, "empty element"),
        }
    }
    out
}

/// How many items of an array at `path` are listed: all when it was
/// expanded in full, else at most the preview limit.
pub open spec fn visible_items(total: nat, path: Seq<Seq<char>>, overrides: Set<Seq<Seq<char>>>) -> nat {
    if overrides.contains(path) || total <= ARRAY_PREVIEW_LIMIT {
        total
    } else {
        ARRAY_PREVIEW_LIMIT as nat
    }
}

/// The line of one entry (`label` naming `child`), below `path`.
pub open spec fn json_entry_line(label: Seq<char>, child: JsonNode, path: Seq<Seq<char>>, depth: nat) -> LineView {
    LineView {
        depth,
        key: label,
        value: match child {
            JsonNode::Scalar(s) => Some((scalar_display(s), scalar_color(s))),
            _ => None,
        },
        path: path.push(label),
        has_children: !(child is Scalar),
        is_array_summary: false,
        type_label: json_type_label_spec(child),
    }
}

/// The `N more (Tab to show all)` line closing a truncated array at `path`.
pub open spec fn summary_line(path: Seq<Seq<char>>, depth: nat, n: nat) -> LineView {
    LineView {
        depth,
        key: truncation_label(),
        value: Some((decimal(n) + " more (Tab to show all)"@, Color::Structure)),
        path: path.push(truncation_label()),
        has_children: false,
        is_array_summary: true,
        type_label: "array preview marker"@,
    }
}

/// An entry's line and, when it is an expanded container, the lines below it.
#[verifier::opaque]
pub open spec fn json_entry_lines(
    label: Seq<char>,
    child: JsonNode,
    path: Seq<Seq<char>>,
    depth: nat,
    collapsed: Set<Seq<Seq<char>>>,
    overrides: Set<Seq<Seq<char>>>,
) -> Seq<LineView>
    decreases child, 1int,
{
    let cp = path.push(label);
    seq![json_entry_line(label, child, path, depth)] + if !(child is Scalar) && !collapsed.contains(
        cp,
    ) {
        json_lines(child, cp, depth + 1, collapsed, overrides)
    } else {
        Seq::empty()
    }
}

pub open spec fn json_field_lines(
    f: Seq<(String, JsonNode)>,
    k: nat,
    path: Seq<Seq<char>>,
    depth: nat,
    collapsed: Set<Seq<Seq<char>>>,
    overrides: Set<Seq<Seq<char>>>,
) -> Seq<LineView>
    decreases f, k,
{
    if k == 0 || k > f.len() {
        Seq::empty()
    } else {
        json_field_lines(f, (k - 1) as nat, path, depth, collapsed, overrides) + json_entry_lines(
            f[k - 1].0@,
            f[k - 1].1,
            path,
            depth,
            collapsed,
            overrides,
        )
    }
}

pub open spec fn json_item_lines(
    items: Seq<JsonNode>,
    k: nat,
    path: Seq<Seq<char>>,
    depth: nat,
    collapsed: Set<Seq<Seq<char>>>,
    overrides: Set<Seq<Seq<char>>>,
) -> Seq<LineView>
    decreases items, k,
{
    if k == 0 || k > items.len() {
        Seq::empty()
    } else {
        json_item_lines(items, (k - 1) as nat, path, depth, collapsed, overrides)
            + json_entry_lines(
            index_label((k - 1) as nat),
            items[k - 1],
            path,
            depth,
            collapsed,
            overrides,
        )
    }
}

/// The lines below `node` (at `path`): its fields or (previewed) items in
/// order, each followed by its own lines unless collapsed, and a closing
/// `N more` line for an array cut at the preview limit.
#[verifier::opaque]
pub open spec fn json_lines(
    node: JsonNode,
    path: Seq<Seq<char>>,
    depth: nat,
    collapsed: Set<Seq<Seq<char>>>,
    overrides: Set<Seq<Seq<char>>>,
) -> Seq<LineView>
    decreases node, 0int,
{
    match node {
        JsonNode::Object(f) => json_field_lines(f@, f@.len(), path, depth, collapsed, overrides),
        JsonNode::Array(items) => {
            let v = visible_items(items@.len(), path, overrides);
            json_item_lines(items@, v, path, depth, collapsed, overrides) + if v < items@.len() {
                seq![summary_line(path, depth, (items@.len() - v) as nat)]
            } else {
                Seq::empty()
            }
        },
        JsonNode::Scalar(_) => Seq::empty(),
    }
}

proof fn lemma_json_entry_lines(
    label: Seq<char>,
    child: JsonNode,
    path: Seq<Seq<char>>,
    depth: nat,
    collapsed: Set<Seq<Seq<char>>>,
    overrides: Set<Seq<Seq<char>>>,
)
    ensures
        json_entry_lines(label, child, path, depth, collapsed, overrides) == seq![
            json_entry_line(label, child, path, depth),
        ] + if !(child is Scalar) && !collapsed.contains(path.push(label)) {
            json_lines(child, path.push(label), depth + 1, collapsed, overrides)
        } else {
            Seq::<LineView>::empty()
        },
{
    reveal(json_entry_lines);
    reveal(json_lines);
}

proof fn lemma_json_field_step(
    f: Seq<(String, JsonNode)>,
    k: nat,
    path: Seq<Seq<char>>,
    depth: nat,
    collapsed: Set<Seq<Seq<char>>>,
    overrides: Set<Seq<Seq<char>>>,
)
    requires
        k < f.len(),
    ensures
        json_field_lines(f, k + 1, path, depth, collapsed, overrides) == json_field_lines(
            f,
            k,
            path,
            depth,
            collapsed,
            overrides,
        ) + json_entry_lines(f[k as int].0@, f[k as int].1, path, depth, collapsed, overrides),
{
    reveal(json_entry_lines);
    reveal(json_lines);
}

proof fn lemma_json_item_step(
    items: Seq<JsonNode>,
    k: nat,
    path: Seq<Seq<char>>,
    depth: nat,
    collapsed: Set<Seq<Seq<char>>>,
    overrides: Set<Seq<Seq<char>>>,
)
    requires
        k < items.len(),
    ensures
        json_item_lines(items, k + 1, path, depth, collapsed, overrides) == json_item_lines(
            items,
            k,
            path,
            depth,
            collapsed,
            overrides,
        ) + json_entry_lines(index_label(k), items[k as int], path, depth, collapsed, overrides),
{
    reveal(json_entry_lines);
    reveal(json_lines);
}

proof fn lemma_json_lines(
    node: JsonNode,
    path: Seq<Seq<char>>,
    depth: nat,
    collapsed: Set<Seq<Seq<char>>>,
    overrides: Set<Seq<Seq<char>>>,
)
    ensures
        json_lines(node, path, depth, collapsed, overrides) == match node {
            JsonNode::Object(f) => json_field_lines(f@, f@.len(), path, depth, collapsed, overrides),
            JsonNode::Array(items) => {
                let v = visible_items(items@.len(), path, overrides);
                json_item_lines(items@, v, path, depth, collapsed, overrides) + if v
                    < items@.len() {
                    seq![summary_line(path, depth, (items@.len() - v) as nat)]
                } else {
                    Seq::<LineView>::empty()
                }
            },
            JsonNode::Scalar(_) => Seq::<LineView>::empty(),
        },
{
    reveal(json_entry_lines);
    reveal(json_lines);
}

/// Appends `v` as a line to `out`.
fn push_line(out: &mut Vec<Line>, line: Line)
    ensures
        lines_view(final(out)@) == lines_view(old(out)@).push(line@),
{
    let ghost before = out@;
    out.push(line);
    assert(lines_view(out@) =~= lines_view(before).push(line@));
}

fn json_entry_line_of(label: String, child: &JsonNode, path: &[String], depth: usize) -> (r: (Line, Vec<String>))
    ensures
        r.0@ == json_entry_line(label@, *child, strings_view(path@), depth as nat),
        strings_view(r.1@) == strings_view(path@).push(label@),
{
    let mut child_path = clone_path(path);
    let ghost before = child_path@;
    child_path.push(label.clone());
    assert(strings_view(child_path@) =~= strings_view(path@).push(label@));
    let line_path = clone_path(child_path.as_slice());
    let (value, has_children) = match child {
        JsonNode::Scalar(s) => (Some((s.display(), s.color())), false),
        _ => (None, true),
    };
    let line = Line {
        depth,
        key: label,
        value,
        path: line_path,
        has_children,
        is_array_summary: false,
        type_label: json_type_label(child),
    };
    (line, child_path)
}

fn push_json_entry(
    label: String,
    child: &JsonNode,
    path: &[String],
    depth: usize,
    collapsed: &PathSet,
    overrides: &PathSet,
    out: &mut Vec<Line>,
)
    requires
        depth + 1 + json_height(*child) <= usize::MAX,
    ensures
        lines_view(final(out)@) == lines_view(old(out)@) + json_entry_lines(
            label@,
            *child,
            strings_view(path@),
            depth as nat,
            collapsed.view(),
            overrides.view(),
        ),
    decreases child, 1int,
{
    proof {
        lemma_json_entry_lines(
            label@,
            *child,
            strings_view(path@),
            depth as nat,
            collapsed.view(),
            overrides.view(),
        );
    }
    let ghost start = lines_view(out@);
    let (line, child_path) = json_entry_line_of(label, child, path, depth);
    let has_children = line.has_children;
    push_line(out, line);
    if has_children && !collapsed.contains(child_path.as_slice()) {
        flatten_json(child, child_path.as_slice(), depth + 1, collapsed, overrides, out);
    } else {
        assert(lines_view(out@) =~= lines_view(old(out)@) + json_entry_lines(
            label@,
            *child,
            strings_view(path@),
            depth as nat,
            collapsed.view(),
            overrides.view(),
        ));
    }
}

fn summary_line_of(path: &[String], depth: usize, n: usize) -> (r: Line)
    ensures
        r@ == summary_line(strings_view(path@), depth as nat, n as nat),
{
    let mut marker_path = clone_path(path);
    marker_path.push(String::from_str("\u{2026}more"));
    assert(strings_view(marker_path@) =~= strings_view(path@).push(truncation_label()));
    let mut value = decimal_string(n);
    push_str(&mut value, " more (Tab to show all)");
    Line {
        depth,
        key: String::from_str("\u{2026}more"),
        value: Some((value, Color::Structure)),
        path: marker_path,
        has_children: false,
        is_array_summary: true,
        type_label: String::from_str("array preview marker"),
    }
}

/// Appends the lines below `node` (at `path`, depth `depth`), skipping the
/// children of containers in `collapsed` and listing every item of the
/// arrays in `overrides` (other arrays stop at the preview limit).
pub fn flatten_json(
    node: &JsonNode,
    path: &[String],
    depth: usize,
    collapsed: &PathSet,
    overrides: &PathSet,
    out: &mut Vec<Line>,
)
    requires
        depth + json_height(*node) <= usize::MAX,
    ensures
        lines_view(final(out)@) == lines_view(old(out)@) + json_lines(
            *node,
            strings_view(path@),
            depth as nat,
            collapsed.view(),
            overrides.view(),
        ),
    decreases node, 0int,
{
    proof {
        lemma_json_lines(*node, strings_view(path@), depth as nat, collapsed.view(), overrides.view());
    }
    let ghost start = lines_view(out@);
    let ghost p = strings_view(path@);
    match node {
        JsonNode::Object(fields) => {
            let mut i: usize = 0;
            while i < fields.len()
                invariant
                    i <= fields@.len(),
                    *node == JsonNode::Object(*fields),
                    depth + json_height(*node) <= usize::MAX,
                    p == strings_view(path@),
                    lines_view(out@) == start + json_field_lines(
                        fields@,
                        i as nat,
                        p,
                        depth as nat,
                        collapsed.view(),
                        overrides.view(),
                    ),
                decreases fields@.len() - i,
            {
                proof {
                    assert(node->Object_0 == *fields);
                    assert(decreases_to!(*node => node->Object_0@[i as int].1));
                    lemma_fields_height_member(fields@, i as int);
                    lemma_json_field_step(fields@, i as nat, p, depth as nat, collapsed.view(), overrides.view());
                }
                push_json_entry(
                    fields[i].0.clone(),
                    &fields[i].1,
                    path,
                    depth,
                    collapsed,
                    overrides,
                    out,
                );
                i += 1;
            }
        },
        JsonNode::Array(items) => {
            let total = items.len();
            let visible = if overrides.contains(path) || total <= ARRAY_PREVIEW_LIMIT {
                total
            } else {
                ARRAY_PREVIEW_LIMIT
            };
            let mut i: usize = 0;
            while i < visible
                invariant
                    i <= visible <= items@.len(),
                    total == items@.len(),
                    visible == visible_items(total as nat, p, overrides.view()),
                    *node == JsonNode::Array(*items),
                    depth + json_height(*node) <= usize::MAX,
                    p == strings_view(path@),
                    lines_view(out@) == start + json_item_lines(
                        items@,
                        i as nat,
                        p,
                        depth as nat,
                        collapsed.view(),
                        overrides.view(),
                    ),
                decreases visible - i,
            {
                proof {
                    assert(node->Array_0 == *items);
                    assert(decreases_to!(*node => node->Array_0@[i as int]));
                    lemma_items_height_member(items@, i as int);
                    lemma_json_item_step(items@, i as nat, p, depth as nat, collapsed.view(), overrides.view());
                }
                let mut label = String::new();
                label.push('[');
                let digits = decimal_string(i);
                push_str(&mut label, digits.as_str());
                label.push(']');
                assert(label@ == index_label(i as nat));
                push_json_entry(label, &items[i], path, depth, collapsed, overrides, out);
                i += 1;
            }
            if visible < total {
                let line = summary_line_of(path, depth, total - visible);
                push_line(out, line);
            }
        },
        JsonNode::Scalar(_) => {},
    }
}

// ---------------------------------------------------------------------------
// XML lines.
// ---------------------------------------------------------------------------

/// The line of element `child`, below `path`.
pub open spec fn xml_entry_line(child: XmlNode, path: Seq<Seq<char>>, depth: nat) -> LineView {
    LineView {
        depth,
        key: child.name@,
        value: match child.text {
            Some(t) => Some((t@, Color::Str)),
            None => None,
        },
        path: path.push(child.name@),
        has_children: child.children@.len() > 0,
        is_array_summary: false,
        type_label: xml_type_label_spec(child),
    }
}

/// An element's line and, unless it is collapsed, the lines below it.
#[verifier::opaque]
pub open spec fn xml_entry_lines(
    child: XmlNode,
    path: Seq<Seq<char>>,
    depth: nat,
    collapsed: Set<Seq<Seq<char>>>,
) -> Seq<LineView>
    decreases child, 1int,
{
    let cp = path.push(child.name@);
    seq![xml_entry_line(child, path, depth)] + if child.children@.len() > 0 && !collapsed.contains(
        cp,
    ) {
        xml_lines(child, cp, depth + 1, collapsed)
    } else {
        Seq::empty()
    }
}

pub open spec fn xml_children_lines(
    c: Seq<XmlNode>,
    k: nat,
    path: Seq<Seq<char>>,
    depth: nat,
    collapsed: Set<Seq<Seq<char>>>,
) -> Seq<LineView>
    decreases c, k,
{
    if k == 0 || k > c.len() {
        Seq::empty()
    } else {
        xml_children_lines(c, (k - 1) as nat, path, depth, collapsed) + xml_entry_lines(
            c[k - 1],
            path,
            depth,
            collapsed,
        )
    }
}

/// The lines below element `node` (at `path`): its children in order, each
/// followed by its own lines unless collapsed.
#[verifier::opaque]
pub open spec fn xml_lines(
    node: XmlNode,
    path: Seq<Seq<char>>,
    depth: nat,
    collapsed: Set<Seq<Seq<char>>>,
) -> Seq<LineView>
    decreases node, 0int,
{
    xml_children_lines(node.children@, node.children@.len(), path, depth, collapsed)
}

proof fn lemma_xml_entry_lines(
    child: XmlNode,
    path: Seq<Seq<char>>,
    depth: nat,
    collapsed: Set<Seq<Seq<char>>>,
)
    ensures
        xml_entry_lines(child, path, depth, collapsed) == seq![xml_entry_line(child, path, depth)]
            + if child.children@.len() > 0 && !collapsed.contains(path.push(child.name@)) {
            xml_lines(child, path.push(child.name@), depth + 1, collapsed)
        } else {
            Seq::<LineView>::empty()
        },
{
    reveal(xml_entry_lines);
    reveal(xml_lines);
}

proof fn lemma_xml_child_step(
    c: Seq<XmlNode>,
    k: nat,
    path: Seq<Seq<char>>,
    depth: nat,
    collapsed: Set<Seq<Seq<char>>>,
)
    requires
        k < c.len(),
    ensures
        xml_children_lines(c, k + 1, path, depth, collapsed) == xml_children_lines(
            c,
            k,
            path,
            depth,
            collapsed,
        ) + xml_entry_lines(c[k as int], path, depth, collapsed),
{
    reveal(xml_entry_lines);
    reveal(xml_lines);
}

proof fn lemma_xml_lines(node: XmlNode, path: Seq<Seq<char>>, depth: nat, collapsed: Set<Seq<Seq<char>>>)
    ensures
        xml_lines(node, path, depth, collapsed) == xml_children_lines(
            node.children@,
            node.children@.len(),
            path,
            depth,
            collapsed,
        ),
{
    reveal(xml_entry_lines);
    reveal(xml_lines);
}

fn push_xml_entry(
    child: &XmlNode,
    path: &[String],
    depth: usize,
    collapsed: &PathSet,
    out: &mut Vec<Line>,
)
    requires
        depth + 1 + xml_height(*child) <= usize::MAX,
    ensures
        lines_view(final(out)@) == lines_view(old(out)@) + xml_entry_lines(
            *child,
            strings_view(path@),
            depth as nat,
            collapsed.view(),
        ),
    decreases child, 1int,
{
    proof {
        lemma_xml_entry_lines(*child, strings_view(path@), depth as nat, collapsed.view());
    }
    let mut child_path = clone_path(path);
    child_path.push(child.name.clone());
    assert(strings_view(child_path@) =~= strings_view(path@).push(child.name@));
    let has_children = child.children.len() > 0;
    let value = match &child.text {
        Some(t) => Some((t.clone(), Color::Str)),
        None => None,
    };
    let line = Line {
        depth,
        key: child.name.clone(),
        value,
        path: clone_path(child_path.as_slice()),
        has_children,
        is_array_summary: false,
        type_label: xml_type_label(child),
    };
    push_line(out, line);
    if has_children && !collapsed.contains(child_path.as_slice()) {
        flatten_xml(child, child_path.as_slice(), depth + 1, collapsed, out);
    } else {
        assert(lines_view(out@) =~= lines_view(old(out)@) + xml_entry_lines(
            *child,
            strings_view(path@),
            depth as nat,
            collapsed.view(),
        ));
    }
}

/// Appends the lines below element `node` (at `path`, depth `depth`),
/// skipping the children of elements in `collapsed`.
pub fn flatten_xml(
    node: &XmlNode,
    path: &[String],
    depth: usize,
    collapsed: &PathSet,
    out: &mut Vec<Line>,
)
    requires
        depth + xml_height(*node) <= usize::MAX,
    ensures
        lines_view(final(out)@) == lines_view(old(out)@) + xml_lines(
            *node,
            strings_view(path@),
            depth as nat,
            collapsed.view(),
        ),
    decreases node, 0int,
{
    proof {
        lemma_xml_lines(*node, strings_view(path@), depth as nat, collapsed.view());
    }
    let ghost start = lines_view(out@);
    let ghost p = strings_view(path@);
    let mut i: usize = 0;
    while i < node.children.len()
        invariant
            i <= node.children@.len(),
            depth + xml_height(*node) <= usize::MAX,
            p == strings_view(path@),
            lines_view(out@) == start + xml_children_lines(
                node.children@,
                i as nat,
                p,
                depth as nat,
                collapsed.view(),
            ),
        decreases node.children@.len() - i,
    {
        proof {
            assert(decreases_to!(*node => node.children@[i as int]));
            lemma_xml_height_member(node.children@, i as int);
            lemma_xml_child_step(node.children@, i as nat, p, depth as nat, collapsed.view());
        }
        push_xml_entry(&node.children[i], path, depth, collapsed, out);
        i += 1;
    }
}

// ---------------------------------------------------------------------------
// Every container's path, whatever is collapsed.
// ---------------------------------------------------------------------------

/// The paths of the containers below `node` (at `path`).
pub open spec fn json_containers(node: JsonNode, path: Seq<Seq<char>>) -> Set<Seq<Seq<char>>>
    decreases node, 0int,
{
    match node {
        JsonNode::Object(f) => field_containers(f@, f@.len(), path),
        JsonNode::Array(items) => item_containers(items@, items@.len(), path),
        JsonNode::Scalar(_) => Set::empty(),
    }
}

/// A container entry's own path and those below it; nothing for a scalar.
pub open spec fn entry_containers(label: Seq<char>, child: JsonNode, path: Seq<Seq<char>>) -> Set<
    Seq<Seq<char>>,
>
    decreases child, 1int,
{
    if child is Scalar {
        Set::empty()
    } else {
        set![path.push(label)] + json_containers(child, path.push(label))
    }
}

pub open spec fn field_containers(f: Seq<(String, JsonNode)>, k: nat, path: Seq<Seq<char>>) -> Set<
    Seq<Seq<char>>,
>
    decreases f, k,
{
    if k == 0 || k > f.len() {
        Set::empty()
    } else {
        field_containers(f, (k - 1) as nat, path) + entry_containers(f[k - 1].0@, f[k - 1].1, path)
    }
}

pub open spec fn item_containers(items: Seq<JsonNode>, k: nat, path: Seq<Seq<char>>) -> Set<
    Seq<Seq<char>>,
>
    decreases items, k,
{
    if k == 0 || k > items.len() {
        Set::empty()
    } else {
        item_containers(items, (k - 1) as nat, path) + entry_containers(
            index_label((k - 1) as nat),
            items[k - 1],
            path,
        )
    }
}

fn collect_json_entry_containers(label: String, child: &JsonNode, path: &[String], out: &mut PathSet)
    ensures
        final(out).view() == old(out).view() + entry_containers(label@, *child, strings_view(path@)),
    decreases child, 1int,
{
    if let JsonNode::Scalar(_) = child {
        assert(old(out).view() + Set::empty() =~= old(out).view());
        return;
    }
    let mut child_path = clone_path(path);
    child_path.push(label);
    assert(strings_view(child_path@) =~= strings_view(path@).push(label@));
    out.insert(clone_path(child_path.as_slice()));
    collect_container_paths_json(child, child_path.as_slice(), out);
    assert(final(out).view() =~= old(out).view() + entry_containers(
        label@,
        *child,
        strings_view(path@),
    ));
}

/// Adds the path of every container below `node` (at `path`) to `out`.
pub fn collect_container_paths_json(node: &JsonNode, path: &[String], out: &mut PathSet)
    ensures
        final(out).view() == old(out).view() + json_containers(*node, strings_view(path@)),
    decreases node, 0int,
{
    let ghost start = out.view();
    let ghost p = strings_view(path@);
    match node {
        JsonNode::Object(fields) => {
            let mut i: usize = 0;
            while i < fields.len()
                invariant
                    i <= fields@.len(),
                    *node == JsonNode::Object(*fields),
                    p == strings_view(path@),
                    out.view() == start + field_containers(fields@, i as nat, p),
                decreases fields@.len() - i,
            {
                proof {
                    assert(node->Object_0 == *fields);
                    assert(decreases_to!(*node => node->Object_0@[i as int].1));
                }
                collect_json_entry_containers(fields[i].0.clone(), &fields[i].1, path, out);
                assert(out.view() =~= start + field_containers(fields@, (i + 1) as nat, p));
                i += 1;
            }
        },
        JsonNode::Array(items) => {
            let mut i: usize = 0;
            while i < items.len()
                invariant
                    i <= items@.len(),
                    *node == JsonNode::Array(*items),
                    p == strings_view(path@),
                    out.view() == start + item_containers(items@, i as nat, p),
                decreases items@.len() - i,
            {
                proof {
                    assert(node->Array_0 == *items);
                    assert(decreases_to!(*node => node->Array_0@[i as int]));
                }
                let mut label = String::new();
                label.push('[');
                let digits = decimal_string(i);
                push_str(&mut label, digits.as_str());
                label.push(']');
                assert(label@ == index_label(i as nat));
                collect_json_entry_containers(label, &items[i], path, out);
                assert(out.view() =~= start + item_containers(items@, (i + 1) as nat, p));
                i += 1;
            }
        },
        JsonNode::Scalar(_) => {
            assert(start + Set::empty() =~= start);
        },
    }
}

/// The paths of the elements with children below `node` (at `path`).
pub open spec fn xml_containers(node: XmlNode, path: Seq<Seq<char>>) -> Set<Seq<Seq<char>>>
    decreases node, 0int,
{
    xml_children_containers(node.children@, node.children@.len(), path)
}

pub open spec fn xml_entry_containers(child: XmlNode, path: Seq<Seq<char>>) -> Set<Seq<Seq<char>>>
    decreases child, 1int,
{
    if child.children@.len() == 0 {
        Set::empty()
    } else {
        set![path.push(child.name@)] + xml_containers(child, path.push(child.name@))
    }
}

pub open spec fn xml_children_containers(c: Seq<XmlNode>, k: nat, path: Seq<Seq<char>>) -> Set<
    Seq<Seq<char>>,
>
    decreases c, k,
{
    if k == 0 || k > c.len() {
        Set::empty()
    } else {
        xml_children_containers(c, (k - 1) as nat, path) + xml_entry_containers(c[k - 1], path)
    }
}

/// Adds the path of every element with children below `node` (at `path`)
/// to `out`.
pub fn collect_container_paths_xml(node: &XmlNode, path: &[String], out: &mut PathSet)
    ensures
        final(out).view() == old(out).view() + xml_containers(*node, strings_view(path@)),
    decreases node, 0int,
{
    let ghost start = out.view();
    let ghost p = strings_view(path@);
    let mut i: usize = 0;
    while i < node.children.len()
        invariant
            i <= node.children@.len(),
            p == strings_view(path@),
            out.view() == start + xml_children_containers(node.children@, i as nat, p),
        decreases node.children@.len() - i,
    {
        proof {
            assert(decreases_to!(*node => node.children@[i as int]));
        }
        let child = &node.children[i];
        assert(xml_children_containers(node.children@, (i + 1) as nat, p)
            == xml_children_containers(node.children@, i as nat, p) + xml_entry_containers(*child, p));
        if child.children.len() > 0 {
            assert(xml_entry_containers(*child, p) == set![p.push(child.name@)] + xml_containers(
                *child,
                p.push(child.name@),
            ));
            let mut child_path = clone_path(path);
            child_path.push(child.name.clone());
            assert(strings_view(child_path@) =~= p.push(child.name@));
            out.insert(clone_path(child_path.as_slice()));
            collect_container_paths_xml(child, child_path.as_slice(), out);
        }
        assert(out.view() =~= start + xml_children_containers(node.children@, (i + 1) as nat, p));
        i += 1;
    }
}

// ---------------------------------------------------------------------------
// Every node's path and search text, whatever is collapsed.
// ---------------------------------------------------------------------------

/// What search matches a node by: its dotted path, then `: value` for a leaf.
pub open spec fn search_text_spec(path: Seq<Seq<char>>, value: Option<Seq<char>>) -> Seq<char> {
    join_dot(path) + match value {
        Some(v) => ": "@ + v,
        None => Seq::empty(),
    }
}

/// The segments of `path` joined by `.`, then `: value` when there is one.
pub fn search_text(path: &[String], value: Option<&str>) -> (r: String)
    ensures
        r@ == search_text_spec(
            strings_view(path@),
            match value {
                Some(v) => Some(v@),
                None => None,
            },
        ),
{
    let ghost segs = strings_view(path@);
    let mut out = String::new();
    let mut i: usize = 0;
    while i < path.len()
        invariant
            i <= path@.len(),
            segs == strings_view(path@),
            out@ == join_dot(segs.take(i as int)),
        decreases path@.len() - i,
    {
        assert(segs.take(i + 1) == segs.take(i as int).push(segs[i as int]));
        if i > 0 {
            proof {
                lemma_join_dot_push(segs.take(i as int), segs[i as int]);
            }
            out.push('.');
        } else {
            assert(segs.take(1) == seq![segs[0]]);
        }
        push_str(&mut out, path[i].as_str());
        i += 1;
    }
    assert(segs.take(path@.len() as int) == segs);
    match value {
        Some(v) => {
            push_str(&mut out, ": ");
            push_str(&mut out, v);
        },
        None => {},
    }
    out
}

/// Path and search text of each entry, as plain values.
pub open spec fn entries_view(v: Seq<(Vec<String>, String)>) -> Seq<(Seq<Seq<char>>, Seq<char>)> {
    v.map_values(|e: (Vec<String>, String)| (strings_view(e.0@), e.1@))
}

pub open spec fn json_leaf_value(n: JsonNode) -> Option<Seq<char>> {
    match n {
        JsonNode::Scalar(s) => Some(scalar_display(s)),
        _ => None,
    }
}

/// Every node below `node` (at `path`), in document order: its path and
/// search text.
pub open spec fn json_all(node: JsonNode, path: Seq<Seq<char>>) -> Seq<(Seq<Seq<char>>, Seq<char>)>
    decreases node, 0int,
{
    match node {
        JsonNode::Object(f) => field_all(f@, f@.len(), path),
        JsonNode::Array(items) => item_all(items@, items@.len(), path),
        JsonNode::Scalar(_) => Seq::empty(),
    }
}

pub open spec fn entry_all(label: Seq<char>, child: JsonNode, path: Seq<Seq<char>>) -> Seq<
    (Seq<Seq<char>>, Seq<char>),
>
    decreases child, 1int,
{
    let cp = path.push(label);
    seq![(cp, search_text_spec(cp, json_leaf_value(child)))] + json_all(child, cp)
}

pub open spec fn field_all(f: Seq<(String, JsonNode)>, k: nat, path: Seq<Seq<char>>) -> Seq<
    (Seq<Seq<char>>, Seq<char>),
>
    decreases f, k,
{
    if k == 0 || k > f.len() {
        Seq::empty()
    } else {
        field_all(f, (k - 1) as nat, path) + entry_all(f[k - 1].0@, f[k - 1].1, path)
    }
}

pub open spec fn item_all(items: Seq<JsonNode>, k: nat, path: Seq<Seq<char>>) -> Seq<
    (Seq<Seq<char>>, Seq<char>),
>
    decreases items, k,
{
    if k == 0 || k > items.len() {
        Seq::empty()
    } else {
        item_all(items, (k - 1) as nat, path) + entry_all(
            index_label((k - 1) as nat),
            items[k - 1],
            path,
        )
    }
}

fn push_entry(out: &mut Vec<(Vec<String>, String)>, path: &[String], text: String)
    ensures
        entries_view(final(out)@) == entries_view(old(out)@).push((strings_view(path@), text@)),
{
    let ghost before = out@;
    out.push((clone_path(path), text));
    assert(entries_view(out@) =~= entries_view(before).push((strings_view(path@), text@)));
}

fn collect_json_entry(
    label: String,
    child: &JsonNode,
    path: &[String],
    out: &mut Vec<(Vec<String>, String)>,
)
    ensures
        entries_view(final(out)@) == entries_view(old(out)@) + entry_all(
            label@,
            *child,
            strings_view(path@),
        ),
    decreases child, 1int,
{
    let mut child_path = clone_path(path);
    child_path.push(label);
    let ghost cp = strings_view(path@).push(label@);
    assert(strings_view(child_path@) =~= cp);
    let text = match child {
        JsonNode::Scalar(s) => {
            let v = s.display();
            search_text(child_path.as_slice(), Some(v.as_str()))
        },
        _ => search_text(child_path.as_slice(), None),
    };
    push_entry(out, child_path.as_slice(), text);
    collect_all_paths_json(child, child_path.as_slice(), out);
    assert(entries_view(final(out)@) =~= entries_view(old(out)@) + entry_all(
        label@,
        *child,
        strings_view(path@),
    ));
}

/// Appends the path and search text of every node below `node` (at
/// `path`), in document order, collapsed or not.
pub fn collect_all_paths_json(node: &JsonNode, path: &[String], out: &mut Vec<(Vec<String>, String)>)
    ensures
        entries_view(final(out)@) == entries_view(old(out)@) + json_all(*node, strings_view(path@)),
    decreases node, 0int,
{
    let ghost start = entries_view(out@);
    let ghost p = strings_view(path@);
    match node {
        JsonNode::Object(fields) => {
            let mut i: usize = 0;
            while i < fields.len()
                invariant
                    i <= fields@.len(),
                    *node == JsonNode::Object(*fields),
                    p == strings_view(path@),
                    entries_view(out@) == start + field_all(fields@, i as nat, p),
                decreases fields@.len() - i,
            {
                proof {
                    assert(node->Object_0 == *fields);
                    assert(decreases_to!(*node => node->Object_0@[i as int].1));
                }
                collect_json_entry(fields[i].0.clone(), &fields[i].1, path, out);
                assert(field_all(fields@, (i + 1) as nat, p) == field_all(fields@, i as nat, p)
                    + entry_all(fields@[i as int].0@, fields@[i as int].1, p));
                i += 1;
            }
        },
        JsonNode::Array(items) => {
            let mut i: usize = 0;
            while i < items.len()
                invariant
                    i <= items@.len(),
                    *node == JsonNode::Array(*items),
                    p == strings_view(path@),
                    entries_view(out@) == start + item_all(items@, i as nat, p),
                decreases items@.len() - i,
            {
                proof {
                    assert(node->Array_0 == *items);
                    assert(decreases_to!(*node => node->Array_0@[i as int]));
                }
                let mut label = String::new();
                label.push('[');
                let digits = decimal_string(i);
                push_str(&mut label, digits.as_str());
                label.push(']');
                assert(label@ == index_label(i as nat));
                collect_json_entry(label, &items[i], path, out);
                assert(item_all(items@, (i + 1) as nat, p) == item_all(items@, i as nat, p)
                    + entry_all(index_label(i as nat), items@[i as int], p));
                i += 1;
            }
        },
        JsonNode::Scalar(_) => {
            assert(start + Seq::empty() =~= start);
        },
    }
}

pub open spec fn xml_text_value(n: XmlNode) -> Option<Seq<char>> {
    match n.text {
        Some(t) => Some(t@),
        None => None,
    }
}

/// Every element below `node` (at `path`), in document order: its path and
/// search text.
pub open spec fn xml_all(node: XmlNode, path: Seq<Seq<char>>) -> Seq<(Seq<Seq<char>>, Seq<char>)>
    decreases node, 0int,
{
    xml_children_all(node.children@, node.children@.len(), path)
}

pub open spec fn xml_entry_all(child: XmlNode, path: Seq<Seq<char>>) -> Seq<(Seq<Seq<char>>, Seq<char>)>
    decreases child, 1int,
{
    let cp = path.push(child.name@);
    seq![(cp, search_text_spec(cp, xml_text_value(child)))] + xml_all(child, cp)
}

pub open spec fn xml_children_all(c: Seq<XmlNode>, k: nat, path: Seq<Seq<char>>) -> Seq<
    (Seq<Seq<char>>, Seq<char>),
>
    decreases c, k,
{
    if k == 0 || k > c.len() {
        Seq::empty()
    } else {
        xml_children_all(c, (k - 1) as nat, path) + xml_entry_all(c[k - 1], path)
    }
}

/// Appends the path and search text of every element below `node` (at
/// `path`), in document order, collapsed or not.
pub fn collect_all_paths_xml(node: &XmlNode, path: &[String], out: &mut Vec<(Vec<String>, String)>)
    ensures
        entries_view(final(out)@) == entries_view(old(out)@) + xml_all(*node, strings_view(path@)),
    decreases node, 0int,
{
    let ghost start = entries_view(out@);
    let ghost p = strings_view(path@);
    let mut i: usize = 0;
    while i < node.children.len()
        invariant
            i <= node.children@.len(),
            p == strings_view(path@),
            entries_view(out@) == start + xml_children_all(node.children@, i as nat, p),
        decreases node.children@.len() - i,
    {
        proof {
            assert(decreases_to!(*node => node.children@[i as int]));
        }
        let child = &node.children[i];
        let ghost before = entries_view(out@);
        let mut child_path = clone_path(path);
        child_path.push(child.name.clone());
        let ghost cp = p.push(child.name@);
        assert(strings_view(child_path@) =~= cp);
        let text = match &child.text {
            Some(t) => search_text(child_path.as_slice(), Some(t.as_str())),
            None => search_text(child_path.as_slice(), None),
        };
        push_entry(out, child_path.as_slice(), text);
        collect_all_paths_xml(child, child_path.as_slice(), out);
        assert(xml_children_all(node.children@, (i + 1) as nat, p) == xml_children_all(
            node.children@,
            i as nat,
            p,
        ) + xml_entry_all(*child, p));
        assert(entries_view(out@) =~= before + xml_entry_all(*child, p));
        i += 1;
    }
}


// ---------------------------------------------------------------------------
// The search covers every node.
// ---------------------------------------------------------------------------

pub open spec fn all_counts(f: Seq<(String, JsonNode)>) -> nat {
    fields_count(f, 0) + fields_count(f, 1) + fields_count(f, 2)
}

pub open spec fn all_item_counts(items: Seq<JsonNode>) -> nat {
    items_count(items, 0) + items_count(items, 1) + items_count(items, 2)
}

proof fn lemma_json_all_len(n: JsonNode, path: Seq<Seq<char>>)
    ensures
        json_all(n, path).len() + 1 == json_size(n),
    decreases n, 0int,
{
    match n {
        JsonNode::Object(f) => {
            lemma_field_all_len(f@, f@.len(), path);
            assert(f@.take(f@.len() as int) == f@);
        },
        JsonNode::Array(items) => {
            lemma_item_all_len(items@, items@.len(), path);
            assert(items@.take(items@.len() as int) == items@);
        },
        JsonNode::Scalar(_) => {},
    }
}

proof fn lemma_field_all_len(f: Seq<(String, JsonNode)>, k: nat, path: Seq<Seq<char>>)
    requires
        k <= f.len(),
    ensures
        field_all(f, k, path).len() == all_counts(f.take(k as int)),
    decreases f, k,
{
    if k == 0 {
        assert(f.take(0) == Seq::<(String, JsonNode)>::empty());
    } else {
        lemma_field_all_len(f, (k - 1) as nat, path);
        let cp = path.push(f[k - 1].0@);
        lemma_json_all_len(f[k - 1].1, cp);
        let t = f.take(k as int);
        assert(t.drop_last() == f.take(k - 1));
        assert(t.last() == f[k - 1]);
        assert(entry_all(f[k - 1].0@, f[k - 1].1, path).len() == 1 + json_all(f[k - 1].1, cp).len());
        assert(fields_count(t, 0) == fields_count(f.take(k - 1), 0) + json_count(f[k - 1].1, 0));
        assert(fields_count(t, 1) == fields_count(f.take(k - 1), 1) + json_count(f[k - 1].1, 1));
        assert(fields_count(t, 2) == fields_count(f.take(k - 1), 2) + json_count(f[k - 1].1, 2));
    }
}

proof fn lemma_item_all_len(items: Seq<JsonNode>, k: nat, path: Seq<Seq<char>>)
    requires
        k <= items.len(),
    ensures
        item_all(items, k, path).len() == all_item_counts(items.take(k as int)),
    decreases items, k,
{
    if k == 0 {
        assert(items.take(0) == Seq::<JsonNode>::empty());
    } else {
        lemma_item_all_len(items, (k - 1) as nat, path);
        let cp = path.push(index_label((k - 1) as nat));
        lemma_json_all_len(items[k - 1], cp);
        let t = items.take(k as int);
        assert(t.drop_last() == items.take(k - 1));
        assert(t.last() == items[k - 1]);
        assert(entry_all(index_label((k - 1) as nat), items[k - 1], path).len() == 1 + json_all(
            items[k - 1],
            cp,
        ).len());
        assert(items_count(t, 0) == items_count(items.take(k - 1), 0) + json_count(items[k - 1], 0));
        assert(items_count(t, 1) == items_count(items.take(k - 1), 1) + json_count(items[k - 1], 1));
        assert(items_count(t, 2) == items_count(items.take(k - 1), 2) + json_count(items[k - 1], 2));
    }
}

/// The whole-document search (`F`) looks at every node below the root,
/// collapsed, truncated or not: one entry per node that `json_stats`
/// counts, less the root.
pub proof fn lemma_one_search_entry_per_node(n: JsonNode)
    ensures
        json_all(n, Seq::empty()).len() == json_count(n, 0) + json_count(n, 1) + json_count(n, 2)
            - 1,
{
    lemma_json_all_len(n, Seq::empty());
}

proof fn lemma_xml_all_len(n: XmlNode, path: Seq<Seq<char>>)
    ensures
        xml_all(n, path).len() + 1 == xml_count(n, 0),
    decreases n, 0int,
{
    lemma_xml_children_all_len(n.children@, n.children@.len(), path);
    assert(n.children@.take(n.children@.len() as int) == n.children@);
}

proof fn lemma_xml_children_all_len(c: Seq<XmlNode>, k: nat, path: Seq<Seq<char>>)
    requires
        k <= c.len(),
    ensures
        xml_children_all(c, k, path).len() == children_count(c.take(k as int), 0),
    decreases c, k,
{
    if k == 0 {
        assert(c.take(0) == Seq::<XmlNode>::empty());
    } else {
        lemma_xml_children_all_len(c, (k - 1) as nat, path);
        let cp = path.push(c[k - 1].name@);
        lemma_xml_all_len(c[k - 1], cp);
        let t = c.take(k as int);
        assert(t.drop_last() == c.take(k - 1));
        assert(t.last() == c[k - 1]);
        assert(xml_entry_all(c[k - 1], path).len() == 1 + xml_all(c[k - 1], cp).len());
        assert(children_count(t, 0) == children_count(c.take(k - 1), 0) + xml_count(c[k - 1], 0));
    }
}

/// The whole-document search (`F`) looks at every element below the root,
/// collapsed or not: one entry per element that `xml_stats` counts, less
/// the root.
pub proof fn lemma_one_search_entry_per_element(n: XmlNode)
    ensures
        xml_all(n, Seq::empty()).len() == xml_count(n, 0) - 1,
{
    lemma_xml_all_len(n, Seq::empty());
}

} // verus!
