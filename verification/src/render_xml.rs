//! The static XML tree renderer.
use crate::color::{mode_enabled, painted, painted_depth, push_painted, push_painted_depth, Color, ColorMode};
use crate::json_tree::{escape_display, escape_display_str};
use crate::paths::{children_path_list, lemma_xml_path_count, xml_path_list};
use crate::render::{
    lemma_breaks_concat, lemma_escaped_one_line, lemma_newline_breaks, lemma_one_line_breaks,
    lemma_one_line_concat, lemma_pieces_one_line, line_breaks, one_line,
    branch, child_prefix, cut_at, depth_cut, extend_prefix, lemma_escaped_plain,
    lemma_pieces_plain, lemma_plain_concat, no_raw_controls, push_guide,
};
use crate::stats::{lemma_xml_height_lt_count, lemma_xml_height_member, xml_count, xml_height};
use crate::text::push_str;
use crate::cli::contains_text;
use crate::schema::{join, lemma_contains_left, lemma_contains_right, lemma_join_contains};
use crate::xml_tree::XmlNode;
use vstd::prelude::*;

verus! {

broadcast use vstd::string::group_string_axioms;

/// One attribute as shown: `key="value"`, key and value escaped and painted.
pub open spec fn attr_text(a: (String, String), mode: ColorMode) -> Seq<char> {
    painted(escape_display(a.0@), Color::Key, mode) + "=\""@ + painted(
        escape_display(a.1@),
        Color::Str,
        mode,
    ) + "\""@
}

/// The first `k` attributes as shown, separated by spaces.
pub open spec fn attrs_text(a: Seq<(String, String)>, k: nat, mode: ColorMode) -> Seq<char>
    decreases k,
{
    if k == 0 || k > a.len() {
        Seq::empty()
    } else if k == 1 {
        attr_text(a[0], mode)
    } else {
        attrs_text(a, (k - 1) as nat, mode) + " "@ + attr_text(a[k - 1], mode)
    }
}

/// An element's label: its name, then `[attributes]` when it has any, then
/// `: text` when it has text.
#[verifier::opaque]
pub open spec fn xml_label_spec(n: XmlNode, mode: ColorMode) -> Seq<char> {
    painted(escape_display(n.name@), Color::Key, mode) + (if n.attributes@.len() > 0 {
        " ["@ + attrs_text(n.attributes@, n.attributes@.len(), mode) + "]"@
    } else {
        Seq::empty()
    }) + match n.text {
        Some(t) => ": "@ + painted(escape_display(t@), Color::Str, mode),
        None => Seq::empty(),
    }
}

/// The lines of the first `k` children of an element.
pub open spec fn xml_child_lines(
    c: Seq<XmlNode>,
    k: nat,
    prefix: Seq<char>,
    depth: nat,
    max_depth: Option<usize>,
    mode: ColorMode,
) -> Seq<char>
    decreases c, k,
{
    if k == 0 || k > c.len() {
        Seq::empty()
    } else {
        xml_child_lines(c, (k - 1) as nat, prefix, depth, max_depth, mode) + xml_child_line(
            c,
            (k - 1) as nat,
            prefix,
            depth,
            max_depth,
            mode,
        )
    }
}

/// The lines of child `i` and, unless `--depth` cuts it, of its own children.
#[verifier::opaque]
pub open spec fn xml_child_line(
    c: Seq<XmlNode>,
    i: nat,
    prefix: Seq<char>,
    depth: nat,
    max_depth: Option<usize>,
    mode: ColorMode,
) -> Seq<char>
    decreases c, i,
{
    if i >= c.len() {
        Seq::empty()
    } else {
        let child = c[i as int];
        let is_last = i + 1 == c.len();
        let guide = painted_depth(prefix + branch(is_last), depth, mode_enabled(mode));
        if child.children@.len() > 0 && depth_cut(max_depth, depth) {
            guide + xml_label_spec(child, mode) + " "@ + painted("…"@, Color::Structure, mode)
                + "\n"@
        } else {
            guide + xml_label_spec(child, mode) + "\n"@ + xml_child_lines(
                child.children@,
                child.children@.len(),
                prefix + child_prefix(is_last),
                depth + 1,
                max_depth,
                mode,
            )
        }
    }
}

proof fn lemma_xml_child_step(
    c: Seq<XmlNode>,
    k: nat,
    prefix: Seq<char>,
    depth: nat,
    max_depth: Option<usize>,
    mode: ColorMode,
)
    requires
        k < c.len(),
    ensures
        xml_child_lines(c, k + 1, prefix, depth, max_depth, mode) == xml_child_lines(
            c,
            k,
            prefix,
            depth,
            max_depth,
            mode,
        ) + xml_child_line(c, k, prefix, depth, max_depth, mode),
{
    reveal(xml_child_line);
}

proof fn lemma_xml_child_cases(
    c: Seq<XmlNode>,
    i: nat,
    prefix: Seq<char>,
    depth: nat,
    max_depth: Option<usize>,
    mode: ColorMode,
)
    requires
        i < c.len(),
    ensures
        ({
            let child = c[i as int];
            let is_last = i + 1 == c.len();
            let guide = painted_depth(prefix + branch(is_last), depth, mode_enabled(mode));
            let lines = xml_child_line(c, i, prefix, depth, max_depth, mode);
            &&& child.children@.len() > 0 && depth_cut(max_depth, depth) ==> lines == guide
                + xml_label_spec(child, mode) + " "@ + painted("…"@, Color::Structure, mode)
                + "\n"@
            &&& !(child.children@.len() > 0 && depth_cut(max_depth, depth)) ==> lines == guide
                + xml_label_spec(child, mode) + "\n"@ + xml_child_lines(
                child.children@,
                child.children@.len(),
                prefix + child_prefix(is_last),
                depth + 1,
                max_depth,
                mode,
            )
        }),
{
    reveal(xml_child_line);
}

pub open spec fn render_xml_spec(n: XmlNode, max_depth: Option<usize>, mode: ColorMode) -> Seq<
    char,
> {
    xml_label_spec(n, mode) + "\n"@ + xml_child_lines(
        n.children@,
        n.children@.len(),
        Seq::empty(),
        0,
        max_depth,
        mode,
    )
}

fn push_attr(a: &(String, String), mode: ColorMode, out: &mut String)
    ensures
        final(out)@ == old(out)@ + attr_text(*a, mode),
{
    let k = escape_display_str(a.0.as_str());
    push_painted(out, k.as_str(), Color::Key, mode);
    push_str(out, "=\"");
    let v = escape_display_str(a.1.as_str());
    push_painted(out, v.as_str(), Color::Str, mode);
    push_str(out, "\"");
}

fn push_xml_label(node: &XmlNode, mode: ColorMode, out: &mut String)
    ensures
        final(out)@ == old(out)@ + xml_label_spec(*node, mode),
{
    reveal(xml_label_spec);
    let ghost start = out@;
    let name = escape_display_str(node.name.as_str());
    push_painted(out, name.as_str(), Color::Key, mode);
    let ghost after_name = out@;
    if node.attributes.len() > 0 {
        push_str(out, " [");
        let ghost open = out@;
        let mut i: usize = 0;
        while i < node.attributes.len()
            invariant
                i <= node.attributes@.len(),
                out@ == open + attrs_text(node.attributes@, i as nat, mode),
            decreases node.attributes@.len() - i,
        {
            if i > 0 {
                push_str(out, " ");
            }
            push_attr(&node.attributes[i], mode, out);
            i += 1;
        }
        push_str(out, "]");
    }
    let ghost after_attrs = out@;
    match &node.text {
        Some(t) => {
            push_str(out, ": ");
            let e = escape_display_str(t.as_str());
            push_painted(out, e.as_str(), Color::Str, mode);
        },
        None => {},
    }
}

/// Appends the lines of child `i` of `node`.
#[verifier::rlimit(30)]
fn push_xml_child(
    node: &XmlNode,
    i: usize,
    prefix: &str,
    depth: usize,
    max_depth: Option<usize>,
    mode: ColorMode,
    out: &mut String,
)
    requires
        i < node.children@.len(),
        depth + xml_height(*node) <= usize::MAX,
    ensures
        final(out)@ == old(out)@ + xml_child_line(
            node.children@,
            i as nat,
            prefix@,
            depth as nat,
            max_depth,
            mode,
        ),
    decreases node, 0int,
{
    let ghost start = out@;
    proof {
        lemma_xml_child_cases(node.children@, i as nat, prefix@, depth as nat, max_depth, mode);
        lemma_xml_height_member(node.children@, i as int);
        assert(decreases_to!(*node => node.children@[i as int]));
    }
    let child = &node.children[i];
    let is_last = i == node.children.len() - 1;
    push_guide(prefix, is_last, depth, mode, out);
    let cut = cut_at(max_depth, depth);
    push_xml_label(child, mode, out);
    let ghost labelled = out@;
    if child.children.len() > 0 && cut {
        push_str(out, " ");
        push_painted(out, "…", Color::Structure, mode);
        push_str(out, "\n");
        assert(out@ =~= labelled + " "@ + painted("…"@, Color::Structure, mode) + "\n"@);
    } else {
        push_str(out, "\n");
        let next = extend_prefix(prefix, is_last);
        render_xml_children(child, next.as_str(), depth + 1, max_depth, mode, out);
    }
}

fn render_xml_children(
    node: &XmlNode,
    prefix: &str,
    depth: usize,
    max_depth: Option<usize>,
    mode: ColorMode,
    out: &mut String,
)
    requires
        depth + xml_height(*node) <= usize::MAX,
    ensures
        final(out)@ == old(out)@ + xml_child_lines(
            node.children@,
            node.children@.len(),
            prefix@,
            depth as nat,
            max_depth,
            mode,
        ),
    decreases node, 1int,
{
    let ghost start = out@;
    let len = node.children.len();
    let mut i: usize = 0;
    while i < len
        invariant
            i <= len == node.children@.len(),
            depth + xml_height(*node) <= usize::MAX,
            out@ == start + xml_child_lines(
                node.children@,
                i as nat,
                prefix@,
                depth as nat,
                max_depth,
                mode,
            ),
        decreases len - i,
    {
        push_xml_child(node, i, prefix, depth, max_depth, mode, out);
        proof {
            lemma_xml_child_step(node.children@, i as nat, prefix@, depth as nat, max_depth, mode);
        }
        i += 1;
    }
}

/// Renders an XML tree: the root's label, then one line per element with
/// `├──`/`└──` guides. An element cut by `--depth` keeps its label (name,
/// attributes, text) and shows `…` for its children. Every element occupies
/// memory, so the element count fits in a `usize`.
pub fn render_xml(node: &XmlNode, max_depth: Option<usize>, mode: ColorMode) -> (r: String)
    requires
        xml_count(*node, 0) <= usize::MAX,
    ensures
        r@ == render_xml_spec(*node, max_depth, mode),
{
    proof {
        lemma_xml_height_lt_count(*node);
    }
    let mut out = String::new();
    push_xml_label(node, mode, &mut out);
    push_str(&mut out, "\n");
    let empty = String::new();
    render_xml_children(node, empty.as_str(), 0, max_depth, mode, &mut out);
    out
}

} // verus!

verus! {

// ---------------------------------------------------------------------------
// No control character of the document reaches the terminal.
// ---------------------------------------------------------------------------

proof fn lemma_xml_pieces_plain()
    ensures
        no_raw_controls("=\""@),
        no_raw_controls("\""@),
        no_raw_controls(" "@),
        no_raw_controls(" ["@),
        no_raw_controls("]"@),
        no_raw_controls(Seq::<char>::empty()),
{
    reveal_strlit("=\"");
    reveal_strlit("\"");
    reveal_strlit(" ");
    reveal_strlit(" [");
    reveal_strlit("]");
}

proof fn lemma_attrs_plain(a: Seq<(String, String)>, k: nat)
    ensures
        no_raw_controls(attrs_text(a, k, ColorMode::Off)),
    decreases k,
{
    lemma_xml_pieces_plain();
    if k > 0 && k <= a.len() {
        let m = ColorMode::Off;
        let x = a[k - 1];
        lemma_escaped_plain(x.0@);
        lemma_escaped_plain(x.1@);
        lemma_plain_concat(escape_display(x.0@), "=\""@);
        lemma_plain_concat(escape_display(x.0@) + "=\""@, escape_display(x.1@));
        lemma_plain_concat(escape_display(x.0@) + "=\""@ + escape_display(x.1@), "\""@);
        assert(attr_text(x, m) == escape_display(x.0@) + "=\""@ + escape_display(x.1@) + "\""@);
        if k > 1 {
            lemma_attrs_plain(a, (k - 1) as nat);
            lemma_plain_concat(attrs_text(a, (k - 1) as nat, m), " "@);
            lemma_plain_concat(attrs_text(a, (k - 1) as nat, m) + " "@, attr_text(x, m));
        }
    } else {
        assert(attrs_text(a, k, ColorMode::Off) =~= Seq::<char>::empty());
    }
}

proof fn lemma_label_plain(n: XmlNode)
    ensures
        no_raw_controls(xml_label_spec(n, ColorMode::Off)),
{
    reveal(xml_label_spec);
    lemma_pieces_plain();
    lemma_xml_pieces_plain();
    let m = ColorMode::Off;
    lemma_escaped_plain(n.name@);
    let attrs = if n.attributes@.len() > 0 {
        " ["@ + attrs_text(n.attributes@, n.attributes@.len(), m) + "]"@
    } else {
        Seq::empty()
    };
    lemma_attrs_plain(n.attributes@, n.attributes@.len());
    lemma_plain_concat(" ["@, attrs_text(n.attributes@, n.attributes@.len(), m));
    lemma_plain_concat(" ["@ + attrs_text(n.attributes@, n.attributes@.len(), m), "]"@);
    let text = match n.text {
        Some(t) => ": "@ + escape_display(t@),
        None => Seq::empty(),
    };
    if let Some(t) = n.text {
        lemma_escaped_plain(t@);
        lemma_plain_concat(": "@, escape_display(t@));
    }
    lemma_plain_concat(escape_display(n.name@), attrs);
    lemma_plain_concat(escape_display(n.name@) + attrs, text);
    assert(xml_label_spec(n, m) == escape_display(n.name@) + attrs + text);
}

proof fn lemma_child_lines_plain(
    c: Seq<XmlNode>,
    k: nat,
    prefix: Seq<char>,
    depth: nat,
    max_depth: Option<usize>,
)
    requires
        no_raw_controls(prefix),
    ensures
        no_raw_controls(xml_child_lines(c, k, prefix, depth, max_depth, ColorMode::Off)),
    decreases c, k, 1int,
{
    if k > 0 && k <= c.len() {
        lemma_child_lines_plain(c, (k - 1) as nat, prefix, depth, max_depth);
        lemma_child_line_plain(c, (k - 1) as nat, prefix, depth, max_depth);
        lemma_xml_child_step(c, (k - 1) as nat, prefix, depth, max_depth, ColorMode::Off);
        lemma_plain_concat(
            xml_child_lines(c, (k - 1) as nat, prefix, depth, max_depth, ColorMode::Off),
            xml_child_line(c, (k - 1) as nat, prefix, depth, max_depth, ColorMode::Off),
        );
    } else {
        lemma_xml_pieces_plain();
        assert(xml_child_lines(c, k, prefix, depth, max_depth, ColorMode::Off) =~= Seq::<char>::empty());
    }
}

proof fn lemma_child_line_plain(
    c: Seq<XmlNode>,
    i: nat,
    prefix: Seq<char>,
    depth: nat,
    max_depth: Option<usize>,
)
    requires
        no_raw_controls(prefix),
        i < c.len(),
    ensures
        no_raw_controls(xml_child_line(c, i, prefix, depth, max_depth, ColorMode::Off)),
    decreases c, i, 0int,
{
    let m = ColorMode::Off;
    let child = c[i as int];
    let is_last = i + 1 == c.len();
    lemma_xml_child_cases(c, i, prefix, depth, max_depth, m);
    lemma_pieces_plain();
    lemma_xml_pieces_plain();
    lemma_label_plain(child);
    let guide = prefix + branch(is_last);
    lemma_plain_concat(prefix, branch(is_last));
    lemma_plain_concat(prefix, child_prefix(is_last));
    lemma_plain_concat(guide, xml_label_spec(child, m));
    let head = guide + xml_label_spec(child, m);
    if child.children@.len() > 0 && depth_cut(max_depth, depth) {
        lemma_plain_concat(head, " "@);
        lemma_plain_concat(head + " "@, "…"@);
        lemma_plain_concat(head + " "@ + "…"@, "\n"@);
    } else {
        assert(decreases_to!(c => c[i as int]));
        lemma_child_lines_plain(
            child.children@,
            child.children@.len(),
            prefix + child_prefix(is_last),
            depth + 1,
            max_depth,
        );
        lemma_plain_concat(head, "\n"@);
        lemma_plain_concat(
            head + "\n"@,
            xml_child_lines(
                child.children@,
                child.children@.len(),
                prefix + child_prefix(is_last),
                depth + 1,
                max_depth,
                m,
            ),
        );
    }
}

/// With colors off, `render_xml` writes no control character but line
/// breaks: names, attributes and text are escaped, and the renderer's own
/// guides and markers hold none.
pub proof fn lemma_render_xml_has_no_controls(n: XmlNode, max_depth: Option<usize>)
    ensures
        no_raw_controls(render_xml_spec(n, max_depth, ColorMode::Off)),
{
    lemma_pieces_plain();
    lemma_xml_pieces_plain();
    lemma_label_plain(n);
    lemma_child_lines_plain(n.children@, n.children@.len(), Seq::empty(), 0, max_depth);
    lemma_plain_concat(xml_label_spec(n, ColorMode::Off), "\n"@);
    lemma_plain_concat(
        xml_label_spec(n, ColorMode::Off) + "\n"@,
        xml_child_lines(n.children@, n.children@.len(), Seq::empty(), 0, max_depth, ColorMode::Off),
    );
}


// ---------------------------------------------------------------------------
// An element's label lists every attribute.
// ---------------------------------------------------------------------------

/// One attribute as text: `key="value"`, key and value escaped.
pub open spec fn attr_piece(a: (String, String)) -> Seq<char> {
    escape_display(a.0@) + "=\""@ + escape_display(a.1@) + "\""@
}

/// Every attribute as text, in order.
pub open spec fn attr_pieces(a: Seq<(String, String)>) -> Seq<Seq<char>> {
    a.map_values(|x: (String, String)| attr_piece(x))
}

proof fn lemma_attrs_join(a: Seq<(String, String)>, k: nat)
    requires
        1 <= k <= a.len(),
    ensures
        attrs_text(a, k, ColorMode::Off) == join(attr_pieces(a).take(k as int), " "@),
    decreases k,
{
    let p = attr_pieces(a);
    assert(attr_text(a[k - 1], ColorMode::Off) == attr_piece(a[k - 1]));
    if k == 1 {
        assert(p.take(1).len() == 1);
        assert(p.take(1)[0] == attr_piece(a[0]));
    } else {
        lemma_attrs_join(a, (k - 1) as nat);
        assert(p.take(k as int).drop_last() =~= p.take(k - 1));
        assert(p.take(k as int).last() == attr_piece(a[k - 1]));
    }
}

/// With colors off, an element's label is its escaped name, then, when it
/// has attributes, every one of them as `key="value"` in order, separated
/// by single spaces and bracketed, then `: ` and its escaped text when it
/// has some.
pub proof fn lemma_label_lists_every_attribute(n: XmlNode)
    ensures
        xml_label_spec(n, ColorMode::Off) == escape_display(n.name@) + (if n.attributes@.len() > 0 {
            " ["@ + join(attr_pieces(n.attributes@), " "@) + "]"@
        } else {
            Seq::empty()
        }) + match n.text {
            Some(t) => ": "@ + escape_display(t@),
            None => Seq::empty(),
        },
        forall|i: int|
            0 <= i < n.attributes@.len() ==> contains_text(
                xml_label_spec(n, ColorMode::Off),
                #[trigger] attr_piece(n.attributes@[i]),
            ),
{
    reveal(xml_label_spec);
    let a = n.attributes@;
    let p = attr_pieces(a);
    if a.len() > 0 {
        lemma_attrs_join(a, a.len());
        assert(p.take(a.len() as int) =~= p);
    }
    let head = escape_display(n.name@);
    let text = match n.text {
        Some(t) => ": "@ + escape_display(t@),
        None => Seq::<char>::empty(),
    };
    assert forall|i: int| 0 <= i < a.len() implies contains_text(
        xml_label_spec(n, ColorMode::Off),
        #[trigger] attr_piece(a[i]),
    ) by {
        let j = join(p, " "@);
        assert(p[i] == attr_piece(a[i]));
        lemma_join_contains(p, " "@, i);
        lemma_contains_right(" ["@, j, attr_piece(a[i]));
        lemma_contains_left(" ["@ + j, "]"@, attr_piece(a[i]));
        lemma_contains_right(head, " ["@ + j + "]"@, attr_piece(a[i]));
        lemma_contains_left(head + (" ["@ + j + "]"@), text, attr_piece(a[i]));
    }
}


// ---------------------------------------------------------------------------
// One line per element.
// ---------------------------------------------------------------------------

proof fn lemma_xml_pieces_one_line()
    ensures
        one_line("=\""@),
        one_line("\""@),
        one_line(" "@),
        one_line(" ["@),
        one_line("]"@),
        one_line(Seq::<char>::empty()),
{
    reveal_strlit("=\"");
    reveal_strlit("\"");
    reveal_strlit(" ");
    reveal_strlit(" [");
    reveal_strlit("]");
}

proof fn lemma_attrs_one_line(a: Seq<(String, String)>, k: nat)
    ensures
        one_line(attrs_text(a, k, ColorMode::Off)),
    decreases k,
{
    lemma_xml_pieces_one_line();
    if k > 0 && k <= a.len() {
        let m = ColorMode::Off;
        let x = a[k - 1];
        lemma_escaped_one_line(x.0@);
        lemma_escaped_one_line(x.1@);
        lemma_one_line_concat(escape_display(x.0@), "=\""@);
        lemma_one_line_concat(escape_display(x.0@) + "=\""@, escape_display(x.1@));
        lemma_one_line_concat(escape_display(x.0@) + "=\""@ + escape_display(x.1@), "\""@);
        assert(attr_text(x, m) == escape_display(x.0@) + "=\""@ + escape_display(x.1@) + "\""@);
        if k > 1 {
            lemma_attrs_one_line(a, (k - 1) as nat);
            lemma_one_line_concat(attrs_text(a, (k - 1) as nat, m), " "@);
            lemma_one_line_concat(attrs_text(a, (k - 1) as nat, m) + " "@, attr_text(x, m));
        }
    } else {
        assert(attrs_text(a, k, ColorMode::Off) =~= Seq::<char>::empty());
    }
}

proof fn lemma_label_one_line(n: XmlNode)
    ensures
        one_line(xml_label_spec(n, ColorMode::Off)),
{
    reveal(xml_label_spec);
    lemma_pieces_one_line();
    lemma_xml_pieces_one_line();
    let m = ColorMode::Off;
    lemma_escaped_one_line(n.name@);
    let attrs = if n.attributes@.len() > 0 {
        " ["@ + attrs_text(n.attributes@, n.attributes@.len(), m) + "]"@
    } else {
        Seq::empty()
    };
    lemma_attrs_one_line(n.attributes@, n.attributes@.len());
    lemma_one_line_concat(" ["@, attrs_text(n.attributes@, n.attributes@.len(), m));
    lemma_one_line_concat(" ["@ + attrs_text(n.attributes@, n.attributes@.len(), m), "]"@);
    let text = match n.text {
        Some(t) => ": "@ + escape_display(t@),
        None => Seq::empty(),
    };
    if let Some(t) = n.text {
        lemma_escaped_one_line(t@);
        lemma_one_line_concat(": "@, escape_display(t@));
    }
    lemma_one_line_concat(escape_display(n.name@), attrs);
    lemma_one_line_concat(escape_display(n.name@) + attrs, text);
    assert(xml_label_spec(n, m) == escape_display(n.name@) + attrs + text);
}

proof fn lemma_child_lines_breaks(c: Seq<XmlNode>, k: nat, prefix: Seq<char>, depth: nat)
    requires
        one_line(prefix),
        k <= c.len(),
    ensures
        line_breaks(xml_child_lines(c, k, prefix, depth, None, ColorMode::Off))
            == children_path_list(c.take(k as int), Seq::empty()).len(),
    decreases c, k, 1int,
{
    if k > 0 {
        lemma_child_lines_breaks(c, (k - 1) as nat, prefix, depth);
        lemma_child_line_breaks(c, (k - 1) as nat, prefix, depth);
        lemma_xml_child_step(c, (k - 1) as nat, prefix, depth, None, ColorMode::Off);
        lemma_breaks_concat(
            xml_child_lines(c, (k - 1) as nat, prefix, depth, None, ColorMode::Off),
            xml_child_line(c, (k - 1) as nat, prefix, depth, None, ColorMode::Off),
        );
        let t = c.take(k as int);
        assert(t.drop_last() =~= c.take(k - 1));
        assert(t.last() == c[k - 1]);
        let pk = Seq::<Seq<char>>::empty().push(c[k - 1].name@);
        lemma_xml_path_count(c[k - 1], pk);
        lemma_xml_path_count(c[k - 1], Seq::empty());
    } else {
        assert(c.take(0) =~= Seq::<XmlNode>::empty());
        assert(xml_child_lines(c, k, prefix, depth, None, ColorMode::Off) =~= Seq::<char>::empty());
    }
}

proof fn lemma_child_line_breaks(c: Seq<XmlNode>, i: nat, prefix: Seq<char>, depth: nat)
    requires
        one_line(prefix),
        i < c.len(),
    ensures
        line_breaks(xml_child_line(c, i, prefix, depth, None, ColorMode::Off))
            == 1 + xml_path_list(c[i as int], Seq::empty()).len(),
    decreases c, i, 0int,
{
    let m = ColorMode::Off;
    let child = c[i as int];
    let is_last = i + 1 == c.len();
    lemma_xml_child_cases(c, i, prefix, depth, None, m);
    lemma_pieces_one_line();
    lemma_newline_breaks();
    lemma_label_one_line(child);
    let guide = prefix + branch(is_last);
    lemma_one_line_concat(prefix, branch(is_last));
    lemma_one_line_concat(prefix, child_prefix(is_last));
    lemma_one_line_concat(guide, xml_label_spec(child, m));
    let head = guide + xml_label_spec(child, m);
    lemma_one_line_breaks(head);
    assert(decreases_to!(c => c[i as int]));
    lemma_child_lines_breaks(
        child.children@,
        child.children@.len(),
        prefix + child_prefix(is_last),
        depth + 1,
    );
    assert(child.children@.take(child.children@.len() as int) == child.children@);
    lemma_breaks_concat(head, "\n"@);
    lemma_breaks_concat(
        head + "\n"@,
        xml_child_lines(
            child.children@,
            child.children@.len(),
            prefix + child_prefix(is_last),
            depth + 1,
            None,
            m,
        ),
    );
}

/// With no depth limit and colors off, `render_xml` writes one line per
/// element: the root's line and one for each element that `--paths`
/// lists.
pub proof fn lemma_render_xml_one_line_per_element(n: XmlNode)
    ensures
        line_breaks(render_xml_spec(n, None, ColorMode::Off)) == 1 + xml_path_list(n, Seq::empty()).len(),
{
    lemma_pieces_one_line();
    lemma_xml_pieces_one_line();
    lemma_newline_breaks();
    lemma_label_one_line(n);
    lemma_one_line_breaks(xml_label_spec(n, ColorMode::Off));
    lemma_child_lines_breaks(n.children@, n.children@.len(), Seq::empty(), 0);
    assert(n.children@.take(n.children@.len() as int) == n.children@);
    lemma_breaks_concat(xml_label_spec(n, ColorMode::Off), "\n"@);
    lemma_breaks_concat(
        xml_label_spec(n, ColorMode::Off) + "\n"@,
        xml_child_lines(n.children@, n.children@.len(), Seq::empty(), 0, None, ColorMode::Off),
    );
}

} // verus!
