//! The static tree renderers (`--static`, `--depth`, `--array-limit`).
pub use crate::render_xml::render_xml;
use crate::color::{
    mode_enabled, painted, painted_depth, push_painted, push_painted_depth, Color, ColorMode,
};
use crate::json_tree::{
    escape_display, escape_display_str, is_terminal_control, lemma_display_has_no_controls, scalar_color, scalar_display, JsonNode, JsonScalar,
};
use crate::stats::{
    json_height, json_size, lemma_fields_height_member, lemma_items_height_member,
    lemma_json_height_lt_size,
};
use crate::paths::{fields_path_list, items_path_list, json_path_list, lemma_json_path_count};
use crate::text::{decimal, decimal_string, push_str};
use vstd::prelude::*;

verus! {

broadcast use vstd::string::group_string_axioms;

pub open spec fn branch(is_last: bool) -> Seq<char> {
    if is_last {
        "└── "@
    } else {
        "├── "@
    }
}

pub open spec fn child_prefix(is_last: bool) -> Seq<char> {
    if is_last {
        "    "@
    } else {
        "│   "@
    }
}

/// `label: value` for a scalar, the value painted in its type's color.
pub open spec fn scalar_line(label: Seq<char>, s: JsonScalar, mode: ColorMode) -> Seq<char> {
    label + ": "@ + painted(scalar_display(s), scalar_color(s), mode) + "\n"@
}

/// How many entries of a container are shown: every object field, and at
/// most `limit` array items.
pub open spec fn visible_count(is_array: bool, total: nat, limit: Option<usize>) -> nat {
    if is_array {
        match limit {
            Some(l) => if l < total {
                l as nat
            } else {
                total
            },
            None => total,
        }
    } else {
        total
    }
}

/// The `… (N more)` line closing an array cut short by the limit.
pub open spec fn truncation_line(prefix: Seq<char>, depth: nat, n: nat, mode: ColorMode) -> Seq<
    char,
> {
    painted_depth(prefix + "└── "@, depth, mode_enabled(mode)) + painted(
        "… ("@ + decimal(n) + " more)"@,
        Color::Structure,
        mode,
    ) + "\n"@
}

/// Whether `--depth` stops descending below an entry at `depth`.
pub open spec fn depth_cut(max_depth: Option<usize>, depth: nat) -> bool {
    match max_depth {
        Some(d) => d == 0 || depth >= d - 1,
        None => false,
    }
}

/// The guide prefix and key of an entry line.
pub open spec fn entry_head(label: Seq<char>, is_last: bool, prefix: Seq<char>, depth: nat, mode: ColorMode) -> Seq<char> {
    painted_depth(prefix + branch(is_last), depth, mode_enabled(mode)) + painted(
        escape_display(label),
        Color::Key,
        mode,
    )
}

/// A container's entry line closed by a marker (`{}`, `[]`, `…`).
pub open spec fn marked_line(head: Seq<char>, marker: Seq<char>, mode: ColorMode) -> Seq<char> {
    head + ": "@ + painted(marker, Color::Structure, mode) + "\n"@
}

/// The lines of one entry (`label` naming `child`) and, when it is expanded,
/// of the entries below it.
#[verifier::opaque]
pub open spec fn entry_lines(
    label: Seq<char>,
    child: JsonNode,
    is_last: bool,
    prefix: Seq<char>,
    depth: nat,
    max_depth: Option<usize>,
    limit: Option<usize>,
    mode: ColorMode,
) -> Seq<char>
    decreases child, 1int,
{
    let head = entry_head(label, is_last, prefix, depth, mode);
    match child {
        JsonNode::Scalar(s) => scalar_line(head, s, mode),
        JsonNode::Object(f) => if f@.len() == 0 {
            marked_line(head, "{}"@, mode)
        } else if depth_cut(max_depth, depth) {
            marked_line(head, "…"@, mode)
        } else {
            head + "\n"@ + json_children(
                child,
                prefix + child_prefix(is_last),
                depth + 1,
                max_depth,
                limit,
                mode,
            )
        },
        JsonNode::Array(items) => if items@.len() == 0 {
            marked_line(head, "[]"@, mode)
        } else if depth_cut(max_depth, depth) {
            marked_line(head, "…"@, mode)
        } else {
            head + "\n"@ + json_children(
                child,
                prefix + child_prefix(is_last),
                depth + 1,
                max_depth,
                limit,
                mode,
            )
        },
    }
}

proof fn lemma_entry_cases(
    label: Seq<char>,
    child: JsonNode,
    is_last: bool,
    prefix: Seq<char>,
    depth: nat,
    max_depth: Option<usize>,
    limit: Option<usize>,
    mode: ColorMode,
)
    ensures
        ({
            let head = entry_head(label, is_last, prefix, depth, mode);
            let lines = entry_lines(label, child, is_last, prefix, depth, max_depth, limit, mode);
            let n: nat = match child {
                JsonNode::Object(f) => f@.len(),
                JsonNode::Array(items) => items@.len(),
                JsonNode::Scalar(_) => 0,
            };
            &&& child matches JsonNode::Scalar(s) ==> lines == scalar_line(head, s, mode)
            &&& child is Object && n == 0 ==> lines == marked_line(head, "{}"@, mode)
            &&& child is Array && n == 0 ==> lines == marked_line(head, "[]"@, mode)
            &&& !(child is Scalar) && n > 0 && depth_cut(max_depth, depth) ==> lines
                == marked_line(head, "…"@, mode)
            &&& !(child is Scalar) && n > 0 && !depth_cut(max_depth, depth) ==> lines == head
                + "\n"@ + json_children(
                child,
                prefix + child_prefix(is_last),
                depth + 1,
                max_depth,
                limit,
                mode,
            )
        }),
{
    reveal(entry_lines);
    reveal(json_children);
}

/// The lines of the first `k` fields.
pub open spec fn fields_lines(
    f: Seq<(String, JsonNode)>,
    k: nat,
    prefix: Seq<char>,
    depth: nat,
    max_depth: Option<usize>,
    limit: Option<usize>,
    mode: ColorMode,
) -> Seq<char>
    decreases f, k,
{
    if k == 0 || k > f.len() {
        Seq::empty()
    } else {
        fields_lines(f, (k - 1) as nat, prefix, depth, max_depth, limit, mode) + entry_lines(
            f[k - 1].0@,
            f[k - 1].1,
            k == f.len(),
            prefix,
            depth,
            max_depth,
            limit,
            mode,
        )
    }
}

proof fn lemma_fields_step(
    f: Seq<(String, JsonNode)>,
    k: nat,
    prefix: Seq<char>,
    depth: nat,
    max_depth: Option<usize>,
    limit: Option<usize>,
    mode: ColorMode,
)
    requires
        k < f.len(),
    ensures
        fields_lines(f, k + 1, prefix, depth, max_depth, limit, mode) == fields_lines(
            f,
            k,
            prefix,
            depth,
            max_depth,
            limit,
            mode,
        ) + entry_lines(f[k as int].0@, f[k as int].1, k + 1 == f.len(), prefix, depth, max_depth, limit, mode),
{
    reveal(entry_lines);
}

/// An array item's label, `[i]`.
pub open spec fn index_label(i: nat) -> Seq<char> {
    seq!['['] + decimal(i) + seq![']']
}

/// The lines of the first `k` items, `visible` being shown and `truncated`
/// cut off after them.
pub open spec fn items_lines(
    items: Seq<JsonNode>,
    k: nat,
    visible: nat,
    truncated: nat,
    prefix: Seq<char>,
    depth: nat,
    max_depth: Option<usize>,
    limit: Option<usize>,
    mode: ColorMode,
) -> Seq<char>
    decreases items, k,
{
    if k == 0 || k > items.len() {
        Seq::empty()
    } else {
        items_lines(
            items,
            (k - 1) as nat,
            visible,
            truncated,
            prefix,
            depth,
            max_depth,
            limit,
            mode,
        ) + entry_lines(
            index_label((k - 1) as nat),
            items[k - 1],
            k == visible && truncated == 0,
            prefix,
            depth,
            max_depth,
            limit,
            mode,
        )
    }
}

proof fn lemma_items_step(
    items: Seq<JsonNode>,
    k: nat,
    visible: nat,
    truncated: nat,
    prefix: Seq<char>,
    depth: nat,
    max_depth: Option<usize>,
    limit: Option<usize>,
    mode: ColorMode,
)
    requires
        k < items.len(),
    ensures
        items_lines(items, k + 1, visible, truncated, prefix, depth, max_depth, limit, mode)
            == items_lines(items, k, visible, truncated, prefix, depth, max_depth, limit, mode)
            + entry_lines(
            index_label(k),
            items[k as int],
            k + 1 == visible && truncated == 0,
            prefix,
            depth,
            max_depth,
            limit,
            mode,
        ),
{
    reveal(entry_lines);
}

/// The lines below a container: one entry per field or (visible) item, each
/// with `prefix` and tree guides, and a `… (N more)` line for items cut off by
/// the limit.
#[verifier::opaque]
pub open spec fn json_children(
    node: JsonNode,
    prefix: Seq<char>,
    depth: nat,
    max_depth: Option<usize>,
    limit: Option<usize>,
    mode: ColorMode,
) -> Seq<char>
    decreases node, 0int,
{
    match node {
        JsonNode::Object(f) => fields_lines(f@, f@.len(), prefix, depth, max_depth, limit, mode),
        JsonNode::Array(items) => {
            let v = visible_count(true, items@.len(), limit);
            let t = (items@.len() - v) as nat;
            items_lines(items@, v, v, t, prefix, depth, max_depth, limit, mode) + if t > 0 {
                truncation_line(prefix, depth, t, mode)
            } else {
                Seq::empty()
            }
        },
        JsonNode::Scalar(_) => Seq::empty(),
    }
}

/// The whole rendering: a scalar root is one `label: value` line; a
/// container root is its label and the lines below it.
pub open spec fn render_json_spec(
    node: JsonNode,
    root_label: Seq<char>,
    max_depth: Option<usize>,
    limit: Option<usize>,
    mode: ColorMode,
) -> Seq<char> {
    match node {
        JsonNode::Scalar(s) => scalar_line(root_label, s, mode),
        _ => root_label + "\n"@ + json_children(node, Seq::empty(), 0, max_depth, limit, mode),
    }
}

fn push_scalar_line(out: &mut String, s: &JsonScalar, mode: ColorMode)
    ensures
        final(out)@ == old(out)@ + ": "@ + painted(scalar_display(*s), scalar_color(*s), mode)
            + "\n"@,
{
    push_str(out, ": ");
    let shown = s.display();
    push_painted(out, shown.as_str(), s.color(), mode);
    push_str(out, "\n");
}

fn push_head(
    label: &str,
    is_last: bool,
    prefix: &str,
    depth: usize,
    mode: ColorMode,
    out: &mut String,
)
    ensures
        final(out)@ == old(out)@ + entry_head(label@, is_last, prefix@, depth as nat, mode),
{
    push_guide(prefix, is_last, depth, mode, out);
    let key = escape_display_str(label);
    push_painted(out, key.as_str(), Color::Key, mode);
}

/// Appends the tinted tree guide `prefix` + branch of an entry line.
pub(crate) fn push_guide(prefix: &str, is_last: bool, depth: usize, mode: ColorMode, out: &mut String)
    ensures
        final(out)@ == old(out)@ + painted_depth(prefix@ + branch(is_last), depth as nat, mode_enabled(mode)),
{
    let mut guide = String::from_str(prefix);
    if is_last {
        push_str(&mut guide, "└── ");
    } else {
        push_str(&mut guide, "├── ");
    }
    push_painted_depth(out, guide.as_str(), depth, mode.enabled());
}

/// A depth cut as `--depth` makes it: below `max_depth` nothing is expanded.
pub(crate) fn cut_at(max_depth: Option<usize>, depth: usize) -> (r: bool)
    ensures
        r == depth_cut(max_depth, depth as nat),
{
    match max_depth {
        Some(d) => d == 0 || depth >= d - 1,
        None => false,
    }
}

fn push_marked(marker: &str, mode: ColorMode, out: &mut String)
    ensures
        final(out)@ == old(out)@ + ": "@ + painted(marker@, Color::Structure, mode) + "\n"@,
{
    push_str(out, ": ");
    push_painted(out, marker, Color::Structure, mode);
    push_str(out, "\n");
}

pub fn extend_prefix(prefix: &str, is_last: bool) -> (r: String)
    ensures
        r@ == prefix@ + child_prefix(is_last),
{
    let mut next = String::from_str(prefix);
    if is_last {
        push_str(&mut next, "    ");
    } else {
        push_str(&mut next, "│   ");
    }
    next
}

fn container_len(node: &JsonNode) -> (r: usize)
    ensures
        node matches JsonNode::Object(f) ==> r == f@.len(),
        node matches JsonNode::Array(items) ==> r == items@.len(),
{
    match node {
        JsonNode::Object(f) => f.len(),
        JsonNode::Array(items) => items.len(),
        JsonNode::Scalar(_) => 0,
    }
}

/// Appends the lines of one entry.
#[verifier::rlimit(40)]
fn push_entry(
    label: &str,
    child: &JsonNode,
    is_last: bool,
    prefix: &str,
    depth: usize,
    max_depth: Option<usize>,
    array_limit: Option<usize>,
    mode: ColorMode,
    out: &mut String,
)
    requires
        depth + 1 + json_height(*child) <= usize::MAX,
    ensures
        final(out)@ == old(out)@ + entry_lines(
            label@,
            *child,
            is_last,
            prefix@,
            depth as nat,
            max_depth,
            array_limit,
            mode,
        ),
    decreases child, 1int,
{
    proof {
        lemma_entry_cases(
            label@,
            *child,
            is_last,
            prefix@,
            depth as nat,
            max_depth,
            array_limit,
            mode,
        );
    }
    let ghost start = out@;
    let ghost head = entry_head(label@, is_last, prefix@, depth as nat, mode);
    push_head(label, is_last, prefix, depth, mode, out);
    let cut = cut_at(max_depth, depth);
    match child {
        JsonNode::Scalar(s) => {
            push_scalar_line(out, s, mode);
            assert(out@ =~= start + scalar_line(head, *s, mode));
        },
        _ => {
            let n = container_len(child);
            if n == 0 {
                match child {
                    JsonNode::Object(_) => push_marked("{}", mode, out),
                    _ => push_marked("[]", mode, out),
                }
            } else if cut {
                push_marked("…", mode, out);
            } else {
                push_str(out, "\n");
                let next = extend_prefix(prefix, is_last);
                render_json_children(
                    child,
                    next.as_str(),
                    depth + 1,
                    max_depth,
                    array_limit,
                    mode,
                    out,
                );
            }
        },
    }
}

fn render_json_children(
    node: &JsonNode,
    prefix: &str,
    depth: usize,
    max_depth: Option<usize>,
    array_limit: Option<usize>,
    mode: ColorMode,
    out: &mut String,
)
    requires
        depth + json_height(*node) <= usize::MAX,
    ensures
        final(out)@ == old(out)@ + json_children(
            *node,
            prefix@,
            depth as nat,
            max_depth,
            array_limit,
            mode,
        ),
    decreases node, 0int,
{
    reveal(json_children);
    let ghost start = out@;
    match node {
        JsonNode::Object(fields) => {
            let mut i: usize = 0;
            while i < fields.len()
                invariant
                    i <= fields@.len(),
                    *node == JsonNode::Object(*fields),
                    depth + json_height(*node) <= usize::MAX,
                    out@ == start + fields_lines(
                        fields@,
                        i as nat,
                        prefix@,
                        depth as nat,
                        max_depth,
                        array_limit,
                        mode,
                    ),
                decreases fields@.len() - i,
            {
                proof {
                    assert(node->Object_0 == *fields);
                    assert(decreases_to!(*node => node->Object_0@[i as int].1));
                    lemma_fields_height_member(fields@, i as int);
                }
                push_entry(
                    fields[i].0.as_str(),
                    &fields[i].1,
                    i + 1 == fields.len(),
                    prefix,
                    depth,
                    max_depth,
                    array_limit,
                    mode,
                    out,
                );
                proof {
                    lemma_fields_step(fields@, i as nat, prefix@, depth as nat, max_depth, array_limit, mode);
                }
                i += 1;
            }
        },
        JsonNode::Array(items) => {
            let total = items.len();
            let visible = match array_limit {
                Some(l) => if l < total {
                    l
                } else {
                    total
                },
                None => total,
            };
            let truncated = total - visible;
            let mut i: usize = 0;
            while i < visible
                invariant
                    i <= visible <= items@.len(),
                    total == items@.len(),
                    visible == visible_count(true, total as nat, array_limit),
                    truncated == total - visible,
                    *node == JsonNode::Array(*items),
                    depth + json_height(*node) <= usize::MAX,
                    out@ == start + items_lines(
                        items@,
                        i as nat,
                        visible as nat,
                        truncated as nat,
                        prefix@,
                        depth as nat,
                        max_depth,
                        array_limit,
                        mode,
                    ),
                decreases visible - i,
            {
                proof {
                    assert(node->Array_0 == *items);
                    assert(decreases_to!(*node => node->Array_0@[i as int]));
                    lemma_items_height_member(items@, i as int);
                }
                let mut label = String::new();
                label.push('[');
                let digits = decimal_string(i);
                push_str(&mut label, digits.as_str());
                label.push(']');
                assert(label@ == index_label(i as nat));
                push_entry(
                    label.as_str(),
                    &items[i],
                    i + 1 == visible && truncated == 0,
                    prefix,
                    depth,
                    max_depth,
                    array_limit,
                    mode,
                    out,
                );
                proof {
                    lemma_items_step(
                        items@,
                        i as nat,
                        visible as nat,
                        truncated as nat,
                        prefix@,
                        depth as nat,
                        max_depth,
                        array_limit,
                        mode,
                    );
                }
                i += 1;
            }
            if truncated > 0 {
                let mut guide = String::from_str(prefix);
                push_str(&mut guide, "└── ");
                push_painted_depth(out, guide.as_str(), depth, mode.enabled());
                let mut msg = String::from_str("… (");
                let n = decimal_string(truncated);
                push_str(&mut msg, n.as_str());
                push_str(&mut msg, " more)");
                push_painted(out, msg.as_str(), Color::Structure, mode);
                push_str(out, "\n");
            }
        },
        JsonNode::Scalar(_) => {},
    }
}

/// Renders `node` as a tree: `root_label`, then one line per field or item
/// with `├──`/`└──` guides. Scalars show `label: value`; `--depth` cuts
/// containers at `max_depth` (shown as `…`); `--array-limit` shows at most
/// `array_limit` items of each array, then `… (N more)`. Every node occupies
/// memory, so the node count fits in a `usize`.
pub fn render_json(
    node: &JsonNode,
    root_label: &str,
    max_depth: Option<usize>,
    array_limit: Option<usize>,
    mode: ColorMode,
) -> (r: String)
    requires
        json_size(*node) <= usize::MAX,
    ensures
        r@ == render_json_spec(*node, root_label@, max_depth, array_limit, mode),
{
    proof {
        lemma_json_height_lt_size(*node);
    }
    let mut out = String::new();
    match node {
        JsonNode::Scalar(s) => {
            push_str(&mut out, root_label);
            push_scalar_line(&mut out, s, mode);
        },
        _ => {
            push_str(&mut out, root_label);
            push_str(&mut out, "\n");
            let empty = String::new();
            render_json_children(node, empty.as_str(), 0, max_depth, array_limit, mode, &mut out);
        },
    }
    out
}

} // verus!


verus! {

// ---------------------------------------------------------------------------
// No control character of the document reaches the terminal.
// ---------------------------------------------------------------------------

/// Text holding no C0 control character but the line break, and no DEL.
pub open spec fn no_raw_controls(s: Seq<char>) -> bool {
    forall|i: int| 0 <= i < s.len() ==> !is_terminal_control(#[trigger] s[i]) || s[i] == '\n'
}

/// Every number of `n` is written without control characters (as every
/// number a parser prints is).
pub open spec fn numbers_plain(n: JsonNode) -> bool
    decreases n,
{
    match n {
        JsonNode::Object(f) => fields_numbers_plain(f@),
        JsonNode::Array(items) => items_numbers_plain(items@),
        JsonNode::Scalar(JsonScalar::Number(v)) => no_raw_controls(v@),
        JsonNode::Scalar(_) => true,
    }
}

pub open spec fn fields_numbers_plain(f: Seq<(String, JsonNode)>) -> bool
    decreases f,
{
    if f.len() == 0 {
        true
    } else {
        fields_numbers_plain(f.drop_last()) && numbers_plain(f.last().1)
    }
}

pub open spec fn items_numbers_plain(items: Seq<JsonNode>) -> bool
    decreases items,
{
    if items.len() == 0 {
        true
    } else {
        items_numbers_plain(items.drop_last()) && numbers_plain(items.last())
    }
}

proof fn lemma_fields_plain_member(f: Seq<(String, JsonNode)>, j: int)
    requires
        fields_numbers_plain(f),
        0 <= j < f.len(),
    ensures
        numbers_plain(f[j].1),
    decreases f.len(),
{
    if j < f.len() - 1 {
        lemma_fields_plain_member(f.drop_last(), j);
        assert(f.drop_last()[j] == f[j]);
    }
}

proof fn lemma_items_plain_member(items: Seq<JsonNode>, j: int)
    requires
        items_numbers_plain(items),
        0 <= j < items.len(),
    ensures
        numbers_plain(items[j]),
    decreases items.len(),
{
    if j < items.len() - 1 {
        lemma_items_plain_member(items.drop_last(), j);
        assert(items.drop_last()[j] == items[j]);
    }
}

pub(crate) proof fn lemma_plain_concat(a: Seq<char>, b: Seq<char>)
    requires
        no_raw_controls(a),
        no_raw_controls(b),
    ensures
        no_raw_controls(a + b),
{
    assert forall|i: int| 0 <= i < (a + b).len() implies !is_terminal_control(#[trigger] (a + b)[i])
        || (a + b)[i] == '\n' by {
        if i < a.len() {
            assert((a + b)[i] == a[i]);
        } else {
            assert((a + b)[i] == b[i - a.len()]);
        }
    }
}

proof fn lemma_decimal_plain(n: nat)
    ensures
        no_raw_controls(decimal(n)),
    decreases n,
{
    if n >= 10 {
        lemma_decimal_plain(n / 10);
        let c = (48 + n % 10) as char;
        assert(c as u32 == 48 + n % 10);
        lemma_plain_concat(decimal(n / 10), seq![c]);
        assert(decimal(n / 10) + seq![c] == decimal(n));
    } else {
        assert(((48 + n) as char) as u32 == 48 + n);
    }
}

pub(crate) proof fn lemma_escaped_plain(s: Seq<char>)
    ensures
        no_raw_controls(escape_display(s)),
{
    lemma_display_has_no_controls(s);
}

/// The fixed pieces the renderer writes hold no control character.
pub(crate) proof fn lemma_pieces_plain()
    ensures
        no_raw_controls("└── "@),
        no_raw_controls("├── "@),
        no_raw_controls("    "@),
        no_raw_controls("│   "@),
        no_raw_controls(": "@),
        no_raw_controls("\n"@),
        no_raw_controls("{}"@),
        no_raw_controls("[]"@),
        no_raw_controls("…"@),
        no_raw_controls("… ("@),
        no_raw_controls(" more)"@),
        no_raw_controls("true"@),
        no_raw_controls("false"@),
        no_raw_controls("null"@),
        no_raw_controls(seq!['"']),
        no_raw_controls(seq!['[']),
        no_raw_controls(seq![']']),
{
    reveal_strlit("└── ");
    reveal_strlit("├── ");
    reveal_strlit("    ");
    reveal_strlit("│   ");
    reveal_strlit(": ");
    reveal_strlit("\n");
    reveal_strlit("{}");
    reveal_strlit("[]");
    reveal_strlit("…");
    reveal_strlit("… (");
    reveal_strlit(" more)");
    reveal_strlit("true");
    reveal_strlit("false");
    reveal_strlit("null");
}

proof fn lemma_scalar_plain(s: JsonScalar)
    requires
        numbers_plain(JsonNode::Scalar(s)),
    ensures
        no_raw_controls(scalar_display(s)),
{
    lemma_pieces_plain();
    if let JsonScalar::Str(v) = s {
        lemma_escaped_plain(v@);
        lemma_plain_concat(seq!['"'], escape_display(v@));
        lemma_plain_concat(seq!['"'] + escape_display(v@), seq!['"']);
    }
}

proof fn lemma_head_plain(label: Seq<char>, is_last: bool, prefix: Seq<char>, depth: nat)
    requires
        no_raw_controls(prefix),
    ensures
        no_raw_controls(entry_head(label, is_last, prefix, depth, ColorMode::Off)),
        no_raw_controls(prefix + child_prefix(is_last)),
{
    lemma_pieces_plain();
    lemma_escaped_plain(label);
    lemma_plain_concat(prefix, branch(is_last));
    lemma_plain_concat(prefix + branch(is_last), escape_display(label));
    lemma_plain_concat(prefix, child_prefix(is_last));
}

proof fn lemma_entry_plain(
    label: Seq<char>,
    child: JsonNode,
    is_last: bool,
    prefix: Seq<char>,
    depth: nat,
    max_depth: Option<usize>,
    limit: Option<usize>,
)
    requires
        no_raw_controls(prefix),
        numbers_plain(child),
    ensures
        no_raw_controls(entry_lines(label, child, is_last, prefix, depth, max_depth, limit, ColorMode::Off)),
    decreases child, 1int,
{
    let mode = ColorMode::Off;
    lemma_entry_cases(label, child, is_last, prefix, depth, max_depth, limit, mode);
    lemma_head_plain(label, is_last, prefix, depth);
    lemma_pieces_plain();
    let head = entry_head(label, is_last, prefix, depth, mode);
    lemma_plain_concat(head, ": "@);
    lemma_plain_concat(head, "\n"@);
    match child {
        JsonNode::Scalar(s) => {
            lemma_scalar_plain(s);
            lemma_plain_concat(head + ": "@, scalar_display(s));
            lemma_plain_concat(head + ": "@ + scalar_display(s), "\n"@);
        },
        _ => {
            lemma_plain_concat(head + ": "@, "{}"@);
            lemma_plain_concat(head + ": "@ + "{}"@, "\n"@);
            lemma_plain_concat(head + ": "@, "[]"@);
            lemma_plain_concat(head + ": "@ + "[]"@, "\n"@);
            lemma_plain_concat(head + ": "@, "…"@);
            lemma_plain_concat(head + ": "@ + "…"@, "\n"@);
            lemma_children_plain(child, prefix + child_prefix(is_last), depth + 1, max_depth, limit);
            lemma_plain_concat(
                head + "\n"@,
                json_children(child, prefix + child_prefix(is_last), depth + 1, max_depth, limit, mode),
            );
        },
    }
}

proof fn lemma_children_plain(
    node: JsonNode,
    prefix: Seq<char>,
    depth: nat,
    max_depth: Option<usize>,
    limit: Option<usize>,
)
    requires
        no_raw_controls(prefix),
        numbers_plain(node),
    ensures
        no_raw_controls(json_children(node, prefix, depth, max_depth, limit, ColorMode::Off)),
    decreases node, 0int,
{
    let mode = ColorMode::Off;
    reveal(json_children);
    match node {
        JsonNode::Object(f) => {
            lemma_fields_plain(f@, f@.len(), prefix, depth, max_depth, limit);
        },
        JsonNode::Array(items) => {
            let v = visible_count(true, items@.len(), limit);
            let t = (items@.len() - v) as nat;
            lemma_items_plain(items@, v, v, t, prefix, depth, max_depth, limit);
            lemma_pieces_plain();
            lemma_decimal_plain(t);
            lemma_plain_concat(prefix, "└── "@);
            lemma_plain_concat("… ("@, decimal(t));
            lemma_plain_concat("… ("@ + decimal(t), " more)"@);
            lemma_plain_concat(prefix + "└── "@, "… ("@ + decimal(t) + " more)"@);
            lemma_plain_concat(prefix + "└── "@ + ("… ("@ + decimal(t) + " more)"@), "\n"@);
            assert(truncation_line(prefix, depth, t, mode) == prefix + "└── "@ + ("… ("@ + decimal(t)
                + " more)"@) + "\n"@);
            lemma_plain_concat(
                items_lines(items@, v, v, t, prefix, depth, max_depth, limit, mode),
                truncation_line(prefix, depth, t, mode),
            );
            lemma_plain_concat(
                items_lines(items@, v, v, t, prefix, depth, max_depth, limit, mode),
                Seq::empty(),
            );
            assert(items_lines(items@, v, v, t, prefix, depth, max_depth, limit, mode) + Seq::<char>::empty()
                == items_lines(items@, v, v, t, prefix, depth, max_depth, limit, mode));
        },
        JsonNode::Scalar(_) => {},
    }
}

proof fn lemma_fields_plain(
    f: Seq<(String, JsonNode)>,
    k: nat,
    prefix: Seq<char>,
    depth: nat,
    max_depth: Option<usize>,
    limit: Option<usize>,
)
    requires
        no_raw_controls(prefix),
        fields_numbers_plain(f),
    ensures
        no_raw_controls(fields_lines(f, k, prefix, depth, max_depth, limit, ColorMode::Off)),
    decreases f, k,
{
    if k > 0 && k <= f.len() {
        lemma_fields_plain(f, (k - 1) as nat, prefix, depth, max_depth, limit);
        lemma_fields_step(f, (k - 1) as nat, prefix, depth, max_depth, limit, ColorMode::Off);
        lemma_fields_plain_member(f, k - 1);
        lemma_entry_plain(f[k - 1].0@, f[k - 1].1, k == f.len(), prefix, depth, max_depth, limit);
        lemma_plain_concat(
            fields_lines(f, (k - 1) as nat, prefix, depth, max_depth, limit, ColorMode::Off),
            entry_lines(f[k - 1].0@, f[k - 1].1, k == f.len(), prefix, depth, max_depth, limit, ColorMode::Off),
        );
    } else {
        assert(fields_lines(f, k, prefix, depth, max_depth, limit, ColorMode::Off) =~= Seq::<char>::empty());
    }
}

proof fn lemma_items_plain(
    items: Seq<JsonNode>,
    k: nat,
    visible: nat,
    truncated: nat,
    prefix: Seq<char>,
    depth: nat,
    max_depth: Option<usize>,
    limit: Option<usize>,
)
    requires
        no_raw_controls(prefix),
        items_numbers_plain(items),
    ensures
        no_raw_controls(items_lines(items, k, visible, truncated, prefix, depth, max_depth, limit, ColorMode::Off)),
    decreases items, k,
{
    if k > 0 && k <= items.len() {
        lemma_items_plain(items, (k - 1) as nat, visible, truncated, prefix, depth, max_depth, limit);
        lemma_items_step(items, (k - 1) as nat, visible, truncated, prefix, depth, max_depth, limit, ColorMode::Off);
        lemma_items_plain_member(items, k - 1);
        lemma_entry_plain(
            index_label((k - 1) as nat),
            items[k - 1],
            k == visible && truncated == 0,
            prefix,
            depth,
            max_depth,
            limit,
        );
        lemma_plain_concat(
            items_lines(items, (k - 1) as nat, visible, truncated, prefix, depth, max_depth, limit, ColorMode::Off),
            entry_lines(
                index_label((k - 1) as nat),
                items[k - 1],
                k == visible && truncated == 0,
                prefix,
                depth,
                max_depth,
                limit,
                ColorMode::Off,
            ),
        );
    } else {
        assert(items_lines(items, k, visible, truncated, prefix, depth, max_depth, limit, ColorMode::Off)
            =~= Seq::<char>::empty());
    }
}

/// With colors off, `render_json` writes no control character but line
/// breaks: keys and strings are escaped, and the renderer's own guides and
/// markers hold none. It needs a root label and numbers free of control
/// characters (a number holding one is written as it is).
pub proof fn lemma_render_json_has_no_controls(
    node: JsonNode,
    root_label: Seq<char>,
    max_depth: Option<usize>,
    limit: Option<usize>,
)
    requires
        no_raw_controls(root_label),
        numbers_plain(node),
    ensures
        no_raw_controls(render_json_spec(node, root_label, max_depth, limit, ColorMode::Off)),
{
    lemma_pieces_plain();
    match node {
        JsonNode::Scalar(s) => {
            lemma_scalar_plain(s);
            lemma_plain_concat(root_label, ": "@);
            lemma_plain_concat(root_label + ": "@, scalar_display(s));
            lemma_plain_concat(root_label + ": "@ + scalar_display(s), "\n"@);
        },
        _ => {
            assert(no_raw_controls(Seq::<char>::empty()));
            lemma_children_plain(node, Seq::empty(), 0, max_depth, limit);
            lemma_plain_concat(root_label, "\n"@);
            lemma_plain_concat(
                root_label + "\n"@,
                json_children(node, Seq::empty(), 0, max_depth, limit, ColorMode::Off),
            );
        },
    }
}


// ---------------------------------------------------------------------------
// One line per node.
// ---------------------------------------------------------------------------

/// How many line breaks `s` holds.
pub open spec fn line_breaks(s: Seq<char>) -> nat
    decreases s.len(),
{
    if s.len() == 0 {
        0
    } else {
        line_breaks(s.drop_last()) + if s.last() == '\n' {
            1nat
        } else {
            0nat
        }
    }
}

/// `s` holds no line break.
pub open spec fn one_line(s: Seq<char>) -> bool {
    forall|i: int| 0 <= i < s.len() ==> #[trigger] s[i] != '\n'
}

/// Every number of `n` is written on one line.
pub open spec fn numbers_one_line(n: JsonNode) -> bool
    decreases n,
{
    match n {
        JsonNode::Object(f) => fields_numbers_one_line(f@),
        JsonNode::Array(items) => items_numbers_one_line(items@),
        JsonNode::Scalar(JsonScalar::Number(v)) => one_line(v@),
        JsonNode::Scalar(_) => true,
    }
}

pub open spec fn fields_numbers_one_line(f: Seq<(String, JsonNode)>) -> bool
    decreases f,
{
    if f.len() == 0 {
        true
    } else {
        fields_numbers_one_line(f.drop_last()) && numbers_one_line(f.last().1)
    }
}

pub open spec fn items_numbers_one_line(items: Seq<JsonNode>) -> bool
    decreases items,
{
    if items.len() == 0 {
        true
    } else {
        items_numbers_one_line(items.drop_last()) && numbers_one_line(items.last())
    }
}

proof fn lemma_fields_one_line_member(f: Seq<(String, JsonNode)>, j: int)
    requires
        fields_numbers_one_line(f),
        0 <= j < f.len(),
    ensures
        numbers_one_line(f[j].1),
    decreases f.len(),
{
    if j < f.len() - 1 {
        lemma_fields_one_line_member(f.drop_last(), j);
        assert(f.drop_last()[j] == f[j]);
    }
}

proof fn lemma_items_one_line_member(items: Seq<JsonNode>, j: int)
    requires
        items_numbers_one_line(items),
        0 <= j < items.len(),
    ensures
        numbers_one_line(items[j]),
    decreases items.len(),
{
    if j < items.len() - 1 {
        lemma_items_one_line_member(items.drop_last(), j);
        assert(items.drop_last()[j] == items[j]);
    }
}

pub(crate) proof fn lemma_breaks_concat(a: Seq<char>, b: Seq<char>)
    ensures
        line_breaks(a + b) == line_breaks(a) + line_breaks(b),
    decreases b.len(),
{
    if b.len() == 0 {
        assert(a + b == a);
    } else {
        lemma_breaks_concat(a, b.drop_last());
        assert((a + b).drop_last() == a + b.drop_last());
        assert((a + b).last() == b.last());
    }
}

pub(crate) proof fn lemma_one_line_breaks(s: Seq<char>)
    requires
        one_line(s),
    ensures
        line_breaks(s) == 0,
    decreases s.len(),
{
    if s.len() > 0 {
        assert(one_line(s.drop_last())) by {
            assert forall|i: int| 0 <= i < s.drop_last().len() implies #[trigger] s.drop_last()[i]
                != '\n' by {
                assert(s.drop_last()[i] == s[i]);
            }
        }
        lemma_one_line_breaks(s.drop_last());
        assert(s.last() == s[s.len() - 1]);
    }
}

pub(crate) proof fn lemma_newline_breaks()
    ensures
        line_breaks("\n"@) == 1,
{
    reveal_strlit("\n");
    assert(("\n"@).len() == 1);
    assert(("\n"@).last() == '\n');
    assert(("\n"@).drop_last() =~= Seq::<char>::empty());
    assert(line_breaks(Seq::<char>::empty()) == 0);
}

/// Escaped text holds no line break.
pub(crate) proof fn lemma_escaped_one_line(s: Seq<char>)
    ensures
        one_line(escape_display(s)),
{
    lemma_display_has_no_controls(s);
    assert forall|i: int| 0 <= i < escape_display(s).len() implies #[trigger] escape_display(s)[i]
        != '\n' by {
        assert(!is_terminal_control(escape_display(s)[i]));
        assert(('\n' as u32) < 0x20);
    }
}

/// The fixed pieces of the renderer hold no line break.
pub(crate) proof fn lemma_pieces_one_line()
    ensures
        one_line("└── "@),
        one_line("├── "@),
        one_line("    "@),
        one_line("│   "@),
        one_line(": "@),
        one_line("{}"@),
        one_line("[]"@),
        one_line("…"@),
        one_line("true"@),
        one_line("false"@),
        one_line("null"@),
        one_line(seq!['"']),
        one_line(seq!['[']),
        one_line(seq![']']),
{
    reveal_strlit("└── ");
    reveal_strlit("├── ");
    reveal_strlit("    ");
    reveal_strlit("│   ");
    reveal_strlit(": ");
    reveal_strlit("{}");
    reveal_strlit("[]");
    reveal_strlit("…");
    reveal_strlit("true");
    reveal_strlit("false");
    reveal_strlit("null");
}

pub(crate) proof fn lemma_one_line_concat(a: Seq<char>, b: Seq<char>)
    requires
        one_line(a),
        one_line(b),
    ensures
        one_line(a + b),
{
    assert forall|i: int| 0 <= i < (a + b).len() implies #[trigger] (a + b)[i] != '\n' by {
        if i < a.len() {
            assert((a + b)[i] == a[i]);
        } else {
            assert((a + b)[i] == b[i - a.len()]);
        }
    }
}

proof fn lemma_scalar_one_line(s: JsonScalar)
    requires
        numbers_one_line(JsonNode::Scalar(s)),
    ensures
        one_line(scalar_display(s)),
{
    lemma_pieces_one_line();
    if let JsonScalar::Str(v) = s {
        lemma_escaped_one_line(v@);
        lemma_one_line_concat(seq!['"'], escape_display(v@));
        lemma_one_line_concat(seq!['"'] + escape_display(v@), seq!['"']);
    }
}

proof fn lemma_head_one_line(label: Seq<char>, is_last: bool, prefix: Seq<char>, depth: nat)
    requires
        one_line(prefix),
    ensures
        one_line(entry_head(label, is_last, prefix, depth, ColorMode::Off)),
        one_line(prefix + child_prefix(is_last)),
{
    lemma_pieces_one_line();
    lemma_escaped_one_line(label);
    lemma_one_line_concat(prefix, branch(is_last));
    lemma_one_line_concat(prefix + branch(is_last), escape_display(label));
    lemma_one_line_concat(prefix, child_prefix(is_last));
}

/// A marked line (`head: marker`) is one line.
proof fn lemma_marked_breaks(head: Seq<char>, marker: Seq<char>)
    requires
        one_line(head),
        one_line(marker),
    ensures
        line_breaks(marked_line(head, marker, ColorMode::Off)) == 1,
{
    lemma_pieces_one_line();
    lemma_newline_breaks();
    lemma_one_line_concat(head, ": "@);
    lemma_one_line_concat(head + ": "@, marker);
    lemma_one_line_breaks(head + ": "@ + marker);
    lemma_breaks_concat(head + ": "@ + marker, "\n"@);
}

proof fn lemma_entry_breaks(
    label: Seq<char>,
    child: JsonNode,
    is_last: bool,
    prefix: Seq<char>,
    depth: nat,
)
    requires
        one_line(prefix),
        numbers_one_line(child),
    ensures
        line_breaks(entry_lines(label, child, is_last, prefix, depth, None, None, ColorMode::Off))
            == 1 + json_path_list(child, Seq::empty()).len(),
    decreases child, 1int,
{
    let mode = ColorMode::Off;
    lemma_entry_cases(label, child, is_last, prefix, depth, None, None, mode);
    lemma_head_one_line(label, is_last, prefix, depth);
    lemma_pieces_one_line();
    lemma_newline_breaks();
    let head = entry_head(label, is_last, prefix, depth, mode);
    match child {
        JsonNode::Scalar(s) => {
            lemma_scalar_one_line(s);
            lemma_marked_breaks(head, scalar_display(s));
        },
        JsonNode::Object(f) => {
            if f@.len() == 0 {
                lemma_marked_breaks(head, "{}"@);
            } else {
                lemma_children_breaks(child, prefix + child_prefix(is_last), depth + 1);
                lemma_one_line_breaks(head);
                lemma_breaks_concat(head, "\n"@);
                lemma_breaks_concat(
                    head + "\n"@,
                    json_children(child, prefix + child_prefix(is_last), depth + 1, None, None, mode),
                );
            }
        },
        JsonNode::Array(items) => {
            if items@.len() == 0 {
                lemma_marked_breaks(head, "[]"@);
            } else {
                lemma_children_breaks(child, prefix + child_prefix(is_last), depth + 1);
                lemma_one_line_breaks(head);
                lemma_breaks_concat(head, "\n"@);
                lemma_breaks_concat(
                    head + "\n"@,
                    json_children(child, prefix + child_prefix(is_last), depth + 1, None, None, mode),
                );
            }
        },
    }
}

proof fn lemma_children_breaks(node: JsonNode, prefix: Seq<char>, depth: nat)
    requires
        one_line(prefix),
        numbers_one_line(node),
    ensures
        line_breaks(json_children(node, prefix, depth, None, None, ColorMode::Off))
            == json_path_list(node, Seq::empty()).len(),
    decreases node, 0int,
{
    reveal(json_children);
    match node {
        JsonNode::Object(f) => {
            lemma_fields_breaks(f@, f@.len(), prefix, depth);
            assert(f@.take(f@.len() as int) == f@);
        },
        JsonNode::Array(items) => {
            let v = visible_count(true, items@.len(), None);
            assert(v == items@.len());
            lemma_items_breaks(items@, v, prefix, depth);
            assert(items@.take(items@.len() as int) == items@);
            let il = items_lines(items@, v, v, 0, prefix, depth, None, None, ColorMode::Off);
            assert(il + Seq::<char>::empty() == il);
        },
        JsonNode::Scalar(_) => {},
    }
}

proof fn lemma_fields_breaks(f: Seq<(String, JsonNode)>, k: nat, prefix: Seq<char>, depth: nat)
    requires
        one_line(prefix),
        fields_numbers_one_line(f),
        k <= f.len(),
    ensures
        line_breaks(fields_lines(f, k, prefix, depth, None, None, ColorMode::Off))
            == fields_path_list(f.take(k as int), Seq::empty()).len(),
    decreases f, k,
{
    if k > 0 {
        let mode = ColorMode::Off;
        lemma_fields_breaks(f, (k - 1) as nat, prefix, depth);
        lemma_fields_step(f, (k - 1) as nat, prefix, depth, None, None, mode);
        lemma_fields_one_line_member(f, k - 1);
        lemma_entry_breaks(f[k - 1].0@, f[k - 1].1, k == f.len(), prefix, depth);
        lemma_breaks_concat(
            fields_lines(f, (k - 1) as nat, prefix, depth, None, None, mode),
            entry_lines(f[k - 1].0@, f[k - 1].1, k == f.len(), prefix, depth, None, None, mode),
        );
        let t = f.take(k as int);
        assert(t.drop_last() =~= f.take(k - 1));
        assert(t.last() == f[k - 1]);
        let pk = Seq::<Seq<char>>::empty().push(f[k - 1].0@);
        lemma_json_path_count(f[k - 1].1, pk);
        lemma_json_path_count(f[k - 1].1, Seq::empty());
    } else {
        assert(f.take(0) =~= Seq::<(String, JsonNode)>::empty());
    }
}

proof fn lemma_items_breaks(items: Seq<JsonNode>, k: nat, prefix: Seq<char>, depth: nat)
    requires
        one_line(prefix),
        items_numbers_one_line(items),
        k <= items.len(),
    ensures
        line_breaks(items_lines(items, k, items.len(), 0, prefix, depth, None, None, ColorMode::Off))
            == items_path_list(items.take(k as int), Seq::empty()).len(),
    decreases items, k,
{
    if k > 0 {
        let mode = ColorMode::Off;
        lemma_items_breaks(items, (k - 1) as nat, prefix, depth);
        lemma_items_step(items, (k - 1) as nat, items.len(), 0, prefix, depth, None, None, mode);
        lemma_items_one_line_member(items, k - 1);
        lemma_entry_breaks(index_label((k - 1) as nat), items[k - 1], k == items.len(), prefix, depth);
        lemma_breaks_concat(
            items_lines(items, (k - 1) as nat, items.len(), 0, prefix, depth, None, None, mode),
            entry_lines(
                index_label((k - 1) as nat),
                items[k - 1],
                k == items.len(),
                prefix,
                depth,
                None,
                None,
                mode,
            ),
        );
        let t = items.take(k as int);
        assert(t.drop_last() =~= items.take(k - 1));
        assert(t.last() == items[k - 1]);
        let pk = Seq::<Seq<char>>::empty().push(decimal((k - 1) as nat));
        lemma_json_path_count(items[k - 1], pk);
        lemma_json_path_count(items[k - 1], Seq::empty());
    } else {
        assert(items.take(0) =~= Seq::<JsonNode>::empty());
    }
}

/// With no depth or array limit and colors off, `render_json` writes one
/// line per node: the root's line and one for each node that `--paths`
/// lists. It needs a root label and numbers without line breaks.
pub proof fn lemma_render_json_one_line_per_node(node: JsonNode, root_label: Seq<char>)
    requires
        one_line(root_label),
        numbers_one_line(node),
    ensures
        line_breaks(render_json_spec(node, root_label, None, None, ColorMode::Off))
            == 1 + json_path_list(node, Seq::empty()).len(),
{
    lemma_pieces_one_line();
    lemma_newline_breaks();
    match node {
        JsonNode::Scalar(s) => {
            lemma_scalar_one_line(s);
            lemma_marked_breaks(root_label, scalar_display(s));
        },
        _ => {
            assert(one_line(Seq::<char>::empty()));
            lemma_children_breaks(node, Seq::empty(), 0);
            lemma_one_line_breaks(root_label);
            lemma_breaks_concat(root_label, "\n"@);
            lemma_breaks_concat(
                root_label + "\n"@,
                json_children(node, Seq::empty(), 0, None, None, ColorMode::Off),
            );
        },
    }
}

} // verus!
