//! Size and shape summaries (`--stats`).
use crate::json_tree::JsonNode;
use crate::xml_tree::XmlNode;
use vstd::prelude::*;

verus! {

#[derive(Debug, Clone, PartialEq, Eq)]
pub struct JsonStats {
    pub max_depth: usize,
    pub objects: usize,
    pub arrays: usize,
    pub scalars: usize,
}

#[derive(Debug, Clone, PartialEq, Eq)]
pub struct XmlStats {
    pub max_depth: usize,
    pub elements: usize,
    pub attributes: usize,
    pub text_nodes: usize,
}

pub open spec fn max_nat(a: nat, b: nat) -> nat {
    if a >= b {
        a
    } else {
        b
    }
}

pub open spec fn max_int(a: int, b: int) -> int {
    if a >= b {
        a
    } else {
        b
    }
}

/// Number of nodes of kind `k` in `n` (0: objects, 1: arrays, 2: scalars).
pub open spec fn json_count(n: JsonNode, k: int) -> nat
    decreases n,
{
    match n {
        JsonNode::Object(f) => (if k == 0 {
            1nat
        } else {
            0nat
        }) + fields_count(f@, k),
        JsonNode::Array(items) => (if k == 1 {
            1nat
        } else {
            0nat
        }) + items_count(items@, k),
        JsonNode::Scalar(_) => if k == 2 {
            1nat
        } else {
            0nat
        },
    }
}

pub open spec fn fields_count(f: Seq<(String, JsonNode)>, k: int) -> nat
    decreases f,
{
    if f.len() == 0 {
        0
    } else {
        fields_count(f.drop_last(), k) + json_count(f.last().1, k)
    }
}

pub open spec fn items_count(items: Seq<JsonNode>, k: int) -> nat
    decreases items,
{
    if items.len() == 0 {
        0
    } else {
        items_count(items.drop_last(), k) + json_count(items.last(), k)
    }
}

/// Number of nodes in `n`.
pub open spec fn json_size(n: JsonNode) -> nat {
    json_count(n, 0) + json_count(n, 1) + json_count(n, 2)
}

/// Deepest nesting below `n`: 0 for a scalar or an empty container.
pub open spec fn json_height(n: JsonNode) -> nat
    decreases n,
{
    match n {
        JsonNode::Object(f) => if f@.len() == 0 {
            0
        } else {
            1 + fields_height(f@)
        },
        JsonNode::Array(items) => if items@.len() == 0 {
            0
        } else {
            1 + items_height(items@)
        },
        JsonNode::Scalar(_) => 0,
    }
}

pub open spec fn fields_height(f: Seq<(String, JsonNode)>) -> nat
    decreases f,
{
    if f.len() == 0 {
        0
    } else {
        max_nat(fields_height(f.drop_last()), json_height(f.last().1))
    }
}

pub open spec fn items_height(items: Seq<JsonNode>) -> nat
    decreases items,
{
    if items.len() == 0 {
        0
    } else {
        max_nat(items_height(items.drop_last()), json_height(items.last()))
    }
}

/// The statistics of `n`: its deepest nesting and how many objects, arrays
/// and scalars it holds.
pub open spec fn json_stats_spec(n: JsonNode) -> (nat, nat, nat, nat) {
    (json_height(n), json_count(n, 0), json_count(n, 1), json_count(n, 2))
}

pub proof fn lemma_json_height_lt_size(n: JsonNode)
    ensures
        json_height(n) < json_size(n),
    decreases n,
{
    match n {
        JsonNode::Object(f) => {
            lemma_fields_height(f@);
        },
        JsonNode::Array(items) => {
            lemma_items_height(items@);
        },
        JsonNode::Scalar(_) => {},
    }
}

proof fn lemma_fields_height(f: Seq<(String, JsonNode)>)
    ensures
        f.len() > 0 ==> fields_height(f) < fields_count(f, 0) + fields_count(f, 1) + fields_count(
            f,
            2,
        ),
    decreases f,
{
    if f.len() > 0 {
        lemma_fields_height(f.drop_last());
        lemma_json_height_lt_size(f.last().1);
        if f.drop_last().len() == 0 {
            assert(fields_height(f.drop_last()) == 0);
        }
    }
}

proof fn lemma_items_height(items: Seq<JsonNode>)
    ensures
        items.len() > 0 ==> items_height(items) < items_count(items, 0) + items_count(items, 1)
            + items_count(items, 2),
    decreases items,
{
    if items.len() > 0 {
        lemma_items_height(items.drop_last());
        lemma_json_height_lt_size(items.last());
        if items.drop_last().len() == 0 {
            assert(items_height(items.drop_last()) == 0);
        }
    }
}

proof fn lemma_fields_prefix(f: Seq<(String, JsonNode)>, i: int)
    requires
        0 <= i < f.len(),
    ensures
        fields_count(f.take(i + 1), 0) <= fields_count(f, 0),
        fields_count(f.take(i + 1), 1) <= fields_count(f, 1),
        fields_count(f.take(i + 1), 2) <= fields_count(f, 2),
        json_height(f[i].1) <= fields_height(f),
        fields_height(f.take(i + 1)) <= fields_height(f),
    decreases f.len(),
{
    if i + 1 == f.len() {
        assert(f.take(i + 1) == f);
        assert(f[i] == f.last());
    } else {
        lemma_fields_prefix(f.drop_last(), i);
        assert(f.drop_last().take(i + 1) == f.take(i + 1));
        assert(f.drop_last()[i] == f[i]);
    }
}

proof fn lemma_items_prefix(items: Seq<JsonNode>, i: int)
    requires
        0 <= i < items.len(),
    ensures
        items_count(items.take(i + 1), 0) <= items_count(items, 0),
        items_count(items.take(i + 1), 1) <= items_count(items, 1),
        items_count(items.take(i + 1), 2) <= items_count(items, 2),
        json_height(items[i]) <= items_height(items),
        items_height(items.take(i + 1)) <= items_height(items),
    decreases items.len(),
{
    if i + 1 == items.len() {
        assert(items.take(i + 1) == items);
        assert(items[i] == items.last());
    } else {
        lemma_items_prefix(items.drop_last(), i);
        assert(items.drop_last().take(i + 1) == items.take(i + 1));
        assert(items.drop_last()[i] == items[i]);
    }
}

/// A field's height is at most the height of all fields.
pub proof fn lemma_fields_height_member(f: Seq<(String, JsonNode)>, i: int)
    requires
        0 <= i < f.len(),
    ensures
        json_height(f[i].1) <= fields_height(f),
{
    lemma_fields_prefix(f, i);
}

/// An item's height is at most the height of all items.
pub proof fn lemma_items_height_member(items: Seq<JsonNode>, i: int)
    requires
        0 <= i < items.len(),
    ensures
        json_height(items[i]) <= items_height(items),
{
    lemma_items_prefix(items, i);
}

fn walk_json(node: &JsonNode, depth: usize, stats: &mut JsonStats)
    requires
        old(stats).objects + json_count(*node, 0) <= usize::MAX,
        old(stats).arrays + json_count(*node, 1) <= usize::MAX,
        old(stats).scalars + json_count(*node, 2) <= usize::MAX,
        depth + json_height(*node) <= usize::MAX,
    ensures
        final(stats).objects == old(stats).objects + json_count(*node, 0),
        final(stats).arrays == old(stats).arrays + json_count(*node, 1),
        final(stats).scalars == old(stats).scalars + json_count(*node, 2),
        final(stats).max_depth == max_int(
            old(stats).max_depth as int,
            depth + json_height(*node),
        ),
    decreases node,
{
    let ghost old_stats = *stats;
    if depth > stats.max_depth {
        stats.max_depth = depth;
    }
    match node {
        JsonNode::Object(fields) => {
            stats.objects += 1;
            let mut i: usize = 0;
            while i < fields.len()
                invariant
                    i <= fields@.len(),
                    *node == JsonNode::Object(*fields),
                    old_stats.objects + json_count(*node, 0) <= usize::MAX,
                    old_stats.arrays + json_count(*node, 1) <= usize::MAX,
                    old_stats.scalars + json_count(*node, 2) <= usize::MAX,
                    depth + json_height(*node) <= usize::MAX,
                    stats.objects == old_stats.objects + 1 + fields_count(fields@.take(i as int), 0),
                    stats.arrays == old_stats.arrays + fields_count(fields@.take(i as int), 1),
                    stats.scalars == old_stats.scalars + fields_count(fields@.take(i as int), 2),
                    stats.max_depth == (if i == 0 {
                        max_int(old_stats.max_depth as int, depth as int)
                    } else {
                        max_int(
                            old_stats.max_depth as int,
                            depth + 1 + fields_height(fields@.take(i as int)),
                        )
                    }),
                decreases fields@.len() - i,
            {
                proof {
                    lemma_fields_prefix(fields@, i as int);
                    assert(fields@.take(i + 1).drop_last() == fields@.take(i as int));
                    assert(fields@.take(i + 1).last() == fields@[i as int]);
                    assert(decreases_to!(*node => fields@[i as int].1));
                }
                walk_json(&fields[i].1, depth + 1, stats);
                i += 1;
            }
            assert(fields@.take(fields@.len() as int) == fields@);
        },
        JsonNode::Array(items) => {
            stats.arrays += 1;
            let mut i: usize = 0;
            while i < items.len()
                invariant
                    i <= items@.len(),
                    *node == JsonNode::Array(*items),
                    old_stats.objects + json_count(*node, 0) <= usize::MAX,
                    old_stats.arrays + json_count(*node, 1) <= usize::MAX,
                    old_stats.scalars + json_count(*node, 2) <= usize::MAX,
                    depth + json_height(*node) <= usize::MAX,
                    stats.objects == old_stats.objects + items_count(items@.take(i as int), 0),
                    stats.arrays == old_stats.arrays + 1 + items_count(items@.take(i as int), 1),
                    stats.scalars == old_stats.scalars + items_count(items@.take(i as int), 2),
                    stats.max_depth == (if i == 0 {
                        max_int(old_stats.max_depth as int, depth as int)
                    } else {
                        max_int(
                            old_stats.max_depth as int,
                            depth + 1 + items_height(items@.take(i as int)),
                        )
                    }),
                decreases items@.len() - i,
            {
                proof {
                    lemma_items_prefix(items@, i as int);
                    assert(items@.take(i + 1).drop_last() == items@.take(i as int));
                    assert(items@.take(i + 1).last() == items@[i as int]);
                    assert(decreases_to!(*node => items@[i as int]));
                }
                walk_json(&items[i], depth + 1, stats);
                i += 1;
            }
            assert(items@.take(items@.len() as int) == items@);
        },
        JsonNode::Scalar(_) => {
            stats.scalars += 1;
        },
    }
}

/// Counts objects, arrays and scalars, and the deepest nesting. Every node
/// occupies memory, so the node count fits in a `usize`.
pub fn json_stats(node: &JsonNode) -> (r: JsonStats)
    requires
        json_size(*node) <= usize::MAX,
    ensures
        (r.max_depth as nat, r.objects as nat, r.arrays as nat, r.scalars as nat)
            == json_stats_spec(*node),
{
    proof {
        lemma_json_height_lt_size(*node);
    }
    let mut stats = JsonStats { max_depth: 0, objects: 0, arrays: 0, scalars: 0 };
    walk_json(node, 0, &mut stats);
    stats
}

/// XML counts of kind `k` (0: elements, 1: attributes, 2: elements with text).
pub open spec fn xml_count(n: XmlNode, k: int) -> nat
    decreases n,
{
    (if k == 0 {
        1nat
    } else if k == 1 {
        n.attributes@.len()
    } else if n.text is Some {
        1nat
    } else {
        0nat
    }) + children_count(n.children@, k)
}

pub open spec fn children_count(c: Seq<XmlNode>, k: int) -> nat
    decreases c,
{
    if c.len() == 0 {
        0
    } else {
        children_count(c.drop_last(), k) + xml_count(c.last(), k)
    }
}

pub open spec fn xml_height(n: XmlNode) -> nat
    decreases n,
{
    if n.children@.len() == 0 {
        0
    } else {
        1 + children_height(n.children@)
    }
}

pub open spec fn children_height(c: Seq<XmlNode>) -> nat
    decreases c,
{
    if c.len() == 0 {
        0
    } else {
        max_nat(children_height(c.drop_last()), xml_height(c.last()))
    }
}

pub open spec fn xml_stats_spec(n: XmlNode) -> (nat, nat, nat, nat) {
    (xml_height(n), xml_count(n, 0), xml_count(n, 1), xml_count(n, 2))
}

pub proof fn lemma_xml_height_lt_count(n: XmlNode)
    ensures
        xml_height(n) < xml_count(n, 0),
    decreases n,
{
    lemma_children_height(n.children@);
}

proof fn lemma_children_height(c: Seq<XmlNode>)
    ensures
        c.len() > 0 ==> children_height(c) < children_count(c, 0),
    decreases c,
{
    if c.len() > 0 {
        lemma_children_height(c.drop_last());
        lemma_xml_height_lt_count(c.last());
        assert(xml_count(c.last(), 0) >= 1);
        if c.drop_last().len() == 0 {
            assert(children_height(c.drop_last()) == 0);
        }
    }
}

proof fn lemma_children_prefix(c: Seq<XmlNode>, i: int)
    requires
        0 <= i < c.len(),
    ensures
        children_count(c.take(i + 1), 0) <= children_count(c, 0),
        children_count(c.take(i + 1), 1) <= children_count(c, 1),
        children_count(c.take(i + 1), 2) <= children_count(c, 2),
        xml_height(c[i]) <= children_height(c),
        children_height(c.take(i + 1)) <= children_height(c),
    decreases c.len(),
{
    if i + 1 == c.len() {
        assert(c.take(i + 1) == c);
        assert(c[i] == c.last());
    } else {
        lemma_children_prefix(c.drop_last(), i);
        assert(c.drop_last().take(i + 1) == c.take(i + 1));
        assert(c.drop_last()[i] == c[i]);
    }
}

/// A child's height is below its parent's.
pub proof fn lemma_xml_height_member(c: Seq<XmlNode>, i: int)
    requires
        0 <= i < c.len(),
    ensures
        xml_height(c[i]) <= children_height(c),
{
    lemma_children_prefix(c, i);
}

fn walk_xml(node: &XmlNode, depth: usize, stats: &mut XmlStats)
    requires
        old(stats).elements + xml_count(*node, 0) <= usize::MAX,
        old(stats).attributes + xml_count(*node, 1) <= usize::MAX,
        old(stats).text_nodes + xml_count(*node, 2) <= usize::MAX,
        depth + xml_height(*node) <= usize::MAX,
    ensures
        final(stats).elements == old(stats).elements + xml_count(*node, 0),
        final(stats).attributes == old(stats).attributes + xml_count(*node, 1),
        final(stats).text_nodes == old(stats).text_nodes + xml_count(*node, 2),
        final(stats).max_depth == max_int(old(stats).max_depth as int, depth + xml_height(*node)),
    decreases node,
{
    let ghost old_stats = *stats;
    if depth > stats.max_depth {
        stats.max_depth = depth;
    }
    stats.elements += 1;
    stats.attributes += node.attributes.len();
    if node.text.is_some() {
        stats.text_nodes += 1;
    }
    let ghost own1: nat = node.attributes@.len();
    let ghost own2: nat = if node.text is Some {
        1
    } else {
        0
    };
    let mut i: usize = 0;
    while i < node.children.len()
        invariant
            i <= node.children@.len(),
            old_stats.elements + xml_count(*node, 0) <= usize::MAX,
            old_stats.attributes + xml_count(*node, 1) <= usize::MAX,
            old_stats.text_nodes + xml_count(*node, 2) <= usize::MAX,
            depth + xml_height(*node) <= usize::MAX,
            own1 == node.attributes@.len(),
            own2 == (if node.text is Some {
                1nat
            } else {
                0nat
            }),
            stats.elements == old_stats.elements + 1 + children_count(
                node.children@.take(i as int),
                0,
            ),
            stats.attributes == old_stats.attributes + own1 + children_count(
                node.children@.take(i as int),
                1,
            ),
            stats.text_nodes == old_stats.text_nodes + own2 + children_count(
                node.children@.take(i as int),
                2,
            ),
            stats.max_depth == (if i == 0 {
                max_int(old_stats.max_depth as int, depth as int)
            } else {
                max_int(
                    old_stats.max_depth as int,
                    depth + 1 + children_height(node.children@.take(i as int)),
                )
            }),
        decreases node.children@.len() - i,
    {
        proof {
            lemma_children_prefix(node.children@, i as int);
            assert(node.children@.take(i + 1).drop_last() == node.children@.take(i as int));
            assert(node.children@.take(i + 1).last() == node.children@[i as int]);
            assert(decreases_to!(*node => node.children@[i as int]));
        }
        walk_xml(&node.children[i], depth + 1, stats);
        i += 1;
    }
    assert(node.children@.take(node.children@.len() as int) == node.children@);
}

/// Counts elements, attributes and elements with text, and the deepest
/// nesting. Every element occupies memory, so its counts fit in a `usize`.
pub fn xml_stats(node: &XmlNode) -> (r: XmlStats)
    requires
        xml_count(*node, 0) + xml_count(*node, 1) + xml_count(*node, 2) <= usize::MAX,
    ensures
        (r.max_depth as nat, r.elements as nat, r.attributes as nat, r.text_nodes as nat)
            == xml_stats_spec(*node),
{
    proof {
        lemma_xml_height_lt_count(*node);
    }
    let mut stats = XmlStats { max_depth: 0, elements: 0, attributes: 0, text_nodes: 0 };
    walk_xml(node, 0, &mut stats);
    stats
}

} // verus!
