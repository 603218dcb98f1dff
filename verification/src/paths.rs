//! Every path in a document (`--paths`), printed so that each one splits
//! back into its segments for `--path`.
use crate::json_tree::{
    display_path_spec, escape_path, escape_path_segment, find_json,
    is_first_key, join_dot,
    lemma_first_key_unique, lemma_path_round_trip, path_segments, JsonNode,
};
use crate::stats::{
    children_count, children_height, fields_count, fields_height, items_count, items_height,
    json_count, json_height, json_size, json_stats_spec, xml_count, xml_height, xml_stats_spec,
};
use crate::text::{decimal, decimal_string, lemma_decimal_parses, push_str};
use crate::xml_tree::{
    find_xml, is_first_child, lemma_first_child_unique, XmlNode,
};
use vstd::prelude::*;

verus! {

broadcast use vstd::string::group_string_axioms;

/// The characters of each string.
pub open spec fn strings_view(v: Seq<String>) -> Seq<Seq<char>> {
    v.map_values(|s: String| s@)
}

/// Each path printed by `display_path_spec`.
pub open spec fn display_all(ps: Seq<Seq<Seq<char>>>) -> Seq<Seq<char>> {
    ps.map_values(|p: Seq<Seq<char>>| display_path_spec(p))
}

/// The path of every node below `n` (containers and leaves, preorder), each
/// extending `prefix`: object fields by key, array items by decimal index.
pub open spec fn json_path_list(n: JsonNode, prefix: Seq<Seq<char>>) -> Seq<Seq<Seq<char>>>
    decreases n,
{
    match n {
        JsonNode::Object(f) => fields_path_list(f@, prefix),
        JsonNode::Array(items) => items_path_list(items@, prefix),
        JsonNode::Scalar(_) => Seq::empty(),
    }
}

pub open spec fn fields_path_list(f: Seq<(String, JsonNode)>, prefix: Seq<Seq<char>>) -> Seq<
    Seq<Seq<char>>,
>
    decreases f,
{
    if f.len() == 0 {
        Seq::empty()
    } else {
        let p = prefix.push(f.last().0@);
        fields_path_list(f.drop_last(), prefix) + seq![p] + json_path_list(f.last().1, p)
    }
}

pub open spec fn items_path_list(items: Seq<JsonNode>, prefix: Seq<Seq<char>>) -> Seq<
    Seq<Seq<char>>,
>
    decreases items,
{
    if items.len() == 0 {
        Seq::empty()
    } else {
        let p = prefix.push(decimal((items.len() - 1) as nat));
        items_path_list(items.drop_last(), prefix) + seq![p] + json_path_list(items.last(), p)
    }
}

/// The path of every element below `n` (preorder), by element name.
pub open spec fn xml_path_list(n: XmlNode, prefix: Seq<Seq<char>>) -> Seq<Seq<Seq<char>>>
    decreases n,
{
    children_path_list(n.children@, prefix)
}

pub open spec fn children_path_list(c: Seq<XmlNode>, prefix: Seq<Seq<char>>) -> Seq<
    Seq<Seq<char>>,
>
    decreases c,
{
    if c.len() == 0 {
        Seq::empty()
    } else {
        let p = prefix.push(c.last().name@);
        children_path_list(c.drop_last(), prefix) + seq![p] + xml_path_list(c.last(), p)
    }
}

pub proof fn lemma_join_dot_push(s: Seq<Seq<char>>, x: Seq<char>)
    requires
        s.len() > 0,
    ensures
        join_dot(s.push(x)) == join_dot(s) + seq!['.'] + x,
    decreases s.len(),
{
    if s.len() == 1 {
        assert(s.push(x).drop_first() == seq![x]);
        assert(join_dot(seq![x]) == x);
    } else {
        assert(s.push(x).drop_first() == s.drop_first().push(x));
        lemma_join_dot_push(s.drop_first(), x);
    }
}

/// A path printed with each segment escaped (`escape_path_segment`) and the
/// segments joined by `.`.
pub fn display_path(path: &[String]) -> (r: String)
    ensures
        r@ == display_path_spec(strings_view(path@)),
{
    let ghost segs = strings_view(path@);
    let ghost esc = segs.map_values(|s: Seq<char>| escape_path(s));
    let mut out = String::new();
    let mut i: usize = 0;
    while i < path.len()
        invariant
            i <= path@.len(),
            segs == strings_view(path@),
            esc == segs.map_values(|s: Seq<char>| escape_path(s)),
            out@ == join_dot(esc.take(i as int)),
        decreases path@.len() - i,
    {
        let e = escape_path_segment(path[i].as_str());
        assert(e@ == esc[i as int]);
        assert(esc.take(i + 1) == esc.take(i as int).push(esc[i as int]));
        if i > 0 {
            proof {
                lemma_join_dot_push(esc.take(i as int), esc[i as int]);
            }
            out.push('.');
        } else {
            assert(esc.take(1) == seq![esc[0]]);
            assert(join_dot(esc.take(0)) == Seq::<char>::empty());
        }
        push_str(&mut out, e.as_str());
        i += 1;
    }
    assert(esc.take(path@.len() as int) == esc);
    out
}

fn extend_path(path: &Vec<String>, label: String) -> (r: Vec<String>)
    ensures
        strings_view(r@) == strings_view(path@).push(label@),
{
    let mut p = path.clone();
    assert(p@ == path@) by {
        assert(p@ =~= path@);
    }
    p.push(label);
    assert(strings_view(p@) =~= strings_view(path@).push(label@));
    p
}

fn walk_json(node: &JsonNode, path: &Vec<String>, out: &mut Vec<String>)
    ensures
        strings_view(final(out)@) == strings_view(old(out)@) + display_all(
            json_path_list(*node, strings_view(path@)),
        ),
    decreases node,
{
    let ghost start = strings_view(out@);
    let ghost pv = strings_view(path@);
    match node {
        JsonNode::Object(fields) => {
            let mut i: usize = 0;
            while i < fields.len()
                invariant
                    i <= fields@.len(),
                    *node == JsonNode::Object(*fields),
                    pv == strings_view(path@),
                    strings_view(out@) == start + display_all(
                        fields_path_list(fields@.take(i as int), pv),
                    ),
                decreases fields@.len() - i,
            {
                let ghost before = strings_view(out@);
                assert(fields@.take(i + 1).drop_last() == fields@.take(i as int));
                assert(fields@.take(i + 1).last() == fields@[i as int]);
                let child_path = extend_path(path, fields[i].0.clone());
                let shown = display_path(child_path.as_slice());
                out.push(shown);
                assert(strings_view(out@) == before.push(shown@)) by {
                    assert(strings_view(out@) =~= before.push(shown@));
                }
                proof {
                    assert(node->Object_0 == *fields);
                    assert(decreases_to!(*node => node->Object_0));
                    assert(decreases_to!(*node => node->Object_0@));
                    assert(decreases_to!(*node => node->Object_0@[i as int]));
                    assert(decreases_to!(*node => fields@[i as int].1));
                }
                walk_json(&fields[i].1, &child_path, out);
                proof {
                    let p = pv.push(fields@[i as int].0@);
                    let a = fields_path_list(fields@.take(i as int), pv);
                    let b = json_path_list(fields@[i as int].1, p);
                    assert(fields_path_list(fields@.take(i + 1), pv) == a + seq![p] + b);
                    assert(display_all(a + seq![p] + b) =~= display_all(a) + seq![
                        display_path_spec(p),
                    ] + display_all(b));
                }
                i += 1;
            }
            assert(fields@.take(fields@.len() as int) == fields@);
        },
        JsonNode::Array(items) => {
            let mut i: usize = 0;
            while i < items.len()
                invariant
                    i <= items@.len(),
                    *node == JsonNode::Array(*items),
                    pv == strings_view(path@),
                    strings_view(out@) == start + display_all(
                        items_path_list(items@.take(i as int), pv),
                    ),
                decreases items@.len() - i,
            {
                let ghost before = strings_view(out@);
                assert(items@.take(i + 1).drop_last() == items@.take(i as int));
                assert(items@.take(i + 1).last() == items@[i as int]);
                let label = decimal_string(i);
                let child_path = extend_path(path, label);
                let shown = display_path(child_path.as_slice());
                out.push(shown);
                assert(strings_view(out@) == before.push(shown@)) by {
                    assert(strings_view(out@) =~= before.push(shown@));
                }
                proof {
                    assert(node->Array_0 == *items);
                    assert(decreases_to!(*node => node->Array_0));
                    assert(decreases_to!(*node => node->Array_0@));
                    assert(decreases_to!(*node => items@[i as int]));
                }
                walk_json(&items[i], &child_path, out);
                proof {
                    let p = pv.push(decimal(i as nat));
                    let a = items_path_list(items@.take(i as int), pv);
                    let b = json_path_list(items@[i as int], p);
                    assert(items@.take(i + 1).len() - 1 == i);
                    assert(items_path_list(items@.take(i + 1), pv) == a + seq![p] + b);
                    assert(display_all(a + seq![p] + b) =~= display_all(a) + seq![
                        display_path_spec(p),
                    ] + display_all(b));
                }
                i += 1;
            }
            assert(items@.take(items@.len() as int) == items@);
        },
        JsonNode::Scalar(_) => {
            assert(strings_view(out@) =~= start + display_all(Seq::empty()));
        },
    }
}

/// Every path below `node`, one per node (containers and leaves, preorder),
/// in the dotted format `--path` reads.
pub fn json_paths(node: &JsonNode) -> (r: Vec<String>)
    ensures
        strings_view(r@) == display_all(json_path_list(*node, Seq::empty())),
{
    let mut out: Vec<String> = Vec::new();
    let root: Vec<String> = Vec::new();
    assert(strings_view(root@) =~= Seq::<Seq<char>>::empty());
    walk_json(node, &root, &mut out);
    assert(strings_view(Seq::<String>::empty()) =~= Seq::<Seq<char>>::empty());
    assert(Seq::<Seq<char>>::empty() + display_all(json_path_list(*node, Seq::empty())) =~= display_all(
        json_path_list(*node, Seq::empty()),
    ));
    out
}

fn walk_xml(node: &XmlNode, path: &Vec<String>, out: &mut Vec<String>)
    ensures
        strings_view(final(out)@) == strings_view(old(out)@) + display_all(
            xml_path_list(*node, strings_view(path@)),
        ),
    decreases node,
{
    let ghost start = strings_view(out@);
    let ghost pv = strings_view(path@);
    let mut i: usize = 0;
    while i < node.children.len()
        invariant
            i <= node.children@.len(),
            pv == strings_view(path@),
            strings_view(out@) == start + display_all(
                children_path_list(node.children@.take(i as int), pv),
            ),
        decreases node.children@.len() - i,
    {
        let ghost before = strings_view(out@);
        assert(node.children@.take(i + 1).drop_last() == node.children@.take(i as int));
        assert(node.children@.take(i + 1).last() == node.children@[i as int]);
        let child_path = extend_path(path, node.children[i].name.clone());
        let shown = display_path(child_path.as_slice());
        out.push(shown);
        assert(strings_view(out@) == before.push(shown@)) by {
            assert(strings_view(out@) =~= before.push(shown@));
        }
        proof {
            assert(decreases_to!(*node => node.children@[i as int]));
        }
        walk_xml(&node.children[i], &child_path, out);
        proof {
            let p = pv.push(node.children@[i as int].name@);
            let a = children_path_list(node.children@.take(i as int), pv);
            let b = xml_path_list(node.children@[i as int], p);
            assert(children_path_list(node.children@.take(i + 1), pv) == a + seq![p] + b);
            assert(display_all(a + seq![p] + b) =~= display_all(a) + seq![display_path_spec(p)]
                + display_all(b));
        }
        i += 1;
    }
    assert(node.children@.take(node.children@.len() as int) == node.children@);
}

/// Every element path below `node` (preorder), by element name.
pub fn xml_paths(node: &XmlNode) -> (r: Vec<String>)
    ensures
        strings_view(r@) == display_all(xml_path_list(*node, Seq::empty())),
{
    let mut out: Vec<String> = Vec::new();
    let root: Vec<String> = Vec::new();
    assert(strings_view(root@) =~= Seq::<Seq<char>>::empty());
    walk_xml(node, &root, &mut out);
    assert(strings_view(Seq::<String>::empty()) =~= Seq::<Seq<char>>::empty());
    assert(Seq::<Seq<char>>::empty() + display_all(xml_path_list(*node, Seq::empty())) =~= display_all(
        xml_path_list(*node, Seq::empty()),
    ));
    out
}


// ---------------------------------------------------------------------------
// Printed paths lead back to their nodes.
// ---------------------------------------------------------------------------

/// The keys of `f`, in order.
pub open spec fn keys_of(f: Seq<(String, JsonNode)>) -> Seq<Seq<char>> {
    f.map_values(|e: (String, JsonNode)| e.0@)
}

/// No object in `n` holds the same key twice (as JSON parsed into a map
/// never does).
pub open spec fn unique_keys(n: JsonNode) -> bool
    decreases n,
{
    match n {
        JsonNode::Object(f) => fields_unique(f@),
        JsonNode::Array(items) => items_unique(items@),
        JsonNode::Scalar(_) => true,
    }
}

pub open spec fn fields_unique(f: Seq<(String, JsonNode)>) -> bool
    decreases f,
{
    if f.len() == 0 {
        true
    } else {
        &&& fields_unique(f.drop_last())
        &&& !keys_of(f.drop_last()).contains(f.last().0@)
        &&& unique_keys(f.last().1)
    }
}

pub open spec fn items_unique(items: Seq<JsonNode>) -> bool
    decreases items,
{
    if items.len() == 0 {
        true
    } else {
        items_unique(items.drop_last()) && unique_keys(items.last())
    }
}

/// The node behind each path of `json_path_list`, in the same order.
pub open spec fn json_node_list(n: JsonNode) -> Seq<JsonNode>
    decreases n,
{
    match n {
        JsonNode::Object(f) => fields_node_list(f@),
        JsonNode::Array(items) => items_node_list(items@),
        JsonNode::Scalar(_) => Seq::empty(),
    }
}

pub open spec fn fields_node_list(f: Seq<(String, JsonNode)>) -> Seq<JsonNode>
    decreases f,
{
    if f.len() == 0 {
        Seq::empty()
    } else {
        fields_node_list(f.drop_last()) + seq![f.last().1] + json_node_list(f.last().1)
    }
}

pub open spec fn items_node_list(items: Seq<JsonNode>) -> Seq<JsonNode>
    decreases items,
{
    if items.len() == 0 {
        Seq::empty()
    } else {
        items_node_list(items.drop_last()) + seq![items.last()] + json_node_list(items.last())
    }
}

/// `p` continues `prefix` with a path that leads from `n` to `target`.
pub open spec fn leads_to(n: JsonNode, prefix: Seq<Seq<char>>, p: Seq<Seq<char>>, target: JsonNode) -> bool {
    &&& p.len() > prefix.len()
    &&& p.take(prefix.len() as int) == prefix
    &&& find_json(n, p.skip(prefix.len() as int)) == Ok::<JsonNode, Seq<char>>(target)
}

/// `p` continues `prefix` with a key of `f` and a path that leads from that
/// key's value to `target`.
pub open spec fn leads_to_field(
    f: Seq<(String, JsonNode)>,
    prefix: Seq<Seq<char>>,
    p: Seq<Seq<char>>,
    target: JsonNode,
) -> bool {
    &&& p.len() > prefix.len()
    &&& p.take(prefix.len() as int) == prefix
    &&& exists|j: int|
        0 <= j < f.len() && #[trigger] f[j].0@ == p[prefix.len() as int] && find_json(
            f[j].1,
            p.skip(prefix.len() + 1 as int),
        ) == Ok::<JsonNode, Seq<char>>(target)
}

/// `p` continues `prefix` with an index of `items` and a path that leads
/// from that item to `target`.
pub open spec fn leads_to_item(
    items: Seq<JsonNode>,
    prefix: Seq<Seq<char>>,
    p: Seq<Seq<char>>,
    target: JsonNode,
) -> bool {
    &&& p.len() > prefix.len()
    &&& p.take(prefix.len() as int) == prefix
    &&& exists|j: int|
        0 <= j < items.len() && p[prefix.len() as int] == decimal(j as nat) && find_json(
            #[trigger] items[j],
            p.skip(prefix.len() + 1 as int),
        ) == Ok::<JsonNode, Seq<char>>(target)
}

proof fn lemma_extend_path(prefix: Seq<Seq<char>>, seg: Seq<char>, p: Seq<Seq<char>>)
    requires
        p.len() > prefix.len() + 1,
        p.take(prefix.len() + 1 as int) == prefix.push(seg),
    ensures
        p.take(prefix.len() as int) == prefix,
        p[prefix.len() as int] == seg,
        p.skip(prefix.len() as int).drop_first() == p.skip(prefix.len() + 1 as int),
        p.skip(prefix.len() as int)[0] == seg,
{
    assert(p.take(prefix.len() as int) == p.take(prefix.len() + 1 as int).take(prefix.len() as int));
    assert(p[prefix.len() as int] == p.take(prefix.len() + 1 as int)[prefix.len() as int]);
    assert(p.skip(prefix.len() as int).drop_first() == p.skip(prefix.len() + 1 as int));
}

proof fn lemma_json_paths_lead(n: JsonNode, prefix: Seq<Seq<char>>)
    requires
        unique_keys(n),
    ensures
        json_node_list(n).len() == json_path_list(n, prefix).len(),
        forall|i: int|
            0 <= i < json_path_list(n, prefix).len() ==> leads_to(
                n,
                prefix,
                #[trigger] json_path_list(n, prefix)[i],
                json_node_list(n)[i],
            ),
    decreases n,
{
    match n {
        JsonNode::Object(fv) => {
            let f = fv@;
            lemma_fields_paths_lead(f, prefix);
            assert forall|i: int| 0 <= i < json_path_list(n, prefix).len() implies leads_to(
                n,
                prefix,
                #[trigger] json_path_list(n, prefix)[i],
                json_node_list(n)[i],
            ) by {
                let p = fields_path_list(f, prefix)[i];
                let t = fields_node_list(f)[i];
                assert(leads_to_field(f, prefix, p, t));
                let j = choose|j: int|
                    0 <= j < f.len() && #[trigger] f[j].0@ == p[prefix.len() as int]
                        && find_json(f[j].1, p.skip(prefix.len() + 1 as int)) == Ok::<
                        JsonNode,
                        Seq<char>,
                    >(t);
                let q = p.skip(prefix.len() as int);
                assert(q[0] == p[prefix.len() as int]);
                assert(q.drop_first() == p.skip(prefix.len() + 1 as int));
                lemma_unique_key_first(f, j);
                lemma_first_key_unique(f, q[0], j);
                assert(p == json_path_list(n, prefix)[i]);
                assert(q.len() > 0);
                assert(find_json(n, q) == find_json(f[j].1, q.drop_first()));
            }
        },
        JsonNode::Array(iv) => {
            let items = iv@;
            assert(iv.len() == iv@.len());
            lemma_items_paths_lead(items, prefix);
            assert forall|i: int| 0 <= i < json_path_list(n, prefix).len() implies leads_to(
                n,
                prefix,
                #[trigger] json_path_list(n, prefix)[i],
                json_node_list(n)[i],
            ) by {
                let p = items_path_list(items, prefix)[i];
                let t = items_node_list(items)[i];
                assert(leads_to_item(items, prefix, p, t));
                let j = choose|j: int|
                    0 <= j < items.len() && p[prefix.len() as int] == decimal(j as nat)
                        && find_json(#[trigger] items[j], p.skip(prefix.len() + 1 as int)) == Ok::<
                        JsonNode,
                        Seq<char>,
                    >(t);
                let q = p.skip(prefix.len() as int);
                assert(q[0] == p[prefix.len() as int]);
                assert(q.drop_first() == p.skip(prefix.len() + 1 as int));
                lemma_decimal_parses(j as nat);
            }
        },
        JsonNode::Scalar(_) => {},
    }
}

/// In a field list with distinct keys, a field is the first with its key.
proof fn lemma_unique_key_first(f: Seq<(String, JsonNode)>, j: int)
    requires
        fields_unique(f),
        0 <= j < f.len(),
    ensures
        is_first_key(f, f[j].0@, j),
    decreases f.len(),
{
    if j < f.len() - 1 {
        lemma_unique_key_first(f.drop_last(), j);
        assert(f.drop_last()[j] == f[j]);
        assert forall|k: int| 0 <= k < j implies (#[trigger] f[k]).0@ != f[j].0@ by {
            assert(f.drop_last()[k] == f[k]);
        }
    } else {
        assert forall|k: int| 0 <= k < j implies (#[trigger] f[k]).0@ != f[j].0@ by {
            assert(keys_of(f.drop_last())[k] == f[k].0@);
        }
    }
}

proof fn lemma_fields_paths_lead(f: Seq<(String, JsonNode)>, prefix: Seq<Seq<char>>)
    requires
        fields_unique(f),
    ensures
        fields_node_list(f).len() == fields_path_list(f, prefix).len(),
        forall|i: int|
            0 <= i < fields_path_list(f, prefix).len() ==> leads_to_field(
                f,
                prefix,
                #[trigger] fields_path_list(f, prefix)[i],
                fields_node_list(f)[i],
            ),
    decreases f,
{
    if f.len() > 0 {
        let g = f.drop_last();
        let last = f.last();
        let pk = prefix.push(last.0@);
        lemma_fields_paths_lead(g, prefix);
        lemma_json_paths_lead(last.1, pk);
        let a = fields_path_list(g, prefix);
        let b = json_path_list(last.1, pk);
        let na = fields_node_list(g);
        let nb = json_node_list(last.1);
        assert(fields_path_list(f, prefix) == a + seq![pk] + b);
        assert(fields_node_list(f) == na + seq![last.1] + nb);
        assert(f[f.len() - 1] == last);
        assert forall|i: int| 0 <= i < fields_path_list(f, prefix).len() implies leads_to_field(
            f,
            prefix,
            #[trigger] fields_path_list(f, prefix)[i],
            fields_node_list(f)[i],
        ) by {
            let p = fields_path_list(f, prefix)[i];
            let t = fields_node_list(f)[i];
            if i < a.len() {
                assert(p == a[i] && t == na[i]);
                assert(leads_to_field(g, prefix, p, t));
                let j = choose|j: int|
                    0 <= j < g.len() && #[trigger] g[j].0@ == p[prefix.len() as int] && find_json(
                        g[j].1,
                        p.skip(prefix.len() + 1 as int),
                    ) == Ok::<JsonNode, Seq<char>>(t);
                assert(g[j] == f[j]);
            } else if i == a.len() {
                assert(p == pk && t == last.1);
                assert(pk.take(prefix.len() as int) == prefix);
                assert(pk.skip(prefix.len() + 1 as int) == Seq::<Seq<char>>::empty());
                assert(f[f.len() - 1].0@ == p[prefix.len() as int]);
            } else {
                assert(p == b[i - a.len() - 1] && t == nb[i - a.len() - 1]);
                assert(leads_to(last.1, pk, p, t));
                lemma_extend_path(prefix, last.0@, p);
                assert(f[f.len() - 1].0@ == p[prefix.len() as int]);
            }
        }
    }
}

proof fn lemma_items_paths_lead(items: Seq<JsonNode>, prefix: Seq<Seq<char>>)
    requires
        items_unique(items),
    ensures
        items_node_list(items).len() == items_path_list(items, prefix).len(),
        forall|i: int|
            0 <= i < items_path_list(items, prefix).len() ==> leads_to_item(
                items,
                prefix,
                #[trigger] items_path_list(items, prefix)[i],
                items_node_list(items)[i],
            ),
    decreases items,
{
    if items.len() > 0 {
        let g = items.drop_last();
        let last = items.last();
        let k = (items.len() - 1) as nat;
        let pk = prefix.push(decimal(k));
        lemma_items_paths_lead(g, prefix);
        lemma_json_paths_lead(last, pk);
        let a = items_path_list(g, prefix);
        let b = json_path_list(last, pk);
        let na = items_node_list(g);
        let nb = json_node_list(last);
        assert(items_path_list(items, prefix) == a + seq![pk] + b);
        assert(items_node_list(items) == na + seq![last] + nb);
        assert(items[k as int] == last);
        assert forall|i: int| 0 <= i < items_path_list(items, prefix).len() implies leads_to_item(
            items,
            prefix,
            #[trigger] items_path_list(items, prefix)[i],
            items_node_list(items)[i],
        ) by {
            let p = items_path_list(items, prefix)[i];
            let t = items_node_list(items)[i];
            if i < a.len() {
                assert(p == a[i] && t == na[i]);
                assert(leads_to_item(g, prefix, p, t));
                let j = choose|j: int|
                    0 <= j < g.len() && p[prefix.len() as int] == decimal(j as nat) && find_json(
                        #[trigger] g[j],
                        p.skip(prefix.len() + 1 as int),
                    ) == Ok::<JsonNode, Seq<char>>(t);
                assert(g[j] == items[j]);
            } else if i == a.len() {
                assert(p == pk && t == last);
                assert(pk.take(prefix.len() as int) == prefix);
                assert(pk.skip(prefix.len() + 1 as int) == Seq::<Seq<char>>::empty());
                assert(p[prefix.len() as int] == decimal(k));
            } else {
                assert(p == b[i - a.len() - 1] && t == nb[i - a.len() - 1]);
                assert(leads_to(last, pk, p, t));
                lemma_extend_path(prefix, decimal(k), p);
            }
        }
    }
}

/// Every path that `json_paths` prints leads back, through
/// `find_json_path`, to the very node it was printed for (the nodes in the
/// same order), provided no object in the document repeats a key.
pub proof fn lemma_printed_json_paths_resolve(n: JsonNode, i: int)
    requires
        unique_keys(n),
        0 <= i < json_path_list(n, Seq::empty()).len(),
    ensures
        json_node_list(n).len() == json_path_list(n, Seq::empty()).len(),
        find_json(n, path_segments(display_all(json_path_list(n, Seq::empty()))[i])) == Ok::<
            JsonNode,
            Seq<char>,
        >(json_node_list(n)[i]),
{
    let p = json_path_list(n, Seq::empty())[i];
    lemma_json_paths_lead(n, Seq::empty());
    assert(leads_to(n, Seq::empty(), p, json_node_list(n)[i]));
    assert(p.skip(0) == p);
    lemma_path_round_trip(p);
    assert(display_all(json_path_list(n, Seq::empty()))[i] == display_path_spec(p));
}

/// The names of `c`, in order.
pub open spec fn child_names(c: Seq<XmlNode>) -> Seq<Seq<char>> {
    c.map_values(|x: XmlNode| x.name@)
}

/// No element below `n` has two children of the same name.
pub open spec fn distinct_sibling_names(n: XmlNode) -> bool
    decreases n,
{
    children_distinct(n.children@)
}

pub open spec fn children_distinct(c: Seq<XmlNode>) -> bool
    decreases c,
{
    if c.len() == 0 {
        true
    } else {
        &&& children_distinct(c.drop_last())
        &&& !child_names(c.drop_last()).contains(c.last().name@)
        &&& distinct_sibling_names(c.last())
    }
}

/// The element behind each path of `xml_path_list`, in the same order.
pub open spec fn xml_node_list(n: XmlNode) -> Seq<XmlNode>
    decreases n,
{
    children_node_list(n.children@)
}

pub open spec fn children_node_list(c: Seq<XmlNode>) -> Seq<XmlNode>
    decreases c,
{
    if c.len() == 0 {
        Seq::empty()
    } else {
        children_node_list(c.drop_last()) + seq![c.last()] + xml_node_list(c.last())
    }
}

/// `p` continues `prefix` with names that lead from `n` to `target`.
pub open spec fn leads_to_xml(n: XmlNode, prefix: Seq<Seq<char>>, p: Seq<Seq<char>>, target: XmlNode) -> bool {
    &&& p.len() > prefix.len()
    &&& p.take(prefix.len() as int) == prefix
    &&& find_xml(n, p.skip(prefix.len() as int)) == Ok::<XmlNode, Seq<char>>(target)
}

/// `p` continues `prefix` with the name of a child in `c` and then names
/// that lead from that child to `target`.
pub open spec fn leads_to_child(
    c: Seq<XmlNode>,
    prefix: Seq<Seq<char>>,
    p: Seq<Seq<char>>,
    target: XmlNode,
) -> bool {
    &&& p.len() > prefix.len()
    &&& p.take(prefix.len() as int) == prefix
    &&& exists|j: int|
        0 <= j < c.len() && #[trigger] c[j].name@ == p[prefix.len() as int] && find_xml(
            c[j],
            p.skip(prefix.len() + 1 as int),
        ) == Ok::<XmlNode, Seq<char>>(target)
}

proof fn lemma_children_distinct_member(c: Seq<XmlNode>, j: int)
    requires
        children_distinct(c),
        0 <= j < c.len(),
    ensures
        distinct_sibling_names(c[j]),
        is_first_child(c, c[j].name@, j),
    decreases c.len(),
{
    if j < c.len() - 1 {
        lemma_children_distinct_member(c.drop_last(), j);
        assert(c.drop_last()[j] == c[j]);
        assert forall|k: int| 0 <= k < j implies (#[trigger] c[k]).name@ != c[j].name@ by {
            assert(c.drop_last()[k] == c[k]);
        }
    } else {
        assert forall|k: int| 0 <= k < j implies (#[trigger] c[k]).name@ != c[j].name@ by {
            assert(child_names(c.drop_last())[k] == c[k].name@);
        }
    }
}

proof fn lemma_xml_paths_lead(n: XmlNode, prefix: Seq<Seq<char>>)
    requires
        distinct_sibling_names(n),
    ensures
        xml_node_list(n).len() == xml_path_list(n, prefix).len(),
        forall|i: int|
            0 <= i < xml_path_list(n, prefix).len() ==> leads_to_xml(
                n,
                prefix,
                #[trigger] xml_path_list(n, prefix)[i],
                xml_node_list(n)[i],
            ),
    decreases n, 1nat,
{
    let c = n.children@;
    lemma_children_paths_lead(c, prefix);
    assert forall|i: int| 0 <= i < xml_path_list(n, prefix).len() implies leads_to_xml(
        n,
        prefix,
        #[trigger] xml_path_list(n, prefix)[i],
        xml_node_list(n)[i],
    ) by {
        let p = children_path_list(c, prefix)[i];
        let t = children_node_list(c)[i];
        assert(p == xml_path_list(n, prefix)[i]);
        assert(leads_to_child(c, prefix, p, t));
        let j = choose|j: int|
            0 <= j < c.len() && #[trigger] c[j].name@ == p[prefix.len() as int] && find_xml(
                c[j],
                p.skip(prefix.len() + 1 as int),
            ) == Ok::<XmlNode, Seq<char>>(t);
        let q = p.skip(prefix.len() as int);
        assert(q[0] == p[prefix.len() as int]);
        assert(q.drop_first() == p.skip(prefix.len() + 1 as int));
        lemma_children_distinct_member(c, j);
        lemma_first_child_unique(c, q[0], j);
        assert(find_xml(n, q) == find_xml(c[j], q.drop_first()));
    }
}

proof fn lemma_children_paths_lead(c: Seq<XmlNode>, prefix: Seq<Seq<char>>)
    requires
        children_distinct(c),
    ensures
        children_node_list(c).len() == children_path_list(c, prefix).len(),
        forall|i: int|
            0 <= i < children_path_list(c, prefix).len() ==> leads_to_child(
                c,
                prefix,
                #[trigger] children_path_list(c, prefix)[i],
                children_node_list(c)[i],
            ),
    decreases c, 0nat,
{
    if c.len() > 0 {
        let g = c.drop_last();
        let last = c.last();
        let pk = prefix.push(last.name@);
        lemma_children_paths_lead(g, prefix);
        lemma_xml_paths_lead(last, pk);
        let a = children_path_list(g, prefix);
        let b = xml_path_list(last, pk);
        let na = children_node_list(g);
        let nb = xml_node_list(last);
        assert(children_path_list(c, prefix) == a + seq![pk] + b);
        assert(children_node_list(c) == na + seq![last] + nb);
        assert(c[c.len() - 1] == last);
        assert forall|i: int| 0 <= i < children_path_list(c, prefix).len() implies leads_to_child(
            c,
            prefix,
            #[trigger] children_path_list(c, prefix)[i],
            children_node_list(c)[i],
        ) by {
            let p = children_path_list(c, prefix)[i];
            let t = children_node_list(c)[i];
            if i < a.len() {
                assert(p == a[i] && t == na[i]);
                assert(leads_to_child(g, prefix, p, t));
                let j = choose|j: int|
                    0 <= j < g.len() && #[trigger] g[j].name@ == p[prefix.len() as int] && find_xml(
                        g[j],
                        p.skip(prefix.len() + 1 as int),
                    ) == Ok::<XmlNode, Seq<char>>(t);
                assert(g[j] == c[j]);
            } else if i == a.len() {
                assert(p == pk && t == last);
                assert(pk.take(prefix.len() as int) == prefix);
                assert(pk.skip(prefix.len() + 1 as int) == Seq::<Seq<char>>::empty());
                assert(c[c.len() - 1].name@ == p[prefix.len() as int]);
            } else {
                assert(p == b[i - a.len() - 1] && t == nb[i - a.len() - 1]);
                assert(leads_to_xml(last, pk, p, t));
                lemma_extend_path(prefix, last.name@, p);
                assert(c[c.len() - 1].name@ == p[prefix.len() as int]);
            }
        }
    }
}

/// Every path that `xml_paths` prints leads back, through `find_xml_path`,
/// to the very element it was printed for (the elements in the same
/// order), provided no element has two children of the same name. Names
/// holding `.` or `\` are printed escaped and split back whole.
pub proof fn lemma_printed_xml_paths_resolve(n: XmlNode, i: int)
    requires
        distinct_sibling_names(n),
        0 <= i < xml_path_list(n, Seq::empty()).len(),
    ensures
        xml_node_list(n).len() == xml_path_list(n, Seq::empty()).len(),
        find_xml(n, path_segments(display_all(xml_path_list(n, Seq::empty()))[i]))
            == Ok::<XmlNode, Seq<char>>(xml_node_list(n)[i]),
{
    let p = xml_path_list(n, Seq::empty())[i];
    lemma_xml_paths_lead(n, Seq::empty());
    assert(leads_to_xml(n, Seq::empty(), p, xml_node_list(n)[i]));
    assert(p.skip(0) == p);
    lemma_path_round_trip(p);
    assert(display_all(xml_path_list(n, Seq::empty()))[i] == display_path_spec(p));
}

// ---------------------------------------------------------------------------
// One printed path per node.
// ---------------------------------------------------------------------------

pub(crate) proof fn lemma_json_path_count(n: JsonNode, prefix: Seq<Seq<char>>)
    ensures
        json_path_list(n, prefix).len() + 1 == json_size(n),
    decreases n, 1nat,
{
    match n {
        JsonNode::Object(f) => lemma_fields_path_count(f@, prefix),
        JsonNode::Array(items) => lemma_items_path_count(items@, prefix),
        JsonNode::Scalar(_) => {},
    }
}

proof fn lemma_fields_path_count(f: Seq<(String, JsonNode)>, prefix: Seq<Seq<char>>)
    ensures
        fields_path_list(f, prefix).len() == fields_count(f, 0) + fields_count(f, 1)
            + fields_count(f, 2),
    decreases f, 0nat,
{
    if f.len() > 0 {
        lemma_fields_path_count(f.drop_last(), prefix);
        lemma_json_path_count(f.last().1, prefix.push(f.last().0@));
    }
}

proof fn lemma_items_path_count(items: Seq<JsonNode>, prefix: Seq<Seq<char>>)
    ensures
        items_path_list(items, prefix).len() == items_count(items, 0) + items_count(items, 1)
            + items_count(items, 2),
    decreases items, 0nat,
{
    if items.len() > 0 {
        lemma_items_path_count(items.drop_last(), prefix);
        lemma_json_path_count(items.last(), prefix.push(decimal((items.len() - 1) as nat)));
    }
}

/// `json_stats` counts every node once: its objects, arrays and scalars
/// (the root among them) add up to the number of nodes.
pub proof fn lemma_json_counts_cover_every_node(n: JsonNode)
    ensures
        json_count(n, 0) + json_count(n, 1) + json_count(n, 2) == json_size(n),
{
    lemma_json_path_count(n, Seq::empty());
    lemma_one_json_path_per_node(n);
}

/// `json_paths` prints one path per node below the root: as many as
/// `json_stats` counts objects, arrays and scalars, less the root itself.
pub proof fn lemma_one_json_path_per_node(n: JsonNode)
    ensures
        json_path_list(n, Seq::empty()).len() == json_count(n, 0) + json_count(n, 1) + json_count(
            n,
            2,
        ) - 1,
{
    lemma_json_path_count(n, Seq::empty());
}

pub(crate) proof fn lemma_xml_path_count(n: XmlNode, prefix: Seq<Seq<char>>)
    ensures
        xml_path_list(n, prefix).len() + 1 == xml_count(n, 0),
    decreases n, 1nat,
{
    lemma_children_path_count(n.children@, prefix);
}

proof fn lemma_children_path_count(c: Seq<XmlNode>, prefix: Seq<Seq<char>>)
    ensures
        children_path_list(c, prefix).len() == children_count(c, 0),
    decreases c, 0nat,
{
    if c.len() > 0 {
        lemma_children_path_count(c.drop_last(), prefix);
        lemma_xml_path_count(c.last(), prefix.push(c.last().name@));
    }
}

/// `xml_paths` prints one path per element below the root: as many as
/// `xml_stats` counts elements, less the root itself.
pub proof fn lemma_one_xml_path_per_element(n: XmlNode)
    ensures
        xml_path_list(n, Seq::empty()).len() == xml_count(n, 0) - 1,
{
    lemma_xml_path_count(n, Seq::empty());
}

// ---------------------------------------------------------------------------
// What `xml_stats` counts.
// ---------------------------------------------------------------------------

/// What one element contributes to a count: `k == 0` the element itself,
/// `k == 1` its attributes, `k == 2` its text (when it has any).
pub open spec fn element_items(e: XmlNode, k: int) -> nat {
    if k == 0 {
        1
    } else if k == 1 {
        e.attributes@.len()
    } else {
        if e.text is Some {
            1
        } else {
            0
        }
    }
}

/// The sum of `element_items(e, k)` over the elements `es`.
pub open spec fn items_total(es: Seq<XmlNode>, k: int) -> nat
    decreases es.len(),
{
    if es.len() == 0 {
        0
    } else {
        items_total(es.drop_last(), k) + element_items(es.last(), k)
    }
}

/// Every element of a tree, the root first (the root and `xml_node_list`).
pub open spec fn all_elements(n: XmlNode) -> Seq<XmlNode> {
    seq![n] + xml_node_list(n)
}

proof fn lemma_items_total_concat(a: Seq<XmlNode>, b: Seq<XmlNode>, k: int)
    ensures
        items_total(a + b, k) == items_total(a, k) + items_total(b, k),
    decreases b.len(),
{
    if b.len() == 0 {
        assert(a + b == a);
    } else {
        lemma_items_total_concat(a, b.drop_last(), k);
        assert((a + b).drop_last() == a + b.drop_last());
        assert((a + b).last() == b.last());
    }
}

proof fn lemma_xml_count_total(n: XmlNode, k: int)
    ensures
        xml_count(n, k) == element_items(n, k) + items_total(xml_node_list(n), k),
    decreases n, 1nat,
{
    lemma_children_count_total(n.children@, k);
}

proof fn lemma_children_count_total(c: Seq<XmlNode>, k: int)
    ensures
        children_count(c, k) == items_total(children_node_list(c), k),
    decreases c, 0nat,
{
    if c.len() > 0 {
        let g = c.drop_last();
        let last = c.last();
        lemma_children_count_total(g, k);
        lemma_xml_count_total(last, k);
        let a = children_node_list(g);
        let b = xml_node_list(last);
        assert(children_node_list(c) == a + seq![last] + b);
        lemma_items_total_concat(a + seq![last], b, k);
        lemma_items_total_concat(a, seq![last], k);
        lemma_items_total_single(last, k);
    }
}

/// `xml_stats` counts every element of the tree once: its elements are
/// as many as the tree's elements, its attributes the sum of every
/// element's attribute count, and its text nodes the elements that carry
/// text.
pub proof fn lemma_xml_stats_count_every_element(n: XmlNode)
    ensures
        xml_stats_spec(n).1 == all_elements(n).len(),
        xml_stats_spec(n).2 == items_total(all_elements(n), 1),
        xml_stats_spec(n).3 == items_total(all_elements(n), 2),
        items_total(all_elements(n), 0) == all_elements(n).len(),
{
    lemma_xml_count_total(n, 0);
    lemma_xml_count_total(n, 1);
    lemma_xml_count_total(n, 2);
    lemma_items_total_concat(seq![n], xml_node_list(n), 0);
    lemma_items_total_concat(seq![n], xml_node_list(n), 1);
    lemma_items_total_concat(seq![n], xml_node_list(n), 2);
    lemma_items_total_single(n, 0);
    lemma_items_total_single(n, 1);
    lemma_items_total_single(n, 2);
    lemma_items_total_ones(all_elements(n));
    lemma_items_total_ones(xml_node_list(n));
}

proof fn lemma_items_total_single(e: XmlNode, k: int)
    ensures
        items_total(seq![e], k) == element_items(e, k),
{
    assert(seq![e].drop_last() =~= Seq::<XmlNode>::empty());
    assert(seq![e].last() == e);
    assert(items_total(Seq::<XmlNode>::empty(), k) == 0);
}

proof fn lemma_items_total_ones(es: Seq<XmlNode>)
    ensures
        items_total(es, 0) == es.len(),
    decreases es.len(),
{
    if es.len() > 0 {
        lemma_items_total_ones(es.drop_last());
    }
}

// ---------------------------------------------------------------------------
// What `json_stats` counts.
// ---------------------------------------------------------------------------

/// Whether `n` is an object (`k == 0`), an array (`k == 1`) or a scalar
/// (`k == 2`), as 1 or 0.
pub open spec fn node_is(n: JsonNode, k: int) -> nat {
    if (k == 0 && n is Object) || (k == 1 && n is Array) || (k == 2 && n is Scalar) {
        1
    } else {
        0
    }
}

/// How many of `ns` are of kind `k` (see `node_is`).
pub open spec fn kind_total(ns: Seq<JsonNode>, k: int) -> nat
    decreases ns.len(),
{
    if ns.len() == 0 {
        0
    } else {
        kind_total(ns.drop_last(), k) + node_is(ns.last(), k)
    }
}

/// Every node of a tree, the root first.
pub open spec fn all_nodes(n: JsonNode) -> Seq<JsonNode> {
    seq![n] + json_node_list(n)
}

proof fn lemma_kind_total_concat(a: Seq<JsonNode>, b: Seq<JsonNode>, k: int)
    ensures
        kind_total(a + b, k) == kind_total(a, k) + kind_total(b, k),
    decreases b.len(),
{
    if b.len() == 0 {
        assert(a + b == a);
    } else {
        lemma_kind_total_concat(a, b.drop_last(), k);
        assert((a + b).drop_last() == a + b.drop_last());
        assert((a + b).last() == b.last());
    }
}

proof fn lemma_kind_total_single(x: JsonNode, k: int)
    ensures
        kind_total(seq![x], k) == node_is(x, k),
{
    assert(seq![x].drop_last() =~= Seq::<JsonNode>::empty());
    assert(seq![x].last() == x);
    assert(kind_total(Seq::<JsonNode>::empty(), k) == 0);
}

proof fn lemma_json_count_total(n: JsonNode, k: int)
    ensures
        json_count(n, k) == node_is(n, k) + kind_total(json_node_list(n), k),
    decreases n, 1nat,
{
    match n {
        JsonNode::Object(f) => lemma_fields_count_total(f@, k),
        JsonNode::Array(items) => lemma_items_count_total(items@, k),
        JsonNode::Scalar(_) => {},
    }
}

proof fn lemma_fields_count_total(f: Seq<(String, JsonNode)>, k: int)
    ensures
        fields_count(f, k) == kind_total(fields_node_list(f), k),
    decreases f, 0nat,
{
    if f.len() > 0 {
        let last = f.last().1;
        lemma_fields_count_total(f.drop_last(), k);
        lemma_json_count_total(last, k);
        let a = fields_node_list(f.drop_last());
        let b = json_node_list(last);
        lemma_kind_total_concat(a + seq![last], b, k);
        lemma_kind_total_concat(a, seq![last], k);
        lemma_kind_total_single(last, k);
    }
}

proof fn lemma_items_count_total(items: Seq<JsonNode>, k: int)
    ensures
        items_count(items, k) == kind_total(items_node_list(items), k),
    decreases items, 0nat,
{
    if items.len() > 0 {
        let last = items.last();
        lemma_items_count_total(items.drop_last(), k);
        lemma_json_count_total(last, k);
        let a = items_node_list(items.drop_last());
        let b = json_node_list(last);
        lemma_kind_total_concat(a + seq![last], b, k);
        lemma_kind_total_concat(a, seq![last], k);
        lemma_kind_total_single(last, k);
    }
}

/// `json_stats` counts every node of the tree once, by kind: its objects,
/// arrays and scalars are the tree's objects, arrays and scalars (the root
/// among them).
pub proof fn lemma_json_stats_count_every_node(n: JsonNode)
    ensures
        json_stats_spec(n).1 == kind_total(all_nodes(n), 0),
        json_stats_spec(n).2 == kind_total(all_nodes(n), 1),
        json_stats_spec(n).3 == kind_total(all_nodes(n), 2),
{
    lemma_json_count_total(n, 0);
    lemma_json_count_total(n, 1);
    lemma_json_count_total(n, 2);
    lemma_kind_total_concat(seq![n], json_node_list(n), 0);
    lemma_kind_total_concat(seq![n], json_node_list(n), 1);
    lemma_kind_total_concat(seq![n], json_node_list(n), 2);
    lemma_kind_total_single(n, 0);
    lemma_kind_total_single(n, 1);
    lemma_kind_total_single(n, 2);
}

// ---------------------------------------------------------------------------
// The depth `--stats` reports is the depth of the deepest node.
// ---------------------------------------------------------------------------

/// Every path of `l` is at most `d` segments long, and when `reach` holds
/// one of them is exactly `d` long.
pub open spec fn deepest(l: Seq<Seq<Seq<char>>>, d: nat, reach: bool) -> bool {
    &&& forall|j: int| 0 <= j < l.len() ==> (#[trigger] l[j]).len() <= d
    &&& reach ==> exists|j: int| 0 <= j < l.len() && (#[trigger] l[j]).len() == d
}

proof fn lemma_deepest_join(
    a: Seq<Seq<Seq<char>>>,
    x: Seq<Seq<char>>,
    b: Seq<Seq<Seq<char>>>,
    da: nat,
    ra: bool,
    db: nat,
    rb: bool,
    d: nat,
)
    requires
        deepest(a, da, ra),
        deepest(b, db, rb),
        da <= d,
        db <= d,
        x.len() <= d,
        (ra && da == d) || (rb && db == d) || x.len() == d,
    ensures
        deepest(a + seq![x] + b, d, true),
{
    let l = a + seq![x] + b;
    assert forall|j: int| 0 <= j < l.len() implies (#[trigger] l[j]).len() <= d by {
        if j < a.len() {
            assert(l[j] == a[j]);
        } else if j == a.len() {
            assert(l[j] == x);
        } else {
            assert(l[j] == b[j - a.len() - 1]);
        }
    }
    if ra && da == d {
        let j = choose|j: int| 0 <= j < a.len() && (#[trigger] a[j]).len() == da;
        assert(l[j] == a[j]);
    } else if rb && db == d {
        let j = choose|j: int| 0 <= j < b.len() && (#[trigger] b[j]).len() == db;
        assert(l[a.len() + 1 + j] == b[j]);
    } else {
        assert(l[a.len() as int] == x);
    }
}

proof fn lemma_json_depths(n: JsonNode, prefix: Seq<Seq<char>>)
    ensures
        deepest(json_path_list(n, prefix), prefix.len() + json_height(n), json_height(n) > 0),
    decreases n, 1nat,
{
    match n {
        JsonNode::Object(f) => {
            lemma_fields_depths(f@, prefix);
        },
        JsonNode::Array(items) => {
            lemma_items_depths(items@, prefix);
        },
        JsonNode::Scalar(_) => {},
    }
}

proof fn lemma_fields_depths(f: Seq<(String, JsonNode)>, prefix: Seq<Seq<char>>)
    ensures
        deepest(fields_path_list(f, prefix), prefix.len() + 1 + fields_height(f), f.len() > 0),
    decreases f, 0nat,
{
    if f.len() > 0 {
        let g = f.drop_last();
        let last = f.last();
        let pk = prefix.push(last.0@);
        lemma_fields_depths(g, prefix);
        lemma_json_depths(last.1, pk);
        lemma_deepest_join(
            fields_path_list(g, prefix),
            pk,
            json_path_list(last.1, pk),
            prefix.len() + 1 + fields_height(g),
            g.len() > 0,
            pk.len() + json_height(last.1),
            json_height(last.1) > 0,
            prefix.len() + 1 + fields_height(f),
        );
    }
}

proof fn lemma_items_depths(items: Seq<JsonNode>, prefix: Seq<Seq<char>>)
    ensures
        deepest(items_path_list(items, prefix), prefix.len() + 1 + items_height(items), items.len() > 0),
    decreases items, 0nat,
{
    if items.len() > 0 {
        let g = items.drop_last();
        let last = items.last();
        let pk = prefix.push(decimal((items.len() - 1) as nat));
        lemma_items_depths(g, prefix);
        lemma_json_depths(last, pk);
        lemma_deepest_join(
            items_path_list(g, prefix),
            pk,
            json_path_list(last, pk),
            prefix.len() + 1 + items_height(g),
            g.len() > 0,
            pk.len() + json_height(last),
            json_height(last) > 0,
            prefix.len() + 1 + items_height(items),
        );
    }
}

/// The depth `json_stats` reports is the depth of the deepest node: no
/// node's path (what `--paths` prints for it) has more segments, and when
/// the depth is not 0 some node's path has exactly that many.
pub proof fn lemma_json_depth_is_the_deepest_node(n: JsonNode)
    ensures
        deepest(json_path_list(n, Seq::empty()), json_stats_spec(n).0, json_stats_spec(n).0 > 0),
{
    lemma_json_depths(n, Seq::empty());
}

proof fn lemma_xml_depths(n: XmlNode, prefix: Seq<Seq<char>>)
    ensures
        deepest(xml_path_list(n, prefix), prefix.len() + xml_height(n), xml_height(n) > 0),
    decreases n, 1nat,
{
    lemma_children_depths(n.children@, prefix);
}

proof fn lemma_children_depths(c: Seq<XmlNode>, prefix: Seq<Seq<char>>)
    ensures
        deepest(children_path_list(c, prefix), prefix.len() + 1 + children_height(c), c.len() > 0),
    decreases c, 0nat,
{
    if c.len() > 0 {
        let g = c.drop_last();
        let last = c.last();
        let pk = prefix.push(last.name@);
        lemma_children_depths(g, prefix);
        lemma_xml_depths(last, pk);
        lemma_deepest_join(
            children_path_list(g, prefix),
            pk,
            xml_path_list(last, pk),
            prefix.len() + 1 + children_height(g),
            g.len() > 0,
            pk.len() + xml_height(last),
            xml_height(last) > 0,
            prefix.len() + 1 + children_height(c),
        );
    }
}

/// The depth `xml_stats` reports is the depth of the deepest element: no
/// element's path has more segments, and when the depth is not 0 some
/// element's path has exactly that many.
pub proof fn lemma_xml_depth_is_the_deepest_element(n: XmlNode)
    ensures
        deepest(xml_path_list(n, Seq::empty()), xml_stats_spec(n).0, xml_stats_spec(n).0 > 0),
{
    lemma_xml_depths(n, Seq::empty());
}

} // verus!
