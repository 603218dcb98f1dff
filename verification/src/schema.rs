//! A document's inferred shape (`--schema`): for JSON, each field's type
//! across every object in the same place; for XML, each element name's
//! attributes and children across all its instances.
use crate::cli::{contains_text, occurs_at};
use crate::text::{indent, push_indent, push_str};
use crate::json_tree::{escape_display, escape_display_str, find_key, key_index, JsonNode, JsonScalar};
use crate::stats::{
    children_height, fields_height, items_height, json_height, lemma_fields_height_member,
    lemma_items_height_member, lemma_xml_height_member, max_nat, xml_height,
};
use crate::xml_tree::XmlNode;
use vstd::prelude::*;

verus! {

broadcast use vstd::string::group_string_axioms;

/// A set of type names: `array`, `boolean`, `null`, `number`, `object`,
/// `string`.
#[derive(Debug, Clone, Copy, PartialEq, Eq)]
pub struct TypeSet {
    pub array: bool,
    pub boolean: bool,
    pub null: bool,
    pub number: bool,
    pub object: bool,
    pub string: bool,
}

pub open spec fn no_types() -> TypeSet {
    TypeSet { array: false, boolean: false, null: false, number: false, object: false, string: false }
}

/// `t` with the type of `n` added.
pub open spec fn add_kind(t: TypeSet, n: JsonNode) -> TypeSet {
    match n {
        JsonNode::Object(_) => TypeSet { object: true, ..t },
        JsonNode::Array(_) => TypeSet { array: true, ..t },
        JsonNode::Scalar(JsonScalar::Str(_)) => TypeSet { string: true, ..t },
        JsonNode::Scalar(JsonScalar::Number(_)) => TypeSet { number: true, ..t },
        JsonNode::Scalar(JsonScalar::Bool(_)) => TypeSet { boolean: true, ..t },
        JsonNode::Scalar(JsonScalar::Null) => TypeSet { null: true, ..t },
    }
}

/// The types of `ns`.
pub open spec fn kinds(ns: Seq<JsonNode>) -> TypeSet
    decreases ns.len(),
{
    if ns.len() == 0 {
        no_types()
    } else {
        add_kind(kinds(ns.drop_last()), ns.last())
    }
}

/// An inferred shape.
pub enum ShapeV {
    /// Objects, with each field's shape in order of first appearance.
    Object(Seq<(Seq<char>, ShapeV)>),
    /// Arrays, with the shape of all their items together.
    Array(Box<ShapeV>),
    /// Scalars, with their types.
    Scalar(TypeSet),
    /// Nodes of different kinds: just the types.
    Mixed(TypeSet),
    /// One shape, but some of the nodes were `null`.
    Nullable(Box<ShapeV>),
}

pub open spec fn is_null(n: JsonNode) -> bool {
    n == JsonNode::Scalar(JsonScalar::Null)
}

/// `ns` without its `null`s, in order.
pub open spec fn non_null(ns: Seq<JsonNode>) -> Seq<JsonNode>
    decreases ns.len(),
{
    if ns.len() == 0 {
        Seq::empty()
    } else {
        let p = non_null(ns.drop_last());
        if is_null(ns.last()) {
            p
        } else {
            p.push(ns.last())
        }
    }
}

/// The deepest nesting among `ns`.
pub open spec fn max_height(ns: Seq<JsonNode>) -> nat
    decreases ns.len(),
{
    if ns.len() == 0 {
        0
    } else {
        max_nat(max_height(ns.drop_last()), json_height(ns.last()))
    }
}

/// Every key of every object among `ns`, in order (repeats kept).
pub open spec fn all_keys(ns: Seq<JsonNode>) -> Seq<Seq<char>>
    decreases ns.len(),
{
    if ns.len() == 0 {
        Seq::empty()
    } else {
        all_keys(ns.drop_last()) + match ns.last() {
            JsonNode::Object(f) => f@.map_values(|e: (String, JsonNode)| e.0@),
            _ => Seq::empty(),
        }
    }
}

/// `s` with later repeats dropped.
pub open spec fn dedup(s: Seq<Seq<char>>) -> Seq<Seq<char>>
    decreases s.len(),
{
    if s.len() == 0 {
        Seq::empty()
    } else {
        let d = dedup(s.drop_last());
        if d.contains(s.last()) {
            d
        } else {
            d.push(s.last())
        }
    }
}

/// The value of field `name` in each object among `ns` that has it (its
/// first such field), in order.
pub open spec fn field_values(ns: Seq<JsonNode>, name: Seq<char>) -> Seq<JsonNode>
    decreases ns.len(),
{
    if ns.len() == 0 {
        Seq::empty()
    } else {
        let prev = field_values(ns.drop_last(), name);
        match ns.last() {
            JsonNode::Object(f) => match key_index(f@, name) {
                Some(i) => prev.push(f@[i].1),
                None => prev,
            },
            _ => prev,
        }
    }
}

/// The items of every array among `ns`, in order.
pub open spec fn elements(ns: Seq<JsonNode>) -> Seq<JsonNode>
    decreases ns.len(),
{
    if ns.len() == 0 {
        Seq::empty()
    } else {
        elements(ns.drop_last()) + match ns.last() {
            JsonNode::Array(items) => items@,
            _ => Seq::empty(),
        }
    }
}

pub open spec fn all_objects(ns: Seq<JsonNode>) -> bool {
    forall|i: int| 0 <= i < ns.len() ==> #[trigger] ns[i] is Object
}

pub open spec fn all_arrays(ns: Seq<JsonNode>) -> bool {
    forall|i: int| 0 <= i < ns.len() ==> #[trigger] ns[i] is Array
}

pub open spec fn all_scalars(ns: Seq<JsonNode>) -> bool {
    forall|i: int| 0 <= i < ns.len() ==> #[trigger] ns[i] is Scalar
}

proof fn lemma_max_height_member(ns: Seq<JsonNode>, i: int)
    requires
        0 <= i < ns.len(),
    ensures
        json_height(ns[i]) <= max_height(ns),
    decreases ns.len(),
{
    if i < ns.len() - 1 {
        lemma_max_height_member(ns.drop_last(), i);
    }
}

proof fn lemma_max_height_bound(ns: Seq<JsonNode>, h: nat)
    requires
        forall|i: int| 0 <= i < ns.len() ==> json_height(#[trigger] ns[i]) <= h,
    ensures
        max_height(ns) <= h,
    decreases ns.len(),
{
    if ns.len() > 0 {
        assert forall|i: int| 0 <= i < ns.drop_last().len() implies json_height(
            #[trigger] ns.drop_last()[i],
        ) <= h by {
            assert(ns.drop_last()[i] == ns[i]);
        }
        lemma_max_height_bound(ns.drop_last(), h);
        assert(json_height(ns[ns.len() - 1]) <= h);
    }
}

proof fn lemma_non_null_members(ns: Seq<JsonNode>)
    ensures
        forall|i: int|
            0 <= i < non_null(ns).len() ==> exists|j: int|
                0 <= j < ns.len() && #[trigger] non_null(ns)[i] == ns[j],
    decreases ns.len(),
{
    if ns.len() > 0 {
        lemma_non_null_members(ns.drop_last());
        let sub = non_null(ns.drop_last());
        assert forall|i: int| 0 <= i < non_null(ns).len() implies exists|j: int|
            0 <= j < ns.len() && #[trigger] non_null(ns)[i] == ns[j] by {
            if i < sub.len() {
                assert(non_null(ns)[i] == sub[i]);
                let j = choose|j: int| 0 <= j < ns.drop_last().len() && sub[i] == ns.drop_last()[j];
                assert(ns[j] == ns.drop_last()[j]);
            } else {
                assert(non_null(ns)[i] == ns.last());
                assert(ns[ns.len() - 1] == ns.last());
            }
        }
    }
}

pub proof fn lemma_non_null_height(ns: Seq<JsonNode>)
    ensures
        max_height(non_null(ns)) <= max_height(ns),
{
    lemma_non_null_members(ns);
    assert forall|i: int| 0 <= i < non_null(ns).len() implies json_height(#[trigger] non_null(ns)[i])
        <= max_height(ns) by {
        let j = choose|j: int| 0 <= j < ns.len() && non_null(ns)[i] == ns[j];
        lemma_max_height_member(ns, j);
    }
    lemma_max_height_bound(non_null(ns), max_height(ns));
}

pub proof fn lemma_elements_height(ns: Seq<JsonNode>)
    requires
        elements(ns).len() > 0,
    ensures
        max_height(elements(ns)) < max_height(ns),
    decreases ns.len(),
{
    let e = elements(ns);
    assert(ns.len() > 0);
    let prev = elements(ns.drop_last());
    let tail = match ns.last() {
        JsonNode::Array(items) => items@,
        _ => Seq::<JsonNode>::empty(),
    };
    assert(e == prev + tail);
    if prev.len() > 0 {
        lemma_elements_height(ns.drop_last());
    }
    assert forall|i: int| 0 <= i < e.len() implies json_height(#[trigger] e[i]) < max_height(ns) by {
        if i < prev.len() {
            assert(e[i] == prev[i]);
            lemma_max_height_member(prev, i);
        } else {
            assert(e[i] == tail[i - prev.len()]);
            if let JsonNode::Array(items) = ns.last() {
                lemma_items_height_member(items@, i - prev.len());
            }
        }
    }
    let h = max_height(ns);
    assert(h > 0) by {
        assert(e[0] == e[0]);
    }
    lemma_max_height_bound(e, (h - 1) as nat);
}

pub proof fn lemma_field_values_height(ns: Seq<JsonNode>, name: Seq<char>)
    requires
        field_values(ns, name).len() > 0,
    ensures
        max_height(field_values(ns, name)) < max_height(ns),
    decreases ns.len(),
{
    let v = field_values(ns, name);
    assert(ns.len() > 0);
    let prev = field_values(ns.drop_last(), name);
    if prev.len() > 0 {
        lemma_field_values_height(ns.drop_last(), name);
    }
    assert forall|i: int| 0 <= i < v.len() implies json_height(#[trigger] v[i]) < max_height(ns) by {
        if i < prev.len() {
            assert(v[i] == prev[i]);
            lemma_max_height_member(prev, i);
        } else {
            if let JsonNode::Object(f) = ns.last() {
                if let Some(k) = key_index(f@, name) {
                    assert(v[i] == f@[k].1);
                    lemma_fields_height_member(f@, k);
                }
            }
        }
    }
    let h = max_height(ns);
    assert(h > 0) by {
        assert(v[0] == v[0]);
    }
    lemma_max_height_bound(v, (h - 1) as nat);
}

/// The shape shared by `ns` (the same place in every enclosing node):
/// `null`s only mark the rest as nullable; no nodes, or only `null`s, give
/// a scalar shape.
pub open spec fn infer(ns: Seq<JsonNode>) -> ShapeV
    decreases max_height(ns), 3nat, 0nat,
{
    let nn = non_null(ns);
    let has_null = nn.len() != ns.len();
    if nn.len() == 0 {
        ShapeV::Scalar(TypeSet { null: has_null, ..no_types() })
    } else {
        proof {
            lemma_non_null_height(ns);
        }
        let s = infer_non_null(nn, has_null);
        if has_null {
            match s {
                ShapeV::Object(_) => ShapeV::Nullable(Box::new(s)),
                ShapeV::Array(_) => ShapeV::Nullable(Box::new(s)),
                ShapeV::Mixed(t) => ShapeV::Mixed(TypeSet { null: true, ..t }),
                _ => s,
            }
        } else {
            s
        }
    }
}

/// The shape of non-null nodes: objects give each field's shape, arrays the
/// shape of all their items, scalars their types (plus `null` when some
/// nodes were null); a mix of kinds gives just the kinds.
pub open spec fn infer_non_null(nn: Seq<JsonNode>, has_null: bool) -> ShapeV
    decreases max_height(nn), 2nat, 0nat,
{
    if all_objects(nn) {
        ShapeV::Object(object_fields(nn, dedup(all_keys(nn)), 0))
    } else if all_arrays(nn) {
        let el = elements(nn);
        if el.len() == 0 {
            ShapeV::Array(Box::new(ShapeV::Scalar(no_types())))
        } else {
            proof {
                lemma_elements_height(nn);
            }
            ShapeV::Array(Box::new(infer(el)))
        }
    } else if all_scalars(nn) {
        ShapeV::Scalar(if has_null {
            TypeSet { null: true, ..kinds(nn) }
        } else {
            kinds(nn)
        })
    } else {
        ShapeV::Mixed(kinds(nn))
    }
}

/// Each of `names` from the `k`-th on with the shape of its values among
/// the objects `nn`.
pub open spec fn object_fields(nn: Seq<JsonNode>, names: Seq<Seq<char>>, k: nat) -> Seq<
    (Seq<char>, ShapeV),
>
    decreases max_height(nn), 1nat, names.len() - k,
{
    if k >= names.len() {
        Seq::empty()
    } else {
        let vals = field_values(nn, names[k as int]);
        let shape = if vals.len() == 0 {
            ShapeV::Scalar(no_types())
        } else {
            proof {
                lemma_field_values_height(nn, names[k as int]);
            }
            infer(vals)
        };
        seq![(names[k as int], shape)] + object_fields(nn, names, k + 1)
    }
}


/// An inferred shape as the library builds it; `shape_view` gives its model.
pub enum Shape {
    Object(Vec<(String, Shape)>),
    Array(Box<Shape>),
    Scalar(TypeSet),
    Mixed(TypeSet),
    Nullable(Box<Shape>),
}

pub open spec fn shape_view(s: Shape) -> ShapeV
    decreases s,
{
    match s {
        Shape::Object(f) => ShapeV::Object(fields_view(f@)),
        Shape::Array(inner) => ShapeV::Array(Box::new(shape_view(*inner))),
        Shape::Scalar(t) => ShapeV::Scalar(t),
        Shape::Mixed(t) => ShapeV::Mixed(t),
        Shape::Nullable(inner) => ShapeV::Nullable(Box::new(shape_view(*inner))),
    }
}

pub open spec fn fields_view(f: Seq<(String, Shape)>) -> Seq<(Seq<char>, ShapeV)>
    decreases f,
{
    if f.len() == 0 {
        Seq::empty()
    } else {
        fields_view(f.drop_last()).push((f.last().0@, shape_view(f.last().1)))
    }
}

proof fn lemma_fields_view_index(f: Seq<(String, Shape)>, i: int)
    requires
        0 <= i < f.len(),
    ensures
        fields_view(f).len() == f.len(),
        fields_view(f)[i] == (f[i].0@, shape_view(f[i].1)),
    decreases f.len(),
{
    lemma_fields_view_len(f);
    if i < f.len() - 1 {
        lemma_fields_view_index(f.drop_last(), i);
        assert(f.drop_last()[i] == f[i]);
    }
}

proof fn lemma_fields_view_len(f: Seq<(String, Shape)>)
    ensures
        fields_view(f).len() == f.len(),
    decreases f.len(),
{
    if f.len() > 0 {
        lemma_fields_view_len(f.drop_last());
    }
}

proof fn lemma_fields_view_len_all(s: Shape)
    ensures
        s matches Shape::Object(f) ==> fields_view(f@).len() == f@.len(),
{
    if let Shape::Object(f) = s {
        lemma_fields_view_len(f@);
    }
}

/// The nodes behind `v`.
pub open spec fn refs_view(v: Seq<&JsonNode>) -> Seq<JsonNode> {
    v.map_values(|r: &JsonNode| *r)
}

pub open spec fn names_view(v: Seq<String>) -> Seq<Seq<char>> {
    v.map_values(|s: String| s@)
}

fn is_null_node(n: &JsonNode) -> (r: bool)
    ensures
        r == is_null(*n),
{
    match n {
        JsonNode::Scalar(JsonScalar::Null) => true,
        _ => false,
    }
}

fn add_kind_of(t: TypeSet, n: &JsonNode) -> (r: TypeSet)
    ensures
        r == add_kind(t, *n),
{
    match n {
        JsonNode::Object(_) => TypeSet { object: true, ..t },
        JsonNode::Array(_) => TypeSet { array: true, ..t },
        JsonNode::Scalar(JsonScalar::Str(_)) => TypeSet { string: true, ..t },
        JsonNode::Scalar(JsonScalar::Number(_)) => TypeSet { number: true, ..t },
        JsonNode::Scalar(JsonScalar::Bool(_)) => TypeSet { boolean: true, ..t },
        JsonNode::Scalar(JsonScalar::Null) => TypeSet { null: true, ..t },
    }
}

fn kinds_of(nodes: &Vec<&JsonNode>) -> (r: TypeSet)
    ensures
        r == kinds(refs_view(nodes@)),
{
    let ghost ns = refs_view(nodes@);
    let mut t = TypeSet {
        array: false,
        boolean: false,
        null: false,
        number: false,
        object: false,
        string: false,
    };
    let mut i: usize = 0;
    while i < nodes.len()
        invariant
            i <= nodes@.len(),
            ns == refs_view(nodes@),
            t == kinds(ns.take(i as int)),
        decreases nodes@.len() - i,
    {
        proof {
            assert(ns.take(i + 1).drop_last() == ns.take(i as int));
            assert(ns.take(i + 1).last() == *nodes@[i as int]);
        }
        t = add_kind_of(t, nodes[i]);
        i += 1;
    }
    assert(ns.take(nodes@.len() as int) == ns);
    t
}

fn without_nulls<'a>(nodes: &Vec<&'a JsonNode>) -> (r: Vec<&'a JsonNode>)
    ensures
        refs_view(r@) == non_null(refs_view(nodes@)),
{
    let ghost ns = refs_view(nodes@);
    let mut out: Vec<&'a JsonNode> = Vec::new();
    let mut i: usize = 0;
    while i < nodes.len()
        invariant
            i <= nodes@.len(),
            ns == refs_view(nodes@),
            refs_view(out@) == non_null(ns.take(i as int)),
        decreases nodes@.len() - i,
    {
        proof {
            assert(ns.take(i + 1).drop_last() == ns.take(i as int));
            assert(ns.take(i + 1).last() == *nodes@[i as int]);
        }
        let n = nodes[i];
        if !is_null_node(n) {
            let ghost before = out@;
            out.push(n);
            assert(refs_view(out@) == refs_view(before).push(*n));
        }
        i += 1;
    }
    assert(ns.take(nodes@.len() as int) == ns);
    out
}


/// Whether every node is an object (0), an array (1) or a scalar (2).
fn all_of_kind(nodes: &Vec<&JsonNode>, kind: u8) -> (r: bool)
    requires
        kind < 3,
    ensures
        kind == 0 ==> (r == all_objects(refs_view(nodes@))),
        kind == 1 ==> (r == all_arrays(refs_view(nodes@))),
        kind == 2 ==> (r == all_scalars(refs_view(nodes@))),
{
    let ghost ns = refs_view(nodes@);
    let mut i: usize = 0;
    while i < nodes.len()
        invariant
            i <= nodes@.len(),
            kind < 3,
            ns == refs_view(nodes@),
            kind == 0 ==> forall|j: int| 0 <= j < i ==> #[trigger] ns[j] is Object,
            kind == 1 ==> forall|j: int| 0 <= j < i ==> #[trigger] ns[j] is Array,
            kind == 2 ==> forall|j: int| 0 <= j < i ==> #[trigger] ns[j] is Scalar,
        decreases nodes@.len() - i,
    {
        let ok = match nodes[i] {
            JsonNode::Object(_) => kind == 0,
            JsonNode::Array(_) => kind == 1,
            JsonNode::Scalar(_) => kind == 2,
        };
        assert(ns[i as int] == *nodes@[i as int]);
        if !ok {
            return false;
        }
        i += 1;
    }
    true
}

/// Whether `names` holds `name`.
fn has_name(names: &Vec<String>, name: &String) -> (r: bool)
    ensures
        r == names_view(names@).contains(name@),
{
    let mut i: usize = 0;
    while i < names.len()
        invariant
            i <= names@.len(),
            forall|j: int| 0 <= j < i ==> (#[trigger] names@[j])@ != name@,
        decreases names@.len() - i,
    {
        if names[i] == *name {
            assert(names_view(names@)[i as int] == name@);
            return true;
        }
        i += 1;
    }
    assert forall|j: int| 0 <= j < names_view(names@).len() implies #[trigger] names_view(
        names@,
    )[j] != name@ by {
        assert(names_view(names@)[j] == names@[j]@);
    }
    false
}

/// The keys of the objects among `nodes`, each once, in order of first
/// appearance.
fn object_field_order(nodes: &Vec<&JsonNode>) -> (r: Vec<String>)
    ensures
        names_view(r@) == dedup(all_keys(refs_view(nodes@))),
{
    let ghost ns = refs_view(nodes@);
    let mut order: Vec<String> = Vec::new();
    let mut i: usize = 0;
    while i < nodes.len()
        invariant
            i <= nodes@.len(),
            ns == refs_view(nodes@),
            names_view(order@) == dedup(all_keys(ns.take(i as int))),
        decreases nodes@.len() - i,
    {
        proof {
            assert(ns.take(i + 1).drop_last() == ns.take(i as int));
            assert(ns.take(i + 1).last() == *nodes@[i as int]);
        }
        match nodes[i] {
            JsonNode::Object(fields) => {
                let ghost keys = fields@.map_values(|e: (String, JsonNode)| e.0@);
                let ghost base = all_keys(ns.take(i as int));
                assert(all_keys(ns.take(i + 1)) == base + keys);
                let mut j: usize = 0;
                while j < fields.len()
                    invariant
                        j <= fields@.len(),
                        keys == fields@.map_values(|e: (String, JsonNode)| e.0@),
                        names_view(order@) == dedup(base + keys.take(j as int)),
                    decreases fields@.len() - j,
                {
                    let name = &fields[j].0;
                    proof {
                        assert(base + keys.take(j + 1) == (base + keys.take(j as int)).push(
                            name@,
                        ));
                        assert((base + keys.take(j + 1)).drop_last() == base + keys.take(
                            j as int,
                        ));
                    }
                    if !has_name(&order, name) {
                        let ghost before = order@;
                        order.push(name.clone());
                        assert(names_view(order@) == names_view(before).push(name@));
                    }
                    j += 1;
                }
                assert(keys.take(fields@.len() as int) == keys);
            },
            _ => {
                assert(all_keys(ns.take(i + 1)) == all_keys(ns.take(i as int)));
            },
        }
        i += 1;
    }
    assert(ns.take(nodes@.len() as int) == ns);
    order
}

/// The value of field `name` in each object among `nodes` that has it.
fn field_values_of<'a>(nodes: &Vec<&'a JsonNode>, name: &String) -> (r: Vec<&'a JsonNode>)
    ensures
        refs_view(r@) == field_values(refs_view(nodes@), name@),
{
    let ghost ns = refs_view(nodes@);
    let mut out: Vec<&'a JsonNode> = Vec::new();
    let mut i: usize = 0;
    while i < nodes.len()
        invariant
            i <= nodes@.len(),
            ns == refs_view(nodes@),
            refs_view(out@) == field_values(ns.take(i as int), name@),
        decreases nodes@.len() - i,
    {
        proof {
            assert(ns.take(i + 1).drop_last() == ns.take(i as int));
            assert(ns.take(i + 1).last() == *nodes@[i as int]);
        }
        let node: &'a JsonNode = nodes[i];
        match node {
            JsonNode::Object(fields) => {
                match find_key(fields, name) {
                    Some(k) => {
                        let ghost before = out@;
                        out.push(&fields[k].1);
                        assert(refs_view(out@) == refs_view(before).push(fields@[k as int].1));
                    },
                    None => {},
                }
            },
            _ => {},
        }
        i += 1;
    }
    assert(ns.take(nodes@.len() as int) == ns);
    out
}

/// The items of every array among `nodes`, in order.
fn elements_of<'a>(nodes: &Vec<&'a JsonNode>) -> (r: Vec<&'a JsonNode>)
    ensures
        refs_view(r@) == elements(refs_view(nodes@)),
{
    let ghost ns = refs_view(nodes@);
    let mut out: Vec<&'a JsonNode> = Vec::new();
    let mut i: usize = 0;
    while i < nodes.len()
        invariant
            i <= nodes@.len(),
            ns == refs_view(nodes@),
            refs_view(out@) == elements(ns.take(i as int)),
        decreases nodes@.len() - i,
    {
        proof {
            assert(ns.take(i + 1).drop_last() == ns.take(i as int));
            assert(ns.take(i + 1).last() == *nodes@[i as int]);
        }
        let node: &'a JsonNode = nodes[i];
        match node {
            JsonNode::Array(items) => {
                let ghost base = refs_view(out@);
                let mut j: usize = 0;
                while j < items.len()
                    invariant
                        j <= items@.len(),
                        refs_view(out@) == base + items@.take(j as int),
                    decreases items@.len() - j,
                {
                    let ghost before = out@;
                    out.push(&items[j]);
                    assert(refs_view(out@) == refs_view(before).push(items@[j as int]));
                    assert(items@.take(j + 1) == items@.take(j as int).push(items@[j as int]));
                    j += 1;
                }
                assert(items@.take(items@.len() as int) == items@);
            },
            _ => {
                assert(elements(ns.take(i + 1)) == elements(ns.take(i as int)));
            },
        }
        i += 1;
    }
    assert(ns.take(nodes@.len() as int) == ns);
    out
}


fn empty_types() -> (r: TypeSet)
    ensures
        r == no_types(),
{
    TypeSet { array: false, boolean: false, null: false, number: false, object: false, string: false }
}

/// The shape shared by `nodes`, as `infer` describes.
fn infer_shape(nodes: &Vec<&JsonNode>) -> (r: Shape)
    ensures
        shape_view(r) == infer(refs_view(nodes@)),
    decreases max_height(refs_view(nodes@)), 3nat, 0nat,
{
    let nn = without_nulls(nodes);
    let has_null = nn.len() != nodes.len();
    proof {
        assert(refs_view(nodes@).len() == nodes@.len());
    }
    if nn.len() == 0 {
        return Shape::Scalar(TypeSet { null: has_null, ..empty_types() });
    }
    proof {
        lemma_non_null_height(refs_view(nodes@));
    }
    let shape = infer_non_null_shape(&nn, has_null);
    if has_null {
        match shape {
            Shape::Object(_) => Shape::Nullable(Box::new(shape)),
            Shape::Array(_) => Shape::Nullable(Box::new(shape)),
            Shape::Mixed(t) => Shape::Mixed(TypeSet { null: true, ..t }),
            _ => shape,
        }
    } else {
        shape
    }
}

fn infer_non_null_shape(nn: &Vec<&JsonNode>, has_null: bool) -> (r: Shape)
    ensures
        shape_view(r) == infer_non_null(refs_view(nn@), has_null),
    decreases max_height(refs_view(nn@)), 2nat, 0nat,
{
    if all_of_kind(nn, 0) {
        return infer_object_shape(nn);
    }
    if all_of_kind(nn, 1) {
        let el = elements_of(nn);
        assert(refs_view(el@).len() == el@.len());
        if el.len() == 0 {
            let inner = Shape::Scalar(empty_types());
            assert(shape_view(inner) == ShapeV::Scalar(no_types()));
            return Shape::Array(Box::new(inner));
        }
        proof {
            lemma_elements_height(refs_view(nn@));
        }
        return Shape::Array(Box::new(infer_shape(&el)));
    }
    let t = kinds_of(nn);
    if all_of_kind(nn, 2) {
        if has_null {
            Shape::Scalar(TypeSet { null: true, ..t })
        } else {
            Shape::Scalar(t)
        }
    } else {
        Shape::Mixed(t)
    }
}

fn infer_object_shape(nn: &Vec<&JsonNode>) -> (r: Shape)
    ensures
        shape_view(r) == ShapeV::Object(
            object_fields(refs_view(nn@), dedup(all_keys(refs_view(nn@))), 0),
        ),
    decreases max_height(refs_view(nn@)), 1nat, 0nat,
{
    let ghost ns = refs_view(nn@);
    let names = object_field_order(nn);
    let ghost nv = names_view(names@);
    let mut fields: Vec<(String, Shape)> = Vec::new();
    let mut k: usize = 0;
    while k < names.len()
        invariant
            k <= names@.len(),
            ns == refs_view(nn@),
            nv == names_view(names@),
            fields_view(fields@) + object_fields(ns, nv, k as nat) == object_fields(ns, nv, 0),
        decreases names@.len() - k,
    {
        let name = &names[k];
        assert(nv[k as int] == name@);
        let values = field_values_of(nn, name);
        let shape = if values.len() == 0 {
            Shape::Scalar(empty_types())
        } else {
            proof {
                assert(refs_view(values@).len() == values@.len());
                lemma_field_values_height(ns, name@);
            }
            infer_shape(&values)
        };
        let ghost before = fields@;
        fields.push((name.clone(), shape));
        proof {
            assert(fields@.drop_last() == before);
            assert(fields_view(fields@) == fields_view(before).push((name@, shape_view(shape))));
            assert(object_fields(ns, nv, k as nat) == seq![(name@, shape_view(shape))]
                + object_fields(ns, nv, (k + 1) as nat));
            assert(fields_view(fields@) + object_fields(ns, nv, (k + 1) as nat) == fields_view(
                before,
            ) + object_fields(ns, nv, k as nat));
        }
        k += 1;
    }
    assert(object_fields(ns, nv, k as nat) == Seq::<(Seq<char>, ShapeV)>::empty());
    assert(fields_view(fields@) == object_fields(ns, nv, 0));
    Shape::Object(fields)
}


// ---------------------------------------------------------------------------
// Text of a shape.
// ---------------------------------------------------------------------------

/// `parts` with `sep` between each two.
pub open spec fn join(parts: Seq<Seq<char>>, sep: Seq<char>) -> Seq<char>
    decreases parts.len(),
{
    if parts.len() == 0 {
        Seq::empty()
    } else if parts.len() == 1 {
        parts[0]
    } else {
        join(parts.drop_last(), sep) + sep + parts.last()
    }
}

pub open spec fn opt_name(present: bool, name: Seq<char>) -> Seq<Seq<char>> {
    if present {
        seq![name]
    } else {
        Seq::empty()
    }
}

/// The names of the types in `t`, in alphabetical order.
pub open spec fn type_names(t: TypeSet) -> Seq<Seq<char>> {
    opt_name(t.array, "array"@) + opt_name(t.boolean, "boolean"@) + opt_name(t.null, "null"@)
        + opt_name(t.number, "number"@) + opt_name(t.object, "object"@) + opt_name(
        t.string,
        "string"@,
    )
}

/// `t` as text: its names joined with `|`, or `empty`.
pub open spec fn type_str(t: TypeSet) -> Seq<char> {
    if t == no_types() {
        "empty"@
    } else {
        join(type_names(t), "|"@)
    }
}

/// The one-line type label of a shape: `object`, `array<...>` with the label
/// of the items, the scalar types, and `|null` after a nullable one.
pub open spec fn shape_label(s: ShapeV) -> Seq<char>
    decreases s,
{
    match s {
        ShapeV::Object(_) => "object"@,
        ShapeV::Array(inner) => "array<"@ + shape_label(*inner) + ">"@,
        ShapeV::Scalar(t) => type_str(t),
        ShapeV::Mixed(t) => type_str(t),
        ShapeV::Nullable(inner) => shape_label(*inner) + "|null"@,
    }
}

/// One line per field (`name: label`, the name with control characters,
/// quotes and backslashes escaped) at `depth`, each followed by the fields
/// of the objects it holds one level deeper.
pub open spec fn fields_text(f: Seq<(Seq<char>, ShapeV)>, depth: nat) -> Seq<char>
    decreases f, 0nat,
{
    if f.len() == 0 {
        Seq::empty()
    } else {
        fields_text(f.drop_last(), depth) + field_text(f.last().0, f.last().1, depth)
    }
}

pub open spec fn field_text(name: Seq<char>, s: ShapeV, depth: nat) -> Seq<char>
    decreases s, 2nat,
{
    indent(depth) + escape_display(name) + ": "@ + shape_label(s) + "\n"@ + nested_text(
        s,
        depth + 1,
    )
}

/// The fields shown below a shape: those of an object, also inside arrays
/// and nullable wrappers; nothing for scalars.
pub open spec fn nested_text(s: ShapeV, depth: nat) -> Seq<char>
    decreases s, 1nat,
{
    match s {
        ShapeV::Object(f) => fields_text(f, depth),
        ShapeV::Array(inner) => nested_text(*inner, depth),
        ShapeV::Nullable(inner) => nested_text(*inner, depth),
        _ => Seq::empty(),
    }
}

/// The schema text of a document's shape: `object<empty>` for an empty
/// object, an object's fields from the left margin, and otherwise the
/// label on a line of its own with the fields below it indented once.
pub open spec fn schema_text(s: ShapeV) -> Seq<char> {
    match s {
        ShapeV::Object(f) => if f.len() == 0 {
            "object<empty>\n"@
        } else {
            fields_text(f, 0)
        },
        _ => shape_label(s) + "\n"@ + nested_text(s, 1),
    }
}

/// The schema text of a JSON document.
pub open spec fn json_schema_spec(node: JsonNode) -> Seq<char> {
    schema_text(infer(seq![node]))
}

/// How many levels of fields a shape's text has below its own line.
pub open spec fn shape_height(s: ShapeV) -> nat
    decreases s,
{
    match s {
        ShapeV::Object(f) => if f.len() == 0 {
            0
        } else {
            1 + fields_shape_height(f)
        },
        ShapeV::Array(inner) => shape_height(*inner),
        ShapeV::Nullable(inner) => shape_height(*inner),
        _ => 0,
    }
}

pub open spec fn fields_shape_height(f: Seq<(Seq<char>, ShapeV)>) -> nat
    decreases f,
{
    if f.len() == 0 {
        0
    } else {
        max_nat(fields_shape_height(f.drop_last()), shape_height(f.last().1))
    }
}

proof fn lemma_fields_shape_height_member(f: Seq<(Seq<char>, ShapeV)>, i: int)
    requires
        0 <= i < f.len(),
    ensures
        shape_height(f[i].1) <= fields_shape_height(f),
    decreases f.len(),
{
    if i < f.len() - 1 {
        lemma_fields_shape_height_member(f.drop_last(), i);
        assert(f.drop_last()[i] == f[i]);
    }
}

proof fn lemma_fields_shape_height_bound(f: Seq<(Seq<char>, ShapeV)>, h: nat)
    requires
        forall|i: int| 0 <= i < f.len() ==> shape_height(#[trigger] f[i].1) <= h,
    ensures
        fields_shape_height(f) <= h,
    decreases f.len(),
{
    if f.len() > 0 {
        assert forall|i: int| 0 <= i < f.drop_last().len() implies shape_height(
            #[trigger] f.drop_last()[i].1,
        ) <= h by {
            assert(f.drop_last()[i] == f[i]);
        }
        lemma_fields_shape_height_bound(f.drop_last(), h);
        assert(shape_height(f[f.len() - 1].1) <= h);
    }
}

/// Nodes with a key among them nest at least one level.
proof fn lemma_keys_height(ns: Seq<JsonNode>)
    requires
        all_keys(ns).len() > 0,
    ensures
        max_height(ns) >= 1,
    decreases ns.len(),
{
    let prev = all_keys(ns.drop_last());
    if prev.len() > 0 {
        lemma_keys_height(ns.drop_last());
    } else {
        assert(ns.last() is Object);
        lemma_max_height_member(ns, ns.len() - 1);
    }
}

proof fn lemma_dedup_len(s: Seq<Seq<char>>)
    ensures
        dedup(s).len() <= s.len(),
    decreases s.len(),
{
    if s.len() > 0 {
        lemma_dedup_len(s.drop_last());
    }
}

/// An inferred shape has no more levels than the nodes it was inferred from.
proof fn lemma_infer_height(ns: Seq<JsonNode>)
    ensures
        shape_height(infer(ns)) <= max_height(ns),
    decreases max_height(ns), 3nat, 0nat,
{
    let nn = non_null(ns);
    if nn.len() > 0 {
        lemma_non_null_height(ns);
        lemma_infer_non_null_height(nn, nn.len() != ns.len());
    }
}

proof fn lemma_infer_non_null_height(nn: Seq<JsonNode>, has_null: bool)
    ensures
        shape_height(infer_non_null(nn, has_null)) <= max_height(nn),
    decreases max_height(nn), 2nat, 0nat,
{
    if all_objects(nn) {
        let names = dedup(all_keys(nn));
        let f = object_fields(nn, names, 0);
        if f.len() > 0 {
            lemma_object_fields_len(nn, names, 0);
            lemma_dedup_len(all_keys(nn));
            lemma_keys_height(nn);
            lemma_object_fields_height(nn, names, 0);
            lemma_fields_shape_height_bound(f, (max_height(nn) - 1) as nat);
            assert(infer_non_null(nn, has_null) == ShapeV::Object(f));
        }
    } else if all_arrays(nn) {
        let el = elements(nn);
        if el.len() > 0 {
            lemma_elements_height(nn);
            lemma_infer_height(el);
        } else {
            assert(shape_height(ShapeV::Scalar(no_types())) == 0);
        }
    }
}

proof fn lemma_object_fields_len(nn: Seq<JsonNode>, names: Seq<Seq<char>>, k: nat)
    ensures
        object_fields(nn, names, k).len() == if k >= names.len() {
            0
        } else {
            names.len() - k
        },
    decreases names.len() - k,
{
    if k < names.len() {
        lemma_object_fields_len(nn, names, k + 1);
    }
}

proof fn lemma_object_fields_height(nn: Seq<JsonNode>, names: Seq<Seq<char>>, k: nat)
    requires
        max_height(nn) >= 1,
    ensures
        forall|i: int|
            0 <= i < object_fields(nn, names, k).len() ==> shape_height(
                #[trigger] object_fields(nn, names, k)[i].1,
            ) + 1 <= max_height(nn),
    decreases max_height(nn), 1nat, names.len() - k,
{
    if k < names.len() {
        let vals = field_values(nn, names[k as int]);
        if vals.len() > 0 {
            lemma_field_values_height(nn, names[k as int]);
            lemma_infer_height(vals);
        }
        lemma_object_fields_height(nn, names, k + 1);
        let rest = object_fields(nn, names, k + 1);
        let all = object_fields(nn, names, k);
        assert forall|i: int| 0 <= i < all.len() implies shape_height(#[trigger] all[i].1) + 1
            <= max_height(nn) by {
            if i > 0 {
                assert(all[i] == rest[i - 1]);
            }
        }
    }
}

fn join_names(parts: &Vec<String>, sep: &str) -> (r: String)
    ensures
        r@ == join(names_view(parts@), sep@),
{
    let ghost ps = names_view(parts@);
    let mut out = String::new();
    let mut i: usize = 0;
    while i < parts.len()
        invariant
            i <= parts@.len(),
            ps == names_view(parts@),
            out@ == join(ps.take(i as int), sep@),
        decreases parts@.len() - i,
    {
        proof {
            assert(ps.take(i + 1).drop_last() == ps.take(i as int));
            assert(ps.take(i + 1).last() == parts@[i as int]@);
        }
        if i > 0 {
            push_str(&mut out, sep);
        } else {
            assert(ps.take(1)[0] == ps[0]);
        }
        push_str(&mut out, parts[i].as_str());
        i += 1;
    }
    assert(ps.take(parts@.len() as int) == ps);
    out
}

fn push_name(names: &mut Vec<String>, present: bool, name: &str)
    ensures
        names_view(final(names)@) == names_view(old(names)@) + opt_name(present, name@),
{
    if present {
        names.push(name.to_owned());
        assert(names_view(names@) == names_view(old(names)@).push(name@));
    } else {
        assert(names_view(names@) == names_view(old(names)@) + Seq::<Seq<char>>::empty());
    }
}

fn type_str_of(t: TypeSet) -> (r: String)
    ensures
        r@ == type_str(t),
{
    let mut names: Vec<String> = Vec::new();
    assert(names_view(names@) == Seq::<Seq<char>>::empty());
    push_name(&mut names, t.array, "array");
    push_name(&mut names, t.boolean, "boolean");
    push_name(&mut names, t.null, "null");
    push_name(&mut names, t.number, "number");
    push_name(&mut names, t.object, "object");
    push_name(&mut names, t.string, "string");
    assert(names_view(names@) == type_names(t));
    if names.len() == 0 {
        assert(t == no_types());
        "empty".to_owned()
    } else {
        assert(t != no_types());
        join_names(&names, "|")
    }
}

/// The label of a shape, as `shape_label` gives it.
fn array_type_str(s: &Shape) -> (r: String)
    ensures
        r@ == shape_label(shape_view(*s)),
    decreases s,
{
    match s {
        Shape::Object(_) => "object".to_owned(),
        Shape::Array(inner) => {
            let mut r = "array<".to_owned();
            let label = array_type_str(inner);
            push_str(&mut r, label.as_str());
            push_str(&mut r, ">");
            r
        },
        Shape::Scalar(t) => type_str_of(*t),
        Shape::Mixed(t) => type_str_of(*t),
        Shape::Nullable(inner) => {
            let mut r = array_type_str(inner);
            push_str(&mut r, "|null");
            r
        },
    }
}

fn format_object_fields(fields: &Vec<(String, Shape)>, depth: usize, out: &mut String)
    requires
        fields@.len() > 0 ==> depth + 1 + fields_shape_height(fields_view(fields@)) <= usize::MAX,
    ensures
        final(out)@ == old(out)@ + fields_text(fields_view(fields@), depth as nat),
    decreases fields, 0nat,
{
    let ghost fv = fields_view(fields@);
    let mut i: usize = 0;
    while i < fields.len()
        invariant
            i <= fields@.len(),
            fields@.len() > 0 ==> depth + 1 + fields_shape_height(fv) <= usize::MAX,
            fv == fields_view(fields@),
            out@ == old(out)@ + fields_text(fields_view(fields@.take(i as int)), depth as nat),
        decreases fields@.len() - i,
    {
        let ghost before = out@;
        proof {
            let t = fields@.take(i + 1);
            assert(t.drop_last() == fields@.take(i as int));
            assert(t.last() == fields@[i as int]);
            let x = (fields@[i as int].0@, shape_view(fields@[i as int].1));
            assert(fields_view(t) == fields_view(fields@.take(i as int)).push(x));
            assert(fields_view(t).drop_last() == fields_view(fields@.take(i as int)));
            lemma_fields_view_index(fields@, i as int);
            lemma_fields_shape_height_member(fv, i as int);
            assert(decreases_to!(*fields => fields@[i as int].1));
        }
        format_field(&fields[i].0, &fields[i].1, depth, out);
        i += 1;
    }
    assert(fields@.take(fields@.len() as int) == fields@);
}

fn format_field(name: &String, shape: &Shape, depth: usize, out: &mut String)
    requires
        depth + 1 + shape_height(shape_view(*shape)) <= usize::MAX,
    ensures
        final(out)@ == old(out)@ + field_text(name@, shape_view(*shape), depth as nat),
    decreases shape, 2nat,
{
    push_indent(out, depth);
    let shown = escape_display_str(name.as_str());
    push_str(out, shown.as_str());
    push_str(out, ": ");
    let label = array_type_str(shape);
    push_str(out, label.as_str());
    push_str(out, "\n");
    format_nested(shape, depth + 1, out);
}

/// The fields below `shape`: those of the object it is or wraps.
fn format_nested(shape: &Shape, depth: usize, out: &mut String)
    requires
        depth + shape_height(shape_view(*shape)) <= usize::MAX,
    ensures
        final(out)@ == old(out)@ + nested_text(shape_view(*shape), depth as nat),
    decreases shape, 1nat,
{
    match shape {
        Shape::Object(fields) => format_object_fields(fields, depth, out),
        Shape::Array(inner) => format_nested(inner, depth, out),
        Shape::Nullable(inner) => format_nested(inner, depth, out),
        _ => {},
    }
}


/// Infers the shape of a JSON document and writes it out, two spaces per
/// level: each field with the union of its types across every object in the
/// same place, and the fields of nested objects below it; `null` beside
/// other values marks a field nullable rather than mixed.
pub fn json_schema(node: &JsonNode) -> (r: String)
    requires
        json_height(*node) < usize::MAX,
    ensures
        r@ == json_schema_spec(*node),
{
    let nodes: Vec<&JsonNode> = vec![node];
    assert(refs_view(nodes@) == seq![*node]);
    let shape = infer_shape(&nodes);
    proof {
        lemma_infer_height(seq![*node]);
        let one = seq![*node];
        assert(one.drop_last() == Seq::<JsonNode>::empty());
        assert(one.last() == *node);
        assert(max_height(one.drop_last()) == 0);
        assert(max_height(one) == json_height(*node));
    }
    let mut out = String::new();
    match &shape {
        Shape::Object(fields) => {
            if fields.len() == 0 {
                push_str(&mut out, "object<empty>\n");
            } else {
                proof {
                    lemma_fields_view_len(fields@);
                }
                format_object_fields(fields, 0, &mut out);
            }
        },
        _ => {
            let label = array_type_str(&shape);
            push_str(&mut out, label.as_str());
            push_str(&mut out, "\n");
            format_nested(&shape, 1, &mut out);
        },
    }
    proof {
        lemma_fields_view_len_all(shape);
    }
    out
}


// ---------------------------------------------------------------------------
// XML.
// ---------------------------------------------------------------------------

/// The elements behind `v`.
pub open spec fn xrefs(v: Seq<&XmlNode>) -> Seq<XmlNode> {
    v.map_values(|r: &XmlNode| *r)
}

/// The names of `cs`, in order.
pub open spec fn names_of(cs: Seq<XmlNode>) -> Seq<Seq<char>> {
    cs.map_values(|c: XmlNode| c.name@)
}

/// The children of every element of `ps`, in order.
pub open spec fn all_children(ps: Seq<XmlNode>) -> Seq<XmlNode>
    decreases ps.len(),
{
    if ps.len() == 0 {
        Seq::empty()
    } else {
        all_children(ps.drop_last()) + ps.last().children@
    }
}

/// The elements of `cs` named `name`, in order.
pub open spec fn named(cs: Seq<XmlNode>, name: Seq<char>) -> Seq<XmlNode>
    decreases cs.len(),
{
    if cs.len() == 0 {
        Seq::empty()
    } else {
        let p = named(cs.drop_last(), name);
        if cs.last().name@ == name {
            p.push(cs.last())
        } else {
            p
        }
    }
}

/// The children named `name` of every element of `ps`, in order.
pub open spec fn siblings(ps: Seq<XmlNode>, name: Seq<char>) -> Seq<XmlNode> {
    named(all_children(ps), name)
}

/// Every attribute name of every element of `ns`, in order (repeats kept).
pub open spec fn attr_keys(ns: Seq<XmlNode>) -> Seq<Seq<char>>
    decreases ns.len(),
{
    if ns.len() == 0 {
        Seq::empty()
    } else {
        attr_keys(ns.drop_last()) + ns.last().attributes@.map_values(
            |a: (String, String)| a.0@,
        )
    }
}

/// The line of the child elements named `name` of `ps` at `depth` (their
/// attribute names, each once, and `(repeated)` when there are several),
/// followed by the lines of their own children one level deeper.
pub open spec fn xml_child_text(ps: Seq<XmlNode>, name: Seq<char>, depth: nat) -> Seq<char>
    decreases children_height(ps), 0nat, 0nat,
{
    let sib = siblings(ps, name);
    let attrs = dedup(attr_keys(sib));
    let line = indent(depth) + name + (if attrs.len() == 0 {
        Seq::empty()
    } else {
        " ["@ + join(attrs, ", "@) + "]"@
    }) + (if sib.len() > 1 {
        " (repeated)"@
    } else {
        Seq::empty()
    }) + "\n"@;
    if sib.len() == 0 {
        line
    } else {
        proof {
            lemma_siblings_height(ps, name);
        }
        line + xml_children_from(sib, dedup(names_of(all_children(sib))), 0, depth + 1)
    }
}

/// The text of each of `names` from the `k`-th on, as children of `ps`.
pub open spec fn xml_children_from(
    ps: Seq<XmlNode>,
    names: Seq<Seq<char>>,
    k: nat,
    depth: nat,
) -> Seq<char>
    decreases children_height(ps), 1nat, names.len() - k,
{
    if k >= names.len() {
        Seq::empty()
    } else {
        xml_child_text(ps, names[k as int], depth) + xml_children_from(ps, names, k + 1, depth)
    }
}

/// The text of the children of `ps`, one entry per distinct name in order
/// of first appearance.
pub open spec fn xml_children_text(ps: Seq<XmlNode>, depth: nat) -> Seq<char> {
    xml_children_from(ps, dedup(names_of(all_children(ps))), 0, depth)
}

/// The schema text of an XML document.
pub open spec fn xml_schema_spec(node: XmlNode) -> Seq<char> {
    xml_children_text(seq![node], 0)
}

proof fn lemma_children_height_bound(c: Seq<XmlNode>, h: nat)
    requires
        forall|i: int| 0 <= i < c.len() ==> xml_height(#[trigger] c[i]) <= h,
    ensures
        children_height(c) <= h,
    decreases c.len(),
{
    if c.len() > 0 {
        assert forall|i: int| 0 <= i < c.drop_last().len() implies xml_height(
            #[trigger] c.drop_last()[i],
        ) <= h by {
            assert(c.drop_last()[i] == c[i]);
        }
        lemma_children_height_bound(c.drop_last(), h);
        assert(xml_height(c[c.len() - 1]) <= h);
    }
}

proof fn lemma_named_members(cs: Seq<XmlNode>, name: Seq<char>)
    ensures
        forall|i: int|
            0 <= i < named(cs, name).len() ==> exists|j: int|
                0 <= j < cs.len() && #[trigger] named(cs, name)[i] == cs[j],
    decreases cs.len(),
{
    if cs.len() > 0 {
        lemma_named_members(cs.drop_last(), name);
        let sub = named(cs.drop_last(), name);
        assert forall|i: int| 0 <= i < named(cs, name).len() implies exists|j: int|
            0 <= j < cs.len() && #[trigger] named(cs, name)[i] == cs[j] by {
            if i < sub.len() {
                assert(named(cs, name)[i] == sub[i]);
                let j = choose|j: int| 0 <= j < cs.drop_last().len() && sub[i] == cs.drop_last()[j];
                assert(cs[j] == cs.drop_last()[j]);
            } else {
                assert(named(cs, name)[i] == cs.last());
                assert(cs[cs.len() - 1] == cs.last());
            }
        }
    }
}

/// Each child of an element among `ps` nests one level less than `ps` do.
proof fn lemma_all_children_height(ps: Seq<XmlNode>)
    ensures
        forall|i: int|
            0 <= i < all_children(ps).len() ==> xml_height(#[trigger] all_children(ps)[i]) + 1
                <= children_height(ps),
    decreases ps.len(),
{
    if ps.len() > 0 {
        let prev = all_children(ps.drop_last());
        let last = ps.last();
        lemma_all_children_height(ps.drop_last());
        lemma_xml_height_member(ps, ps.len() - 1);
        lemma_children_prefix_height(ps);
        assert forall|i: int| 0 <= i < all_children(ps).len() implies xml_height(
            #[trigger] all_children(ps)[i],
        ) + 1 <= children_height(ps) by {
            if i < prev.len() {
                assert(all_children(ps)[i] == prev[i]);
            } else {
                assert(all_children(ps)[i] == last.children@[i - prev.len()]);
                lemma_xml_height_member(last.children@, i - prev.len());
                assert(ps[ps.len() - 1] == last);
            }
        }
    }
}

proof fn lemma_children_prefix_height(ps: Seq<XmlNode>)
    requires
        ps.len() > 0,
    ensures
        children_height(ps.drop_last()) <= children_height(ps),
{
}

pub proof fn lemma_siblings_height(ps: Seq<XmlNode>, name: Seq<char>)
    requires
        siblings(ps, name).len() > 0,
    ensures
        children_height(siblings(ps, name)) < children_height(ps),
{
    let sib = siblings(ps, name);
    let all = all_children(ps);
    lemma_named_members(all, name);
    lemma_all_children_height(ps);
    assert forall|i: int| 0 <= i < sib.len() implies xml_height(#[trigger] sib[i]) + 1
        <= children_height(ps) by {
        let j = choose|j: int| 0 <= j < all.len() && sib[i] == all[j];
        assert(xml_height(all[j]) + 1 <= children_height(ps));
    }
    assert(xml_height(sib[0]) + 1 <= children_height(ps));
    lemma_children_height_bound(sib, (children_height(ps) - 1) as nat);
}


/// The distinct names of the children of `parents`, in order of first
/// appearance.
fn distinct_child_names(parents: &Vec<&XmlNode>) -> (r: Vec<String>)
    ensures
        names_view(r@) == dedup(names_of(all_children(xrefs(parents@)))),
{
    let ghost ps = xrefs(parents@);
    let mut order: Vec<String> = Vec::new();
    let mut i: usize = 0;
    while i < parents.len()
        invariant
            i <= parents@.len(),
            ps == xrefs(parents@),
            names_view(order@) == dedup(names_of(all_children(ps.take(i as int)))),
        decreases parents@.len() - i,
    {
        let parent: &XmlNode = parents[i];
        let ghost base = all_children(ps.take(i as int));
        proof {
            assert(ps.take(i + 1).drop_last() == ps.take(i as int));
            assert(ps.take(i + 1).last() == *parent);
        }
        let mut j: usize = 0;
        while j < parent.children.len()
            invariant
                j <= parent.children@.len(),
                names_view(order@) == dedup(names_of(base + parent.children@.take(j as int))),
            decreases parent.children@.len() - j,
        {
            let name = &parent.children[j].name;
            proof {
                let a = base + parent.children@.take(j as int);
                let b = base + parent.children@.take(j + 1);
                assert(b == a.push(parent.children@[j as int]));
                assert(names_of(b) == names_of(a).push(name@));
                assert(names_of(b).drop_last() == names_of(a));
            }
            if !has_name(&order, name) {
                let ghost before = order@;
                order.push(name.clone());
                assert(names_view(order@) == names_view(before).push(name@));
            }
            j += 1;
        }
        assert(parent.children@.take(parent.children@.len() as int) == parent.children@);
        i += 1;
    }
    assert(ps.take(parents@.len() as int) == ps);
    order
}

/// The attribute names of `siblings`, each once, in order of first
/// appearance.
fn union_attribute_names(siblings: &Vec<&XmlNode>) -> (r: Vec<String>)
    ensures
        names_view(r@) == dedup(attr_keys(xrefs(siblings@))),
{
    let ghost ns = xrefs(siblings@);
    let mut order: Vec<String> = Vec::new();
    let mut i: usize = 0;
    while i < siblings.len()
        invariant
            i <= siblings@.len(),
            ns == xrefs(siblings@),
            names_view(order@) == dedup(attr_keys(ns.take(i as int))),
        decreases siblings@.len() - i,
    {
        let node: &XmlNode = siblings[i];
        let ghost keys = node.attributes@.map_values(|a: (String, String)| a.0@);
        let ghost base = attr_keys(ns.take(i as int));
        proof {
            assert(ns.take(i + 1).drop_last() == ns.take(i as int));
            assert(ns.take(i + 1).last() == *node);
            assert(attr_keys(ns.take(i + 1)) == base + keys);
        }
        let mut j: usize = 0;
        while j < node.attributes.len()
            invariant
                j <= node.attributes@.len(),
                keys == node.attributes@.map_values(|a: (String, String)| a.0@),
                names_view(order@) == dedup(base + keys.take(j as int)),
            decreases node.attributes@.len() - j,
        {
            let name = &node.attributes[j].0;
            proof {
                assert(base + keys.take(j + 1) == (base + keys.take(j as int)).push(name@));
                assert((base + keys.take(j + 1)).drop_last() == base + keys.take(j as int));
            }
            if !has_name(&order, name) {
                let ghost before = order@;
                order.push(name.clone());
                assert(names_view(order@) == names_view(before).push(name@));
            }
            j += 1;
        }
        assert(keys.take(node.attributes@.len() as int) == keys);
        i += 1;
    }
    assert(ns.take(siblings@.len() as int) == ns);
    order
}

/// The children named `name` of every element of `parents`, in order.
fn siblings_named<'a>(parents: &Vec<&'a XmlNode>, name: &String) -> (r: Vec<&'a XmlNode>)
    ensures
        xrefs(r@) == siblings(xrefs(parents@), name@),
{
    let ghost ps = xrefs(parents@);
    let mut out: Vec<&'a XmlNode> = Vec::new();
    let mut i: usize = 0;
    while i < parents.len()
        invariant
            i <= parents@.len(),
            ps == xrefs(parents@),
            xrefs(out@) == named(all_children(ps.take(i as int)), name@),
        decreases parents@.len() - i,
    {
        let parent: &'a XmlNode = parents[i];
        let ghost base = all_children(ps.take(i as int));
        proof {
            assert(ps.take(i + 1).drop_last() == ps.take(i as int));
            assert(ps.take(i + 1).last() == *parent);
        }
        let mut j: usize = 0;
        while j < parent.children.len()
            invariant
                j <= parent.children@.len(),
                xrefs(out@) == named(base + parent.children@.take(j as int), name@),
            decreases parent.children@.len() - j,
        {
            let child: &'a XmlNode = &parent.children[j];
            proof {
                let a = base + parent.children@.take(j as int);
                let b = base + parent.children@.take(j + 1);
                assert(b == a.push(*child));
                assert(b.drop_last() == a);
            }
            if child.name == *name {
                let ghost before = out@;
                out.push(child);
                assert(xrefs(out@) == xrefs(before).push(*child));
            }
            j += 1;
        }
        assert(parent.children@.take(parent.children@.len() as int) == parent.children@);
        i += 1;
    }
    assert(ps.take(parents@.len() as int) == ps);
    out
}

fn format_xml_child(parents: &Vec<&XmlNode>, name: &String, depth: usize, out: &mut String)
    requires
        depth + children_height(xrefs(parents@)) <= usize::MAX,
    ensures
        final(out)@ == old(out)@ + xml_child_text(xrefs(parents@), name@, depth as nat),
    decreases children_height(xrefs(parents@)), 0nat, 0nat,
{
    let ghost ps = xrefs(parents@);
    let sibs = siblings_named(parents, name);
    push_indent(out, depth);
    push_str(out, name.as_str());
    let attrs = union_attribute_names(&sibs);
    if attrs.len() > 0 {
        push_str(out, " [");
        let joined = join_names(&attrs, ", ");
        push_str(out, joined.as_str());
        push_str(out, "]");
    }
    assert(xrefs(sibs@).len() == sibs@.len());
    if sibs.len() > 1 {
        push_str(out, " (repeated)");
    }
    push_str(out, "\n");
    if sibs.len() > 0 {
        proof {
            lemma_siblings_height(ps, name@);
        }
        format_xml_children(&sibs, depth + 1, out);
    }
}

fn format_xml_children(parents: &Vec<&XmlNode>, depth: usize, out: &mut String)
    requires
        depth + children_height(xrefs(parents@)) <= usize::MAX,
    ensures
        final(out)@ == old(out)@ + xml_children_text(xrefs(parents@), depth as nat),
    decreases children_height(xrefs(parents@)), 1nat, 0nat,
{
    let ghost ps = xrefs(parents@);
    let names = distinct_child_names(parents);
    let ghost nv = names_view(names@);
    let mut k: usize = 0;
    while k < names.len()
        invariant
            k <= names@.len(),
            ps == xrefs(parents@),
            nv == names_view(names@),
            depth + children_height(ps) <= usize::MAX,
            out@ + xml_children_from(ps, nv, k as nat, depth as nat) == old(out)@
                + xml_children_from(ps, nv, 0, depth as nat),
        decreases names@.len() - k,
    {
        let ghost before = out@;
        assert(nv[k as int] == names@[k as int]@);
        format_xml_child(parents, &names[k], depth, out);
        proof {
            assert(xml_children_from(ps, nv, k as nat, depth as nat) == xml_child_text(
                ps,
                nv[k as int],
                depth as nat,
            ) + xml_children_from(ps, nv, (k + 1) as nat, depth as nat));
        }
        k += 1;
    }
    assert(xml_children_from(ps, nv, k as nat, depth as nat) == Seq::<char>::empty());
}

/// The shape of an XML document: for each element name among the root's
/// children (each once, in order of first appearance), a line with the
/// union of the attribute names of all elements of that name and
/// `(repeated)` when there are several, then the same for the children of
/// all of them together, two spaces further in.
pub fn xml_schema(node: &XmlNode) -> (r: String)
    requires
        xml_height(*node) <= usize::MAX,
    ensures
        r@ == xml_schema_spec(*node),
{
    let parents: Vec<&XmlNode> = vec![node];
    proof {
        let one = seq![*node];
        assert(xrefs(parents@) == one);
        assert(one.drop_last() == Seq::<XmlNode>::empty());
        assert(one.last() == *node);
        assert(children_height(one.drop_last()) == 0);
        assert(children_height(one) == xml_height(*node));
    }
    let mut out = String::new();
    format_xml_children(&parents, 0, &mut out);
    out
}


// ---------------------------------------------------------------------------
// A slot's label names every kind of value found in it.
// ---------------------------------------------------------------------------

/// The name of a node's kind as a type label writes it.
pub open spec fn kind_name(n: JsonNode) -> Seq<char> {
    match n {
        JsonNode::Object(_) => "object"@,
        JsonNode::Array(_) => "array"@,
        JsonNode::Scalar(JsonScalar::Str(_)) => "string"@,
        JsonNode::Scalar(JsonScalar::Number(_)) => "number"@,
        JsonNode::Scalar(JsonScalar::Bool(_)) => "boolean"@,
        JsonNode::Scalar(JsonScalar::Null) => "null"@,
    }
}

/// Whether the type set `t` holds the kind of `n`.
pub open spec fn has_kind(t: TypeSet, n: JsonNode) -> bool {
    match n {
        JsonNode::Object(_) => t.object,
        JsonNode::Array(_) => t.array,
        JsonNode::Scalar(JsonScalar::Str(_)) => t.string,
        JsonNode::Scalar(JsonScalar::Number(_)) => t.number,
        JsonNode::Scalar(JsonScalar::Bool(_)) => t.boolean,
        JsonNode::Scalar(JsonScalar::Null) => t.null,
    }
}

pub(crate) proof fn lemma_contains_self(x: Seq<char>)
    ensures
        contains_text(x, x),
{
    assert(x.subrange(0, x.len() as int) =~= x);
    assert(occurs_at(x, x, 0));
}

pub(crate) proof fn lemma_contains_left(a: Seq<char>, b: Seq<char>, x: Seq<char>)
    requires
        contains_text(a, x),
    ensures
        contains_text(a + b, x),
{
    let i = choose|i: int| #[trigger] occurs_at(a, x, i);
    assert((a + b).subrange(i, i + x.len()) =~= a.subrange(i, i + x.len()));
    assert(occurs_at(a + b, x, i));
}

pub(crate) proof fn lemma_contains_right(a: Seq<char>, b: Seq<char>, x: Seq<char>)
    requires
        contains_text(b, x),
    ensures
        contains_text(a + b, x),
{
    let i = choose|i: int| #[trigger] occurs_at(b, x, i);
    assert((a + b).subrange(a.len() + i, a.len() + i + x.len()) =~= b.subrange(i, i + x.len()));
    assert(occurs_at(a + b, x, a.len() + i));
}

/// A joined list holds each of its parts.
pub proof fn lemma_join_contains(parts: Seq<Seq<char>>, sep: Seq<char>, j: int)
    requires
        0 <= j < parts.len(),
    ensures
        contains_text(join(parts, sep), parts[j]),
    decreases parts.len(),
{
    lemma_contains_self(parts[j]);
    if parts.len() > 1 {
        if j < parts.len() - 1 {
            lemma_join_contains(parts.drop_last(), sep, j);
            assert(parts.drop_last()[j] == parts[j]);
            lemma_contains_left(join(parts.drop_last(), sep), sep, parts[j]);
            lemma_contains_left(join(parts.drop_last(), sep) + sep, parts.last(), parts[j]);
        } else {
            lemma_contains_right(join(parts.drop_last(), sep) + sep, parts.last(), parts[j]);
        }
    }
}

proof fn lemma_type_str_names(t: TypeSet, n: JsonNode)
    requires
        has_kind(t, n),
    ensures
        contains_text(type_str(t), kind_name(n)),
{
    let a = opt_name(t.array, "array"@);
    let b = opt_name(t.boolean, "boolean"@);
    let c = opt_name(t.null, "null"@);
    let d = opt_name(t.number, "number"@);
    let e = opt_name(t.object, "object"@);
    let f = opt_name(t.string, "string"@);
    let names = type_names(t);
    assert(names == a + b + c + d + e + f);
    let k: int = match n {
        JsonNode::Array(_) => 0,
        JsonNode::Scalar(JsonScalar::Bool(_)) => a.len() as int,
        JsonNode::Scalar(JsonScalar::Null) => (a.len() + b.len()) as int,
        JsonNode::Scalar(JsonScalar::Number(_)) => (a.len() + b.len() + c.len()) as int,
        JsonNode::Object(_) => (a.len() + b.len() + c.len() + d.len()) as int,
        JsonNode::Scalar(JsonScalar::Str(_)) => (a.len() + b.len() + c.len() + d.len() + e.len()) as int,
    };
    assert(0 <= k < names.len() && names[k] == kind_name(n));
    assert(t != no_types());
    lemma_join_contains(names, "|"@, k);
}

proof fn lemma_kinds_has(ns: Seq<JsonNode>, j: int)
    requires
        0 <= j < ns.len(),
    ensures
        has_kind(kinds(ns), ns[j]),
    decreases ns.len(),
{
    if j < ns.len() - 1 {
        lemma_kinds_has(ns.drop_last(), j);
        assert(ns.drop_last()[j] == ns[j]);
    }
}

proof fn lemma_null_dropped(ns: Seq<JsonNode>, i: int)
    requires
        0 <= i < ns.len(),
        is_null(ns[i]),
    ensures
        non_null(ns).len() < ns.len(),
    decreases ns.len(),
{
    lemma_non_null_len(ns.drop_last());
    if i < ns.len() - 1 {
        lemma_null_dropped(ns.drop_last(), i);
        assert(ns.drop_last()[i] == ns[i]);
    }
}

proof fn lemma_non_null_len(ns: Seq<JsonNode>)
    ensures
        non_null(ns).len() <= ns.len(),
    decreases ns.len(),
{
    if ns.len() > 0 {
        lemma_non_null_len(ns.drop_last());
    }
}

proof fn lemma_non_null_keeps(ns: Seq<JsonNode>, i: int)
    requires
        0 <= i < ns.len(),
        !is_null(ns[i]),
    ensures
        exists|j: int| 0 <= j < non_null(ns).len() && #[trigger] non_null(ns)[j] == ns[i],
    decreases ns.len(),
{
    let p = non_null(ns.drop_last());
    if i < ns.len() - 1 {
        lemma_non_null_keeps(ns.drop_last(), i);
        assert(ns.drop_last()[i] == ns[i]);
        let j = choose|j: int| 0 <= j < p.len() && #[trigger] p[j] == ns.drop_last()[i];
        assert(non_null(ns)[j] == p[j]);
    } else {
        assert(ns.last() == ns[i]);
        assert(non_null(ns)[p.len() as int] == ns[i]);
    }
}

/// How `infer` marks a shape when some of the nodes were `null`.
pub open spec fn nullable(s: ShapeV) -> ShapeV {
    match s {
        ShapeV::Object(_) => ShapeV::Nullable(Box::new(s)),
        ShapeV::Array(_) => ShapeV::Nullable(Box::new(s)),
        ShapeV::Mixed(t) => ShapeV::Mixed(TypeSet { null: true, ..t }),
        _ => s,
    }
}

proof fn lemma_infer_unfold(ns: Seq<JsonNode>)
    requires
        non_null(ns).len() > 0,
    ensures
        infer(ns) == (if non_null(ns).len() != ns.len() {
            nullable(infer_non_null(non_null(ns), true))
        } else {
            infer_non_null(non_null(ns), false)
        }),
{
}

proof fn lemma_null_suffix(l: Seq<char>)
    ensures
        contains_text(l + "|null"@, "null"@),
{
    reveal_strlit("|null");
    reveal_strlit("null");
    assert(("|null"@).subrange(1, 5) =~= "null"@);
    assert(occurs_at("|null"@, "null"@, 1));
    lemma_contains_right(l, "|null"@, "null"@);
}

proof fn lemma_array_prefix(inner: Seq<char>)
    ensures
        contains_text("array<"@ + inner + ">"@, "array"@),
{
    reveal_strlit("array<");
    reveal_strlit("array");
    assert(("array<"@).subrange(0, 5) =~= "array"@);
    assert(occurs_at("array<"@, "array"@, 0));
    lemma_contains_left("array<"@, inner + ">"@, "array"@);
    assert("array<"@ + inner + ">"@ == "array<"@ + (inner + ">"@));
}

/// The label of the shape of non-null nodes `nn` (marked as nullable or
/// not) names the kind of each of them.
proof fn lemma_non_null_label(nn: Seq<JsonNode>, has_null: bool, j: int)
    requires
        0 <= j < nn.len(),
        !is_null(nn[j]),
    ensures
        contains_text(
            shape_label(
                if has_null {
                    nullable(infer_non_null(nn, true))
                } else {
                    infer_non_null(nn, false)
                },
            ),
            kind_name(nn[j]),
        ),
{
    let x = nn[j];
    lemma_kinds_has(nn, j);
    let s1 = infer_non_null(nn, true);
    let s0 = infer_non_null(nn, false);
    let shown = if has_null {
        nullable(s1)
    } else {
        s0
    };
    if all_objects(nn) {
        assert(x is Object);
        assert(s1 is Object && s0 is Object);
        lemma_contains_self("object"@);
        lemma_contains_left("object"@, "|null"@, "object"@);
        assert(shape_label(s1) == "object"@);
        assert(shape_label(s0) == "object"@);
        assert(nullable(s1) == ShapeV::Nullable(Box::new(s1)));
        assert(shape_label(nullable(s1)) == shape_label(s1) + "|null"@);
    } else if all_arrays(nn) {
        assert(x is Array);
        let b = if elements(nn).len() == 0 {
            ShapeV::Scalar(no_types())
        } else {
            infer(elements(nn))
        };
        assert(s1 == ShapeV::Array(Box::new(b)));
        assert(s0 == ShapeV::Array(Box::new(b)));
        let inner = shape_label(b);
        lemma_array_prefix(inner);
        lemma_contains_left("array<"@ + inner + ">"@, "|null"@, "array"@);
        assert(shape_label(s0) == "array<"@ + inner + ">"@);
        assert(shape_label(s1) == "array<"@ + inner + ">"@);
        assert(nullable(s1) == ShapeV::Nullable(Box::new(s1)));
        assert(shape_label(nullable(s1)) == shape_label(s1) + "|null"@);
    } else {
        let tn = TypeSet { null: true, ..kinds(nn) };
        assert(has_kind(tn, x));
        lemma_type_str_names(tn, x);
        lemma_type_str_names(kinds(nn), x);
        if all_scalars(nn) {
            assert(s1 == ShapeV::Scalar(tn));
            assert(s0 == ShapeV::Scalar(kinds(nn)));
        } else {
            assert(s1 == ShapeV::Mixed(kinds(nn)));
            assert(nullable(s1) == ShapeV::Mixed(tn));
            assert(s0 == ShapeV::Mixed(kinds(nn)));
        }
    }
}

/// With some nodes `null`, the label names `null`.
proof fn lemma_nullable_label(nn: Seq<JsonNode>)
    requires
        nn.len() > 0,
    ensures
        contains_text(shape_label(nullable(infer_non_null(nn, true))), "null"@),
{
    let s = infer_non_null(nn, true);
    let n0 = JsonNode::Scalar(JsonScalar::Null);
    match s {
        ShapeV::Object(_) => lemma_null_suffix(shape_label(s)),
        ShapeV::Array(_) => lemma_null_suffix(shape_label(s)),
        ShapeV::Mixed(t) => lemma_type_str_names(TypeSet { null: true, ..t }, n0),
        ShapeV::Scalar(t) => lemma_type_str_names(t, n0),
        ShapeV::Nullable(_) => {},
    }
}

/// The type label inferred for a slot (the values found at one place, such
/// as one field across every object, or every item of the arrays there)
/// names the kind of every value found in it: `object`, `array`, `string`,
/// `number`, `boolean` or `null`.
pub proof fn lemma_slot_label_names_every_kind(ns: Seq<JsonNode>, i: int)
    requires
        0 <= i < ns.len(),
    ensures
        contains_text(shape_label(infer(ns)), kind_name(ns[i])),
{
    let nn = non_null(ns);
    let x = ns[i];
    lemma_non_null_len(ns);
    if is_null(x) {
        lemma_null_dropped(ns, i);
        if nn.len() == 0 {
            lemma_type_str_names(TypeSet { null: true, ..no_types() }, x);
        } else {
            lemma_infer_unfold(ns);
            lemma_nullable_label(nn);
        }
    } else {
        lemma_non_null_keeps(ns, i);
        let j = choose|j: int| 0 <= j < nn.len() && #[trigger] nn[j] == x;
        lemma_infer_unfold(ns);
        lemma_non_null_label(nn, nn.len() != ns.len(), j);
    }
}


// ---------------------------------------------------------------------------
// An object slot lists every key once.
// ---------------------------------------------------------------------------

/// The field names a shape lists (through a nullable wrapper).
pub open spec fn field_names(s: ShapeV) -> Seq<Seq<char>> {
    match s {
        ShapeV::Object(f) => field_names_of(f),
        ShapeV::Nullable(b) => match *b {
            ShapeV::Object(f) => field_names_of(f),
            _ => Seq::empty(),
        },
        _ => Seq::empty(),
    }
}

/// The names of the fields `f`, in order.
pub open spec fn field_names_of(f: Seq<(Seq<char>, ShapeV)>) -> Seq<Seq<char>> {
    f.map_values(|e: (Seq<char>, ShapeV)| e.0)
}

proof fn lemma_dedup_contains(s: Seq<Seq<char>>, x: Seq<char>)
    ensures
        dedup(s).contains(x) <==> s.contains(x),
        dedup(s).no_duplicates(),
    decreases s.len(),
{
    if s.len() > 0 {
        let s1 = s.drop_last();
        let y = s.last();
        lemma_dedup_contains(s1, x);
        lemma_dedup_contains(s1, y);
        let d = dedup(s1);
        assert(s.contains(x) <==> s1.contains(x) || x == y) by {
            if s.contains(x) {
                let i = choose|i: int| 0 <= i < s.len() && s[i] == x;
                if i < s.len() - 1 {
                    assert(s1[i] == x);
                }
            }
            if s1.contains(x) {
                let i = choose|i: int| 0 <= i < s1.len() && s1[i] == x;
                assert(s[i] == x);
            }
            if x == y {
                assert(s[s.len() - 1] == x);
            }
        }
        if !d.contains(y) {
            let e = d.push(y);
            assert(e[d.len() as int] == y);
            assert forall|a: int, b: int| 0 <= a < b < e.len() implies e[a] != e[b] by {
                assert(e[a] == d[a]);
                if b == d.len() {
                    assert(d.contains(d[a]));
                } else {
                    assert(e[b] == d[b]);
                }
            }
            assert(e.contains(x) <==> d.contains(x) || x == y) by {
                if e.contains(x) {
                    let i = choose|i: int| 0 <= i < e.len() && e[i] == x;
                    if i < d.len() {
                        assert(d[i] == x);
                    }
                }
                if d.contains(x) {
                    let i = choose|i: int| 0 <= i < d.len() && d[i] == x;
                    assert(e[i] == x);
                }
            }
        }
    }
}

proof fn lemma_all_keys_has(ns: Seq<JsonNode>, j: int, m: int)
    requires
        0 <= j < ns.len(),
        ns[j] is Object,
        0 <= m < ns[j]->Object_0@.len(),
    ensures
        all_keys(ns).contains(ns[j]->Object_0@[m].0@),
    decreases ns.len(),
{
    let k = ns[j]->Object_0@[m].0@;
    let tail = match ns.last() {
        JsonNode::Object(f) => f@.map_values(|e: (String, JsonNode)| e.0@),
        _ => Seq::empty(),
    };
    assert(all_keys(ns) == all_keys(ns.drop_last()) + tail);
    if j < ns.len() - 1 {
        lemma_all_keys_has(ns.drop_last(), j, m);
        assert(ns.drop_last()[j] == ns[j]);
        let i = choose|i: int| 0 <= i < all_keys(ns.drop_last()).len() && all_keys(ns.drop_last())[i] == k;
        assert(all_keys(ns)[i] == k);
    } else {
        assert(ns.last() == ns[j]);
        assert(tail[m] == k);
        assert(all_keys(ns)[all_keys(ns.drop_last()).len() + m] == k);
    }
}

proof fn lemma_object_fields_names(nn: Seq<JsonNode>, names: Seq<Seq<char>>, k: nat)
    requires
        k <= names.len(),
    ensures
        field_names_of(object_fields(nn, names, k)) == names.skip(k as int),
    decreases names.len() - k,
{
    let f = object_fields(nn, names, k);
    if k < names.len() {
        lemma_object_fields_names(nn, names, k + 1);
        let rest = object_fields(nn, names, k + 1);
        assert(f.len() == 1 + rest.len());
        assert(field_names_of(rest).len() == rest.len());
        assert(names.skip(k as int).len() == names.skip((k + 1) as int).len() + 1);
        assert(field_names_of(f)[0] == names[k as int]);
        assert(field_names_of(f) =~= names.skip(k as int)) by {
            assert forall|i: int| 0 <= i < f.len() implies #[trigger] field_names_of(f)[i] == names.skip(
                k as int,
            )[i] by {
                if i > 0 {
                    assert(f[i] == rest[i - 1]);
                    assert(field_names_of(rest)[i - 1] == names.skip((k + 1) as int)[i - 1]);
                }
            }
        }
    } else {
        assert(field_names_of(f) =~= names.skip(k as int));
    }
}

/// A slot whose values are objects (and maybe `null`s) lists as fields
/// every key of every one of those objects, and each name only once.
pub proof fn lemma_object_slot_lists_every_key(ns: Seq<JsonNode>, j: int, m: int)
    requires
        forall|i: int| 0 <= i < ns.len() ==> #[trigger] ns[i] is Object || is_null(ns[i]),
        0 <= j < ns.len(),
        ns[j] is Object,
        0 <= m < ns[j]->Object_0@.len(),
    ensures
        field_names(infer(ns)).contains(ns[j]->Object_0@[m].0@),
        field_names(infer(ns)).no_duplicates(),
{
    let nn = non_null(ns);
    let k = ns[j]->Object_0@[m].0@;
    assert(!is_null(ns[j]));
    lemma_non_null_keeps(ns, j);
    let jj = choose|jj: int| 0 <= jj < nn.len() && #[trigger] nn[jj] == ns[j];
    lemma_non_null_members(ns);
    assert(all_objects(nn)) by {
        assert forall|i: int| 0 <= i < nn.len() implies #[trigger] nn[i] is Object by {
            let q = choose|q: int| 0 <= q < ns.len() && nn[i] == ns[q];
            assert(ns[q] is Object || is_null(ns[q]));
            if is_null(nn[i]) {
                lemma_non_null_no_null(ns, i);
            }
        }
    }
    lemma_all_keys_has(nn, jj, m);
    let names = dedup(all_keys(nn));
    lemma_dedup_contains(all_keys(nn), k);
    lemma_object_fields_names(nn, names, 0);
    assert(names.skip(0) == names);
    lemma_infer_unfold(ns);
    let f = object_fields(nn, names, 0);
    assert(infer_non_null(nn, true) == ShapeV::Object(f));
    assert(infer_non_null(nn, false) == ShapeV::Object(f));
    assert(field_names(infer(ns)) == names);
}

proof fn lemma_non_null_no_null(ns: Seq<JsonNode>, i: int)
    requires
        0 <= i < non_null(ns).len(),
    ensures
        !is_null(non_null(ns)[i]),
    decreases ns.len(),
{
    let p = non_null(ns.drop_last());
    if ns.len() > 0 {
        if i < p.len() {
            lemma_non_null_no_null(ns.drop_last(), i);
            assert(non_null(ns)[i] == p[i]);
        }
    }
}


// ---------------------------------------------------------------------------
// An XML schema line names every attribute.
// ---------------------------------------------------------------------------

proof fn lemma_attr_keys_has(ns: Seq<XmlNode>, j: int, m: int)
    requires
        0 <= j < ns.len(),
        0 <= m < ns[j].attributes@.len(),
    ensures
        attr_keys(ns).contains(ns[j].attributes@[m].0@),
    decreases ns.len(),
{
    let k = ns[j].attributes@[m].0@;
    let tail = ns.last().attributes@.map_values(|a: (String, String)| a.0@);
    assert(attr_keys(ns) == attr_keys(ns.drop_last()) + tail);
    if j < ns.len() - 1 {
        lemma_attr_keys_has(ns.drop_last(), j, m);
        assert(ns.drop_last()[j] == ns[j]);
        let i = choose|i: int| 0 <= i < attr_keys(ns.drop_last()).len() && attr_keys(ns.drop_last())[i] == k;
        assert(attr_keys(ns)[i] == k);
    } else {
        assert(ns.last() == ns[j]);
        assert(tail[m] == k);
        assert(attr_keys(ns)[attr_keys(ns.drop_last()).len() + m] == k);
    }
}

/// The schema line of the child elements named `name` names every
/// attribute that any of them carries.
pub proof fn lemma_xml_schema_line_names_every_attribute(
    ps: Seq<XmlNode>,
    name: Seq<char>,
    depth: nat,
    j: int,
    m: int,
)
    requires
        0 <= j < siblings(ps, name).len(),
        0 <= m < siblings(ps, name)[j].attributes@.len(),
    ensures
        contains_text(xml_child_text(ps, name, depth), siblings(ps, name)[j].attributes@[m].0@),
{
    let sib = siblings(ps, name);
    let key = sib[j].attributes@[m].0@;
    let attrs = dedup(attr_keys(sib));
    lemma_attr_keys_has(sib, j, m);
    lemma_dedup_contains(attr_keys(sib), key);
    let i = choose|i: int| 0 <= i < attrs.len() && attrs[i] == key;
    lemma_join_contains(attrs, ", "@, i);
    let jn = join(attrs, ", "@);
    lemma_contains_right(" ["@, jn, key);
    lemma_contains_left(" ["@ + jn, "]"@, key);
    let head = indent(depth) + name;
    let rep = if sib.len() > 1 {
        " (repeated)"@
    } else {
        Seq::<char>::empty()
    };
    lemma_contains_right(head, " ["@ + jn + "]"@, key);
    lemma_contains_left(head + (" ["@ + jn + "]"@), rep, key);
    lemma_contains_left(head + (" ["@ + jn + "]"@) + rep, "\n"@, key);
    let line = head + (" ["@ + jn + "]"@) + rep + "\n"@;
    assert(line == indent(depth) + name + (" ["@ + jn + "]"@) + rep + "\n"@);
    lemma_contains_left(
        line,
        xml_children_from(sib, dedup(names_of(all_children(sib))), 0, depth + 1),
        key,
    );
}

} // verus!
