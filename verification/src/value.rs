//! Values: the parameter sets that the algorithm evaluates, shaped by a spec.
use vstd::prelude::*;
use crate::real_key::RealKey;
use crate::doc::{JsonDoc, JsonDocV, JsonNumber, json_view, members_view};
use crate::number_text::{decimal, usize_to_decimal};
use crate::seq_util::{keys_distinct, plain_keys, key_pos, view_keys};
use crate::spec;

verus! {

/// A value, the root of a value tree.
#[derive(Debug, PartialEq)]
pub struct Value(pub Node);

/// A node of a value tree. Map-like nodes hold their entries in order, each
/// key at most once.
#[derive(Debug, PartialEq)]
pub enum Node {
    Real(RealKey),
    Int(i64),
    Bool(bool),
    Sub(Vec<(String, Node)>),
    AnonMap(Vec<(usize, Node)>),
    Variant(String, Box<Node>),
    Enum(String),
    Optional(Option<Box<Node>>),
    Const,
}

/// A value node as seen in specifications.
pub enum NodeV {
    Real(RealKey),
    Int(i64),
    Bool(bool),
    Sub(Seq<(Seq<char>, NodeV)>),
    AnonMap(Seq<(usize, NodeV)>),
    Variant(Seq<char>, Box<NodeV>),
    Enum(Seq<char>),
    Optional(Option<Box<NodeV>>),
    Const,
}

/// The view of the entries of a sub node.
pub open spec fn sub_entries_view(m: Seq<(String, Node)>) -> Seq<(Seq<char>, NodeV)>
    decreases m,
{
    Seq::new(
        m.len(),
        |i: int| (m[i].0@, if 0 <= i < m.len() { node_view(m[i].1) } else { NodeV::Const }),
    )
}

/// The view of the entries of an anon map node.
pub open spec fn anon_entries_view(m: Seq<(usize, Node)>) -> Seq<(usize, NodeV)>
    decreases m,
{
    Seq::new(
        m.len(),
        |i: int| (m[i].0, if 0 <= i < m.len() { node_view(m[i].1) } else { NodeV::Const }),
    )
}

/// The view of the content of an optional node.
pub open spec fn optional_view(o: Option<Box<Node>>) -> Option<Box<NodeV>>
    decreases o,
{
    match o {
        Some(child) => Some(Box::new(node_view(*child))),
        None => None,
    }
}

/// The view of a value node.
pub open spec fn node_view(n: Node) -> NodeV
    decreases n,
{
        match n {
            Node::Real(x) => NodeV::Real(x),
            Node::Int(x) => NodeV::Int(x),
            Node::Bool(b) => NodeV::Bool(b),
            Node::Sub(m) => NodeV::Sub(sub_entries_view(m@)),
            Node::AnonMap(m) => NodeV::AnonMap(anon_entries_view(m@)),
            Node::Variant(name, child) => NodeV::Variant(name@, Box::new(node_view(*child))),
            Node::Enum(name) => NodeV::Enum(name@),
            Node::Optional(o) => NodeV::Optional(optional_view(o)),
            Node::Const => NodeV::Const,
        }
}

impl View for Node {
    type V = NodeV;

    open spec fn view(&self) -> NodeV {
        node_view(*self)
    }
}

/// A copy of sub entries.
fn copy_sub_entries(m: &Vec<(String, Node)>) -> (r: Vec<(String, Node)>)
    ensures
        sub_entries_view(r@) == sub_entries_view(m@),
    decreases m@, 0nat,
{
    let mut out: Vec<(String, Node)> = Vec::new();
    let mut i: usize = 0;
    while i < m.len()
        invariant
            i <= m@.len(),
            out@.len() == i,
            forall|j: int| 0 <= j < i ==> (#[trigger] out@[j]).0@ == m@[j].0@ && node_view(out@[j].1) == node_view(m@[j].1),
        decreases m.len() - i,
    {
        proof {
            assert(decreases_to!(m@ => m@[i as int]));
            assert(decreases_to!(m@[i as int] => m@[i as int].1));
        }
        let child = m[i].1.copy();
        out.push((m[i].0.clone(), child));
        i = i + 1;
    }
    assert(sub_entries_view(out@) =~= sub_entries_view(m@));
    out
}

/// A copy of anon map entries.
fn copy_anon_entries(m: &Vec<(usize, Node)>) -> (r: Vec<(usize, Node)>)
    ensures
        anon_entries_view(r@) == anon_entries_view(m@),
    decreases m@, 0nat,
{
    let mut out: Vec<(usize, Node)> = Vec::new();
    let mut i: usize = 0;
    while i < m.len()
        invariant
            i <= m@.len(),
            out@.len() == i,
            forall|j: int| 0 <= j < i ==> (#[trigger] out@[j]).0 == m@[j].0 && node_view(out@[j].1) == node_view(m@[j].1),
        decreases m.len() - i,
    {
        proof {
            assert(decreases_to!(m@ => m@[i as int]));
            assert(decreases_to!(m@[i as int] => m@[i as int].1));
        }
        let child = m[i].1.copy();
        out.push((m[i].0, child));
        i = i + 1;
    }
    assert(anon_entries_view(out@) =~= anon_entries_view(m@));
    out
}

impl Node {
    /// A copy of this node.
    pub fn copy(&self) -> (r: Node)
        ensures
            r@ == self@,
        decreases self, 1nat,
    {
        match self {
            Node::Real(x) => Node::Real(*x),
            Node::Int(x) => Node::Int(*x),
            Node::Bool(b) => Node::Bool(*b),
            Node::Sub(m) => {
                proof {
                    assert(decreases_to!(*self => (*self)->Sub_0));
                    assert(decreases_to!((*self)->Sub_0 => m@));
                }
                Node::Sub(copy_sub_entries(m))
            },
            Node::AnonMap(m) => {
                proof {
                    assert(decreases_to!(*self => (*self)->AnonMap_0));
                    assert(decreases_to!((*self)->AnonMap_0 => m@));
                }
                Node::AnonMap(copy_anon_entries(m))
            },
            Node::Variant(name, child) => Node::Variant(name.clone(), Box::new((**child).copy())),
            Node::Enum(name) => Node::Enum(name.clone()),
            Node::Optional(o) => match o {
                Some(child) => {
                    let c = (**child).copy();
                    let r = Node::Optional(Some(Box::new(c)));
                    assert(optional_view(Some(Box::new(c))) == Some(Box::new(node_view(c))));
                    assert(optional_view(*o) == Some(Box::new(node_view(**child))));
                    r
                },
                None => {
                    assert(optional_view(*o) == None::<Box<NodeV>>);
                    Node::Optional(None)
                },
            },
            Node::Const => Node::Const,
        }
    }
}


// ---------------------------------------------------------------------------
// JSON documents of values
// ---------------------------------------------------------------------------

/// The JSON members of sub entries.
pub open spec fn sub_members(es: Seq<(Seq<char>, NodeV)>) -> Seq<(Seq<char>, JsonDocV)>
    decreases es, 1nat,
{
    Seq::new(
        es.len(),
        |i: int| (es[i].0, if 0 <= i < es.len() { spec_to_json(es[i].1) } else { JsonDocV::Null }),
    )
}

/// The JSON members of anon map entries: keys as decimal text.
pub open spec fn anon_members(es: Seq<(usize, NodeV)>) -> Seq<(Seq<char>, JsonDocV)>
    decreases es, 1nat,
{
    Seq::new(
        es.len(),
        |i: int| (decimal(es[i].0 as nat), if 0 <= i < es.len() { spec_to_json(es[i].1) } else { JsonDocV::Null }),
    )
}

/// The JSON document of a value: a real or an integer as a number (an integer
/// carries only its integer reading), sub and anon map nodes as objects (anon
/// map keys as decimal text), a variant as an object with one member, an enum
/// as its name, an absent optional and a const as null, a present optional as
/// its content.
pub open spec fn spec_to_json(v: NodeV) -> JsonDocV
    decreases v, 0nat,
{
    match v {
        NodeV::Real(x) => JsonDocV::Number(JsonNumber { as_i64: None, as_real: Some(x) }),
        NodeV::Int(x) => JsonDocV::Number(JsonNumber { as_i64: Some(x), as_real: None }),
        NodeV::Bool(b) => JsonDocV::Bool(b),
        NodeV::Sub(es) => JsonDocV::Object(sub_members(es)),
        NodeV::AnonMap(es) => JsonDocV::Object(anon_members(es)),
        NodeV::Variant(name, child) => JsonDocV::Object(seq![(name, spec_to_json(*child))]),
        NodeV::Enum(name) => JsonDocV::Str(name),
        NodeV::Optional(o) => match o {
            Some(child) => spec_to_json(*child),
            None => JsonDocV::Null,
        },
        NodeV::Const => JsonDocV::Null,
    }
}

/// The JSON members of sub entries.
fn sub_to_json(es: &Vec<(String, Node)>) -> (r: Vec<(String, JsonDoc)>)
    ensures
        members_view(r@) == sub_members(sub_entries_view(es@)),
    decreases es@, 0nat,
{
    let ghost ev = sub_entries_view(es@);
    let mut out: Vec<(String, JsonDoc)> = Vec::new();
    let mut i: usize = 0;
    while i < es.len()
        invariant
            i <= es@.len(),
            out@.len() == i,
            ev == sub_entries_view(es@),
            forall|j: int| 0 <= j < i ==> (#[trigger] out@[j]).0@ == es@[j].0@ && json_view(out@[j].1) == spec_to_json(node_view(es@[j].1)),
        decreases es.len() - i,
    {
        proof {
            assert(decreases_to!(es@ => es@[i as int]));
            assert(decreases_to!(es@[i as int] => es@[i as int].1));
        }
        let child = es[i].1.to_json();
        out.push((es[i].0.clone(), child));
        i = i + 1;
    }
    assert(members_view(out@) =~= sub_members(ev));
    out
}

/// The JSON members of anon map entries.
fn anon_to_json(es: &Vec<(usize, Node)>) -> (r: Vec<(String, JsonDoc)>)
    ensures
        members_view(r@) == anon_members(anon_entries_view(es@)),
    decreases es@, 0nat,
{
    let ghost ev = anon_entries_view(es@);
    let mut out: Vec<(String, JsonDoc)> = Vec::new();
    let mut i: usize = 0;
    while i < es.len()
        invariant
            i <= es@.len(),
            out@.len() == i,
            ev == anon_entries_view(es@),
            forall|j: int| 0 <= j < i ==> (#[trigger] out@[j]).0@ == decimal(es@[j].0 as nat) && json_view(out@[j].1) == spec_to_json(node_view(es@[j].1)),
        decreases es.len() - i,
    {
        proof {
            assert(decreases_to!(es@ => es@[i as int]));
            assert(decreases_to!(es@[i as int] => es@[i as int].1));
        }
        let child = es[i].1.to_json();
        out.push((usize_to_decimal(es[i].0), child));
        i = i + 1;
    }
    assert(members_view(out@) =~= anon_members(ev));
    out
}

impl Node {
    /// The JSON document of this value node (see `spec_to_json`).
    pub fn to_json(&self) -> (r: JsonDoc)
        ensures
            r@ == spec_to_json(self@),
        decreases self, 1nat,
    {
        match self {
            Node::Real(x) => JsonDoc::Number(JsonNumber { as_i64: None, as_real: Some(*x) }),
            Node::Int(x) => JsonDoc::Number(JsonNumber { as_i64: Some(*x), as_real: None }),
            Node::Bool(b) => JsonDoc::Bool(*b),
            Node::Sub(es) => {
                proof {
                    assert(decreases_to!(*self => (*self)->Sub_0));
                    assert(decreases_to!((*self)->Sub_0 => es@));
                }
                let members = sub_to_json(es);
                let ghost mv = members_view(members@);
                let r = JsonDoc::Object(members);
                assert(r@ == JsonDocV::Object(mv));
                assert(self@ == NodeV::Sub(sub_entries_view(es@)));
                r
            },
            Node::AnonMap(es) => {
                proof {
                    assert(decreases_to!(*self => (*self)->AnonMap_0));
                    assert(decreases_to!((*self)->AnonMap_0 => es@));
                }
                let members = anon_to_json(es);
                let ghost mv = members_view(members@);
                let r = JsonDoc::Object(members);
                assert(r@ == JsonDocV::Object(mv));
                assert(self@ == NodeV::AnonMap(anon_entries_view(es@)));
                r
            },
            Node::Variant(name, child) => {
                let c = (**child).to_json();
                let mut members: Vec<(String, JsonDoc)> = Vec::new();
                let ghost cv = c@;
                members.push((name.clone(), c));
                let ghost mv = members_view(members@);
                assert(mv =~= seq![(name@, cv)]);
                let r = JsonDoc::Object(members);
                assert(r@ == JsonDocV::Object(mv));
                r
            },
            Node::Enum(name) => JsonDoc::Str(name.clone()),
            Node::Optional(o) => match o {
                Some(child) => {
                    assert(optional_view(*o) == Some(Box::new(node_view(**child))));
                    (**child).to_json()
                },
                None => {
                    assert(optional_view(*o) == None::<Box<NodeV>>);
                    JsonDoc::Null
                },
            },
            Node::Const => JsonDoc::Null,
        }
    }
}

impl Value {
    /// The JSON document of this value (see `spec_to_json`).
    pub fn to_json(&self) -> (r: JsonDoc)
        ensures
            r@ == spec_to_json(self@),
    {
        self.0.to_json()
    }
}

// ---------------------------------------------------------------------------
// Conformance to a spec
// ---------------------------------------------------------------------------

/// Whether a value has the shape that a spec describes: leaves of the right
/// kind within their bounds, sub entries with the spec's keys in the spec's
/// order, anon maps with distinct keys, variants and enums with known names.
/// Sizes of anon maps are not part of it: reading a value does not check them.
pub open spec fn conforms(v: NodeV, s: spec::NodeV) -> bool
    decreases v,
{
    match s {
        spec::NodeV::Real { min, max, .. } => v matches NodeV::Real(x) && spec::real_within(x, min, max),
        spec::NodeV::Int { min, max, .. } => v matches NodeV::Int(x) && spec::int_within(x, min, max),
        spec::NodeV::Bool { .. } => v is Bool,
        spec::NodeV::Sub { map } => match v {
            NodeV::Sub(es) => {
                &&& es.len() == map.len()
                &&& forall|i: int| 0 <= i < es.len() ==> (#[trigger] es[i]).0 == map[i].0 && conforms(es[i].1, map[i].1)
            },
            _ => false,
        },
        spec::NodeV::AnonMap { value_type, .. } => match v {
            NodeV::AnonMap(es) => {
                &&& keys_distinct(plain_keys(es))
                &&& forall|i: int| 0 <= i < es.len() ==> conforms(#[trigger] es[i].1, *value_type)
            },
            _ => false,
        },
        spec::NodeV::Variant { map, .. } => match v {
            NodeV::Variant(name, child) => {
                let i = key_pos(view_keys(map), name);
                0 <= i < map.len() && conforms(*child, map[i].1)
            },
            _ => false,
        },
        spec::NodeV::Enum { values, .. } => v matches NodeV::Enum(name) && values.contains(name),
        spec::NodeV::Optional { value_type, .. } => match v {
            NodeV::Optional(o) => match o {
                Some(child) => conforms(*child, *value_type),
                None => true,
            },
            _ => false,
        },
        spec::NodeV::Const => v is Const,
    }
}

/// Whether every anon map in a value has a number of entries within the
/// size bounds of its spec node, where the value has the spec's shape.
pub open spec fn sizes_within(v: NodeV, s: spec::NodeV) -> bool
    decreases v,
{
    match s {
        spec::NodeV::Sub { map } => match v {
            NodeV::Sub(es) => forall|i: int| 0 <= i < es.len() && i < map.len() ==> sizes_within(#[trigger] es[i].1, map[i].1),
            _ => true,
        },
        spec::NodeV::AnonMap { value_type, min_size, max_size, .. } => match v {
            NodeV::AnonMap(es) => {
                &&& spec::size_within(es.len() as int, min_size, max_size)
                &&& forall|i: int| 0 <= i < es.len() ==> sizes_within(#[trigger] es[i].1, *value_type)
            },
            _ => true,
        },
        spec::NodeV::Variant { map, .. } => match v {
            NodeV::Variant(name, child) => {
                let i = key_pos(view_keys(map), name);
                0 <= i < map.len() ==> sizes_within(*child, map[i].1)
            },
            _ => true,
        },
        spec::NodeV::Optional { value_type, .. } => match v {
            NodeV::Optional(o) => match o {
                Some(child) => sizes_within(*child, *value_type),
                None => true,
            },
            _ => true,
        },
        _ => true,
    }
}

/// Whether a value's JSON document is null: a const, an absent optional, or a
/// present optional whose content is one of these.
pub open spec fn renders_null(v: NodeV) -> bool
    decreases v,
{
    match v {
        NodeV::Const => true,
        NodeV::Optional(o) => match o {
            Some(child) => renders_null(*child),
            None => true,
        },
        _ => false,
    }
}

/// Whether no present optional in a value holds content whose JSON document is
/// null (such content cannot be told apart from absence in JSON).
pub open spec fn json_distinguishable(v: NodeV) -> bool
    decreases v,
{
    match v {
        NodeV::Sub(es) => forall|i: int| 0 <= i < es.len() ==> json_distinguishable(#[trigger] es[i].1),
        NodeV::AnonMap(es) => forall|i: int| 0 <= i < es.len() ==> json_distinguishable(#[trigger] es[i].1),
        NodeV::Variant(_, child) => json_distinguishable(*child),
        NodeV::Optional(o) => match o {
            Some(child) => !renders_null(*child) && json_distinguishable(*child),
            None => true,
        },
        _ => true,
    }
}

impl View for Value {
    type V = NodeV;

    open spec fn view(&self) -> NodeV {
        self.0@
    }
}

} // verus!
