//! Specs: the description of the parameter space that values inhabit.
use vstd::prelude::*;
use crate::real_key::{RealKey, is_valid_key};
use crate::seq_util::{find_key, key_pos, keys_distinct, string_keys, view_keys};
use crate::value;

verus! {

/// A spec, the root of a spec tree.
#[derive(Debug, PartialEq)]
pub struct Spec(pub Node);

/// A node of a spec tree. Map-like nodes hold their entries in order, each key
/// at most once.
#[derive(Debug, PartialEq)]
pub enum Node {
    Real { init: RealKey, scale: RealKey, min: Option<RealKey>, max: Option<RealKey> },
    Int { init: i64, scale: RealKey, min: Option<i64>, max: Option<i64> },
    Bool { init: bool },
    Sub { map: Vec<(String, Node)> },
    AnonMap {
        value_type: Box<Node>,
        init_size: usize,
        min_size: Option<usize>,
        max_size: Option<usize>,
    },
    Variant { map: Vec<(String, Node)>, init: String },
    Enum { values: Vec<String>, init: String },
    Optional { value_type: Box<Node>, init_present: bool },
    Const,
}

/// A spec node as seen in specifications.
pub enum NodeV {
    Real { init: RealKey, scale: RealKey, min: Option<RealKey>, max: Option<RealKey> },
    Int { init: i64, scale: RealKey, min: Option<i64>, max: Option<i64> },
    Bool { init: bool },
    Sub { map: Seq<(Seq<char>, NodeV)> },
    AnonMap {
        value_type: Box<NodeV>,
        init_size: usize,
        min_size: Option<usize>,
        max_size: Option<usize>,
    },
    Variant { map: Seq<(Seq<char>, NodeV)>, init: Seq<char> },
    Enum { values: Seq<Seq<char>>, init: Seq<char> },
    Optional { value_type: Box<NodeV>, init_present: bool },
    Const,
}

/// The view of the entries of a sub or variant node.
pub open spec fn map_view(m: Seq<(String, Node)>) -> Seq<(Seq<char>, NodeV)>
    decreases m,
{
    Seq::new(
        m.len(),
        |i: int| (m[i].0@, if 0 <= i < m.len() { node_view(m[i].1) } else { NodeV::Const }),
    )
}

/// The view of a spec node.
pub open spec fn node_view(n: Node) -> NodeV
    decreases n,
{
    match n {
        Node::Real { init, scale, min, max } => NodeV::Real { init, scale, min, max },
        Node::Int { init, scale, min, max } => NodeV::Int { init, scale, min, max },
        Node::Bool { init } => NodeV::Bool { init },
        Node::Sub { map } => NodeV::Sub { map: map_view(map@) },
        Node::AnonMap { value_type, init_size, min_size, max_size } => NodeV::AnonMap {
            value_type: Box::new(node_view(*value_type)),
            init_size,
            min_size,
            max_size,
        },
        Node::Variant { map, init } => NodeV::Variant { map: map_view(map@), init: init@ },
        Node::Enum { values, init } => NodeV::Enum {
            values: values@.map_values(|s: String| s@),
            init: init@,
        },
        Node::Optional { value_type, init_present } => NodeV::Optional {
            value_type: Box::new(node_view(*value_type)),
            init_present,
        },
        Node::Const => NodeV::Const,
    }
}

impl View for Node {
    type V = NodeV;

    open spec fn view(&self) -> NodeV {
        node_view(*self)
    }
}

impl View for Spec {
    type V = NodeV;

    open spec fn view(&self) -> NodeV {
        self.0@
    }
}

/// Whether a real number lies within optional bounds.
pub open spec fn real_within(x: RealKey, min: Option<RealKey>, max: Option<RealKey>) -> bool {
    (min matches Some(lo) ==> lo.0 <= x.0) && (max matches Some(hi) ==> x.0 <= hi.0)
}

/// Whether an integer lies within optional bounds.
pub open spec fn int_within(x: i64, min: Option<i64>, max: Option<i64>) -> bool {
    (min matches Some(lo) ==> lo <= x) && (max matches Some(hi) ==> x <= hi)
}

/// Whether a size lies within optional bounds.
pub open spec fn size_within(n: int, min: Option<usize>, max: Option<usize>) -> bool {
    (min matches Some(lo) ==> lo <= n) && (max matches Some(hi) ==> n <= hi)
}

/// Whether a real number is strictly positive.
pub open spec fn real_positive(x: RealKey) -> bool {
    x.0 > crate::real_key::SIGN_BIT
}

/// The well-formedness of a spec tree: everything that reading a spec checks.
pub open spec fn wf(s: NodeV) -> bool
    decreases s,
{
    match s {
        NodeV::Real { init, scale, min, max } => {
            &&& is_valid_key(init.0)
            &&& is_valid_key(scale.0)
            &&& (min matches Some(lo) ==> is_valid_key(lo.0))
            &&& (max matches Some(hi) ==> is_valid_key(hi.0))
            &&& (min matches Some(lo) ==> (max matches Some(hi) ==> lo.0 < hi.0))
            &&& real_within(init, min, max)
            &&& real_positive(scale)
        },
        NodeV::Int { init, scale, min, max } => {
            &&& is_valid_key(scale.0)
            &&& (min matches Some(lo) ==> (max matches Some(hi) ==> lo < hi))
            &&& int_within(init, min, max)
            &&& real_positive(scale)
        },
        NodeV::Bool { .. } => true,
        NodeV::Sub { map } => {
            &&& map.len() > 0
            &&& keys_distinct(view_keys(map))
            &&& forall|i: int| 0 <= i < map.len() ==> wf(#[trigger] map[i].1)
        },
        NodeV::AnonMap { value_type, init_size, min_size, max_size } => {
            &&& wf(*value_type)
            &&& (min_size matches Some(lo) ==> (max_size matches Some(hi) ==> lo < hi))
            &&& max_size != Some(0usize)
            &&& size_within(init_size as int, min_size, max_size)
        },
        NodeV::Variant { map, init } => {
            &&& map.len() >= 2
            &&& keys_distinct(view_keys(map))
            &&& view_keys(map).contains(init)
            &&& forall|i: int| 0 <= i < map.len() ==> wf(#[trigger] map[i].1)
        },
        NodeV::Enum { values, init } => values.len() >= 2 && values.contains(init),
        NodeV::Optional { value_type, .. } => wf(*value_type),
        NodeV::Const => true,
    }
}

/// Whether the initial value of a spec is defined: every variant on the way
/// names a known initial variant.
pub open spec fn initial_defined(s: NodeV) -> bool
    decreases s,
{
    match s {
        NodeV::Sub { map } => forall|i: int| 0 <= i < map.len() ==> initial_defined(#[trigger] map[i].1),
        NodeV::AnonMap { value_type, init_size, .. } => init_size == 0 || initial_defined(*value_type),
        NodeV::Variant { map, init } => {
            let i = key_pos(view_keys(map), init);
            0 <= i < map.len() && initial_defined(map[i].1)
        },
        NodeV::Optional { value_type, init_present } => !init_present || initial_defined(*value_type),
        _ => true,
    }
}

/// The initial values of the entries of a sub node.
pub open spec fn initial_entries(m: Seq<(Seq<char>, NodeV)>) -> Seq<(Seq<char>, value::NodeV)>
    decreases m, 1nat,
{
    Seq::new(
        m.len(),
        |i: int| (m[i].0, if 0 <= i < m.len() { initial(m[i].1) } else { value::NodeV::Const }),
    )
}

/// `n` entries holding `v` under the keys `0..n`.
pub open spec fn copies(n: usize, v: value::NodeV) -> Seq<(usize, value::NodeV)> {
    Seq::new(n as nat, |i: int| (i as usize, v))
}

/// The initial value of the initial variant of a variant node.
pub open spec fn initial_variant(map: Seq<(Seq<char>, NodeV)>, init: Seq<char>) -> value::NodeV
    decreases map, 1nat,
{
    let i = key_pos(view_keys(map), init);
    if 0 <= i < map.len() {
        value::NodeV::Variant(init, Box::new(initial(map[i].1)))
    } else {
        value::NodeV::Const
    }
}

/// The initial value of an optional node.
pub open spec fn initial_optional(value_type: NodeV, init_present: bool) -> value::NodeV
    decreases value_type, 1nat,
{
    value::NodeV::Optional(
        if init_present {
            Some(Box::new(initial(value_type)))
        } else {
            None
        },
    )
}

/// The initial value of a spec: every leaf at its initial value, anon maps
/// with `init_size` copies of their value type's initial value under the keys
/// `0..init_size`, variants at their initial variant, optionals present when
/// `init_present`.
pub open spec fn initial(s: NodeV) -> value::NodeV
    decreases s, 0nat,
{
    match s {
        NodeV::Real { init, .. } => value::NodeV::Real(init),
        NodeV::Int { init, .. } => value::NodeV::Int(init),
        NodeV::Bool { init } => value::NodeV::Bool(init),
        NodeV::Sub { map } => value::NodeV::Sub(initial_entries(map)),
        NodeV::AnonMap { value_type, init_size, .. } => value::NodeV::AnonMap(
            copies(init_size, initial(*value_type)),
        ),
        NodeV::Variant { map, init } => initial_variant(map, init),
        NodeV::Enum { init, .. } => value::NodeV::Enum(init),
        NodeV::Optional { value_type, init_present } => initial_optional(*value_type, init_present),
        NodeV::Const => value::NodeV::Const,
    }
}

impl Spec {
    /// The initial value of this spec (see `initial`).
    pub fn initial_value(&self) -> (r: value::Value)
        requires
            initial_defined(self@),
        ensures
            r@ == initial(self@),
    {
        value::Value(self.0.initial_value())
    }
}

/// The initial values of the entries of a sub node.
fn initial_sub_entries(map: &Vec<(String, Node)>) -> (r: Vec<(String, value::Node)>)
    requires
        forall|i: int| 0 <= i < map@.len() ==> initial_defined(#[trigger] node_view(map@[i].1)),
    ensures
        value::sub_entries_view(r@) == initial_entries(map_view(map@)),
    decreases map@, 0nat,
{
    let ghost mv = map_view(map@);
    let mut out: Vec<(String, value::Node)> = Vec::new();
    let mut i: usize = 0;
    while i < map.len()
        invariant
            i <= map@.len(),
            out@.len() == i,
            mv == map_view(map@),
            forall|j: int| 0 <= j < map@.len() ==> initial_defined(#[trigger] node_view(map@[j].1)),
            forall|j: int| 0 <= j < i ==> (#[trigger] out@[j]).0@ == map@[j].0@ && value::node_view(out@[j].1) == initial(node_view(map@[j].1)),
        decreases map.len() - i,
    {
        proof {
            assert(decreases_to!(map@ => map@[i as int]));
            assert(decreases_to!(map@[i as int] => map@[i as int].1));
        }
        let child = map[i].1.initial_value();
        out.push((map[i].0.clone(), child));
        i = i + 1;
    }
    assert(value::sub_entries_view(out@) =~= initial_entries(mv));
    out
}

impl Node {
    /// The initial value of this spec node (see `initial`).
    pub fn initial_value(&self) -> (r: value::Node)
        requires
            initial_defined(self@),
        ensures
            r@ == initial(self@),
        decreases self, 1nat,
    {
        match self {
            Node::Real { init, .. } => value::Node::Real(*init),
            Node::Int { init, .. } => value::Node::Int(*init),
            Node::Bool { init } => value::Node::Bool(*init),
            Node::AnonMap { value_type, init_size, .. } => {
                let mut mapping: Vec<(usize, value::Node)> = Vec::new();
                let ghost child = initial(node_view(**value_type));
                if *init_size > 0 {
                    let init_val = (**value_type).initial_value();
                    let mut key: usize = 0;
                    while key < *init_size
                        invariant
                            key <= *init_size,
                            mapping@.len() == key,
                            value::node_view(init_val) == child,
                            forall|j: int| 0 <= j < key ==> (#[trigger] mapping@[j]).0 == j && value::node_view(mapping@[j].1) == child,
                        decreases *init_size - key,
                    {
                        mapping.push((key, init_val.copy()));
                        key = key + 1;
                    }
                }
                assert(value::anon_entries_view(mapping@) =~= copies(*init_size, child));
                value::Node::AnonMap(mapping)
            },
            Node::Sub { map } => {
                proof {
                    assert(decreases_to!(*self => (*self)->Sub_map));
                    assert(decreases_to!((*self)->Sub_map => map@));
                    assert(self@ == (NodeV::Sub { map: map_view(map@) }));
                    assert forall|i: int| 0 <= i < map@.len() implies initial_defined(#[trigger] node_view(map@[i].1)) by {
                        assert(map_view(map@)[i].1 == node_view(map@[i].1));
                    }
                }
                let entries = initial_sub_entries(map);
                value::Node::Sub(entries)
            },
            Node::Variant { map, init } => {
                let pos = find_key(map, init.as_str());
                proof {
                    assert(self@ == (NodeV::Variant { map: map_view(map@), init: init@ }));
                    assert(string_keys(map@) =~= view_keys(map_view(map@)));
                }
                match pos {
                    Some(i) => {
                        proof {
                            assert(decreases_to!(*self => (*self)->Variant_map));
                            assert(decreases_to!((*self)->Variant_map => map@));
                            assert(decreases_to!(map@ => map@[i as int]));
                            assert(decreases_to!(map@[i as int] => map@[i as int].1));
                            assert(map_view(map@)[i as int].1 == node_view(map@[i as int].1));
                        }
                        let child = map[i].1.initial_value();
                        let r = value::Node::Variant(init.clone(), Box::new(child));
                        assert(initial(self@) == initial_variant(map_view(map@), init@));
                        assert(r@ == value::NodeV::Variant(init@, Box::new(value::node_view(child))));
                        r
                    },
                    None => {
                        assert(initial(self@) == initial_variant(map_view(map@), init@));
                        value::Node::Const
                    },
                }
            },
            Node::Enum { init, .. } => value::Node::Enum(init.clone()),
            Node::Optional { value_type, init_present } => {
                let ghost vt = node_view(**value_type);
                assert(self@ == (NodeV::Optional { value_type: Box::new(vt), init_present: *init_present }));
                if *init_present {
                    let c = (**value_type).initial_value();
                    let r = value::Node::Optional(Some(Box::new(c)));
                    assert(value::optional_view(Some(Box::new(c))) == Some(Box::new(value::node_view(c))));
                    assert(initial_optional(vt, true) == value::NodeV::Optional(Some(Box::new(initial(vt)))));
                    r
                } else {
                    assert(value::optional_view(None) == None::<Box<value::NodeV>>);
                    assert(initial_optional(vt, false) == value::NodeV::Optional(None));
                    value::Node::Optional(None)
                }
            },
            Node::Const => value::Node::Const,
        }
    }
}

} // verus!
