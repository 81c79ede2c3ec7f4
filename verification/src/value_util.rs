//! Reading a value from a JSON document, checked against a spec.
use vstd::prelude::*;
use crate::common_util::{format_path, path_view, spec_format_path};
use crate::doc::{JsonDoc, JsonDocV, json_view, items_view, members_view};
use crate::text::{parse_json, parsed_json};
use crate::error::{Error, ErrorV, result_view};
use crate::number_text::{decimal, parse_usize, spec_parse_usize, usize_to_decimal};
use crate::seq_util::{key_pos, lemma_key_pos, view_keys, plain_keys, find_key, string_keys};
use crate::spec;
use crate::value::{Node, NodeV, Value, sub_entries_view, anon_entries_view, node_view, optional_view};

verus! {

// ---------------------------------------------------------------------------
// Specification
// ---------------------------------------------------------------------------

/// The number of items or members of a JSON document.
pub open spec fn json_len(j: JsonDocV) -> nat {
    match j {
        JsonDocV::Array(items) => items.len(),
        JsonDocV::Object(members) => members.len(),
        _ => 0,
    }
}

/// The number of entries of a sub spec node.
pub open spec fn spec_map_len(s: spec::NodeV) -> nat {
    match s {
        spec::NodeV::Sub { map } => map.len(),
        _ => 0,
    }
}

/// The error for a document of the wrong kind.
pub open spec fn err_wrong_type(path: Seq<Seq<char>>, type_hint: Seq<char>) -> ErrorV {
    ErrorV::WrongTypeForValue { path_hint: spec_format_path(path), type_hint }
}

/// The position of the first member whose key the spec does not know, or -1.
pub open spec fn unexpected_pos(members: Seq<(Seq<char>, JsonDocV)>, keys: Seq<Seq<char>>) -> int {
    key_pos(members.map_values(|m: (Seq<char>, JsonDocV)| keys.contains(m.0)), false)
}

/// An anon map with `k` bound to `v`: the value replaced where `k` is already
/// a key, the pair appended otherwise.
pub open spec fn anon_insert(m: Seq<(usize, NodeV)>, k: usize, v: NodeV) -> Seq<(usize, NodeV)> {
    let i = key_pos(plain_keys(m), k);
    if 0 <= i < m.len() {
        m.update(i, (k, v))
    } else {
        m.push((k, v))
    }
}

/// The entries of a sub value read for the first `n` entries of the sub spec
/// `s`, in the spec's order.
pub open spec fn sub_prefix(members: Seq<(Seq<char>, JsonDocV)>, s: spec::NodeV, n: int, path: Seq<Seq<char>>) -> Result<Seq<(Seq<char>, NodeV)>, ErrorV>
    decreases s, n,
{
    match s {
        spec::NodeV::Sub { map } => if n <= 0 || n > map.len() {
            Ok(Seq::empty())
        } else {
            match sub_prefix(members, s, n - 1, path) {
                Err(e) => Err(e),
                Ok(acc) => {
                    let key = map[n - 1].0;
                    let child_path = path.push(key);
                    let pos = key_pos(view_keys(members), key);
                    if 0 <= pos < members.len() {
                        match spec_from_json(members[pos].1, map[n - 1].1, child_path) {
                            Err(e) => Err(e),
                            Ok(child) => Ok(acc.push((key, child))),
                        }
                    } else {
                        Err(ErrorV::MandatoryValueMissing { path_hint: spec_format_path(child_path) })
                    }
                },
            }
        },
        _ => Ok(Seq::empty()),
    }
}

/// The entries of an anon map value read from the first `n` items of a JSON
/// array, keyed by position.
pub open spec fn array_prefix(items: Seq<JsonDocV>, s: spec::NodeV, n: int, path: Seq<Seq<char>>) -> Result<Seq<(usize, NodeV)>, ErrorV>
    decreases s, n,
{
    match s {
        spec::NodeV::AnonMap { value_type, .. } => if n <= 0 || n > items.len() || n > usize::MAX + 1 {
            Ok(Seq::empty())
        } else {
            match array_prefix(items, s, n - 1, path) {
                Err(e) => Err(e),
                Ok(acc) => match spec_from_json(items[n - 1], *value_type, path.push(decimal((n - 1) as nat))) {
                    Err(e) => Err(e),
                    Ok(child) => Ok(anon_insert(acc, (n - 1) as usize, child)),
                },
            }
        },
        _ => Ok(Seq::empty()),
    }
}

/// The entries of an anon map value read from the first `n` members of a JSON
/// object, whose keys must read as `usize`.
pub open spec fn object_prefix(members: Seq<(Seq<char>, JsonDocV)>, s: spec::NodeV, n: int, path: Seq<Seq<char>>) -> Result<Seq<(usize, NodeV)>, ErrorV>
    decreases s, n,
{
    match s {
        spec::NodeV::AnonMap { value_type, .. } => if n <= 0 || n > members.len() {
            Ok(Seq::empty())
        } else {
            match object_prefix(members, s, n - 1, path) {
                Err(e) => Err(e),
                Ok(acc) => match spec_parse_usize(members[n - 1].0) {
                    None => Err(ErrorV::InvalidAnonMapKey { path_hint: spec_format_path(path) }),
                    Some(k) => match spec_from_json(members[n - 1].1, *value_type, path.push(members[n - 1].0)) {
                        Err(e) => Err(e),
                        Ok(child) => Ok(anon_insert(acc, k, child)),
                    },
                },
            }
        },
        _ => Ok(Seq::empty()),
    }
}

/// The value that a JSON document denotes under a spec node at a path, or the
/// first problem found.
pub open spec fn spec_from_json(j: JsonDocV, s: spec::NodeV, path: Seq<Seq<char>>) -> Result<NodeV, ErrorV>
    decreases s, json_len(j) + spec_map_len(s) + 1,
{
    let hint = spec_format_path(path);
    match s {
        spec::NodeV::Real { min, max, .. } => match j {
            JsonDocV::Number(n) => match n.as_real {
                None => Err(ErrorV::NumberConversionFailed { path_hint: hint }),
                Some(x) => if spec::real_within(x, min, max) {
                    Ok(NodeV::Real(x))
                } else {
                    Err(ErrorV::ValueNotWithinBounds { path_hint: hint })
                },
            },
            _ => Err(err_wrong_type(path, "a real number"@)),
        },
        spec::NodeV::Int { min, max, .. } => match j {
            JsonDocV::Number(n) => match n.as_i64 {
                None => Err(ErrorV::NumberConversionFailed { path_hint: hint }),
                Some(x) => if spec::int_within(x, min, max) {
                    Ok(NodeV::Int(x))
                } else {
                    Err(ErrorV::ValueNotWithinBounds { path_hint: hint })
                },
            },
            _ => Err(err_wrong_type(path, "integer"@)),
        },
        spec::NodeV::Bool { .. } => match j {
            JsonDocV::Bool(b) => Ok(NodeV::Bool(b)),
            _ => Err(err_wrong_type(path, "a boolean"@)),
        },
        spec::NodeV::Sub { map } => match j {
            JsonDocV::Object(members) => {
                let u = unexpected_pos(members, view_keys(map));
                if 0 <= u < members.len() {
                    Err(ErrorV::UnexpectedKey { path_hint: hint, key: members[u].0 })
                } else {
                    match sub_prefix(members, s, map.len() as int, path) {
                        Err(e) => Err(e),
                        Ok(entries) => Ok(NodeV::Sub(entries)),
                    }
                }
            },
            _ => Err(err_wrong_type(path, "map"@)),
        },
        spec::NodeV::AnonMap { .. } => match j {
            JsonDocV::Array(items) => match array_prefix(items, s, items.len() as int, path) {
                Err(e) => Err(e),
                Ok(entries) => Ok(NodeV::AnonMap(entries)),
            },
            JsonDocV::Object(members) => match object_prefix(members, s, members.len() as int, path) {
                Err(e) => Err(e),
                Ok(entries) => Ok(NodeV::AnonMap(entries)),
            },
            _ => Err(err_wrong_type(path, "array or map"@)),
        },
        spec::NodeV::Variant { map, .. } => match j {
            JsonDocV::Object(members) => if members.len() == 1 {
                let name = members[0].0;
                let pos = key_pos(view_keys(map), name);
                if 0 <= pos < map.len() {
                    match spec_from_json(members[0].1, map[pos].1, path.push(name)) {
                        Err(e) => Err(e),
                        Ok(child) => Ok(NodeV::Variant(name, Box::new(child))),
                    }
                } else {
                    Err(ErrorV::UnknownVariant { path_hint: hint, variant_name: name })
                }
            } else {
                Err(ErrorV::OnlyOneVariantAllowed { path_hint: hint })
            },
            _ => Err(err_wrong_type(path, "map"@)),
        },
        spec::NodeV::Enum { values, .. } => match j {
            JsonDocV::Str(v) => if values.contains(v) {
                Ok(NodeV::Enum(v))
            } else {
                Err(ErrorV::UnknownValue { path_hint: hint, value: v })
            },
            _ => Err(err_wrong_type(path, "string"@)),
        },
        spec::NodeV::Optional { value_type, .. } => match j {
            JsonDocV::Null => Ok(NodeV::Optional(None)),
            _ => match spec_from_json(j, *value_type, path) {
                Err(e) => Err(e),
                Ok(child) => Ok(NodeV::Optional(Some(Box::new(child)))),
            },
        },
        spec::NodeV::Const => match j {
            JsonDocV::Null => Ok(NodeV::Const),
            _ => Err(err_wrong_type(path, "null"@)),
        },
    }
}


// ---------------------------------------------------------------------------
// Lemmas on the folds above
// ---------------------------------------------------------------------------

/// Once a prefix of a sub's entries has a problem, every longer one has it.
pub proof fn lemma_sub_prefix_err(members: Seq<(Seq<char>, JsonDocV)>, s: spec::NodeV, i: int, n: int, path: Seq<Seq<char>>)
    requires
        s is Sub,
        0 <= i <= n <= s->Sub_map.len(),
        sub_prefix(members, s, i, path) is Err,
    ensures
        sub_prefix(members, s, n, path) == sub_prefix(members, s, i, path),
    decreases n - i,
{
    if i < n {
        lemma_sub_prefix_err(members, s, i, n - 1, path);
    }
}

/// Once a prefix of an array's items has a problem, every longer one has it.
pub proof fn lemma_array_prefix_err(items: Seq<JsonDocV>, s: spec::NodeV, i: int, n: int, path: Seq<Seq<char>>)
    requires
        s is AnonMap,
        0 <= i <= n <= items.len(),
        n <= usize::MAX + 1,
        array_prefix(items, s, i, path) is Err,
    ensures
        array_prefix(items, s, n, path) == array_prefix(items, s, i, path),
    decreases n - i,
{
    if i < n {
        lemma_array_prefix_err(items, s, i, n - 1, path);
    }
}

/// Once a prefix of an object's members has a problem, every longer one has it.
pub proof fn lemma_object_prefix_err(members: Seq<(Seq<char>, JsonDocV)>, s: spec::NodeV, i: int, n: int, path: Seq<Seq<char>>)
    requires
        s is AnonMap,
        0 <= i <= n <= members.len(),
        object_prefix(members, s, i, path) is Err,
    ensures
        object_prefix(members, s, n, path) == object_prefix(members, s, i, path),
    decreases n - i,
{
    if i < n {
        lemma_object_prefix_err(members, s, i, n - 1, path);
    }
}

// ---------------------------------------------------------------------------
// Executable reading
// ---------------------------------------------------------------------------

/// The path shown in messages.
fn hint(path: &Vec<&str>) -> (r: String)
    ensures
        r@ == spec_format_path(path_view(path@)),
{
    format_path(path.as_slice())
}

/// The path of a child.
fn child_path<'a>(path: &Vec<&'a str>, key: &'a str) -> (r: Vec<&'a str>)
    ensures
        path_view(r@) == path_view(path@).push(key@),
{
    let mut out: Vec<&'a str> = Vec::new();
    let mut i: usize = 0;
    while i < path.len()
        invariant
            i <= path@.len(),
            out@ == path@.take(i as int),
        decreases path.len() - i,
    {
        out.push(path[i]);
        proof {
            assert(path@.take(i as int + 1) =~= path@.take(i as int).push(path@[i as int]));
        }
        i = i + 1;
    }
    assert(path@.take(path@.len() as int) =~= path@);
    out.push(key);
    assert(path_view(out@) =~= path_view(path@).push(key@));
    out
}

/// The error for a document of the wrong kind.
fn wrong_type(path: &Vec<&str>, type_hint: &str) -> (e: Error)
    ensures
        e@ == err_wrong_type(path_view(path@), type_hint@),
{
    Error::WrongTypeForValue { path_hint: hint(path), type_hint: type_hint.to_owned() }
}

/// Binds `k` to `v` in an anon map (see `anon_insert`).
pub(crate) fn insert_entry(m: &mut Vec<(usize, Node)>, k: usize, v: Node)
    ensures
        anon_entries_view(final(m)@) == anon_insert(anon_entries_view(old(m)@), k, v@),
{
    let ghost mv = anon_entries_view(m@);
    let ghost keys = plain_keys(mv);
    let ghost vv = v@;
    let mut i: usize = 0;
    while i < m.len()
        invariant
            i <= m@.len(),
            mv == anon_entries_view(m@),
            keys == plain_keys(mv),
            vv == v@,
            mv == anon_entries_view(old(m)@),
            m@ == old(m)@,
            forall|j: int| 0 <= j < i ==> keys[j] != k,
        decreases m.len() - i,
    {
        if m[i].0 == k {
            proof {
                lemma_key_pos(keys, k);
                assert(keys[i as int] == k);
                assert(keys.contains(k));
            }
            let ghost pre = m@;
            m.set(i, (k, v));
            assert(m@ == pre.update(i as int, (k, v)));
            assert forall|j: int| 0 <= j < m@.len() implies #[trigger] anon_entries_view(m@)[j] == mv.update(i as int, (k, vv))[j] by {
                if j != i {
                    assert(m@[j] == pre[j]);
                    assert(anon_entries_view(pre)[j] == (pre[j].0, node_view(pre[j].1)));
                } else {
                    assert(m@[j].1@ == vv);
                    assert(anon_entries_view(m@)[j] == (m@[j].0, node_view(m@[j].1)));
                }
            }
            assert(anon_entries_view(m@) =~= mv.update(i as int, (k, vv)));
            return;
        }
        i = i + 1;
    }
    proof {
        lemma_key_pos(keys, k);
        if keys.contains(k) {
            let j = choose|j: int| 0 <= j < keys.len() && keys[j] == k;
            assert(keys[j] != k);
        }
    }
    m.push((k, v));
    assert(anon_entries_view(m@) =~= mv.push((k, vv)));
}

/// Reads the entries of a sub value, in the spec's order.
fn build_sub_entries<'a>(
    members: &'a Vec<(String, JsonDoc)>,
    s: &'a spec::Node,
    map: &'a Vec<(String, spec::Node)>,
    path: &Vec<&'a str>,
) -> (r: Result<Vec<(String, Node)>, Error>)
    requires
        *s == (spec::Node::Sub { map: *map }),
    ensures
        match r {
            Ok(v) => sub_prefix(members_view(members@), s@, map@.len() as int, path_view(path@)) == Ok::<Seq<(Seq<char>, NodeV)>, ErrorV>(sub_entries_view(v@)),
            Err(e) => sub_prefix(members_view(members@), s@, map@.len() as int, path_view(path@)) == Err::<Seq<(Seq<char>, NodeV)>, ErrorV>(e@),
        },
    decreases s, 1nat,
{
    let ghost mv = members_view(members@);
    let ghost sv = s@;
    let ghost pv = path_view(path@);
    assert(sv == (spec::NodeV::Sub { map: spec::map_view(map@) }));
    assert(string_keys(members@) =~= view_keys(mv));
    let mut acc: Vec<(String, Node)> = Vec::new();
    let mut i: usize = 0;
    assert(sub_entries_view(acc@) =~= Seq::<(Seq<char>, NodeV)>::empty());
    while i < map.len()
        invariant
            *s == (spec::Node::Sub { map: *map }),
            sv == s@,
            sv == (spec::NodeV::Sub { map: spec::map_view(map@) }),
            mv == members_view(members@),
            string_keys(members@) == view_keys(mv),
            pv == path_view(path@),
            i <= map@.len(),
            sub_prefix(mv, sv, i as int, pv) == Ok::<Seq<(Seq<char>, NodeV)>, ErrorV>(sub_entries_view(acc@)),
        decreases map.len() - i,
    {
        let key = &map[i].0;
        let cp = child_path(path, key.as_str());
        assert(spec::map_view(map@)[i as int].0 == key@);
        match find_key(members, key.as_str()) {
            None => {
                proof { lemma_sub_prefix_err(mv, sv, i + 1, map@.len() as int, pv); }
                return Err(Error::MandatoryValueMissing { path_hint: hint(&cp) });
            },
            Some(pos) => {
                proof {
                    assert(decreases_to!(*s => (*s)->Sub_map));
                    assert(decreases_to!((*s)->Sub_map => map@));
                    assert(decreases_to!(map@ => map@[i as int]));
                    assert(decreases_to!(map@[i as int] => map@[i as int].1));
                    assert(spec::map_view(map@)[i as int].1 == spec::node_view(map@[i as int].1));
                    assert(mv[pos as int].1 == json_view(members@[pos as int].1));
                }
                match build_value(&members[pos].1, &map[i].1, &cp) {
                    Err(e) => {
                        proof { lemma_sub_prefix_err(mv, sv, i + 1, map@.len() as int, pv); }
                        return Err(e);
                    },
                    Ok(child) => {
                        let ghost old_acc = sub_entries_view(acc@);
                        let ghost cv = child@;
                        acc.push((key.clone(), child));
                        assert(sub_entries_view(acc@) =~= old_acc.push((key@, cv)));
                    },
                }
            },
        }
        i = i + 1;
    }
    Ok(acc)
}

/// Reads the entries of an anon map value from a JSON array.
fn build_array_entries<'a>(
    items: &'a Vec<JsonDoc>,
    s: &'a spec::Node,
    value_type: &'a spec::Node,
    path: &Vec<&'a str>,
) -> (r: Result<Vec<(usize, Node)>, Error>)
    requires
        *s matches spec::Node::AnonMap { value_type: vt, .. } && *vt == *value_type,
    ensures
        match r {
            Ok(v) => array_prefix(items_view(items@), s@, items@.len() as int, path_view(path@)) == Ok::<Seq<(usize, NodeV)>, ErrorV>(anon_entries_view(v@)),
            Err(e) => array_prefix(items_view(items@), s@, items@.len() as int, path_view(path@)) == Err::<Seq<(usize, NodeV)>, ErrorV>(e@),
        },
    decreases s, 1nat,
{
    let ghost iv = items_view(items@);
    let ghost sv = s@;
    let ghost pv = path_view(path@);
    let mut acc: Vec<(usize, Node)> = Vec::new();
    let mut i: usize = 0;
    assert(anon_entries_view(acc@) =~= Seq::<(usize, NodeV)>::empty());
    while i < items.len()
        invariant
            *s matches spec::Node::AnonMap { value_type: vt, .. } && *vt == *value_type,
            sv == s@,
            iv == items_view(items@),
            pv == path_view(path@),
            i <= items@.len(),
            array_prefix(iv, sv, i as int, pv) == Ok::<Seq<(usize, NodeV)>, ErrorV>(anon_entries_view(acc@)),
        decreases items.len() - i,
    {
        let key_text = usize_to_decimal(i);
        let cp = child_path(path, key_text.as_str());
        proof {
            assert(decreases_to!(*s => (*s)->AnonMap_value_type));
            assert(sv->AnonMap_value_type == Box::new(spec::node_view(*value_type)));
            assert(iv[i as int] == json_view(items@[i as int]));
        }
        match build_value(&items[i], value_type, &cp) {
            Err(e) => {
                proof { lemma_array_prefix_err(iv, sv, i + 1, items@.len() as int, pv); }
                return Err(e);
            },
            Ok(child) => {
                insert_entry(&mut acc, i, child);
            },
        }
        i = i + 1;
    }
    Ok(acc)
}

/// Reads the entries of an anon map value from a JSON object.
fn build_object_entries<'a>(
    members: &'a Vec<(String, JsonDoc)>,
    s: &'a spec::Node,
    value_type: &'a spec::Node,
    path: &Vec<&'a str>,
) -> (r: Result<Vec<(usize, Node)>, Error>)
    requires
        *s matches spec::Node::AnonMap { value_type: vt, .. } && *vt == *value_type,
    ensures
        match r {
            Ok(v) => object_prefix(members_view(members@), s@, members@.len() as int, path_view(path@)) == Ok::<Seq<(usize, NodeV)>, ErrorV>(anon_entries_view(v@)),
            Err(e) => object_prefix(members_view(members@), s@, members@.len() as int, path_view(path@)) == Err::<Seq<(usize, NodeV)>, ErrorV>(e@),
        },
    decreases s, 1nat,
{
    let ghost mv = members_view(members@);
    let ghost sv = s@;
    let ghost pv = path_view(path@);
    let mut acc: Vec<(usize, Node)> = Vec::new();
    let mut i: usize = 0;
    assert(anon_entries_view(acc@) =~= Seq::<(usize, NodeV)>::empty());
    while i < members.len()
        invariant
            *s matches spec::Node::AnonMap { value_type: vt, .. } && *vt == *value_type,
            sv == s@,
            mv == members_view(members@),
            pv == path_view(path@),
            i <= members@.len(),
            object_prefix(mv, sv, i as int, pv) == Ok::<Seq<(usize, NodeV)>, ErrorV>(anon_entries_view(acc@)),
        decreases members.len() - i,
    {
        let key = &members[i].0;
        assert(mv[i as int].0 == key@);
        match parse_usize(key.as_str()) {
            None => {
                proof { lemma_object_prefix_err(mv, sv, i + 1, members@.len() as int, pv); }
                return Err(Error::InvalidAnonMapKey { path_hint: hint(path) });
            },
            Some(k) => {
                let cp = child_path(path, key.as_str());
                proof {
                    assert(decreases_to!(*s => (*s)->AnonMap_value_type));
                    assert(sv->AnonMap_value_type == Box::new(spec::node_view(*value_type)));
                    assert(mv[i as int].1 == json_view(members@[i as int].1));
                }
                match build_value(&members[i].1, value_type, &cp) {
                    Err(e) => {
                        proof { lemma_object_prefix_err(mv, sv, i + 1, members@.len() as int, pv); }
                        return Err(e);
                    },
                    Ok(child) => {
                        insert_entry(&mut acc, k, child);
                    },
                }
            },
        }
        i = i + 1;
    }
    Ok(acc)
}

/// The position of the first member whose key the spec does not know.
fn find_unexpected_key(members: &Vec<(String, JsonDoc)>, map: &Vec<(String, spec::Node)>) -> (r: Option<usize>)
    ensures
        ({
            let u = unexpected_pos(members_view(members@), view_keys(spec::map_view(map@)));
            match r {
                Some(i) => i == u && 0 <= u < members@.len(),
                None => !(0 <= u < members@.len()),
            }
        }),
{
    let ghost keys = view_keys(spec::map_view(map@));
    let ghost known = members_view(members@).map_values(|m: (Seq<char>, JsonDocV)| keys.contains(m.0));
    assert(string_keys(map@) =~= keys);
    let mut i: usize = 0;
    while i < members.len()
        invariant
            i <= members@.len(),
            keys == view_keys(spec::map_view(map@)),
            string_keys(map@) == keys,
            known == members_view(members@).map_values(|m: (Seq<char>, JsonDocV)| keys.contains(m.0)),
            forall|j: int| 0 <= j < i ==> known[j] != false,
        decreases members.len() - i,
    {
        let pos = find_key(map, members[i].0.as_str());
        proof {
            lemma_key_pos(keys, members@[i as int].0@);
            assert(members_view(members@)[i as int].0 == members@[i as int].0@);
        }
        if pos.is_none() {
            proof {
                lemma_key_pos(known, false);
                assert(known[i as int] == false);
                assert(known.contains(false));
            }
            return Some(i);
        }
        i = i + 1;
    }
    proof {
        lemma_key_pos(known, false);
        if known.contains(false) {
            let j = choose|j: int| 0 <= j < known.len() && known[j] == false;
            assert(known[j] != false);
        }
    }
    None
}

/// Reads the value that a JSON document denotes under a spec node at a path.
fn build_value<'a>(j: &'a JsonDoc, s: &'a spec::Node, path: &Vec<&'a str>) -> (r: Result<Node, Error>)
    ensures
        result_view(r) == spec_from_json(j@, s@, path_view(path@)),
    decreases s, 2nat,
{
    let ghost jv = j@;
    let ghost sv = s@;
    let ghost pv = path_view(path@);
    match s {
        spec::Node::Real { min, max, .. } => match j {
            JsonDoc::Number(n) => match n.as_real {
                None => Err(Error::NumberConversionFailed { path_hint: hint(path) }),
                Some(x) => {
                    let below = match min { Some(lo) => x.0 < lo.0, None => false };
                    let above = match max { Some(hi) => x.0 > hi.0, None => false };
                    if below || above {
                        Err(Error::ValueNotWithinBounds { path_hint: hint(path) })
                    } else {
                        Ok(Node::Real(x))
                    }
                },
            },
            _ => Err(wrong_type(path, "a real number")),
        },
        spec::Node::Int { min, max, .. } => match j {
            JsonDoc::Number(n) => match n.as_i64 {
                None => Err(Error::NumberConversionFailed { path_hint: hint(path) }),
                Some(x) => {
                    let below = match min { Some(lo) => x < *lo, None => false };
                    let above = match max { Some(hi) => x > *hi, None => false };
                    if below || above {
                        Err(Error::ValueNotWithinBounds { path_hint: hint(path) })
                    } else {
                        Ok(Node::Int(x))
                    }
                },
            },
            _ => Err(wrong_type(path, "integer")),
        },
        spec::Node::Bool { .. } => match j {
            JsonDoc::Bool(b) => Ok(Node::Bool(*b)),
            _ => Err(wrong_type(path, "a boolean")),
        },
        spec::Node::Sub { map } => match j {
            JsonDoc::Object(members) => {
                assert(jv == JsonDocV::Object(members_view(members@)));
                assert(sv == (spec::NodeV::Sub { map: spec::map_view(map@) }));
                if let Some(u) = find_unexpected_key(members, map) {
                    assert(members_view(members@)[u as int].0 == members@[u as int].0@);
                    return Err(Error::UnexpectedKey { path_hint: hint(path), key: members[u].0.clone() });
                }
                match build_sub_entries(members, s, map, path) {
                    Err(e) => Err(e),
                    Ok(entries) => {
                        let ghost ev = sub_entries_view(entries@);
                        let r = Node::Sub(entries);
                        assert(r@ == NodeV::Sub(ev));
                        Ok(r)
                    },
                }
            },
            _ => Err(wrong_type(path, "map")),
        },
        spec::Node::AnonMap { value_type, .. } => match j {
            JsonDoc::Array(items) => {
                assert(jv == JsonDocV::Array(items_view(items@)));
                match build_array_entries(items, s, value_type, path) {
                    Err(e) => Err(e),
                    Ok(entries) => {
                        let ghost ev = anon_entries_view(entries@);
                        let r = Node::AnonMap(entries);
                        assert(r@ == NodeV::AnonMap(ev));
                        Ok(r)
                    },
                }
            },
            JsonDoc::Object(members) => {
                assert(jv == JsonDocV::Object(members_view(members@)));
                match build_object_entries(members, s, value_type, path) {
                    Err(e) => Err(e),
                    Ok(entries) => {
                        let ghost ev = anon_entries_view(entries@);
                        let r = Node::AnonMap(entries);
                        assert(r@ == NodeV::AnonMap(ev));
                        Ok(r)
                    },
                }
            },
            _ => Err(wrong_type(path, "array or map")),
        },
        spec::Node::Variant { map, .. } => match j {
            JsonDoc::Object(members) => {
                assert(jv == JsonDocV::Object(members_view(members@)));
                assert(sv == (spec::NodeV::Variant { map: spec::map_view(map@), init: sv->Variant_init }));
                if members.len() != 1 {
                    return Err(Error::OnlyOneVariantAllowed { path_hint: hint(path) });
                }
                let name = &members[0].0;
                assert(members_view(members@)[0].0 == name@);
                assert(string_keys(map@) =~= view_keys(spec::map_view(map@)));
                match find_key(map, name.as_str()) {
                    None => Err(Error::UnknownVariant { path_hint: hint(path), variant_name: name.clone() }),
                    Some(pos) => {
                        let cp = child_path(path, name.as_str());
                        proof {
                            assert(decreases_to!(*s => (*s)->Variant_map));
                            assert(decreases_to!((*s)->Variant_map => map@));
                            assert(decreases_to!(map@ => map@[pos as int]));
                            assert(decreases_to!(map@[pos as int] => map@[pos as int].1));
                            assert(spec::map_view(map@)[pos as int].1 == spec::node_view(map@[pos as int].1));
                            assert(members_view(members@)[0].1 == json_view(members@[0].1));
                        }
                        match build_value(&members[0].1, &map[pos].1, &cp) {
                            Err(e) => Err(e),
                            Ok(child) => {
                                let ghost cv = child@;
                                let r = Node::Variant(name.clone(), Box::new(child));
                                assert(r@ == NodeV::Variant(name@, Box::new(cv)));
                                Ok(r)
                            },
                        }
                    },
                }
            },
            _ => Err(wrong_type(path, "map")),
        },
        spec::Node::Enum { values, .. } => match j {
            JsonDoc::Str(v) => {
                let ghost names = values@.map_values(|x: String| x@);
                let mut known = false;
                let mut k: usize = 0;
                while k < values.len()
                    invariant
                        k <= values@.len(),
                        names == values@.map_values(|x: String| x@),
                        known == (exists|m: int| 0 <= m < k && values@[m]@ == v@),
                    decreases values.len() - k,
                {
                    if values[k] == *v {
                        known = true;
                    }
                    k = k + 1;
                }
                assert(known == names.contains(v@)) by {
                    if known {
                        let m = choose|m: int| 0 <= m < values@.len() && values@[m]@ == v@;
                        assert(names[m] == v@);
                    }
                    if names.contains(v@) {
                        let m = choose|m: int| 0 <= m < names.len() && names[m] == v@;
                        assert(values@[m]@ == v@);
                    }
                }
                if known {
                    Ok(Node::Enum(v.clone()))
                } else {
                    Err(Error::UnknownValue { path_hint: hint(path), value: v.clone() })
                }
            },
            _ => Err(wrong_type(path, "string")),
        },
        spec::Node::Optional { value_type, .. } => match j {
            JsonDoc::Null => {
                let r = Node::Optional(None);
                assert(optional_view(None) == None::<Box<NodeV>>);
                Ok(r)
            },
            _ => {
                proof {
                    assert(decreases_to!(*s => (*s)->Optional_value_type));
                }
                match build_value(j, value_type, path) {
                    Err(e) => Err(e),
                    Ok(child) => {
                        let ghost cv = child@;
                        let r = Node::Optional(Some(Box::new(child)));
                        assert(optional_view(Some(Box::new(child))) == Some(Box::new(cv)));
                        Ok(r)
                    },
                }
            },
        },
        spec::Node::Const => match j {
            JsonDoc::Null => Ok(Node::Const),
            _ => Err(wrong_type(path, "null")),
        },
    }
}

/// Reads a value from a JSON document, checked against a spec (see
/// `spec_from_json`, at the root path).
pub fn from_json_doc(doc: &JsonDoc, spec: &spec::Spec) -> (r: Result<Value, Error>)
    ensures
        match r {
            Ok(v) => spec_from_json(doc@, spec@, Seq::empty()) == Ok::<NodeV, ErrorV>(v@),
            Err(e) => spec_from_json(doc@, spec@, Seq::empty()) == Err::<NodeV, ErrorV>(e@),
        },
{
    let root: Vec<&str> = Vec::new();
    assert(path_view(root@) =~= Seq::<Seq<char>>::empty());
    match build_value(doc, &spec.0, &root) {
        Ok(n) => Ok(Value(n)),
        Err(e) => Err(e),
    }
}


/// Reads a value of the spec from JSON text: text that does not parse is
/// invalid JSON; else the value that the document gives (see
/// `from_json_doc`).
pub fn from_json_str(json_str: &str, spec: &spec::Spec) -> (r: Result<Value, Error>)
    ensures
        match parsed_json(json_str@) {
            None => r matches Err(Error::InvalidJson(_)),
            Some(d) => match r {
                Ok(v) => spec_from_json(d, spec@, Seq::empty()) == Ok::<NodeV, ErrorV>(v@),
                Err(e) => spec_from_json(d, spec@, Seq::empty()) == Err::<NodeV, ErrorV>(e@),
            },
        },
{
    match parse_json(json_str) {
        Ok(doc) => from_json_doc(&doc, spec),
        Err(message) => Err(Error::InvalidJson(message)),
    }
}

} // verus!
