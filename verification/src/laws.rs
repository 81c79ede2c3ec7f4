//! Properties that relate the library's functions to each other.
use vstd::prelude::*;
use crate::doc::JsonDocV;
use crate::error::ErrorV;
use crate::number_text::{decimal, lemma_parse_decimal};
use crate::crossover::{all_conform, anon_keys, anon_kids, crossed_over, crossover_drawn, in_some, is_leaf_value, present_kids, sub_kids, variant_kids};
use crate::seq_util::{key_pos, keys_distinct, lemma_key_pos, lemma_key_pos_distinct, plain_keys, view_keys};
use crate::spec;
use crate::mutation::{anon_drawn, anon_head, anon_removes, anon_zip, concat_draws, declines_all, lemma_declines_parts, node_drawn};
use crate::selection::clamp_position;
use crate::selection::Draw;
use crate::value::{
    NodeV, anon_members, conforms, json_distinguishable, renders_null, sizes_within, spec_to_json, sub_members,
};
use crate::value_util::{anon_insert, array_prefix, object_prefix, spec_from_json, sub_prefix, unexpected_pos, json_len, spec_map_len};
use crate::spec_util::{children_prefix, map_insert, mapping_len, spec_build_node, entries_of, spec_anon_map_rest, spec_optional_rest};

verus! {

/// A value's JSON document is null exactly when `renders_null` says so.
pub proof fn lemma_to_json_null(v: NodeV)
    ensures
        (spec_to_json(v) is Null) <==> renders_null(v),
    decreases v,
{
    if let NodeV::Optional(Some(child)) = v {
        lemma_to_json_null(*child);
    }
}

/// The entries of a sub value are read back from their JSON members, given
/// that each child is.
proof fn lemma_sub_round_trip(es: Seq<(Seq<char>, NodeV)>, s: spec::NodeV, n: int, path: Seq<Seq<char>>)
    requires
        s is Sub,
        spec::wf(s),
        es.len() == s->Sub_map.len(),
        0 <= n <= es.len(),
        forall|i: int| 0 <= i < es.len() ==> (#[trigger] es[i]).0 == s->Sub_map[i].0,
        forall|i: int| 0 <= i < es.len() ==>
            spec_from_json(spec_to_json(#[trigger] es[i].1), s->Sub_map[i].1, path.push(es[i].0)) == Ok::<NodeV, ErrorV>(es[i].1),
    ensures
        sub_prefix(sub_members(es), s, n, path) == Ok::<Seq<(Seq<char>, NodeV)>, ErrorV>(es.take(n)),
    decreases n,
{
    let map = s->Sub_map;
    let members = sub_members(es);
    if n > 0 {
        lemma_sub_round_trip(es, s, n - 1, path);
        assert(view_keys(members) =~= view_keys(map));
        lemma_key_pos_distinct(view_keys(map), n - 1);
        assert(es.take(n - 1).push((map[n - 1].0, es[n - 1].1)) =~= es.take(n));
    } else {
        assert(es.take(0) =~= Seq::<(Seq<char>, NodeV)>::empty());
    }
}

/// The entries of an anon map value are read back from their JSON members,
/// given that each child is.
proof fn lemma_anon_round_trip(es: Seq<(usize, NodeV)>, s: spec::NodeV, n: int, path: Seq<Seq<char>>)
    requires
        s is AnonMap,
        keys_distinct(plain_keys(es)),
        0 <= n <= es.len(),
        forall|i: int| 0 <= i < es.len() ==>
            spec_from_json(spec_to_json(#[trigger] es[i].1), *s->AnonMap_value_type, path.push(decimal(es[i].0 as nat))) == Ok::<NodeV, ErrorV>(es[i].1),
    ensures
        object_prefix(anon_members(es), s, n, path) == Ok::<Seq<(usize, NodeV)>, ErrorV>(es.take(n)),
    decreases n,
{
    let members = anon_members(es);
    if n > 0 {
        lemma_anon_round_trip(es, s, n - 1, path);
        let k = es[n - 1].0;
        lemma_parse_decimal(k);
        let prev = es.take(n - 1);
        lemma_key_pos(plain_keys(prev), k);
        if plain_keys(prev).contains(k) {
            let j = choose|j: int| 0 <= j < plain_keys(prev).len() && plain_keys(prev)[j] == k;
            assert(plain_keys(es)[j] == plain_keys(es)[n - 1]);
        }
        assert(anon_insert(prev, k, es[n - 1].1) == prev.push((k, es[n - 1].1)));
        assert(prev.push((k, es[n - 1].1)) =~= es.take(n));
    } else {
        assert(es.take(0) =~= Seq::<(usize, NodeV)>::empty());
    }
}

/// Reading the JSON document of a value under the spec it conforms to gives
/// the value back, at any path. Excluded are values in which a present
/// optional holds content whose document is null (see `json_distinguishable`).
pub proof fn law_json_round_trip(v: NodeV, s: spec::NodeV, path: Seq<Seq<char>>)
    requires
        spec::wf(s),
        conforms(v, s),
        json_distinguishable(v),
    ensures
        spec_from_json(spec_to_json(v), s, path) == Ok::<NodeV, ErrorV>(v),
    decreases v,
{
    match s {
        spec::NodeV::Sub { map } => {
            let es = v->Sub_0;
            assert forall|i: int| 0 <= i < es.len() implies
                spec_from_json(spec_to_json(#[trigger] es[i].1), map[i].1, path.push(es[i].0)) == Ok::<NodeV, ErrorV>(es[i].1) by {
                law_json_round_trip(es[i].1, map[i].1, path.push(es[i].0));
            }
            let members = sub_members(es);
            let keys = view_keys(map);
            let known = members.map_values(|m: (Seq<char>, JsonDocV)| keys.contains(m.0));
            assert forall|i: int| 0 <= i < known.len() implies known[i] != false by {
                assert(keys[i] == members[i].0);
            }
            lemma_key_pos(known, false);
            assert(unexpected_pos(members, keys) == -1);
            lemma_sub_round_trip(es, s, es.len() as int, path);
            assert(es.take(es.len() as int) =~= es);
        },
        spec::NodeV::AnonMap { value_type, .. } => {
            let es = v->AnonMap_0;
            assert forall|i: int| 0 <= i < es.len() implies
                spec_from_json(spec_to_json(#[trigger] es[i].1), *value_type, path.push(decimal(es[i].0 as nat))) == Ok::<NodeV, ErrorV>(es[i].1) by {
                law_json_round_trip(es[i].1, *value_type, path.push(decimal(es[i].0 as nat)));
            }
            lemma_anon_round_trip(es, s, es.len() as int, path);
            assert(es.take(es.len() as int) =~= es);
        },
        spec::NodeV::Variant { map, .. } => {
            let name = v->Variant_0;
            let child = *v->Variant_1;
            let i = key_pos(view_keys(map), name);
            law_json_round_trip(child, map[i].1, path.push(name));
        },
        spec::NodeV::Optional { value_type, .. } => {
            if let NodeV::Optional(Some(child)) = v {
                lemma_to_json_null(*child);
                law_json_round_trip(*child, *value_type, path);
            }
        },
        _ => {},
    }
}


// ---------------------------------------------------------------------------
// What reading a value yields conforms to the spec
// ---------------------------------------------------------------------------

/// Binding a key keeps the keys of an anon map distinct, and keeps every value
/// conforming when the new one does.
pub(crate) proof fn lemma_anon_insert(m: Seq<(usize, NodeV)>, k: usize, v: NodeV, s: spec::NodeV)
    requires
        keys_distinct(plain_keys(m)),
        forall|i: int| 0 <= i < m.len() ==> conforms(#[trigger] m[i].1, s),
        conforms(v, s),
    ensures
        keys_distinct(plain_keys(anon_insert(m, k, v))),
        forall|i: int| 0 <= i < anon_insert(m, k, v).len() ==> conforms(#[trigger] anon_insert(m, k, v)[i].1, s),
{
    lemma_key_pos(plain_keys(m), k);
    let r = anon_insert(m, k, v);
    let i = key_pos(plain_keys(m), k);
    if 0 <= i < m.len() {
        assert(plain_keys(r) =~= plain_keys(m));
    } else {
        assert(plain_keys(r) =~= plain_keys(m).push(k));
        assert forall|a: int, b: int| 0 <= a < b < plain_keys(r).len() implies plain_keys(r)[a] != plain_keys(r)[b] by {
            if b == m.len() {
                assert(plain_keys(m)[a] == plain_keys(r)[a]);
            }
        }
    }
}

proof fn lemma_sub_prefix_conforms(members: Seq<(Seq<char>, JsonDocV)>, s: spec::NodeV, n: int, path: Seq<Seq<char>>)
    requires
        s is Sub,
        0 <= n <= s->Sub_map.len(),
        sub_prefix(members, s, n, path) is Ok,
    ensures
        ({
            let acc = sub_prefix(members, s, n, path)->Ok_0;
            &&& acc.len() == n
            &&& forall|i: int| 0 <= i < n ==> (#[trigger] acc[i]).0 == s->Sub_map[i].0 && conforms(acc[i].1, s->Sub_map[i].1)
        }),
    decreases s, n,
{
    if n > 0 {
        let map = s->Sub_map;
        lemma_sub_prefix_conforms(members, s, n - 1, path);
        let key = map[n - 1].0;
        let pos = key_pos(view_keys(members), key);
        law_read_value_conforms(members[pos].1, map[n - 1].1, path.push(key));
        let acc = sub_prefix(members, s, n, path)->Ok_0;
        let prev = sub_prefix(members, s, n - 1, path)->Ok_0;
        assert forall|i: int| 0 <= i < n implies (#[trigger] acc[i]).0 == map[i].0 && conforms(acc[i].1, map[i].1) by {
            if i < n - 1 {
                assert(acc[i] == prev[i]);
            }
        }
    }
}

proof fn lemma_array_prefix_conforms(items: Seq<JsonDocV>, s: spec::NodeV, n: int, path: Seq<Seq<char>>)
    requires
        s is AnonMap,
        0 <= n <= items.len(),
        array_prefix(items, s, n, path) is Ok,
    ensures
        ({
            let acc = array_prefix(items, s, n, path)->Ok_0;
            &&& keys_distinct(plain_keys(acc))
            &&& forall|i: int| 0 <= i < acc.len() ==> conforms(#[trigger] acc[i].1, *s->AnonMap_value_type)
        }),
    decreases s, n,
{
    if n > usize::MAX + 1 {
        assert(plain_keys(array_prefix(items, s, n, path)->Ok_0) =~= Seq::<usize>::empty());
    } else if n > 0 {
        lemma_array_prefix_conforms(items, s, n - 1, path);
        let prev = array_prefix(items, s, n - 1, path)->Ok_0;
        let child_path = path.push(decimal((n - 1) as nat));
        law_read_value_conforms(items[n - 1], *s->AnonMap_value_type, child_path);
        let child = spec_from_json(items[n - 1], *s->AnonMap_value_type, child_path)->Ok_0;
        lemma_anon_insert(prev, (n - 1) as usize, child, *s->AnonMap_value_type);
    } else {
        assert(plain_keys(array_prefix(items, s, n, path)->Ok_0) =~= Seq::<usize>::empty());
    }
}

proof fn lemma_object_prefix_conforms(members: Seq<(Seq<char>, JsonDocV)>, s: spec::NodeV, n: int, path: Seq<Seq<char>>)
    requires
        s is AnonMap,
        0 <= n <= members.len(),
        object_prefix(members, s, n, path) is Ok,
    ensures
        ({
            let acc = object_prefix(members, s, n, path)->Ok_0;
            &&& keys_distinct(plain_keys(acc))
            &&& forall|i: int| 0 <= i < acc.len() ==> conforms(#[trigger] acc[i].1, *s->AnonMap_value_type)
        }),
    decreases s, n,
{
    if n > 0 {
        lemma_object_prefix_conforms(members, s, n - 1, path);
        let prev = object_prefix(members, s, n - 1, path)->Ok_0;
        let child_path = path.push(members[n - 1].0);
        law_read_value_conforms(members[n - 1].1, *s->AnonMap_value_type, child_path);
        let child = spec_from_json(members[n - 1].1, *s->AnonMap_value_type, child_path)->Ok_0;
        let k = crate::number_text::spec_parse_usize(members[n - 1].0)->Some_0;
        lemma_anon_insert(prev, k, child, *s->AnonMap_value_type);
    } else {
        assert(plain_keys(object_prefix(members, s, n, path)->Ok_0) =~= Seq::<usize>::empty());
    }
}

/// A value read from a JSON document under a spec conforms to that spec.
pub proof fn law_read_value_conforms(j: JsonDocV, s: spec::NodeV, path: Seq<Seq<char>>)
    requires
        spec_from_json(j, s, path) is Ok,
    ensures
        conforms(spec_from_json(j, s, path)->Ok_0, s),
    decreases s, json_len(j) + spec_map_len(s) + 1,
{
    match s {
        spec::NodeV::Sub { map } => {
            let members = j->Object_0;
            lemma_sub_prefix_conforms(members, s, map.len() as int, path);
        },
        spec::NodeV::AnonMap { .. } => {
            match j {
                JsonDocV::Array(items) => lemma_array_prefix_conforms(items, s, items.len() as int, path),
                JsonDocV::Object(members) => lemma_object_prefix_conforms(members, s, members.len() as int, path),
                _ => {},
            }
        },
        spec::NodeV::Variant { map, .. } => {
            let members = j->Object_0;
            let name = members[0].0;
            let pos = key_pos(view_keys(map), name);
            law_read_value_conforms(members[0].1, map[pos].1, path.push(name));
        },
        spec::NodeV::Optional { value_type, .. } => {
            if !(j is Null) {
                law_read_value_conforms(j, *value_type, path);
            }
        },
        _ => {},
    }
}


// ---------------------------------------------------------------------------
// What reading a spec yields is well formed
// ---------------------------------------------------------------------------

/// Binding a key keeps the keys of a spec map distinct, and keeps every child
/// well formed when the new one is.
proof fn lemma_map_insert(m: Seq<(Seq<char>, spec::NodeV)>, k: Seq<char>, v: spec::NodeV)
    requires
        keys_distinct(view_keys(m)),
        forall|i: int| 0 <= i < m.len() ==> spec::wf(#[trigger] m[i].1),
        spec::wf(v),
    ensures
        keys_distinct(view_keys(map_insert(m, k, v))),
        forall|i: int| 0 <= i < map_insert(m, k, v).len() ==> spec::wf(#[trigger] map_insert(m, k, v)[i].1),
        map_insert(m, k, v).len() >= m.len(),
        view_keys(map_insert(m, k, v)).contains(k),
        forall|x: Seq<char>| view_keys(m).contains(x) ==> view_keys(map_insert(m, k, v)).contains(x),
{
    lemma_key_pos(view_keys(m), k);
    let r = map_insert(m, k, v);
    let i = key_pos(view_keys(m), k);
    if 0 <= i < m.len() {
        assert(view_keys(r) =~= view_keys(m));
        assert(view_keys(r)[i] == k);
    } else {
        assert(view_keys(r) =~= view_keys(m).push(k));
        assert(view_keys(r)[m.len() as int] == k);
        assert forall|a: int, b: int| 0 <= a < b < view_keys(r).len() implies view_keys(r)[a] != view_keys(r)[b] by {
            if b == m.len() {
                assert(view_keys(m)[a] == view_keys(r)[a]);
            }
        }
        assert forall|x: Seq<char>| view_keys(m).contains(x) implies view_keys(r).contains(x) by {
            let j = choose|j: int| 0 <= j < view_keys(m).len() && view_keys(m)[j] == x;
            assert(view_keys(r)[j] == x);
        }
    }
}

proof fn lemma_children_wf(d: crate::doc::YamlDoc, n: int, path: Seq<Seq<char>>, skip_init: bool)
    requires
        0 <= n <= mapping_len(d),
        children_prefix(d, n, path, skip_init) is Ok,
    ensures
        ({
            let acc = children_prefix(d, n, path, skip_init)->Ok_0;
            &&& keys_distinct(view_keys(acc))
            &&& forall|i: int| 0 <= i < acc.len() ==> spec::wf(#[trigger] acc[i].1)
        }),
    decreases d, n,
{
    if n > 0 {
        lemma_children_wf(d, n - 1, path, skip_init);
        let es = entries_of(d);
        let e = es[n - 1];
        let prev = children_prefix(d, n - 1, path, skip_init)->Ok_0;
        match crate::spec_util::doc_as_str(e.key) {
            Some(k) => {
                if !(k == "type"@ || (skip_init && k == "init"@)) {
                    assert(decreases_to!(d => d->Mapping_0));
                    assert(decreases_to!(d->Mapping_0 => d->Mapping_0@));
                    assert(decreases_to!(d->Mapping_0@ => d->Mapping_0@[n - 1]));
                    assert(decreases_to!(d->Mapping_0@[n - 1] => d->Mapping_0@[n - 1].value));
                    law_read_spec_wf(e.value, path.push(k));
                    lemma_map_insert(prev, k, spec_build_node(e.value, path.push(k))->Ok_0);
                }
            },
            None => {},
        }
    } else {
        assert(view_keys(children_prefix(d, n, path, skip_init)->Ok_0) =~= Seq::<Seq<char>>::empty());
    }
}

/// A spec read from a YAML document is well formed (see `spec::wf`).
pub proof fn law_read_spec_wf(d: crate::doc::YamlDoc, path: Seq<Seq<char>>)
    requires
        spec_build_node(d, path) is Ok,
    ensures
        spec::wf(spec_build_node(d, path)->Ok_0),
    decreases d, mapping_len(d) + 1,
{
    let es = entries_of(d);
    let tn = crate::spec_util::spec_extract_string(es, "type"@, path, false);
    if let Ok(t) = tn {
        let k = match t { Some(x) => x, None => "sub"@ };
        if k == "real"@ {
            assert(spec::wf(spec_build_node(d, path)->Ok_0));
        } else if k == "int"@ {
            assert(spec::wf(spec_build_node(d, path)->Ok_0));
        } else if k == "bool"@ {
            assert(spec::wf(spec_build_node(d, path)->Ok_0));
        } else if k == "sub"@ {
            lemma_children_wf(d, es.len() as int, path, false);
            assert(spec::wf(spec_build_node(d, path)->Ok_0));
        } else if k == "anon map"@ || k == "optional"@ {
            let i = crate::spec_util::find_attr(es, "valueType"@);
            if 0 <= i < es.len() {
                assert(decreases_to!(d => d->Mapping_0));
                assert(decreases_to!(d->Mapping_0 => d->Mapping_0@));
                assert(decreases_to!(d->Mapping_0@ => d->Mapping_0@[i]));
                assert(decreases_to!(d->Mapping_0@[i] => d->Mapping_0@[i].value));
                if spec_build_node(es[i].value, path) is Ok {
                    law_read_spec_wf(es[i].value, path);
                    let vt = spec_build_node(es[i].value, path)->Ok_0;
                    if k == "anon map"@ {
                        assert(spec_build_node(d, path) == spec_anon_map_rest(es, path, vt));
                    } else {
                        assert(spec_build_node(d, path) == spec_optional_rest(es, path, vt));
                    }
                }
            }
        } else if k == "variant"@ {
            if children_prefix(d, es.len() as int, path, true) is Ok {
                lemma_children_wf(d, es.len() as int, path, true);
            }
            assert(spec::wf(spec_build_node(d, path)->Ok_0));
        } else if k == "enum"@ {
            assert(spec::wf(spec_build_node(d, path)->Ok_0));
        } else if k == "const"@ {
            assert(spec::wf(spec_build_node(d, path)->Ok_0));
        }
    }
}

// ---------------------------------------------------------------------------
// The initial value of a well-formed spec
// ---------------------------------------------------------------------------

/// The initial value of a well-formed spec is defined and conforms to it.
pub proof fn law_initial_conforms(s: spec::NodeV)
    requires
        spec::wf(s),
    ensures
        spec::initial_defined(s),
        conforms(spec::initial(s), s),
    decreases s,
{
    match s {
        spec::NodeV::Sub { map } => {
            assert forall|i: int| 0 <= i < map.len() implies spec::initial_defined(#[trigger] map[i].1)
                && conforms(spec::initial(map[i].1), map[i].1) by {
                assert(decreases_to!(s => map));
                assert(decreases_to!(map => map[i]));
                assert(decreases_to!(map[i] => map[i].1));
                law_initial_conforms(map[i].1);
            }
            let es = spec::initial_entries(map);
            assert forall|i: int| 0 <= i < es.len() implies (#[trigger] es[i]).0 == map[i].0
                && conforms(es[i].1, map[i].1) by {
                assert(es[i].1 == spec::initial(map[i].1));
            }
            assert(spec::initial(s) == NodeV::Sub(es));
        },
        spec::NodeV::AnonMap { value_type, init_size, .. } => {
            law_initial_conforms(*value_type);
            let es = spec::copies(init_size, spec::initial(*value_type));
            assert forall|a: int, b: int| 0 <= a < b < plain_keys(es).len() implies plain_keys(es)[a] != plain_keys(es)[b] by {
                assert(plain_keys(es)[a] == es[a].0);
                assert(plain_keys(es)[b] == es[b].0);
            }
            assert forall|i: int| 0 <= i < es.len() implies conforms(#[trigger] es[i].1, *value_type) by {}
        },
        spec::NodeV::Variant { map, init } => {
            lemma_key_pos(view_keys(map), init);
            let i = key_pos(view_keys(map), init);
            assert(view_keys(map)[i] == map[i].0);
            assert(decreases_to!(s => map));
            assert(decreases_to!(map => map[i]));
            assert(decreases_to!(map[i] => map[i].1));
            law_initial_conforms(map[i].1);
            assert(spec::initial(s) == spec::initial_variant(map, init));
            assert(spec::initial_variant(map, init) == NodeV::Variant(init, Box::new(spec::initial(map[i].1))));
        },
        spec::NodeV::Optional { value_type, init_present } => {
            law_initial_conforms(*value_type);
            assert(spec::initial(s) == spec::initial_optional(*value_type, init_present));
            if init_present {
                assert(spec::initial_optional(*value_type, true) == NodeV::Optional(Some(Box::new(spec::initial(*value_type)))));
            } else {
                assert(spec::initial_optional(*value_type, false) == NodeV::Optional(None));
            }
        },
        _ => {},
    }
}

/// Every anon map in the initial value of a well-formed spec has a size
/// within its bounds.
pub proof fn law_initial_sizes_within(s: spec::NodeV)
    requires
        spec::wf(s),
    ensures
        sizes_within(spec::initial(s), s),
    decreases s,
{
    match s {
        spec::NodeV::Sub { map } => {
            let es = spec::initial_entries(map);
            assert forall|i: int| 0 <= i < es.len() && i < map.len() implies sizes_within(#[trigger] es[i].1, map[i].1) by {
                assert(decreases_to!(s => map));
                assert(decreases_to!(map => map[i]));
                assert(decreases_to!(map[i] => map[i].1));
                law_initial_sizes_within(map[i].1);
                assert(es[i].1 == spec::initial(map[i].1));
            }
            assert(spec::initial(s) == NodeV::Sub(es));
        },
        spec::NodeV::AnonMap { value_type, init_size, .. } => {
            law_initial_sizes_within(*value_type);
            let es = spec::copies(init_size, spec::initial(*value_type));
            assert forall|i: int| 0 <= i < es.len() implies sizes_within(#[trigger] es[i].1, *value_type) by {}
            assert(spec::initial(s) == NodeV::AnonMap(es));
        },
        spec::NodeV::Variant { map, init } => {
            lemma_key_pos(view_keys(map), init);
            let i = key_pos(view_keys(map), init);
            assert(decreases_to!(s => map));
            assert(decreases_to!(map => map[i]));
            assert(decreases_to!(map[i] => map[i].1));
            law_initial_sizes_within(map[i].1);
            assert(spec::initial(s) == spec::initial_variant(map, init));
            assert(spec::initial_variant(map, init) == NodeV::Variant(init, Box::new(spec::initial(map[i].1))));
        },
        spec::NodeV::Optional { value_type, init_present } => {
            law_initial_sizes_within(*value_type);
            assert(spec::initial(s) == spec::initial_optional(*value_type, init_present));
            if init_present {
                assert(spec::initial_optional(*value_type, true) == NodeV::Optional(Some(Box::new(spec::initial(*value_type)))));
            } else {
                assert(spec::initial_optional(*value_type, false) == NodeV::Optional(None));
            }
        },
        _ => {},
    }
}

/// The initial value of a well-formed spec reads back from its JSON
/// document, where that document tells absent optionals apart.
pub proof fn law_initial_round_trip(s: spec::NodeV, path: Seq<Seq<char>>)
    requires
        spec::wf(s),
        json_distinguishable(spec::initial(s)),
    ensures
        spec_from_json(spec_to_json(spec::initial(s)), s, path) == Ok::<NodeV, ErrorV>(spec::initial(s)),
{
    law_initial_conforms(s);
    law_json_round_trip(spec::initial(s), s, path);
}

// ---------------------------------------------------------------------------
// Fresh keys for anon map entries
// ---------------------------------------------------------------------------

/// Where the path tree covers an anon map value, the key that the anon map's
/// node hands out next is none of the value's keys.
pub proof fn law_fresh_anon_key<R>(ctx: crate::path::PathNodeContext<R>, v: NodeV)
    requires
        v is AnonMap,
        crate::path::covers(ctx, v),
    ensures
        !plain_keys(v->AnonMap_0).contains(ctx.next_anon_key()),
{
    let es = v->AnonMap_0;
    if plain_keys(es).contains(ctx.next_anon_key()) {
        let i = choose|i: int| 0 <= i < plain_keys(es).len() && plain_keys(es)[i] == ctx.next_anon_key();
        assert(es[i].0 < ctx.next_anon_key());
    }
}


// ---------------------------------------------------------------------------
// The order in which individuals are handed out
// ---------------------------------------------------------------------------

/// While the population is empty, the next individual is a new one; the
/// first one handed out is the initial value, with no meta parameters.
pub proof fn law_first_individual_is_initial<CP, MP, R>(
    before: crate::algorithm::AlgoContext<CP, MP, R>,
    after: crate::algorithm::AlgoContext<CP, MP, R>,
    r: crate::algorithm::IndContext<crate::meta::MetaParamsWrapper<CP, MP>>,
)
    requires
        before.population().len() == 0,
        crate::algorithm::is_new_individual(before, after, r) || crate::algorithm::is_reeval_individual(before, after, r),
    ensures
        crate::algorithm::is_new_individual(before, after, r),
        !before.initial_value_used() ==> r.value@ == before.initial_value()@ && r.meta_params_used is None,
        r.id == before.next_id(),
{
    if crate::algorithm::is_reeval_individual(before, after, r) {
        let i = choose|i: int| crate::algorithm::is_first_ready(before.population(), i);
        assert(0 <= i < before.population().len());
    }
}

/// Mutation where the choices never decide to mutate gives the value back:
/// every node of the result is what it was.
pub proof fn law_declined_mutation_keeps_value(old: NodeV, s: spec::NodeV, d: Seq<Draw>, new: NodeV)
    requires
        conforms(old, s),
        conforms(new, s),
        node_drawn(old, s, d, new),
        declines_all(d),
    ensures
        new == old,
    decreases s,
{
    match s {
        spec::NodeV::Sub { map } => {
            let oes = old->Sub_0;
            let nes = new->Sub_0;
            let cs = choose|cs: Seq<Seq<Draw>>| {
                &&& cs.len() == map.len()
                &&& d == concat_draws(cs)
                &&& forall|k: int| 0 <= k < map.len() && k < oes.len() && k < nes.len()
                    ==> node_drawn(oes[k].1, (#[trigger] map[k]).1, cs[k], nes[k].1)
            };
            lemma_declines_parts(cs);
            assert forall|k: int| 0 <= k < nes.len() implies #[trigger] nes[k] == oes[k] by {
                assert(node_drawn(oes[k].1, map[k].1, cs[k], nes[k].1));
                assert(declines_all(cs[k]));
                law_declined_mutation_keeps_value(oes[k].1, map[k].1, cs[k], nes[k].1);
            }
            assert(nes =~= oes);
        },
        spec::NodeV::Optional { value_type, .. } => {
            assert(d[0] != Draw::Decide(true));
            let rest = d.drop_first();
            assert forall|i: int| 0 <= i < rest.len() implies rest[i] != Draw::Decide(true) by {
                assert(rest[i] == d[i + 1]);
            }
            match old->Optional_0 {
                Some(c) => {
                    let c2 = new->Optional_0->Some_0;
                    law_declined_mutation_keeps_value(*c, *value_type, rest, *c2);
                },
                None => {},
            }
        },
        spec::NodeV::Variant { map, .. } => {
            assert(d[0] != Draw::Decide(true));
            let rest = d.drop_first();
            assert forall|i: int| 0 <= i < rest.len() implies rest[i] != Draw::Decide(true) by {
                assert(rest[i] == d[i + 1]);
            }
            let pos = key_pos(view_keys(map), old->Variant_0);
            law_declined_mutation_keeps_value(*old->Variant_1, map[pos].1, rest, *new->Variant_1);
        },
        spec::NodeV::AnonMap { value_type, min_size, max_size, .. } => {
            let es = old->AnonMap_0;
            let ns = new->AnonMap_0;
            assert(d[0] != Draw::Decide(true));
            let resize = false;
            assert(anon_drawn(es, ns, *value_type, d, resize, min_size, max_size, None));
            let (h, h2, cs, ms) = choose|h: int, h2: int, cs: Seq<Seq<Draw>>, ms: Seq<NodeV>|
                #![trigger d.take(h), d.skip(h2), concat_draws(cs), anon_zip(es, ms)] {
                let hs = d.take(h);
                let zs = anon_zip(es, ms);
                let n = es.len() as int;
                let removes = anon_removes(n, hs, min_size, max_size);
                &&& 1 <= h <= h2 <= d.len()
                &&& anon_head(n, hs, min_size, max_size)
                &&& d.skip(h2) == concat_draws(cs)
                &&& cs.len() == es.len()
                &&& ms.len() == es.len()
                &&& forall|p: int| 0 <= p < es.len() ==> node_drawn(es[p].1, *value_type, cs[p], #[trigger] ms[p])
                &&& !resize ==> (h2 == h && ns == zs)
                &&& removes ==> (h2 == h && (hs.last() matches Draw::Pick(_, i) && ns == zs.remove(clamp_position(i, n))))
                &&& (resize && !removes) ==> ((h2 == h && ns == zs && (None::<usize> matches Some(k) ==> k == usize::MAX))
                    || exists|key: usize, a: NodeV| #![trigger anon_insert(zs, key, a)] {
                    &&& None::<usize> matches Some(k) ==> (key == k && k < usize::MAX)
                    &&& ns == anon_insert(zs, key, a)
                    &&& node_drawn(
                        if n > 0 { es[clamp_position(hs.last()->Pick_1, n)].1 } else { spec::initial(*value_type) },
                        *value_type,
                        d.subrange(h, h2),
                        a,
                    )
                })
            };
            assert(1 <= h <= h2 <= d.len());
            let rest = d.skip(h2);
            assert forall|i: int| 0 <= i < rest.len() implies rest[i] != Draw::Decide(true) by {
                assert(rest[i] == d[h2 + i]);
            }
            lemma_declines_parts(cs);
            assert forall|p: int| 0 <= p < es.len() implies #[trigger] ns[p] == es[p] by {
                assert(ns[p] == (es[p].0, ms[p]));
                assert(conforms(ns[p].1, *value_type));
                assert(declines_all(cs[p]));
                law_declined_mutation_keeps_value(es[p].1, *value_type, cs[p], ms[p]);
            }
            assert(ns =~= es);
        },
        _ => {},
    }
}


/// Whether a value holds no constant and no present optional directly inside
/// another optional: the values whose JSON documents tell every node apart.
pub open spec fn plain_value(v: NodeV) -> bool
    decreases v,
{
    match v {
        NodeV::Sub(es) => forall|i: int| 0 <= i < es.len() ==> plain_value(#[trigger] es[i].1),
        NodeV::AnonMap(es) => forall|i: int| 0 <= i < es.len() ==> plain_value(#[trigger] es[i].1),
        NodeV::Variant(_, child) => plain_value(*child),
        NodeV::Optional(o) => match o {
            Some(child) => !(*child is Optional) && plain_value(*child),
            None => true,
        },
        NodeV::Const => false,
        _ => true,
    }
}

/// Whether a spec has no constant and no optional whose value type is an
/// optional.
pub open spec fn plain_spec(s: spec::NodeV) -> bool
    decreases s,
{
    match s {
        spec::NodeV::Sub { map } => forall|i: int| 0 <= i < map.len() ==> plain_spec(#[trigger] map[i].1),
        spec::NodeV::Variant { map, .. } => forall|i: int| 0 <= i < map.len() ==> plain_spec(#[trigger] map[i].1),
        spec::NodeV::AnonMap { value_type, .. } => plain_spec(*value_type),
        spec::NodeV::Optional { value_type, .. } => !(*value_type is Optional) && plain_spec(*value_type),
        spec::NodeV::Const => false,
        _ => true,
    }
}

/// A plain value's JSON document tells its nodes apart.
pub proof fn lemma_plain_distinguishable(v: NodeV)
    requires
        plain_value(v),
    ensures
        json_distinguishable(v),
    decreases v,
{
    match v {
        NodeV::Sub(es) => {
            assert forall|i: int| 0 <= i < es.len() implies json_distinguishable(#[trigger] es[i].1) by {
                assert(decreases_to!(v => es));
                assert(decreases_to!(es => es[i]));
                assert(decreases_to!(es[i] => es[i].1));
                lemma_plain_distinguishable(es[i].1);
            }
        },
        NodeV::AnonMap(es) => {
            assert forall|i: int| 0 <= i < es.len() implies json_distinguishable(#[trigger] es[i].1) by {
                assert(decreases_to!(v => es));
                assert(decreases_to!(es => es[i]));
                assert(decreases_to!(es[i] => es[i].1));
                lemma_plain_distinguishable(es[i].1);
            }
        },
        NodeV::Variant(_, child) => {
            lemma_plain_distinguishable(*child);
        },
        NodeV::Optional(o) => {
            if let Some(child) = o {
                lemma_plain_distinguishable(*child);
            }
        },
        _ => {},
    }
}

/// The initial value of a plain spec is plain.
pub proof fn lemma_initial_plain(s: spec::NodeV)
    requires
        spec::wf(s),
        plain_spec(s),
    ensures
        plain_value(spec::initial(s)),
    decreases s,
{
    match s {
        spec::NodeV::Sub { map } => {
            let es = spec::initial_entries(map);
            assert forall|i: int| 0 <= i < es.len() implies plain_value(#[trigger] es[i].1) by {
                assert(decreases_to!(s => map));
                assert(decreases_to!(map => map[i]));
                assert(decreases_to!(map[i] => map[i].1));
                lemma_initial_plain(map[i].1);
                assert(es[i].1 == spec::initial(map[i].1));
            }
            assert(spec::initial(s) == NodeV::Sub(es));
        },
        spec::NodeV::AnonMap { value_type, init_size, .. } => {
            lemma_initial_plain(*value_type);
            let es = spec::copies(init_size, spec::initial(*value_type));
            assert forall|i: int| 0 <= i < es.len() implies plain_value(#[trigger] es[i].1) by {}
        },
        spec::NodeV::Variant { map, init } => {
            lemma_key_pos(view_keys(map), init);
            let i = key_pos(view_keys(map), init);
            assert(view_keys(map)[i] == map[i].0);
            assert(decreases_to!(s => map));
            assert(decreases_to!(map => map[i]));
            assert(decreases_to!(map[i] => map[i].1));
            lemma_initial_plain(map[i].1);
            assert(spec::initial(s) == spec::initial_variant(map, init));
            assert(spec::initial_variant(map, init) == NodeV::Variant(init, Box::new(spec::initial(map[i].1))));
        },
        spec::NodeV::Optional { value_type, init_present } => {
            lemma_initial_plain(*value_type);
            assert(spec::initial(s) == spec::initial_optional(*value_type, init_present));
            if init_present {
                assert(spec::initial_optional(*value_type, true) == NodeV::Optional(Some(Box::new(spec::initial(*value_type)))));
                let t = *value_type;
                match t {
                    spec::NodeV::Variant { map, init } => {
                        assert(spec::initial(t) == spec::initial_variant(map, init));
                    },
                    spec::NodeV::Optional { .. } => {},
                    _ => {},
                }
            } else {
                assert(spec::initial_optional(*value_type, false) == NodeV::Optional(None));
            }
        },
        _ => {},
    }
}

/// A plain value that conforms to a well-formed spec reads back from its
/// JSON document.
pub proof fn law_plain_value_round_trip(v: NodeV, s: spec::NodeV, path: Seq<Seq<char>>)
    requires
        spec::wf(s),
        conforms(v, s),
        plain_value(v),
    ensures
        spec_from_json(spec_to_json(v), s, path) == Ok::<NodeV, ErrorV>(v),
{
    lemma_plain_distinguishable(v);
    law_json_round_trip(v, s, path);
}

/// The initial value of a well-formed plain spec reads back from its JSON
/// document.
pub proof fn law_plain_initial_round_trip(s: spec::NodeV, path: Seq<Seq<char>>)
    requires
        spec::wf(s),
        plain_spec(s),
    ensures
        spec_from_json(spec_to_json(spec::initial(s)), s, path) == Ok::<NodeV, ErrorV>(spec::initial(s)),
{
    lemma_initial_plain(s);
    lemma_plain_distinguishable(spec::initial(s));
    law_initial_round_trip(s, path);
}


// ---------------------------------------------------------------------------
// Leaves of crossover offspring
// ---------------------------------------------------------------------------

/// The keys of anon map entries in decimal, as path elements.
pub open spec fn decimal_keys(es: Seq<(usize, NodeV)>) -> Seq<Seq<char>> {
    Seq::new(es.len(), |i: int| decimal(es[i].0 as nat))
}

/// The node of `v` at path `p` (path elements from `v` down: sub keys, anon
/// map keys in decimal, variant names, `optional_key()` for a present
/// optional), if there is one.
pub open spec fn node_at(v: NodeV, p: Seq<Seq<char>>) -> Option<NodeV>
    decreases p.len(),
{
    if p.len() == 0 {
        Some(v)
    } else {
        match v {
            NodeV::Sub(es) => {
                let i = key_pos(view_keys(es), p[0]);
                if 0 <= i < es.len() { node_at(es[i].1, p.drop_first()) } else { None }
            },
            NodeV::AnonMap(es) => {
                let i = key_pos(decimal_keys(es), p[0]);
                if 0 <= i < es.len() { node_at(es[i].1, p.drop_first()) } else { None }
            },
            NodeV::Variant(name, c) => if name == p[0] { node_at(*c, p.drop_first()) } else { None },
            NodeV::Optional(o) => match o {
                Some(c) => if p[0] == crate::path::optional_key() { node_at(*c, p.drop_first()) } else { None },
                None => None,
            },
            _ => None,
        }
    }
}

/// Looking a key up in decimal finds the same entry as looking it up as is.
proof fn lemma_decimal_key_pos(es: Seq<(usize, NodeV)>, key: usize)
    ensures
        key_pos(decimal_keys(es), decimal(key as nat)) == key_pos(plain_keys(es), key),
    decreases es.len(),
{
    if es.len() > 0 {
        lemma_decimal_key_pos(es.drop_last(), key);
        assert(decimal_keys(es).drop_last() =~= decimal_keys(es.drop_last()));
        assert(plain_keys(es).drop_last() =~= plain_keys(es.drop_last()));
        let k = es.last().0;
        lemma_parse_decimal(k);
        lemma_parse_decimal(key);
        assert((decimal(k as nat) == decimal(key as nat)) == (k == key));
    }
}

/// Each child of the variant values that hold `name` is the child of one of
/// them; there is one where some value holds `name`.
proof fn lemma_variant_kids_from(vs: Seq<NodeV>, name: Seq<char>)
    ensures
        forall|j: int| 0 <= j < variant_kids(vs, name).len() ==> exists|i: int| 0 <= i < vs.len()
            && vs[i]->Variant_0 == name && #[trigger] variant_kids(vs, name)[j] == *vs[i]->Variant_1,
        (exists|i: int| 0 <= i < vs.len() && (#[trigger] vs[i])->Variant_0 == name) ==> variant_kids(vs, name).len() > 0,
    decreases vs.len(),
{
    if vs.len() > 0 {
        let ws = vs.drop_last();
        lemma_variant_kids_from(ws, name);
        assert forall|j: int| 0 <= j < variant_kids(vs, name).len() implies exists|i: int| 0 <= i < vs.len()
            && vs[i]->Variant_0 == name && #[trigger] variant_kids(vs, name)[j] == *vs[i]->Variant_1 by {
            if j < variant_kids(ws, name).len() {
                let i = choose|i: int| 0 <= i < ws.len() && ws[i]->Variant_0 == name && variant_kids(ws, name)[j] == *ws[i]->Variant_1;
                assert(vs[i] == ws[i]);
            } else {
                assert(vs[vs.len() - 1] == vs.last());
            }
        }
        if exists|i: int| 0 <= i < vs.len() && (#[trigger] vs[i])->Variant_0 == name {
            let i = choose|i: int| 0 <= i < vs.len() && (#[trigger] vs[i])->Variant_0 == name;
            if i < ws.len() {
                assert(ws[i] == vs[i]);
            }
        }
    }
}

/// Each present content is that of one of the optional values; there is one
/// where some value is present.
proof fn lemma_present_kids_from(vs: Seq<NodeV>)
    ensures
        forall|j: int| 0 <= j < present_kids(vs).len() ==> exists|i: int| 0 <= i < vs.len()
            && vs[i]->Optional_0 == Some(Box::new(#[trigger] present_kids(vs)[j])),
        (exists|i: int| 0 <= i < vs.len() && (#[trigger] vs[i])->Optional_0 is Some) ==> present_kids(vs).len() > 0,
    decreases vs.len(),
{
    if vs.len() > 0 {
        let ws = vs.drop_last();
        lemma_present_kids_from(ws);
        assert forall|j: int| 0 <= j < present_kids(vs).len() implies exists|i: int| 0 <= i < vs.len()
            && vs[i]->Optional_0 == Some(Box::new(#[trigger] present_kids(vs)[j])) by {
            if j < present_kids(ws).len() {
                let i = choose|i: int| 0 <= i < ws.len() && ws[i]->Optional_0 == Some(Box::new(present_kids(ws)[j]));
                assert(vs[i] == ws[i]);
            } else {
                assert(vs[vs.len() - 1] == vs.last());
            }
        }
        if exists|i: int| 0 <= i < vs.len() && (#[trigger] vs[i])->Optional_0 is Some {
            let i = choose|i: int| 0 <= i < vs.len() && (#[trigger] vs[i])->Optional_0 is Some;
            if i < ws.len() {
                assert(ws[i] == vs[i]);
            }
        }
    }
}

/// Each node under `key` is that of one of the anon map values that have
/// the key; there is one where some value has it.
proof fn lemma_anon_kids_from(vs: Seq<NodeV>, key: usize)
    ensures
        forall|j: int| 0 <= j < anon_kids(vs, key).len() ==> exists|i: int| 0 <= i < vs.len()
            && anon_keys(vs[i]).contains(key)
            && #[trigger] anon_kids(vs, key)[j] == vs[i]->AnonMap_0[key_pos(anon_keys(vs[i]), key)].1,
        in_some(vs, key) ==> anon_kids(vs, key).len() > 0,
    decreases vs.len(),
{
    if vs.len() > 0 {
        let ws = vs.drop_last();
        lemma_anon_kids_from(ws, key);
        assert forall|j: int| 0 <= j < anon_kids(vs, key).len() implies exists|i: int| 0 <= i < vs.len()
            && anon_keys(vs[i]).contains(key)
            && #[trigger] anon_kids(vs, key)[j] == vs[i]->AnonMap_0[key_pos(anon_keys(vs[i]), key)].1 by {
            if j < anon_kids(ws, key).len() {
                let i = choose|i: int| 0 <= i < ws.len() && anon_keys(ws[i]).contains(key)
                    && anon_kids(ws, key)[j] == ws[i]->AnonMap_0[key_pos(anon_keys(ws[i]), key)].1;
                assert(vs[i] == ws[i]);
            } else {
                assert(vs[vs.len() - 1] == vs.last());
            }
        }
        if in_some(vs, key) {
            let i = choose|i: int| 0 <= i < vs.len() && anon_keys(#[trigger] vs[i]).contains(key);
            if i < ws.len() {
                assert(ws[i] == vs[i]);
                assert(in_some(ws, key));
            }
        }
    }
}


/// Every leaf of a crossover offspring (see `crossover_drawn`) is the leaf at
/// the same path in one of the individuals.
pub proof fn law_crossover_leaves_from_individuals(vs: Seq<NodeV>, s: spec::NodeV, d: Seq<Draw>, r: NodeV, p: Seq<Seq<char>>)
    requires
        spec::wf(s),
        vs.len() > 0,
        all_conform(vs, s),
        conforms(r, s),
        crossover_drawn(vs, s, d, r),
        node_at(r, p) matches Some(x) && is_leaf_value(x),
    ensures
        exists|i: int| 0 <= i < vs.len() && node_at(vs[i], p) == node_at(r, p),
    decreases s,
{
    if s is Const {
        assert(r is Const);
    } else if vs.len() == 1 {
        assert(node_at(vs[0], p) == node_at(r, p));
    } else if crate::spec_util::spec_is_leaf(s) {
        if forall|i: int| 0 <= i < vs.len() ==> #[trigger] vs[i] == vs[0] {
            assert(node_at(vs[0], p) == node_at(r, p));
        } else {
            let i = clamp_position(d[0]->Select_1, vs.len() as int);
            assert(node_at(vs[i], p) == node_at(r, p));
        }
    } else if d[0] == Draw::Cross(false) {
        let i = clamp_position(d[1]->Select_1, vs.len() as int);
        assert(node_at(vs[i], p) == node_at(r, p));
    } else {
        assert(crossed_over(vs, s, d, r));
        if p.len() == 0 {
            assert(!is_leaf_value(r));
        }
        let rest = p.drop_first();
        match s {
            spec::NodeV::Sub { map } => {
                let nes = r->Sub_0;
                assert(view_keys(nes) =~= view_keys(map));
                let k = key_pos(view_keys(nes), p[0]);
                lemma_key_pos(view_keys(nes), p[0]);
                let cs = choose|cs: Seq<Seq<Draw>>| {
                    &&& cs.len() == map.len()
                    &&& d.drop_first() == concat_draws(cs)
                    &&& forall|k: int| 0 <= k < map.len() && k < nes.len()
                        ==> crossover_drawn(sub_kids(vs, k), (#[trigger] map[k]).1, cs[k], nes[k].1)
                };
                let kids = sub_kids(vs, k);
                assert forall|j: int| 0 <= j < kids.len() implies conforms(#[trigger] kids[j], map[k].1) by {
                    assert(conforms(vs[j], s));
                    assert(kids[j] == vs[j]->Sub_0[k].1);
                }
                assert(crossover_drawn(kids, map[k].1, cs[k], nes[k].1));
                assert(decreases_to!(s => map));
                assert(decreases_to!(map => map[k]));
                assert(decreases_to!(map[k] => map[k].1));
                law_crossover_leaves_from_individuals(kids, map[k].1, cs[k], nes[k].1, rest);
                let j = choose|j: int| 0 <= j < kids.len() && node_at(kids[j], rest) == node_at(nes[k].1, rest);
                assert(conforms(vs[j], s));
                assert(view_keys(vs[j]->Sub_0) =~= view_keys(map));
                assert(node_at(vs[j], p) == node_at(r, p));
            },
            spec::NodeV::Variant { map, .. } => {
                let name = r->Variant_0;
                let nc = *r->Variant_1;
                let pos = key_pos(view_keys(map), name);
                let same = forall|i: int| 0 <= i < vs.len() ==> (#[trigger] vs[i])->Variant_0 == vs[0]->Variant_0;
                let h: int = if same { 1 } else { 2 };
                let kids = variant_kids(vs, name);
                lemma_variant_kids_from(vs, name);
                if same {
                    assert(vs[0]->Variant_0 == name);
                } else {
                    let i = clamp_position(d[1]->Select_1, vs.len() as int);
                    assert(vs[i]->Variant_0 == name);
                }
                assert forall|j: int| 0 <= j < kids.len() implies conforms(#[trigger] kids[j], map[pos].1) by {
                    let i = choose|i: int| 0 <= i < vs.len() && vs[i]->Variant_0 == name && kids[j] == *vs[i]->Variant_1;
                    assert(conforms(vs[i], s));
                }
                assert(decreases_to!(s => map));
                assert(decreases_to!(map => map[pos]));
                assert(decreases_to!(map[pos] => map[pos].1));
                law_crossover_leaves_from_individuals(kids, map[pos].1, d.skip(h), nc, rest);
                let j = choose|j: int| 0 <= j < kids.len() && node_at(kids[j], rest) == node_at(nc, rest);
                let i = choose|i: int| 0 <= i < vs.len() && vs[i]->Variant_0 == name && kids[j] == *vs[i]->Variant_1;
                assert(conforms(vs[i], s));
                assert(node_at(vs[i], p) == node_at(r, p));
            },
            spec::NodeV::Optional { value_type, .. } => {
                let c = *r->Optional_0->Some_0;
                let same = forall|i: int| 0 <= i < vs.len() ==> ((#[trigger] vs[i])->Optional_0 is None <==> vs[0]->Optional_0 is None);
                let h: int = if same { 1 } else { 2 };
                let kids = present_kids(vs);
                lemma_present_kids_from(vs);
                if same {
                    assert(vs[0]->Optional_0 is Some);
                } else {
                    let i = clamp_position(d[1]->Select_1, vs.len() as int);
                    assert(vs[i]->Optional_0 is Some);
                }
                assert forall|j: int| 0 <= j < kids.len() implies conforms(#[trigger] kids[j], *value_type) by {
                    let i = choose|i: int| 0 <= i < vs.len() && vs[i]->Optional_0 == Some(Box::new(kids[j]));
                    assert(conforms(vs[i], s));
                }
                law_crossover_leaves_from_individuals(kids, *value_type, d.skip(h), c, rest);
                let j = choose|j: int| 0 <= j < kids.len() && node_at(kids[j], rest) == node_at(c, rest);
                let i = choose|i: int| 0 <= i < vs.len() && vs[i]->Optional_0 == Some(Box::new(kids[j]));
                assert(conforms(vs[i], s));
                assert(node_at(vs[i], p) == node_at(r, p));
            },
            spec::NodeV::AnonMap { value_type, min_size, max_size, .. } => {
                let es = r->AnonMap_0;
                let k = key_pos(decimal_keys(es), p[0]);
                lemma_key_pos(decimal_keys(es), p[0]);
                let key = es[k].0;
                let (h, cs) = choose|h: int, cs: Seq<Seq<Draw>>| #![trigger d.skip(h), concat_draws(cs)] {
                    &&& 1 <= h <= d.len()
                    &&& crate::crossover::keys_drawn(vs, (min_size, max_size), d.subrange(1, h), plain_keys(es))
                    &&& cs.len() == es.len()
                    &&& d.skip(h) == concat_draws(cs)
                    &&& forall|k: int| 0 <= k < es.len() ==> crossover_drawn(anon_kids(vs, (#[trigger] es[k]).0), *value_type, cs[k], es[k].1)
                };
                let kids = anon_kids(vs, key);
                lemma_anon_kids_from(vs, key);
                assert(in_some(vs, es[k].0));
                assert forall|j: int| 0 <= j < kids.len() implies conforms(#[trigger] kids[j], *value_type) by {
                    let i = choose|i: int| 0 <= i < vs.len() && anon_keys(vs[i]).contains(key)
                        && kids[j] == vs[i]->AnonMap_0[key_pos(anon_keys(vs[i]), key)].1;
                    assert(conforms(vs[i], s));
                    lemma_key_pos(anon_keys(vs[i]), key);
                }
                assert(crossover_drawn(kids, *value_type, cs[k], es[k].1));
                law_crossover_leaves_from_individuals(kids, *value_type, cs[k], es[k].1, rest);
                let j = choose|j: int| 0 <= j < kids.len() && node_at(kids[j], rest) == node_at(es[k].1, rest);
                let i = choose|i: int| 0 <= i < vs.len() && anon_keys(vs[i]).contains(key)
                    && kids[j] == vs[i]->AnonMap_0[key_pos(anon_keys(vs[i]), key)].1;
                assert(decimal(key as nat) == p[0]);
                lemma_decimal_key_pos(vs[i]->AnonMap_0, key);
                lemma_key_pos(anon_keys(vs[i]), key);
                assert(node_at(vs[i], p) == node_at(r, p));
            },
            _ => {},
        }
    }
}

} // verus!
