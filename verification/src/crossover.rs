//! Crossover: an offspring made from individuals ordered best first, part by
//! part along the spec, each part taken from one individual or crossed over
//! in turn.
use vstd::prelude::*;
use crate::number_text::usize_to_decimal;
use crate::path::{PathContext, PathNodeContext};
use crate::selection::{
    CrossoverChoices, Draw, DrawLog, Scaled, clamp_position, draw_crossover_decision, drawn_since, extends, lemma_extends_refl, lemma_extends_trans,
    select_position,
};
use crate::seq_util::{key_pos, keys_distinct, lemma_key_pos, plain_keys, view_keys};
use crate::mutation::concat_draws;
use crate::spec;
use crate::spec_util::{is_leaf, spec_is_leaf};
use crate::value::{self, Value, conforms};

verus! {

/// The views of a sequence of references to value nodes.
pub open spec fn views(ps: Seq<&value::Node>) -> Seq<value::NodeV> {
    ps.map_values(|p: &value::Node| p@)
}

/// The `k`-th children of sub values.
pub open spec fn sub_kids(vs: Seq<value::NodeV>, k: int) -> Seq<value::NodeV> {
    Seq::new(vs.len(), |i: int| vs[i]->Sub_0[k].1)
}

/// The children of the variant values that hold the variant `name`, in
/// order.
pub open spec fn variant_kids(vs: Seq<value::NodeV>, name: Seq<char>) -> Seq<value::NodeV>
    decreases vs.len(),
{
    if vs.len() == 0 {
        Seq::empty()
    } else {
        let o = variant_kids(vs.drop_last(), name);
        if vs.last()->Variant_0 == name {
            o.push(*vs.last()->Variant_1)
        } else {
            o
        }
    }
}

/// The contents of the optional values that are present, in order.
pub open spec fn present_kids(vs: Seq<value::NodeV>) -> Seq<value::NodeV>
    decreases vs.len(),
{
    if vs.len() == 0 {
        Seq::empty()
    } else {
        let o = present_kids(vs.drop_last());
        match vs.last()->Optional_0 {
            Some(c) => o.push(*c),
            None => o,
        }
    }
}

/// The nodes under `key` of the anon map values that have it, in order.
pub open spec fn anon_kids(vs: Seq<value::NodeV>, key: usize) -> Seq<value::NodeV>
    decreases vs.len(),
{
    if vs.len() == 0 {
        Seq::empty()
    } else {
        let o = anon_kids(vs.drop_last(), key);
        if anon_keys(vs.last()).contains(key) {
            o.push(vs.last()->AnonMap_0[key_pos(anon_keys(vs.last()), key)].1)
        } else {
            o
        }
    }
}

/// The views of values.
pub open spec fn value_views(ps: Seq<&Value>) -> Seq<value::NodeV> {
    ps.map_values(|p: &Value| p@)
}

/// Whether every value conforms to the spec.
pub open spec fn all_conform(vs: Seq<value::NodeV>, s: spec::NodeV) -> bool {
    forall|i: int| 0 <= i < vs.len() ==> conforms(#[trigger] vs[i], s)
}

/// Whether every value keeps the sizes of its anon maps within the spec's
/// bounds.
pub open spec fn all_sizes_within(vs: Seq<value::NodeV>, s: spec::NodeV) -> bool {
    forall|i: int| 0 <= i < vs.len() ==> value::sizes_within(#[trigger] vs[i], s)
}

/// Whether `v` is one of `vs`.
pub open spec fn one_of(v: value::NodeV, vs: Seq<value::NodeV>) -> bool {
    exists|i: int| 0 <= i < vs.len() && vs[i] == v
}

/// The keys of an anon map value.
pub open spec fn anon_keys(v: value::NodeV) -> Seq<usize> {
    plain_keys(v->AnonMap_0)
}

/// Whether a value node is a real, int, bool or enum.
pub open spec fn is_leaf_value(v: value::NodeV) -> bool {
    v is Real || v is Int || v is Bool || v is Enum
}

/// Whether two value nodes are of the same kind.
pub open spec fn same_kind(a: value::NodeV, b: value::NodeV) -> bool {
    &&& (a is Real <==> b is Real)
    &&& (a is Int <==> b is Int)
    &&& (a is Bool <==> b is Bool)
    &&& (a is Enum <==> b is Enum)
}

/// Whether the leaves are all equal to the first.
pub fn are_all_same(individuals_ordered: &Vec<&value::Node>) -> (r: bool)
    requires
        individuals_ordered@.len() > 0,
        is_leaf_value(individuals_ordered@[0]@),
        forall|i: int| 0 <= i < individuals_ordered@.len() ==> same_kind(#[trigger] individuals_ordered@[i]@, individuals_ordered@[0]@),
    ensures
        r == (forall|i: int| 0 <= i < individuals_ordered@.len() ==> #[trigger] individuals_ordered@[i]@ == individuals_ordered@[0]@),
{
    let probe = individuals_ordered[0];
    let mut i: usize = 1;
    while i < individuals_ordered.len()
        invariant
            1 <= i <= individuals_ordered@.len(),
            probe == individuals_ordered@[0],
            is_leaf_value(probe@),
            forall|j: int| 0 <= j < individuals_ordered@.len() ==> same_kind(#[trigger] individuals_ordered@[j]@, probe@),
            forall|j: int| 0 <= j < i ==> #[trigger] individuals_ordered@[j]@ == probe@,
        decreases individuals_ordered.len() - i,
    {
        let other = individuals_ordered[i];
        assert(same_kind(individuals_ordered@[i as int]@, probe@));
        let same = match (probe, other) {
            (value::Node::Real(a), value::Node::Real(b)) => a.0 == b.0,
            (value::Node::Int(a), value::Node::Int(b)) => *a == *b,
            (value::Node::Bool(a), value::Node::Bool(b)) => *a == *b,
            (value::Node::Enum(a), value::Node::Enum(b)) => *a == *b,
            _ => vstd::pervasive::unreached(),
        };
        if !same {
            assert(individuals_ordered@[i as int]@ != individuals_ordered@[0]@);
            return false;
        }
        i = i + 1;
    }
    true
}

/// The name of the variant that a variant value holds.
pub fn extract_variant_name(node: &value::Node) -> (r: &str)
    requires
        node@ is Variant,
    ensures
        r@ == node@->Variant_0,
{
    match node {
        value::Node::Variant(variant_name, _) => variant_name.as_str(),
        _ => vstd::pervasive::unreached(),
    }
}

/// The entries of an anon map value.
pub fn extract_anon_map_inner(node: &value::Node) -> (r: &Vec<(usize, value::Node)>)
    requires
        node@ is AnonMap,
    ensures
        value::anon_entries_view(r@) == node@->AnonMap_0,
{
    match node {
        value::Node::AnonMap(mapping) => mapping,
        _ => vstd::pervasive::unreached(),
    }
}

/// Whether some of the anon map values has the key.
pub open spec fn in_some(vs: Seq<value::NodeV>, k: usize) -> bool {
    exists|i: int| 0 <= i < vs.len() && anon_keys(#[trigger] vs[i]).contains(k)
}

/// Whether `k` occurs in `v`.
fn contains_key(v: &Vec<usize>, k: usize) -> (r: bool)
    ensures
        r == v@.contains(k),
{
    let mut i: usize = 0;
    while i < v.len()
        invariant
            i <= v@.len(),
            forall|j: int| 0 <= j < i ==> v@[j] != k,
        decreases v.len() - i,
    {
        if v[i] == k {
            assert(v@[i as int] == k);
            return true;
        }
        i = i + 1;
    }
    false
}

/// The node under `key` in an anon map value, if any.
fn anon_get<'a>(node: &'a value::Node, key: usize) -> (r: Option<&'a value::Node>)
    requires
        node@ is AnonMap,
    ensures
        match r {
            Some(c) => {
                let i = key_pos(anon_keys(node@), key);
                &&& 0 <= i < node@->AnonMap_0.len()
                &&& c@ == node@->AnonMap_0[i].1
                &&& anon_keys(node@).contains(key)
            },
            None => !anon_keys(node@).contains(key),
        },
{
    let mapping = extract_anon_map_inner(node);
    let ghost es = node@->AnonMap_0;
    proof {
        lemma_key_pos(anon_keys(node@), key);
    }
    let mut i: usize = 0;
    while i < mapping.len()
        invariant
            i <= mapping@.len(),
            value::anon_entries_view(mapping@) == es,
            es == node@->AnonMap_0,
            forall|j: int| 0 <= j < i ==> anon_keys(node@)[j] != key,
            -1 <= key_pos(anon_keys(node@), key) < es.len(),
            key_pos(anon_keys(node@), key) == -1 <==> !anon_keys(node@).contains(key),
            key_pos(anon_keys(node@), key) >= 0 ==> anon_keys(node@)[key_pos(anon_keys(node@), key)] == key,
            forall|j: int| 0 <= j < key_pos(anon_keys(node@), key) ==> anon_keys(node@)[j] != key,
        decreases mapping.len() - i,
    {
        assert(anon_keys(node@)[i as int] == mapping@[i as int].0);
        if mapping[i].0 == key {
            assert(es[i as int].1 == mapping@[i as int].1@);
            assert(anon_keys(node@)[i as int] == key);
            return Some(&mapping[i].1);
        }
        i = i + 1;
    }
    None
}

/// The keys of the anon map values, each once, in the order in which they
/// first occur.
fn collect_anon_keys(individuals_ordered: &Vec<&value::Node>) -> (r: Vec<usize>)
    requires
        forall|i: int| 0 <= i < individuals_ordered@.len() ==> (#[trigger] individuals_ordered@[i])@ is AnonMap,
    ensures
        keys_distinct(r@),
        forall|j: int| 0 <= j < r@.len() ==> in_some(views(individuals_ordered@), #[trigger] r@[j]),
        forall|i: int, p: int| 0 <= i < individuals_ordered@.len() && 0 <= p < anon_keys(individuals_ordered@[i]@).len()
            ==> r@.contains(#[trigger] anon_keys(individuals_ordered@[i]@)[p]),
{
    let ghost vs = views(individuals_ordered@);
    let mut all_keys: Vec<usize> = Vec::new();
    let mut i: usize = 0;
    while i < individuals_ordered.len()
        invariant
            i <= individuals_ordered@.len(),
            vs == views(individuals_ordered@),
            forall|n: int| 0 <= n < individuals_ordered@.len() ==> (#[trigger] individuals_ordered@[n])@ is AnonMap,
            keys_distinct(all_keys@),
            forall|j: int| 0 <= j < all_keys@.len() ==> in_some(vs, #[trigger] all_keys@[j]),
            forall|n: int, p: int| 0 <= n < i && 0 <= p < anon_keys(individuals_ordered@[n]@).len()
                ==> all_keys@.contains(#[trigger] anon_keys(individuals_ordered@[n]@)[p]),
        decreases individuals_ordered.len() - i,
    {
        let mapping = extract_anon_map_inner(individuals_ordered[i]);
        assert(vs[i as int] == individuals_ordered@[i as int]@);
        let mut j: usize = 0;
        while j < mapping.len()
            invariant
                i < individuals_ordered@.len(),
                j <= mapping@.len(),
                vs == views(individuals_ordered@),
                vs[i as int] == individuals_ordered@[i as int]@,
                value::anon_entries_view(mapping@) == vs[i as int]->AnonMap_0,
                keys_distinct(all_keys@),
                forall|n: int| 0 <= n < all_keys@.len() ==> in_some(vs, #[trigger] all_keys@[n]),
                forall|n: int, p: int| 0 <= n < i && 0 <= p < anon_keys(individuals_ordered@[n]@).len()
                    ==> all_keys@.contains(#[trigger] anon_keys(individuals_ordered@[n]@)[p]),
                forall|p: int| 0 <= p < j ==> all_keys@.contains(#[trigger] anon_keys(individuals_ordered@[i as int]@)[p]),
            decreases mapping.len() - j,
        {
            let k = mapping[j].0;
            proof {
                assert(anon_keys(vs[i as int])[j as int] == k);
            }
            if !contains_key(&all_keys, k) {
                proof {
                    assert(anon_keys(vs[i as int])[j as int] == k);
                    assert(anon_keys(vs[i as int]).contains(k));
                    assert(in_some(vs, k));
                }
                let ghost old_keys = all_keys@;
                all_keys.push(k);
                proof {
                    assert forall|a: int, b: int| 0 <= a < b < all_keys@.len() implies all_keys@[a] != all_keys@[b] by {
                        if b == all_keys@.len() - 1 {
                            assert(all_keys@[a] == old_keys[a]);
                            assert(old_keys[a] != k);
                        } else {
                            assert(all_keys@[a] == old_keys[a]);
                            assert(all_keys@[b] == old_keys[b]);
                        }
                    }
                    assert forall|n: int| 0 <= n < all_keys@.len() implies in_some(vs, #[trigger] all_keys@[n]) by {
                        if n < all_keys@.len() - 1 {
                            assert(old_keys[n] == all_keys@[n]);
                        }
                    }
                    assert forall|x: usize| old_keys.contains(x) implies all_keys@.contains(x) by {
                        let w = choose|w: int| 0 <= w < old_keys.len() && old_keys[w] == x;
                        assert(all_keys@[w] == x);
                    }
                    assert(all_keys@[all_keys@.len() - 1] == k);
                }
            }
            j = j + 1;
        }
        i = i + 1;
    }
    all_keys
}

/// Whether each anon map value has the key.
fn presence_of_key(individuals_ordered: &Vec<&value::Node>, key: usize) -> (r: Vec<bool>)
    requires
        forall|i: int| 0 <= i < individuals_ordered@.len() ==> (#[trigger] individuals_ordered@[i])@ is AnonMap,
    ensures
        r@.len() == individuals_ordered@.len(),
        forall|i: int| 0 <= i < r@.len() ==> #[trigger] r@[i] == anon_keys(individuals_ordered@[i]@).contains(key),
{
    let mut out: Vec<bool> = Vec::new();
    let mut i: usize = 0;
    while i < individuals_ordered.len()
        invariant
            i <= individuals_ordered@.len(),
            out@.len() == i,
            forall|n: int| 0 <= n < individuals_ordered@.len() ==> (#[trigger] individuals_ordered@[n])@ is AnonMap,
            forall|n: int| 0 <= n < i ==> #[trigger] out@[n] == anon_keys(individuals_ordered@[n]@).contains(key),
        decreases individuals_ordered.len() - i,
    {
        let found = anon_get(individuals_ordered[i], key);
        out.push(found.is_some());
        i = i + 1;
    }
    out
}

/// Whether all the flags are equal.
fn all_equal(flags: &Vec<bool>) -> (r: bool)
    requires
        flags@.len() > 0,
    ensures
        r == (forall|i: int| 0 <= i < flags@.len() ==> #[trigger] flags@[i] == flags@[0]),
{
    let mut i: usize = 1;
    while i < flags.len()
        invariant
            1 <= i <= flags@.len(),
            forall|j: int| 0 <= j < i ==> #[trigger] flags@[j] == flags@[0],
        decreases flags.len() - i,
    {
        if flags[i] != flags[0] {
            return false;
        }
        i = i + 1;
    }
    true
}

/// Pushing a key that is not yet there keeps the keys distinct and keeps
/// every key that was there.
proof fn lemma_push_fresh(keys: Seq<usize>, k: usize)
    requires
        keys_distinct(keys),
        !keys.contains(k),
    ensures
        keys_distinct(keys.push(k)),
        keys.push(k).contains(k),
        forall|x: usize| keys.contains(x) ==> #[trigger] keys.push(k).contains(x),
{
    let r = keys.push(k);
    assert forall|a: int, b: int| 0 <= a < b < r.len() implies r[a] != r[b] by {
        assert(r[a] == keys[a]);
        if b < keys.len() {
            assert(r[b] == keys[b]);
        } else {
            assert(keys.contains(keys[a]));
        }
    }
    assert(r[keys.len() as int] == k);
    assert forall|x: usize| keys.contains(x) implies #[trigger] r.contains(x) by {
        let w = choose|w: int| 0 <= w < keys.len() && keys[w] == x;
        assert(r[w] == x);
    }
}

/// The keys of `all_keys` in the order in which `shuffled` gives them, each
/// once, followed by those that `shuffled` misses. Where `shuffled` is an
/// arrangement of the distinct `all_keys`, this is `shuffled` itself.
fn arrange_keys(shuffled: &Vec<usize>, all_keys: &Vec<usize>) -> (r: Vec<usize>)
    ensures
        keys_distinct(r@),
        forall|j: int| 0 <= j < r@.len() ==> all_keys@.contains(#[trigger] r@[j]),
        forall|j: int| 0 <= j < all_keys@.len() ==> r@.contains(#[trigger] all_keys@[j]),
{
    let mut order: Vec<usize> = Vec::new();
    let mut i: usize = 0;
    while i < shuffled.len()
        invariant
            i <= shuffled@.len(),
            keys_distinct(order@),
            forall|j: int| 0 <= j < order@.len() ==> all_keys@.contains(#[trigger] order@[j]),
        decreases shuffled.len() - i,
    {
        let key = shuffled[i];
        if contains_key(all_keys, key) && !contains_key(&order, key) {
            proof {
                lemma_push_fresh(order@, key);
            }
            order.push(key);
        }
        i = i + 1;
    }
    let mut j: usize = 0;
    while j < all_keys.len()
        invariant
            j <= all_keys@.len(),
            keys_distinct(order@),
            forall|n: int| 0 <= n < order@.len() ==> all_keys@.contains(#[trigger] order@[n]),
            forall|n: int| 0 <= n < j ==> order@.contains(#[trigger] all_keys@[n]),
        decreases all_keys.len() - j,
    {
        let key = all_keys[j];
        if !contains_key(&order, key) {
            proof {
                lemma_push_fresh(order@, key);
                assert(all_keys@.contains(all_keys@[j as int]));
            }
            order.push(key);
        }
        proof {
            assert(order@.contains(all_keys@[j as int]));
        }
        j = j + 1;
    }
    order
}

/// Whether each individual has `key`, in order.
pub open spec fn presence(vs: Seq<value::NodeV>, key: usize) -> Seq<bool> {
    Seq::new(vs.len(), |n: int| anon_keys(vs[n]).contains(key))
}

/// The keys named by answers that are keys in order.
pub open spec fn order_keys(d: Seq<Draw>) -> Seq<usize> {
    Seq::new(d.len(), |j: int| d[j]->Order_0)
}

/// Whether `order` holds each key of the anon map values `vs` once, and no
/// other.
pub open spec fn arranges_keys(vs: Seq<value::NodeV>, order: Seq<usize>) -> bool {
    &&& keys_distinct(order)
    &&& forall|k: usize| #[trigger] order.contains(k) <==> in_some(vs, k)
}

/// The keys kept when the keys `order` are considered in turn after `kept`
/// (with the answers `d` of the selections made on the way), and how many of
/// the answers were used. A key is kept while fewer than `min` are kept;
/// else as all the individuals have it, where they agree; else as the
/// individual at the selected position has it. The keys stop once `max` are
/// kept.
pub open spec fn keep_keys(vs: Seq<value::NodeV>, order: Seq<usize>, kept: Seq<usize>, min: int, max: int, d: Seq<Draw>) -> (Seq<usize>, int)
    decreases order.len(),
{
    if order.len() == 0 {
        (kept, 0)
    } else {
        let key = order[0];
        let pres = presence(vs, key);
        let asks = kept.len() >= min && !(forall|n: int| 0 <= n < pres.len() ==> #[trigger] pres[n] == pres[0]);
        let take = if kept.len() < min {
            true
        } else if !asks {
            pres[0]
        } else {
            d.len() >= 1 && (d[0] matches Draw::Select(m, i) && m == pres.len() && pres[clamp_position(i, pres.len() as int)])
        };
        let used: int = if asks { 1 } else { 0 };
        let kept2 = if take { kept.push(key) } else { kept };
        if kept2.len() == max {
            (kept2, used)
        } else {
            let rest = keep_keys(vs, order.drop_first(), kept2, min, max, d.skip(used));
            (rest.0, used + rest.1)
        }
    }
}

/// Whether `r` are the keys that crossover keeps of the anon map values `vs`
/// within the size bounds, on the answers `d`: first the keys in the order in
/// which they are considered (each key of the individuals once), then the
/// selections (see `keep_keys`); the maximum is by default the number of keys.
pub open spec fn keys_drawn(vs: Seq<value::NodeV>, size_bounds: (Option<usize>, Option<usize>), d: Seq<Draw>, r: Seq<usize>) -> bool {
    exists|k: int| #![trigger d.take(k)] {
        let order = order_keys(d.take(k));
        let min: int = match size_bounds.0 { Some(m) => m as int, None => 0 };
        let max: int = match size_bounds.1 { Some(m) => m as int, None => k };
        &&& 0 <= k <= d.len()
        &&& forall|j: int| 0 <= j < k ==> (#[trigger] d[j]) is Order
        &&& arranges_keys(vs, order)
        &&& keep_keys(vs, order, Seq::empty(), min, max, d.skip(k)) == (r, d.len() - k)
    }
}

/// Whether every key of every anon map value is among `r`.
pub open spec fn keeps_all_keys(ps: Seq<&value::Node>, r: Seq<usize>) -> bool {
    forall|i: int, p: int| 0 <= i < ps.len() && 0 <= p < anon_keys(ps[i]@).len() ==> r.contains(#[trigger] anon_keys(ps[i]@)[p])
}

/// The keys that the offspring of anon map values keeps: the keys of all
/// the individuals in random order, each taken while fewer than the minimum
/// size are taken, else where all the individuals agree on it, else as the
/// selected individual has it; no more than the maximum size (by default the
/// number of keys). The order and the selections are logged (see
/// `keys_drawn`). Where the bounds are in order, at least as many keys as
/// the minimum size are kept or as the individual with the most keys has.
fn select_anon_map_keys<R, P, C: CrossoverChoices<R, P>>(
    size_bounds: (Option<usize>, Option<usize>),
    individuals_ordered: &Vec<&value::Node>,
    choices: &mut C,
    params: &P,
    draws: &mut DrawLog,
) -> (r: Vec<usize>)
    requires
        individuals_ordered@.len() > 0,
        forall|i: int| 0 <= i < individuals_ordered@.len() ==> (#[trigger] individuals_ordered@[i])@ is AnonMap,
    ensures
        extends(old(draws)@, final(draws)@),
        keys_distinct(r@),
        forall|j: int| 0 <= j < r@.len() ==> in_some(views(individuals_ordered@), #[trigger] r@[j]),
        size_bounds.1 matches Some(m) ==> (m > 0 ==> r@.len() <= m),
        (size_bounds.0 matches Some(lo) ==> (size_bounds.1 matches Some(hi) ==> lo <= hi)) ==>
            forall|i: int| 0 <= i < individuals_ordered@.len() && keys_distinct(anon_keys(#[trigger] individuals_ordered@[i]@)) ==> {
                let lo: int = match size_bounds.0 { Some(lo) => lo as int, None => 0 };
                r@.len() >= lo || r@.len() >= anon_keys(individuals_ordered@[i]@).len()
            },
        (size_bounds.0 matches Some(lo) ==> (size_bounds.1 matches Some(hi) ==> lo <= hi)) ==>
            (size_bounds.0 matches Some(lo) ==> r@.len() >= lo) || keeps_all_keys(individuals_ordered@, r@),
        (size_bounds.1 matches Some(m) && r@.len() == m)
            || forall|k: usize| (forall|n: int| 0 <= n < individuals_ordered@.len() ==> #[trigger] anon_keys(individuals_ordered@[n]@).contains(k))
                ==> r@.contains(k),
        keys_drawn(views(individuals_ordered@), size_bounds, drawn_since(old(draws)@, final(draws)@), r@),
{
    let ghost vs = views(individuals_ordered@);
    let ghost start_draws = draws@;
    proof { lemma_extends_refl(start_draws); }
    let all_keys = collect_anon_keys(individuals_ordered);
    let shuffled = choices.shuffle(all_keys.clone());
    let order = arrange_keys(&shuffled, &all_keys);
    let mut t: usize = 0;
    while t < order.len()
        invariant
            t <= order@.len(),
            extends(start_draws, draws@),
            draws@ == start_draws + Seq::new(t as nat, |j: int| Draw::Order(order@[j])),
        decreases order.len() - t,
    {
        let ghost prev = draws@;
        draws.record(Draw::Order(order[t]));
        proof {
            lemma_extends_trans(start_draws, prev, draws@);
            assert(draws@ =~= start_draws + Seq::new((t + 1) as nat, |j: int| Draw::Order(order@[j])));
        }
        t = t + 1;
    }
    let ghost loop_start = draws@;
    proof { lemma_extends_refl(loop_start); }
    let min_size: usize = match size_bounds.0 {
        Some(m) => m,
        None => 0,
    };
    let max_size: usize = match size_bounds.1 {
        Some(m) => m,
        None => order.len(),
    };
    let mut selected_keys: Vec<usize> = Vec::new();
    proof {
        assert(drawn_since(loop_start, draws@) =~= Seq::<Draw>::empty());
        assert(order@.skip(0) =~= order@);
        assert forall|e: Seq<Draw>| #[trigger] keep_keys(vs, order@, Seq::empty(), min_size as int, max_size as int, drawn_since(loop_start, draws@) + e)
            == (keep_keys(vs, order@.skip(0), selected_keys@, min_size as int, max_size as int, e).0,
                drawn_since(loop_start, draws@).len() + keep_keys(vs, order@.skip(0), selected_keys@, min_size as int, max_size as int, e).1) by {
            assert(drawn_since(loop_start, draws@) + e =~= e);
        }
    }
    let ghost mut idx: Seq<int> = Seq::empty();
    let ghost mut done: int = 0;
    let mut i: usize = 0;
    while i < order.len()
        invariant_except_break
            done == i,
            forall|e: Seq<Draw>| #[trigger] keep_keys(vs, order@, Seq::empty(), min_size as int, max_size as int, drawn_since(loop_start, draws@) + e)
                == (keep_keys(vs, order@.skip(i as int), selected_keys@, min_size as int, max_size as int, e).0,
                    drawn_since(loop_start, draws@).len() + keep_keys(vs, order@.skip(i as int), selected_keys@, min_size as int, max_size as int, e).1),
            i == order@.len() ==> keep_keys(vs, order@, Seq::empty(), min_size as int, max_size as int, drawn_since(loop_start, draws@))
                == (selected_keys@, drawn_since(loop_start, draws@).len() as int),
            max_size > 0 ==> selected_keys@.len() < max_size,
            selected_keys@.len() >= i || selected_keys@.len() >= min_size,
            forall|j: int| 0 <= j < idx.len() ==> #[trigger] idx[j] < i,
        invariant
            extends(start_draws, draws@),
            i <= order@.len(),
            done <= order@.len(),
            selected_keys@.len() <= done,
            selected_keys@.len() < min_size ==> forall|j: int| 0 <= j < done ==> selected_keys@.contains(#[trigger] order@[j]),
            forall|j: int| 0 <= j < done && (forall|n: int| 0 <= n < individuals_ordered@.len() ==> anon_keys(individuals_ordered@[n]@).contains(#[trigger] order@[j]))
                ==> selected_keys@.contains(order@[j]),
            vs == views(individuals_ordered@),
            individuals_ordered@.len() > 0,
            forall|n: int| 0 <= n < individuals_ordered@.len() ==> (#[trigger] individuals_ordered@[n])@ is AnonMap,
            forall|j: int| 0 <= j < all_keys@.len() ==> in_some(vs, #[trigger] all_keys@[j]),
            keys_distinct(order@),
            forall|j: int| 0 <= j < order@.len() ==> all_keys@.contains(#[trigger] order@[j]),
            idx.len() == selected_keys@.len(),
            forall|j: int| 0 <= j < idx.len() ==> 0 <= #[trigger] idx[j] < order@.len() && selected_keys@[j] == order@[idx[j]],
            forall|a: int, b: int| 0 <= a < b < idx.len() ==> #[trigger] idx[a] < #[trigger] idx[b],
            keys_distinct(selected_keys@),
            forall|j: int| 0 <= j < selected_keys@.len() ==> in_some(vs, #[trigger] selected_keys@[j]),
            size_bounds.1 matches Some(m) ==> max_size == m,
            size_bounds.1 is None ==> max_size == order@.len(),
            extends(loop_start, draws@),
            min_size == (match size_bounds.0 { Some(lo) => lo as int, None => 0 }),
        ensures
            max_size > 0 ==> selected_keys@.len() <= max_size,
            selected_keys@.len() >= order@.len() || selected_keys@.len() >= min_size || selected_keys@.len() == max_size,
            keys_distinct(selected_keys@),
            done == order@.len() || selected_keys@.len() == max_size,
            keep_keys(vs, order@, Seq::empty(), min_size as int, max_size as int, drawn_since(loop_start, draws@))
                == (selected_keys@, drawn_since(loop_start, draws@).len() as int),
        decreases order.len() - i,
    {
        let key = order[i];
        let ghost sel_before = selected_keys@;
        let ghost iter_draws = draws@;
        let ghost d0 = drawn_since(loop_start, draws@);
        let ghost mut delta: Seq<Draw> = Seq::empty();
        let ghost pres = presence(vs, key);
        let is_select_key = if selected_keys.len() < min_size {
            true
        } else {
            let presence_values = presence_of_key(individuals_ordered, key);
            proof {
                assert forall|n: int| 0 <= n < presence_values@.len() implies presence_values@[n] == pres[n] by {
                    assert(vs[n] == individuals_ordered@[n]@);
                }
                assert(presence_values@ =~= pres);
            }
            if all_equal(&presence_values) {
                presence_values[0]
            } else {
                let ghost prev_draws = draws@;
                let n = select_position(choices, params, presence_values.len(), draws);
                proof {
                    lemma_extends_trans(start_draws, prev_draws, draws@);
                    lemma_extends_trans(loop_start, prev_draws, draws@);
                    delta = seq![draws@.last()];
                    assert(draws@ =~= prev_draws.push(draws@.last()));
                }
                presence_values[n]
            }
        };
        proof {
            if delta.len() == 0 {
                assert(draws@ == iter_draws);
            }
            assert(drawn_since(loop_start, draws@) =~= d0 + delta);
        }
        if is_select_key {
            proof {
                assert(all_keys@.contains(order@[i as int]));
                let j = choose|j: int| 0 <= j < all_keys@.len() && all_keys@[j] == key;
                assert(in_some(vs, all_keys@[j]));
            }
            let ghost old_keys = selected_keys@;
            let ghost old_idx = idx;
            selected_keys.push(key);
            proof {
                idx = idx.push(i as int);
                assert forall|j: int| 0 <= j < idx.len() implies #[trigger] idx[j] < i + 1 && 0 <= idx[j] < order@.len() && selected_keys@[j] == order@[idx[j]] by {
                    if j < old_idx.len() {
                        assert(idx[j] == old_idx[j]);
                        assert(selected_keys@[j] == old_keys[j]);
                    }
                }
                assert forall|n: int| 0 <= n < selected_keys@.len() implies in_some(vs, #[trigger] selected_keys@[n]) by {
                    if n < selected_keys@.len() - 1 {
                        assert(old_keys[n] == selected_keys@[n]);
                    }
                }
            }
        }
        proof {
            assert forall|a: int, b: int| 0 <= a < b < idx.len() implies #[trigger] idx[a] < #[trigger] idx[b] by {}
            assert forall|j: int| 0 <= j < idx.len() implies #[trigger] idx[j] < i + 1 && 0 <= idx[j] < order@.len() && selected_keys@[j] == order@[idx[j]] by {}
        }
        proof {
            assert forall|a: int, b: int| 0 <= a < b < selected_keys@.len() implies selected_keys@[a] != selected_keys@[b] by {
                assert(idx[a] < idx[b]);
                assert(order@[idx[a]] != order@[idx[b]]);
            }
        }
        proof {
            assert forall|x: usize| sel_before.contains(x) implies selected_keys@.contains(x) by {
                let w = choose|w: int| 0 <= w < sel_before.len() && sel_before[w] == x;
                assert(selected_keys@[w] == x);
            }
            if sel_before.len() < min_size {
                assert(selected_keys@.last() == key);
                assert(selected_keys@.contains(key));
            }
            if forall|n: int| 0 <= n < individuals_ordered@.len() ==> anon_keys(individuals_ordered@[n]@).contains(key) {
                if sel_before.len() >= min_size {
                    assert(anon_keys(individuals_ordered@[0]@).contains(key));
                }
                assert(selected_keys@.last() == key);
                assert(selected_keys@.contains(key));
            }
            done = i + 1;
        }
        proof {
            let ord_i = order@.skip(i as int);
            let mn = min_size as int;
            let mx = max_size as int;
            assert(ord_i[0] == key);
            assert(ord_i.drop_first() =~= order@.skip(i + 1));
            assert forall|e: Seq<Draw>| #[trigger] keep_keys(vs, ord_i, sel_before, mn, mx, delta + e)
                == (if selected_keys@.len() == max_size {
                    (selected_keys@, delta.len() as int)
                } else {
                    (keep_keys(vs, order@.skip(i + 1), selected_keys@, mn, mx, e).0,
                        delta.len() + keep_keys(vs, order@.skip(i + 1), selected_keys@, mn, mx, e).1)
                }) by {
                assert((delta + e).skip(delta.len() as int) =~= e);
                if delta.len() == 1 {
                    assert((delta + e)[0] == delta[0]);
                }
            }
            let d1 = drawn_since(loop_start, draws@);
            assert forall|e: Seq<Draw>| #[trigger] keep_keys(vs, order@, Seq::empty(), mn, mx, d1 + e)
                == (if selected_keys@.len() == max_size {
                    (selected_keys@, d1.len() as int)
                } else {
                    (keep_keys(vs, order@.skip(i + 1), selected_keys@, mn, mx, e).0,
                        d1.len() + keep_keys(vs, order@.skip(i + 1), selected_keys@, mn, mx, e).1)
                }) by {
                assert(d1 + e =~= d0 + (delta + e));
                assert(keep_keys(vs, ord_i, sel_before, mn, mx, delta + e) == keep_keys(vs, ord_i, sel_before, mn, mx, delta + e));
            }
            assert(d1 + Seq::<Draw>::empty() =~= d1);
            assert(keep_keys(vs, order@, Seq::empty(), mn, mx, d1 + Seq::<Draw>::empty()) == keep_keys(vs, order@, Seq::empty(), mn, mx, d1 + Seq::<Draw>::empty()));
            if i + 1 == order@.len() {
                assert(order@.skip(i + 1) =~= Seq::<usize>::empty());
            }
        }
        if selected_keys.len() == max_size {
            break;
        }
        i = i + 1;
    }
    proof {
        crate::seq_util::lemma_distinct_within_len(order@, all_keys@);
        let complete = done == order@.len();
        if !complete {
            assert(selected_keys@.len() == max_size);
            if size_bounds.1 is None {
                assert(false);
            }
        }
        if complete {
            assert forall|k: usize| (forall|n: int| 0 <= n < individuals_ordered@.len() ==> #[trigger] anon_keys(individuals_ordered@[n]@).contains(k))
                implies selected_keys@.contains(k) by {
                assert(anon_keys(individuals_ordered@[0]@).contains(k));
                let p = choose|p: int| 0 <= p < anon_keys(individuals_ordered@[0]@).len() && anon_keys(individuals_ordered@[0]@)[p] == k;
                assert(all_keys@.contains(anon_keys(individuals_ordered@[0]@)[p]));
                let w = choose|w: int| 0 <= w < all_keys@.len() && all_keys@[w] == k;
                assert(order@.contains(all_keys@[w]));
                let j = choose|j: int| 0 <= j < order@.len() && order@[j] == k;
                assert(forall|n: int| 0 <= n < individuals_ordered@.len() ==> anon_keys(individuals_ordered@[n]@).contains(order@[j]));
            }
            if selected_keys@.len() < min_size {
                assert forall|i: int, p: int| 0 <= i < individuals_ordered@.len() && 0 <= p < anon_keys(individuals_ordered@[i]@).len()
                    implies selected_keys@.contains(#[trigger] anon_keys(individuals_ordered@[i]@)[p]) by {
                    let k = anon_keys(individuals_ordered@[i]@)[p];
                    assert(all_keys@.contains(k));
                    let w = choose|w: int| 0 <= w < all_keys@.len() && all_keys@[w] == k;
                    assert(order@.contains(all_keys@[w]));
                    let j = choose|j: int| 0 <= j < order@.len() && order@[j] == k;
                    assert(selected_keys@.contains(order@[j]));
                }
            }
        }
        if size_bounds.0 matches Some(lo) ==> (size_bounds.1 matches Some(hi) ==> lo <= hi) {
            assert forall|n: int| 0 <= n < individuals_ordered@.len() && keys_distinct(anon_keys(#[trigger] individuals_ordered@[n]@)) implies {
                let lo: int = match size_bounds.0 { Some(lo) => lo as int, None => 0 };
                selected_keys@.len() >= lo || selected_keys@.len() >= anon_keys(individuals_ordered@[n]@).len()
            } by {
                let ks = anon_keys(individuals_ordered@[n]@);
                assert forall|p: int| 0 <= p < ks.len() implies order@.contains(#[trigger] ks[p]) by {
                    assert(all_keys@.contains(ks[p]));
                    let w = choose|w: int| 0 <= w < all_keys@.len() && all_keys@[w] == ks[p];
                    assert(order@.contains(all_keys@[w]));
                }
                crate::seq_util::lemma_distinct_within_len(ks, order@);
                assert forall|p: int| 0 <= p < ks.len() implies all_keys@.contains(#[trigger] ks[p]) by {}
                crate::seq_util::lemma_distinct_within_len(ks, all_keys@);
            }
        }
    }
    proof {
        let d = drawn_since(start_draws, draws@);
        let k = order@.len() as int;
        lemma_extends_trans(start_draws, loop_start, draws@);
        assert(loop_start == start_draws + Seq::new(order@.len(), |j: int| Draw::Order(order@[j])));
        assert(d.take(k) =~= Seq::new(order@.len(), |j: int| Draw::Order(order@[j])));
        assert(order_keys(d.take(k)) =~= order@);
        assert(d.skip(k) =~= drawn_since(loop_start, draws@));
        assert forall|x: usize| #[trigger] order@.contains(x) <==> in_some(vs, x) by {
            if order@.contains(x) {
                let j = choose|j: int| 0 <= j < order@.len() && order@[j] == x;
                assert(all_keys@.contains(order@[j]));
                let w = choose|w: int| 0 <= w < all_keys@.len() && all_keys@[w] == x;
                assert(in_some(vs, all_keys@[w]));
            }
            if in_some(vs, x) {
                let n = choose|n: int| 0 <= n < vs.len() && anon_keys(#[trigger] vs[n]).contains(x);
                assert(vs[n] == individuals_ordered@[n]@);
                let p = choose|p: int| 0 <= p < anon_keys(vs[n]).len() && anon_keys(vs[n])[p] == x;
                assert(all_keys@.contains(anon_keys(individuals_ordered@[n]@)[p]));
                let w = choose|w: int| 0 <= w < all_keys@.len() && all_keys@[w] == x;
                assert(order@.contains(all_keys@[w]));
            }
        }
        assert(forall|j: int| 0 <= j < k ==> (#[trigger] d[j]) is Order);
    }
    selected_keys
}

/// The `k`-th child of each sub value.
fn sub_children<'a>(individuals_ordered: &Vec<&'a value::Node>, k: usize) -> (r: Vec<&'a value::Node>)
    requires
        forall|i: int| 0 <= i < individuals_ordered@.len() ==> {
            &&& (#[trigger] individuals_ordered@[i])@ is Sub
            &&& k < individuals_ordered@[i]@->Sub_0.len()
        },
    ensures
        r@.len() == individuals_ordered@.len(),
        forall|i: int| 0 <= i < r@.len() ==> (#[trigger] r@[i])@ == individuals_ordered@[i]@->Sub_0[k as int].1,
{
    let mut out: Vec<&'a value::Node> = Vec::new();
    let mut i: usize = 0;
    while i < individuals_ordered.len()
        invariant
            i <= individuals_ordered@.len(),
            out@.len() == i,
            forall|n: int| 0 <= n < individuals_ordered@.len() ==> {
                &&& (#[trigger] individuals_ordered@[n])@ is Sub
                &&& k < individuals_ordered@[n]@->Sub_0.len()
            },
            forall|n: int| 0 <= n < i ==> (#[trigger] out@[n])@ == individuals_ordered@[n]@->Sub_0[k as int].1,
        decreases individuals_ordered.len() - i,
    {
        let p: &'a value::Node = individuals_ordered[i];
        assert(p@ is Sub && k < p@->Sub_0.len());
        match p {
            value::Node::Sub(m) => {
                assert(p@->Sub_0 == value::sub_entries_view(m@));
                out.push(&m[k].1);
            },
            _ => vstd::pervasive::unreached(),
        }
        i = i + 1;
    }
    out
}

/// The children of the variant values that hold the variant `name`; they
/// conform to `child_spec` where the variant's children do.
fn variant_children<'a>(
    individuals_ordered: &Vec<&'a value::Node>,
    name: &str,
    Ghost(child_spec): Ghost<spec::NodeV>,
    Ghost(within): Ghost<bool>,
) -> (r: Vec<&'a value::Node>)
    requires
        forall|i: int| 0 <= i < individuals_ordered@.len() ==> (#[trigger] individuals_ordered@[i])@ is Variant,
        forall|i: int| 0 <= i < individuals_ordered@.len() && (#[trigger] individuals_ordered@[i])@->Variant_0 == name@
            ==> conforms(*individuals_ordered@[i]@->Variant_1, child_spec),
        within ==> forall|i: int| 0 <= i < individuals_ordered@.len() && (#[trigger] individuals_ordered@[i])@->Variant_0 == name@
            ==> value::sizes_within(*individuals_ordered@[i]@->Variant_1, child_spec),
    ensures
        all_conform(views(r@), child_spec),
        within ==> all_sizes_within(views(r@), child_spec),
        (exists|i: int| 0 <= i < individuals_ordered@.len() && (#[trigger] individuals_ordered@[i])@->Variant_0 == name@) ==> r@.len() > 0,
        views(r@) == variant_kids(views(individuals_ordered@), name@),
{
    let ghost vs = views(individuals_ordered@);
    let probe: String = name.to_owned();
    let mut out: Vec<&'a value::Node> = Vec::new();
    let mut i: usize = 0;
    while i < individuals_ordered.len()
        invariant
            i <= individuals_ordered@.len(),
            probe@ == name@,
            forall|n: int| 0 <= n < individuals_ordered@.len() ==> (#[trigger] individuals_ordered@[n])@ is Variant,
            forall|n: int| 0 <= n < individuals_ordered@.len() && (#[trigger] individuals_ordered@[n])@->Variant_0 == name@
                ==> conforms(*individuals_ordered@[n]@->Variant_1, child_spec),
            all_conform(views(out@), child_spec),
            within ==> forall|n: int| 0 <= n < individuals_ordered@.len() && (#[trigger] individuals_ordered@[n])@->Variant_0 == name@
                ==> value::sizes_within(*individuals_ordered@[n]@->Variant_1, child_spec),
            within ==> all_sizes_within(views(out@), child_spec),
            (exists|n: int| 0 <= n < i && (#[trigger] individuals_ordered@[n])@->Variant_0 == name@) ==> out@.len() > 0,
            vs == views(individuals_ordered@),
            views(out@) == variant_kids(vs.take(i as int), name@),
        decreases individuals_ordered.len() - i,
    {
        let p: &'a value::Node = individuals_ordered[i];
        assert(p@ is Variant);
        proof {
            assert(vs.take(i + 1).drop_last() =~= vs.take(i as int));
            assert(vs.take(i + 1).last() == p@);
        }
        let ghost before = out@;
        match p {
            value::Node::Variant(n, child) => {
                if *n == probe {
                    let ghost old_out = out@;
                    out.push(&**child);
                    proof {
                        assert(individuals_ordered@[i as int]@->Variant_0 == name@);
                        assert forall|j: int| 0 <= j < views(out@).len() implies conforms(#[trigger] views(out@)[j], child_spec) by {
                            if j < old_out.len() {
                                assert(views(old_out)[j] == views(out@)[j]);
                            }
                        }
                        if within {
                            assert forall|j: int| 0 <= j < views(out@).len() implies value::sizes_within(#[trigger] views(out@)[j], child_spec) by {
                                if j < old_out.len() {
                                    assert(views(old_out)[j] == views(out@)[j]);
                                }
                            }
                        }
                    }
                }
            },
            _ => vstd::pervasive::unreached(),
        }
        proof {
            if out@.len() > before.len() {
                assert(views(out@) =~= views(before).push(*p@->Variant_1));
            } else {
                assert(out@ == before);
            }
        }
        i = i + 1;
    }
    assert(vs.take(vs.len() as int) =~= vs);
    out
}

/// The nodes under `key` of the anon map values that have it; they conform
/// to `value_type` where the entries of the anon maps do.
fn anon_children<'a>(
    individuals_ordered: &Vec<&'a value::Node>,
    key: usize,
    Ghost(value_type): Ghost<spec::NodeV>,
    Ghost(within): Ghost<bool>,
) -> (r: Vec<&'a value::Node>)
    requires
        forall|i: int| 0 <= i < individuals_ordered@.len() ==> (#[trigger] individuals_ordered@[i])@ is AnonMap,
        forall|i: int, j: int| 0 <= i < individuals_ordered@.len() && 0 <= j < individuals_ordered@[i]@->AnonMap_0.len()
            ==> conforms(#[trigger] individuals_ordered@[i]@->AnonMap_0[j].1, value_type),
        within ==> forall|i: int, j: int| 0 <= i < individuals_ordered@.len() && 0 <= j < individuals_ordered@[i]@->AnonMap_0.len()
            ==> value::sizes_within(#[trigger] individuals_ordered@[i]@->AnonMap_0[j].1, value_type),
    ensures
        all_conform(views(r@), value_type),
        within ==> all_sizes_within(views(r@), value_type),
        in_some(views(individuals_ordered@), key) ==> r@.len() > 0,
        views(r@) == anon_kids(views(individuals_ordered@), key),
{
    let ghost vs = views(individuals_ordered@);
    let mut out: Vec<&'a value::Node> = Vec::new();
    let mut i: usize = 0;
    while i < individuals_ordered.len()
        invariant
            i <= individuals_ordered@.len(),
            vs == views(individuals_ordered@),
            forall|n: int| 0 <= n < individuals_ordered@.len() ==> (#[trigger] individuals_ordered@[n])@ is AnonMap,
            forall|n: int, j: int| 0 <= n < individuals_ordered@.len() && 0 <= j < individuals_ordered@[n]@->AnonMap_0.len()
                ==> conforms(#[trigger] individuals_ordered@[n]@->AnonMap_0[j].1, value_type),
            all_conform(views(out@), value_type),
            within ==> forall|n: int, j: int| 0 <= n < individuals_ordered@.len() && 0 <= j < individuals_ordered@[n]@->AnonMap_0.len()
                ==> value::sizes_within(#[trigger] individuals_ordered@[n]@->AnonMap_0[j].1, value_type),
            within ==> all_sizes_within(views(out@), value_type),
            (exists|n: int| 0 <= n < i && anon_keys(#[trigger] vs[n]).contains(key)) ==> out@.len() > 0,
            views(out@) == anon_kids(vs.take(i as int), key),
        decreases individuals_ordered.len() - i,
    {
        let found = anon_get(individuals_ordered[i], key);
        assert(vs[i as int] == individuals_ordered@[i as int]@);
        proof {
            assert(vs.take(i + 1).drop_last() =~= vs.take(i as int));
            assert(vs.take(i + 1).last() == vs[i as int]);
        }
        match found {
            Some(c) => {
                let ghost old_out = out@;
                out.push(c);
                proof {
                    let pos = key_pos(anon_keys(individuals_ordered@[i as int]@), key);
                    assert(conforms(individuals_ordered@[i as int]@->AnonMap_0[pos].1, value_type));
                    assert forall|j: int| 0 <= j < views(out@).len() implies conforms(#[trigger] views(out@)[j], value_type) by {
                        if j < old_out.len() {
                            assert(views(old_out)[j] == views(out@)[j]);
                        }
                    }
                    if within {
                        assert(value::sizes_within(individuals_ordered@[i as int]@->AnonMap_0[pos].1, value_type));
                        assert forall|j: int| 0 <= j < views(out@).len() implies value::sizes_within(#[trigger] views(out@)[j], value_type) by {
                            if j < old_out.len() {
                                assert(views(old_out)[j] == views(out@)[j]);
                            }
                        }
                    }
                    assert(views(out@) =~= views(old_out).push(c@));
                }
            },
            None => {},
        }
        i = i + 1;
    }
    assert(vs.take(vs.len() as int) =~= vs);
    out
}

/// The facts that conforming to a sub spec gives about each value.
proof fn lemma_sub_parents(ps: Seq<&value::Node>, mv: Seq<(Seq<char>, spec::NodeV)>)
    requires
        all_conform(views(ps), spec::NodeV::Sub { map: mv }),
    ensures
        forall|i: int| 0 <= i < ps.len() ==> {
            &&& (#[trigger] ps[i])@ is Sub
            &&& ps[i]@->Sub_0.len() == mv.len()
        },
        forall|i: int, k: int| 0 <= i < ps.len() && 0 <= k < mv.len() ==> {
            &&& (#[trigger] ps[i]@->Sub_0[k]).0 == mv[k].0
            &&& conforms(ps[i]@->Sub_0[k].1, mv[k].1)
        },
{
    assert forall|i: int| 0 <= i < ps.len() implies (#[trigger] ps[i])@ is Sub && ps[i]@->Sub_0.len() == mv.len() by {
        assert(conforms(views(ps)[i], spec::NodeV::Sub { map: mv }));
    }
    assert forall|i: int, k: int| 0 <= i < ps.len() && 0 <= k < mv.len() implies
        (#[trigger] ps[i]@->Sub_0[k]).0 == mv[k].0 && conforms(ps[i]@->Sub_0[k].1, mv[k].1) by {
        assert(conforms(views(ps)[i], spec::NodeV::Sub { map: mv }));
        let es = ps[i]@->Sub_0;
        assert(es[k].0 == mv[k].0 && conforms(es[k].1, mv[k].1));
    }
}

/// The facts that conforming to an anon map spec gives about each value.
proof fn lemma_anon_parents(ps: Seq<&value::Node>, s: spec::NodeV)
    requires
        s is AnonMap,
        all_conform(views(ps), s),
    ensures
        forall|i: int| 0 <= i < ps.len() ==> (#[trigger] ps[i])@ is AnonMap,
        forall|i: int, j: int| 0 <= i < ps.len() && 0 <= j < ps[i]@->AnonMap_0.len()
            ==> conforms(#[trigger] ps[i]@->AnonMap_0[j].1, *s->AnonMap_value_type),
{
    assert forall|i: int| 0 <= i < ps.len() implies (#[trigger] ps[i])@ is AnonMap by {
        assert(conforms(views(ps)[i], s));
    }
    assert forall|i: int, j: int| 0 <= i < ps.len() && 0 <= j < ps[i]@->AnonMap_0.len()
        implies conforms(#[trigger] ps[i]@->AnonMap_0[j].1, *s->AnonMap_value_type) by {
        assert(conforms(views(ps)[i], s));
    }
}

/// The facts that conforming to a variant spec gives about each value.
proof fn lemma_variant_parents(ps: Seq<&value::Node>, mv: Seq<(Seq<char>, spec::NodeV)>, init: Seq<char>)
    requires
        all_conform(views(ps), spec::NodeV::Variant { map: mv, init }),
    ensures
        forall|i: int| 0 <= i < ps.len() ==> {
            let p = key_pos(view_keys(mv), (#[trigger] ps[i])@->Variant_0);
            &&& ps[i]@ is Variant
            &&& 0 <= p < mv.len()
            &&& conforms(*ps[i]@->Variant_1, mv[p].1)
        },
{
    assert forall|i: int| 0 <= i < ps.len() implies {
        let p = key_pos(view_keys(mv), (#[trigger] ps[i])@->Variant_0);
        &&& ps[i]@ is Variant
        &&& 0 <= p < mv.len()
        &&& conforms(*ps[i]@->Variant_1, mv[p].1)
    } by {
        assert(conforms(views(ps)[i], spec::NodeV::Variant { map: mv, init }));
    }
}

/// The facts that conforming to an optional spec gives about each value.
proof fn lemma_optional_parents(ps: Seq<&value::Node>, s: spec::NodeV)
    requires
        s is Optional,
        all_conform(views(ps), s),
    ensures
        forall|i: int| 0 <= i < ps.len() ==> {
            &&& (#[trigger] ps[i])@ is Optional
            &&& (ps[i]@->Optional_0 matches Some(c) ==> conforms(*c, *s->Optional_value_type))
        },
{
    assert forall|i: int| 0 <= i < ps.len() implies {
        &&& (#[trigger] ps[i])@ is Optional
        &&& (ps[i]@->Optional_0 matches Some(c) ==> conforms(*c, *s->Optional_value_type))
    } by {
        assert(conforms(views(ps)[i], s));
    }
}

/// The content of each optional value.
fn optional_children<'a>(individuals_ordered: &Vec<&'a value::Node>) -> (r: Vec<Option<&'a value::Node>>)
    requires
        forall|i: int| 0 <= i < individuals_ordered@.len() ==> (#[trigger] individuals_ordered@[i])@ is Optional,
    ensures
        r@.len() == individuals_ordered@.len(),
        forall|i: int| 0 <= i < r@.len() ==> match #[trigger] r@[i] {
            Some(c) => individuals_ordered@[i]@->Optional_0 == Some(Box::new(c@)),
            None => individuals_ordered@[i]@->Optional_0 is None,
        },
{
    let mut out: Vec<Option<&'a value::Node>> = Vec::new();
    let mut i: usize = 0;
    while i < individuals_ordered.len()
        invariant
            i <= individuals_ordered@.len(),
            out@.len() == i,
            forall|n: int| 0 <= n < individuals_ordered@.len() ==> (#[trigger] individuals_ordered@[n])@ is Optional,
            forall|n: int| 0 <= n < i ==> match #[trigger] out@[n] {
                Some(c) => individuals_ordered@[n]@->Optional_0 == Some(Box::new(c@)),
                None => individuals_ordered@[n]@->Optional_0 is None,
            },
        decreases individuals_ordered.len() - i,
    {
        let p: &'a value::Node = individuals_ordered[i];
        assert(p@ is Optional);
        match p {
            value::Node::Optional(o) => match o {
                Some(c) => {
                    assert(value::optional_view(*o) == Some(Box::new(value::node_view(**c))));
                    out.push(Some(&**c));
                },
                None => {
                    assert(value::optional_view(*o) == None::<Box<value::NodeV>>);
                    out.push(None);
                },
            },
            _ => vstd::pervasive::unreached(),
        }
        i = i + 1;
    }
    out
}

/// The contents that are present.
fn present_children<'a>(
    children: &Vec<Option<&'a value::Node>>,
    Ghost(vs): Ghost<Seq<value::NodeV>>,
    Ghost(s): Ghost<spec::NodeV>,
    Ghost(within): Ghost<bool>,
) -> (r: Vec<&'a value::Node>)
    requires
        children@.len() == vs.len(),
        forall|i: int| 0 <= i < children@.len() ==> match #[trigger] children@[i] {
            Some(c) => vs[i]->Optional_0 == Some(Box::new(c@)),
            None => vs[i]->Optional_0 is None,
        },
        forall|i: int| 0 <= i < children@.len() ==> (#[trigger] children@[i] matches Some(c) ==> conforms(c@, s)),
        within ==> forall|i: int| 0 <= i < children@.len() ==> (#[trigger] children@[i] matches Some(c) ==> value::sizes_within(c@, s)),
    ensures
        all_conform(views(r@), s),
        within ==> all_sizes_within(views(r@), s),
        (exists|i: int| 0 <= i < children@.len() && (#[trigger] children@[i]) is Some) ==> r@.len() > 0,
        views(r@) == present_kids(vs),
{
    let mut out: Vec<&'a value::Node> = Vec::new();
    let mut i: usize = 0;
    while i < children.len()
        invariant
            i <= children@.len(),
            forall|n: int| 0 <= n < children@.len() ==> (#[trigger] children@[n] matches Some(c) ==> conforms(c@, s)),
            all_conform(views(out@), s),
            within ==> forall|n: int| 0 <= n < children@.len() ==> (#[trigger] children@[n] matches Some(c) ==> value::sizes_within(c@, s)),
            within ==> all_sizes_within(views(out@), s),
            (exists|n: int| 0 <= n < i && (#[trigger] children@[n]) is Some) ==> out@.len() > 0,
            children@.len() == vs.len(),
            forall|n: int| 0 <= n < children@.len() ==> match #[trigger] children@[n] {
                Some(c) => vs[n]->Optional_0 == Some(Box::new(c@)),
                None => vs[n]->Optional_0 is None,
            },
            views(out@) == present_kids(vs.take(i as int)),
        decreases children.len() - i,
    {
        proof {
            assert(vs.take(i + 1).drop_last() =~= vs.take(i as int));
            assert(vs.take(i + 1).last() == vs[i as int]);
        }
        match children[i] {
            Some(c) => {
                let ghost old_out = out@;
                out.push(c);
                proof {
                    assert(children@[i as int] matches Some(c) ==> conforms(c@, s));
                    assert forall|j: int| 0 <= j < views(out@).len() implies conforms(#[trigger] views(out@)[j], s) by {
                        if j < old_out.len() {
                            assert(views(old_out)[j] == views(out@)[j]);
                        }
                    }
                    if within {
                        assert(children@[i as int] matches Some(c) ==> value::sizes_within(c@, s));
                        assert forall|j: int| 0 <= j < views(out@).len() implies value::sizes_within(#[trigger] views(out@)[j], s) by {
                            if j < old_out.len() {
                                assert(views(old_out)[j] == views(out@)[j]);
                            }
                        }
                    }
                    assert(views(out@) =~= views(old_out).push(c@));
                }
            },
            None => {},
        }
        i = i + 1;
    }
    assert(vs.take(vs.len() as int) =~= vs);
    out
}

/// Whether all the variant values hold the same variant as the first.
fn all_same_variant(individuals_ordered: &Vec<&value::Node>) -> (r: bool)
    requires
        individuals_ordered@.len() > 0,
        forall|i: int| 0 <= i < individuals_ordered@.len() ==> (#[trigger] individuals_ordered@[i])@ is Variant,
    ensures
        r == forall|i: int| 0 <= i < individuals_ordered@.len() ==>
            (#[trigger] individuals_ordered@[i])@->Variant_0 == individuals_ordered@[0]@->Variant_0,
{
    let first = extract_variant_name(individuals_ordered[0]).to_owned();
    let mut i: usize = 1;
    while i < individuals_ordered.len()
        invariant
            1 <= i <= individuals_ordered@.len(),
            first@ == individuals_ordered@[0]@->Variant_0,
            forall|n: int| 0 <= n < individuals_ordered@.len() ==> (#[trigger] individuals_ordered@[n])@ is Variant,
            forall|n: int| 0 <= n < i ==> (#[trigger] individuals_ordered@[n])@->Variant_0 == individuals_ordered@[0]@->Variant_0,
        decreases individuals_ordered.len() - i,
    {
        let name = extract_variant_name(individuals_ordered[i]).to_owned();
        if name != first {
            proof {
                assert(individuals_ordered@[i as int]@->Variant_0 != individuals_ordered@[0]@->Variant_0);
            }
            return false;
        }
        i = i + 1;
    }
    true
}

/// Whether all the contents are present, or all absent.
fn all_same_presence(children: &Vec<Option<&value::Node>>) -> (r: bool)
    requires
        children@.len() > 0,
    ensures
        r == forall|i: int| 0 <= i < children@.len() ==> ((#[trigger] children@[i]) is None <==> children@[0] is None),
{
    let first = children[0].is_none();
    let mut i: usize = 1;
    while i < children.len()
        invariant
            1 <= i <= children@.len(),
            first == children@[0] is None,
            forall|n: int| 0 <= n < i ==> ((#[trigger] children@[n]) is None <==> children@[0] is None),
        decreases children.len() - i,
    {
        if children[i].is_none() != first {
            proof {
                assert(!(children@[i as int] is None <==> children@[0] is None));
            }
            return false;
        }
        i = i + 1;
    }
    true
}

/// Whether `r` is the offspring of the individuals `vs` at spec node `s` on
/// the answers `d`: a const draws nothing; a lone individual is copied; a leaf
/// is the first individual where all are equal, else the selected one; an
/// inner node is the selected individual whole where the choices decide not
/// to cross over, else crossed over (see `crossed_over`).
pub open spec fn crossover_drawn(vs: Seq<value::NodeV>, s: spec::NodeV, d: Seq<Draw>, r: value::NodeV) -> bool
    decreases s, 1nat,
{
    if s is Const {
        d.len() == 0
    } else if vs.len() == 1 {
        d.len() == 0 && r == vs[0]
    } else if spec_is_leaf(s) {
        if forall|i: int| 0 <= i < vs.len() ==> #[trigger] vs[i] == vs[0] {
            d.len() == 0 && r == vs[0]
        } else {
            d.len() == 1 && (d[0] matches Draw::Select(m, i) && m == vs.len() && r == vs[clamp_position(i, vs.len() as int)])
        }
    } else {
        d.len() >= 1 && (d[0] matches Draw::Cross(c) && (if c {
            crossed_over(vs, s, d, r)
        } else {
            d.len() == 2 && (d[1] matches Draw::Select(m, i) && m == vs.len() && r == vs[clamp_position(i, vs.len() as int)])
        }))
    }
}

/// Whether `r` fits as the crossing over of the individuals `vs` at inner
/// spec node `s` on the answers `d` (after the decision to cross over): a
/// sub node crosses over each child on consecutive parts of the answers; a
/// variant holds the variant of the first individual where all hold the
/// same, else of the selected one, and crosses over the contents of the
/// individuals that hold it; an optional is absent where the first (all
/// alike) or the selected individual's is, else it crosses over the present
/// contents; an anon map keeps the keys that `keys_drawn` gives on the
/// answers after the decision (all of them keys that some individual has),
/// and crosses over, on consecutive parts of the answers after those, the
/// nodes that the individuals hold under each key.
pub open spec fn crossed_over(vs: Seq<value::NodeV>, s: spec::NodeV, d: Seq<Draw>, r: value::NodeV) -> bool
    decreases s, 0nat,
{
    match s {
        spec::NodeV::Sub { map } => r matches value::NodeV::Sub(nes)
            && exists|cs: Seq<Seq<Draw>>| #![trigger concat_draws(cs)] {
                &&& cs.len() == map.len()
                &&& d.drop_first() == concat_draws(cs)
                &&& forall|k: int| 0 <= k < map.len() && k < nes.len()
                    ==> crossover_drawn(sub_kids(vs, k), (#[trigger] map[k]).1, cs[k], nes[k].1)
            },
        spec::NodeV::Variant { map, .. } => r matches value::NodeV::Variant(name, nc) && {
            let same = forall|i: int| 0 <= i < vs.len() ==> (#[trigger] vs[i])->Variant_0 == vs[0]->Variant_0;
            let h: int = if same { 1 } else { 2 };
            let pos = key_pos(view_keys(map), name);
            &&& if same {
                name == vs[0]->Variant_0
            } else {
                d.len() >= 2 && (d[1] matches Draw::Select(m, i) && m == vs.len() && name == vs[clamp_position(i, vs.len() as int)]->Variant_0)
            }
            &&& 0 <= pos < map.len() ==> crossover_drawn(variant_kids(vs, name), map[pos].1, d.skip(h), *nc)
        },
        spec::NodeV::Optional { value_type, .. } => r matches value::NodeV::Optional(o) && {
            let same = forall|i: int| 0 <= i < vs.len() ==> ((#[trigger] vs[i])->Optional_0 is None <==> vs[0]->Optional_0 is None);
            let h: int = if same { 1 } else { 2 };
            &&& !same ==> (d.len() >= 2 && (d[1] matches Draw::Select(m, _) && m == vs.len()))
            &&& (o is None) == (if same { vs[0]->Optional_0 is None } else {
                d[1] matches Draw::Select(m, i) && m == vs.len() && vs[clamp_position(i, vs.len() as int)]->Optional_0 is None })
            &&& o is None ==> d.len() == h
            &&& o matches Some(c) ==> crossover_drawn(present_kids(vs), *value_type, d.skip(h), *c)
        },
        spec::NodeV::AnonMap { value_type, min_size, max_size, .. } => r matches value::NodeV::AnonMap(es) && {
            &&& forall|j: int| 0 <= j < es.len() ==> in_some(vs, #[trigger] es[j].0)
            &&& exists|h: int, cs: Seq<Seq<Draw>>| #![trigger d.skip(h), concat_draws(cs)] {
                &&& 1 <= h <= d.len()
                &&& keys_drawn(vs, (min_size, max_size), d.subrange(1, h), plain_keys(es))
                &&& cs.len() == es.len()
                &&& d.skip(h) == concat_draws(cs)
                &&& forall|k: int| 0 <= k < es.len() ==> crossover_drawn(anon_kids(vs, (#[trigger] es[k]).0), *value_type, cs[k], es[k].1)
            }
        },
        _ => true,
    }
}

/// The offspring of individuals (ordered best first) at a spec node. With a
/// single individual, a copy of it. A leaf is copied from one individual: the
/// first where all are equal, else a selected one. An inner node is taken
/// whole from a selected individual, unless the choices decide to cross it
/// over: then a sub node crosses over each child, an anon map crosses over
/// the nodes under the keys that `select_anon_map_keys` keeps, a variant
/// crosses over the individuals that hold the selected variant, and an
/// optional is absent or crosses over the present contents. Each child uses
/// its own path node and the parameters rescaled there: the parameters at a
/// node are always those that this node's rescaling made last (see
/// `Scaled`).
#[verifier::rlimit(80)]
#[verifier::spinoff_prover]
fn do_crossover<R: Default, P, C: CrossoverChoices<R, P>>(
    choices: &mut C,
    spec_node: &spec::Node,
    individuals_ordered: &Vec<&value::Node>,
    crossover_params: &Scaled<R, P>,
    path_node_ctx: &mut PathNodeContext<R>,
    draws: &mut DrawLog,
) -> (r: value::Node)
    requires
        crossover_params.rescalings().len() > 0,
        crossover_params.rescalings().last() == old(path_node_ctx).rescaling(),
        spec::wf(spec_node@),
        individuals_ordered@.len() > 0,
        all_conform(views(individuals_ordered@), spec_node@),
    ensures
        conforms(r@, spec_node@),
        extends(old(draws)@, final(draws)@),
        crossover_drawn(views(individuals_ordered@), spec_node@, drawn_since(old(draws)@, final(draws)@), r@),
        (individuals_ordered@.len() == 1 || spec_is_leaf(spec_node@) || spec_node@ is Const) ==> *final(path_node_ctx) == *old(path_node_ctx),
        (individuals_ordered@.len() == 1 || spec_node@ is Const
            || (spec_is_leaf(spec_node@) && forall|i: int| 0 <= i < individuals_ordered@.len() ==> #[trigger] individuals_ordered@[i]@ == individuals_ordered@[0]@))
            ==> *final(choices) == *old(choices),
        spec_is_leaf(spec_node@) ==> one_of(r@, views(individuals_ordered@)),
        individuals_ordered@.len() == 1 ==> r@ == individuals_ordered@[0]@,
        all_sizes_within(views(individuals_ordered@), spec_node@) ==> value::sizes_within(r@, spec_node@),
    decreases spec_node,
{
    let ghost vs = views(individuals_ordered@);
    let ghost within = all_sizes_within(vs, spec_node@);
    let ghost start_draws = draws@;
    proof { lemma_extends_refl(start_draws); }
    proof {
        assert(vs[0] == individuals_ordered@[0]@);
        assert(conforms(vs[0], spec_node@));
    }
    if let spec::Node::Const = spec_node {
        return value::Node::Const;
    }
    if individuals_ordered.len() > 1 {
        let leaf = is_leaf(spec_node);
        let cross = if leaf {
            false
        } else {
            draw_crossover_decision(choices, crossover_params.params(), draws)
        };
        let ghost first_draws = draws@;
        proof {
            lemma_extends_refl(first_draws);
            if leaf {
                assert(first_draws == start_draws);
            } else {
                assert(first_draws == start_draws.push(Draw::Cross(cross)));
            }
            assert(extends(start_draws, first_draws));
        }
        if !cross {
            if leaf {
                proof {
                    assert forall|i: int| 0 <= i < individuals_ordered@.len() implies same_kind(#[trigger] individuals_ordered@[i]@, individuals_ordered@[0]@) by {
                        assert(vs[i] == individuals_ordered@[i]@);
                        assert(conforms(vs[i], spec_node@));
                    }
                }
            }
            let all_same = leaf && are_all_same(individuals_ordered);
            if all_same {
                let r = individuals_ordered[0].copy();
                proof {
                    assert forall|j: int| 0 <= j < vs.len() implies #[trigger] vs[j] == vs[0] by {
                        assert(vs[j] == individuals_ordered@[j]@);
                    }
                }
                r
            } else {
                let ghost prev_draws = draws@;
                let i = select_position(choices, crossover_params.params(), individuals_ordered.len(), draws);
                proof { lemma_extends_trans(first_draws, prev_draws, draws@); }
                proof {
                    assert(vs[i as int] == individuals_ordered@[i as int]@);
                    assert(conforms(vs[i as int], spec_node@));
                    assert(draws@ =~= first_draws.push(draws@.last()));
                    lemma_extends_trans(start_draws, first_draws, draws@);
                    if leaf {
                        assert(drawn_since(start_draws, draws@) =~= seq![draws@.last()]);
                        if forall|j: int| 0 <= j < vs.len() ==> #[trigger] vs[j] == vs[0] {
                            assert forall|j: int| 0 <= j < individuals_ordered@.len() implies #[trigger] individuals_ordered@[j]@ == individuals_ordered@[0]@ by {
                                assert(vs[j] == individuals_ordered@[j]@);
                            }
                        }
                    } else {
                        assert(drawn_since(start_draws, draws@) =~= seq![Draw::Cross(false), draws@.last()]);
                    }
                }
                individuals_ordered[i].copy()
            }
        } else {
            let r = match spec_node {
                spec::Node::Sub { map } => {
                    let ghost mv = spec::map_view(map@);
                    proof {
                        assert(spec_node@ == spec::NodeV::Sub { map: mv });
                        lemma_sub_parents(individuals_ordered@, mv);
                    }
                    let mut out: Vec<(String, value::Node)> = Vec::new();
                    let ghost mut chunks: Seq<Seq<Draw>> = Seq::empty();
                    proof {
                        lemma_extends_refl(first_draws);
                        assert(drawn_since(first_draws, draws@) =~= concat_draws(chunks));
                    }
                    let mut k: usize = 0;
                    while k < map.len()
                        invariant
                            extends(first_draws, draws@),
                            k <= map@.len(),
                            individuals_ordered@.len() > 0,
                            mv == spec::map_view(map@),
                            spec_node@ == (spec::NodeV::Sub { map: mv }),
                            *spec_node == (spec::Node::Sub { map: *map }),
                            spec::wf(spec_node@),
                            forall|i: int| 0 <= i < individuals_ordered@.len() ==> {
                                &&& (#[trigger] individuals_ordered@[i])@ is Sub
                                &&& individuals_ordered@[i]@->Sub_0.len() == mv.len()
                            },
                            forall|i: int, n: int| 0 <= i < individuals_ordered@.len() && 0 <= n < mv.len() ==> {
                                &&& (#[trigger] individuals_ordered@[i]@->Sub_0[n]).0 == mv[n].0
                                &&& conforms(individuals_ordered@[i]@->Sub_0[n].1, mv[n].1)
                            },
                            out@.len() == k,
                            forall|n: int| 0 <= n < k ==> (#[trigger] out@[n]).0@ == mv[n].0 && conforms(out@[n].1@, mv[n].1),
                            vs == views(individuals_ordered@),
                            within == all_sizes_within(vs, spec_node@),
                            within ==> forall|n: int| 0 <= n < k ==> value::sizes_within((#[trigger] out@[n]).1@, mv[n].1),
                            chunks.len() == k,
                            drawn_since(first_draws, draws@) == concat_draws(chunks),
                            forall|n: int| 0 <= n < k ==> crossover_drawn(sub_kids(vs, n), (#[trigger] mv[n]).1, chunks[n], out@[n].1@),
                        decreases map.len() - k,
                    {
                        proof {
                            assert(decreases_to!(*spec_node => (*spec_node)->Sub_map));
                            assert(decreases_to!((*spec_node)->Sub_map => map@));
                            assert(decreases_to!(map@ => map@[k as int]));
                            assert(decreases_to!(map@[k as int] => map@[k as int].1));
                            assert(mv[k as int].1 == map@[k as int].1@);
                            assert(spec::wf(mv[k as int].1));
                        }
                        let children = sub_children(individuals_ordered, k);
                        proof {
                            assert forall|i: int| 0 <= i < views(children@).len() implies conforms(#[trigger] views(children@)[i], mv[k as int].1) by {
                                assert(views(children@)[i] == children@[i]@);
                                assert(individuals_ordered@[i]@->Sub_0[k as int].0 == mv[k as int].0);
                            }
                            if within {
                                assert forall|i: int| 0 <= i < views(children@).len() implies value::sizes_within(#[trigger] views(children@)[i], mv[k as int].1) by {
                                    assert(views(children@)[i] == children@[i]@);
                                    assert(vs[i] == individuals_ordered@[i]@);
                                    assert(value::sizes_within(vs[i], spec_node@));
                                    let es = individuals_ordered@[i]@->Sub_0;
                                    assert(value::sizes_within(es[k as int].1, mv[k as int].1));
                                }
                            }
                        }
                        let child_ctx = path_node_ctx.get_or_create_child_mut(map[k].0.as_str());
                        let child_params = crossover_params.rescaled_for_crossover(choices, child_ctx.current_rescaling());
                        let ghost prev_draws = draws@;
                        let child = do_crossover(choices, &map[k].1, &children, &child_params, child_ctx, draws);
                        proof {
                            lemma_extends_trans(first_draws, prev_draws, draws@);
                            assert(views(children@) =~= sub_kids(vs, k as int)) by {
                                assert forall|i: int| 0 <= i < vs.len() implies views(children@)[i] == sub_kids(vs, k as int)[i] by {
                                    assert(views(children@)[i] == children@[i]@);
                                    assert(vs[i] == individuals_ordered@[i]@);
                                }
                            }
                            let c = drawn_since(prev_draws, draws@);
                            let old_chunks = chunks;
                            chunks = chunks.push(c);
                            assert(chunks.drop_last() =~= old_chunks);
                            assert(concat_draws(chunks) == concat_draws(old_chunks) + c);
                        }
                        let ghost old_out = out@;
                        out.push((map[k].0.clone(), child));
                        proof {
                            assert forall|n: int| 0 <= n < k + 1 implies crossover_drawn(sub_kids(vs, n), (#[trigger] mv[n]).1, chunks[n], out@[n].1@) by {
                                if n < k {
                                    assert(out@[n] == old_out[n]);
                                }
                            }
                        }
                        k = k + 1;
                    }
                    let r = value::Node::Sub(out);
                    proof {
                        let es = value::sub_entries_view(out@);
                        assert(r@ == value::NodeV::Sub(es));
                        assert forall|n: int| 0 <= n < es.len() implies (#[trigger] es[n]).0 == mv[n].0 && conforms(es[n].1, mv[n].1) by {
                            assert(out@[n].0@ == mv[n].0);
                        }
                        if within {
                            assert forall|n: int| 0 <= n < es.len() && n < mv.len() implies value::sizes_within(#[trigger] es[n].1, mv[n].1) by {
                                assert(es[n].1 == out@[n].1@);
                            }
                        }
                        assert forall|n: int| 0 <= n < mv.len() && n < es.len()
                            implies crossover_drawn(sub_kids(vs, n), (#[trigger] mv[n]).1, chunks[n], es[n].1) by {
                            assert(es[n].1 == out@[n].1@);
                        }
                        assert(chunks.len() == mv.len());
                        crate::selection::lemma_first_drawn(start_draws, Draw::Cross(true), draws@);
                        assert(drawn_since(start_draws, draws@).drop_first() =~= concat_draws(chunks));
                        assert(crossed_over(vs, spec_node@, drawn_since(start_draws, draws@), r@));
                    }
                    r
                },
                spec::Node::AnonMap { value_type, min_size, max_size, .. } => {
                    let ghost vt = spec::node_view(**value_type);
                    proof {
                        assert(spec_node@->AnonMap_value_type == Box::new(vt));
                        lemma_anon_parents(individuals_ordered@, spec_node@);
                        assert(decreases_to!(*spec_node => (*spec_node)->AnonMap_value_type));
                    }
                    proof {
                        if within {
                            assert forall|i: int, j: int| 0 <= i < individuals_ordered@.len() && 0 <= j < individuals_ordered@[i]@->AnonMap_0.len()
                                implies value::sizes_within(#[trigger] individuals_ordered@[i]@->AnonMap_0[j].1, vt) by {
                                assert(vs[i] == individuals_ordered@[i]@);
                                assert(value::sizes_within(vs[i], spec_node@));
                            }
                        }
                    }
                    let ghost prev_draws = draws@;
                    let selected_keys = select_anon_map_keys((*min_size, *max_size), individuals_ordered, choices, crossover_params.params(), draws);
                    proof { lemma_extends_trans(first_draws, prev_draws, draws@); }
                    let ghost keys_draws = draws@;
                    let ghost mut chunks: Seq<Seq<Draw>> = Seq::empty();
                    proof {
                        lemma_extends_refl(keys_draws);
                        assert(drawn_since(keys_draws, draws@) =~= concat_draws(chunks));
                    }
                    proof {
                        if within {
                            assert(vs[0] == individuals_ordered@[0]@);
                            assert(conforms(vs[0], spec_node@));
                            assert(value::sizes_within(vs[0], spec_node@));
                            assert(keys_distinct(anon_keys(individuals_ordered@[0]@)));
                        }
                    }
                    let mut out: Vec<(usize, value::Node)> = Vec::new();
                    let mut k: usize = 0;
                    while k < selected_keys.len()
                        invariant
                            extends(first_draws, draws@),
                            k <= selected_keys@.len(),
                            (*spec_node) is AnonMap && (*spec_node)->AnonMap_value_type == *value_type,
                            vt == spec::node_view(**value_type),
                            spec::wf(vt),
                            vs == views(individuals_ordered@),
                            forall|i: int| 0 <= i < individuals_ordered@.len() ==> (#[trigger] individuals_ordered@[i])@ is AnonMap,
                            forall|i: int, j: int| 0 <= i < individuals_ordered@.len() && 0 <= j < individuals_ordered@[i]@->AnonMap_0.len()
                                ==> conforms(#[trigger] individuals_ordered@[i]@->AnonMap_0[j].1, vt),
                            keys_distinct(selected_keys@),
                            forall|j: int| 0 <= j < selected_keys@.len() ==> in_some(vs, #[trigger] selected_keys@[j]),
                            out@.len() == k,
                            forall|n: int| 0 <= n < k ==> (#[trigger] out@[n]).0 == selected_keys@[n] && conforms(out@[n].1@, vt),
                            within ==> forall|i: int, j: int| 0 <= i < individuals_ordered@.len() && 0 <= j < individuals_ordered@[i]@->AnonMap_0.len()
                                ==> value::sizes_within(#[trigger] individuals_ordered@[i]@->AnonMap_0[j].1, vt),
                            within ==> forall|n: int| 0 <= n < k ==> value::sizes_within((#[trigger] out@[n]).1@, vt),
                            extends(keys_draws, draws@),
                            chunks.len() == k,
                            drawn_since(keys_draws, draws@) == concat_draws(chunks),
                            forall|n: int| 0 <= n < k ==> crossover_drawn(anon_kids(vs, (#[trigger] out@[n]).0), vt, chunks[n], out@[n].1@),
                        decreases selected_keys.len() - k,
                    {
                        proof {
                            assert(decreases_to!(*spec_node => (*spec_node)->AnonMap_value_type));
                        }
                        let key = selected_keys[k];
                        let children = anon_children(individuals_ordered, key, Ghost(vt), Ghost(within));
                        assert(in_some(vs, selected_keys@[k as int]));
                        let key_text = usize_to_decimal(key);
                        let child_ctx = path_node_ctx.get_or_create_child_mut(key_text.as_str());
                        let child_params = crossover_params.rescaled_for_crossover(choices, child_ctx.current_rescaling());
                        let ghost prev_draws = draws@;
                        let child = do_crossover(choices, &**value_type, &children, &child_params, child_ctx, draws);
                        proof {
                            lemma_extends_trans(first_draws, prev_draws, draws@);
                            lemma_extends_trans(keys_draws, prev_draws, draws@);
                            let c = drawn_since(prev_draws, draws@);
                            let old_chunks = chunks;
                            chunks = chunks.push(c);
                            assert(chunks.drop_last() =~= old_chunks);
                            assert(concat_draws(chunks) == concat_draws(old_chunks) + c);
                        }
                        let ghost old_out = out@;
                        out.push((key, child));
                        proof {
                            assert forall|n: int| 0 <= n < k + 1 implies crossover_drawn(anon_kids(vs, (#[trigger] out@[n]).0), vt, chunks[n], out@[n].1@) by {
                                if n < k {
                                    assert(out@[n] == old_out[n]);
                                }
                            }
                        }
                        k = k + 1;
                    }
                    let r = value::Node::AnonMap(out);
                    proof {
                        let es = value::anon_entries_view(out@);
                        assert(r@ == value::NodeV::AnonMap(es));
                        assert(plain_keys(es) =~= selected_keys@);
                        assert forall|n: int| 0 <= n < es.len() implies conforms(#[trigger] es[n].1, vt) by {
                            assert(es[n].1 == out@[n].1@);
                        }
                        if within {
                            assert forall|n: int| 0 <= n < es.len() implies value::sizes_within(#[trigger] es[n].1, vt) by {
                                assert(es[n].1 == out@[n].1@);
                            }
                            assert(es.len() == selected_keys@.len());
                        }
                        lemma_extends_trans(start_draws, first_draws, draws@);
                        lemma_extends_trans(first_draws, keys_draws, draws@);
                        let d = drawn_since(start_draws, draws@);
                        let h: int = keys_draws.len() - start_draws.len();
                        assert(d.skip(h) =~= drawn_since(keys_draws, draws@));
                        assert forall|n: int| 0 <= n < es.len() implies crossover_drawn(anon_kids(vs, (#[trigger] es[n]).0), vt, chunks[n], es[n].1) by {
                            assert(es[n].0 == out@[n].0 && es[n].1 == out@[n].1@);
                        }
                        assert(d.subrange(1, h) =~= drawn_since(first_draws, keys_draws));
                        assert(keys_drawn(vs, (*min_size, *max_size), d.subrange(1, h), plain_keys(es)));
                        assert({
                            &&& 1 <= h <= d.len()
                            &&& keys_drawn(vs, (*min_size, *max_size), d.subrange(1, h), plain_keys(es))
                            &&& chunks.len() == es.len()
                            &&& d.skip(h) == concat_draws(chunks)
                            &&& forall|n: int| 0 <= n < es.len() ==> crossover_drawn(anon_kids(vs, (#[trigger] es[n]).0), vt, chunks[n], es[n].1)
                        });
                    }
                    r
                },
                spec::Node::Variant { map, init } => {
                    let ghost mv = spec::map_view(map@);
                    proof {
                        assert(spec_node@ == spec::NodeV::Variant { map: mv, init: init@ });
                        lemma_variant_parents(individuals_ordered@, mv, init@);
                        assert(crate::seq_util::string_keys(map@) =~= view_keys(mv));
                    }
                    let same = all_same_variant(individuals_ordered);
                    let name: &str = if !same {
                        let ghost prev_draws = draws@;
                        let i = select_position(choices, crossover_params.params(), individuals_ordered.len(), draws);
                        proof { lemma_extends_trans(first_draws, prev_draws, draws@); }
                        extract_variant_name(individuals_ordered[i])
                    } else {
                        extract_variant_name(individuals_ordered[0])
                    };
                    let ghost name_draws = draws@;
                    let ghost wi: int = choose|i: int| 0 <= i < individuals_ordered@.len() && individuals_ordered@[i]@->Variant_0 == name@;
                    let pos = crate::seq_util::find_key(map, name).unwrap();
                    proof {
                        assert(0 <= wi < individuals_ordered@.len() && individuals_ordered@[wi]@->Variant_0 == name@);
                        assert(decreases_to!(*spec_node => (*spec_node)->Variant_map));
                        assert(decreases_to!((*spec_node)->Variant_map => map@));
                        assert(decreases_to!(map@ => map@[pos as int]));
                        assert(decreases_to!(map@[pos as int] => map@[pos as int].1));
                        assert(mv[pos as int].1 == map@[pos as int].1@);
                        assert(spec::wf(mv[pos as int].1));
                        if within {
                            assert forall|i: int| 0 <= i < individuals_ordered@.len() && (#[trigger] individuals_ordered@[i])@->Variant_0 == name@
                                implies value::sizes_within(*individuals_ordered@[i]@->Variant_1, mv[pos as int].1) by {
                                assert(vs[i] == individuals_ordered@[i]@);
                                assert(value::sizes_within(vs[i], spec_node@));
                            }
                        }
                    }
                    let children = variant_children(individuals_ordered, name, Ghost(mv[pos as int].1), Ghost(within));
                    let child_ctx = path_node_ctx.get_or_create_child_mut(name);
                    let child_params = crossover_params.rescaled_for_crossover(choices, child_ctx.current_rescaling());
                    let ghost prev_draws = draws@;
                    let child = do_crossover(choices, &map[pos].1, &children, &child_params, child_ctx, draws);
                    proof { lemma_extends_trans(first_draws, prev_draws, draws@); }
                    let r = value::Node::Variant(name.to_owned(), Box::new(child));
                    proof {
                        assert(r@ == value::NodeV::Variant(name@, Box::new(child@)));
                        assert(same == forall|i: int| 0 <= i < vs.len() ==> (#[trigger] vs[i])->Variant_0 == vs[0]->Variant_0) by {
                            assert(vs[0] == individuals_ordered@[0]@);
                            if same {
                                assert forall|i: int| 0 <= i < vs.len() implies (#[trigger] vs[i])->Variant_0 == vs[0]->Variant_0 by {
                                    assert(vs[i] == individuals_ordered@[i]@);
                                }
                            } else {
                                let w = choose|i: int| 0 <= i < individuals_ordered@.len()
                                    && !((#[trigger] individuals_ordered@[i])@->Variant_0 == individuals_ordered@[0]@->Variant_0);
                                assert(vs[w] == individuals_ordered@[w]@);
                            }
                        }
                        assert(prev_draws == name_draws);
                        lemma_extends_trans(start_draws, first_draws, draws@);
                        crate::selection::lemma_first_drawn(start_draws, Draw::Cross(true), draws@);
                        assert(drawn_since(start_draws, draws@).skip(1) =~= drawn_since(first_draws, draws@));
                        if same {
                            assert(prev_draws == first_draws);
                        } else {
                            assert(prev_draws =~= first_draws.push(prev_draws.last()));
                            crate::selection::lemma_first_drawn(first_draws, prev_draws.last(), draws@);
                            assert(drawn_since(start_draws, draws@).skip(2) =~= drawn_since(prev_draws, draws@));
                        }
                        assert(key_pos(view_keys(mv), name@) == pos);
                        assert(views(children@) == variant_kids(vs, name@));
                    }
                    r
                },
                spec::Node::Optional { value_type, .. } => {
                    let ghost vt = spec::node_view(**value_type);
                    proof {
                        assert(spec_node@->Optional_value_type == Box::new(vt));
                        lemma_optional_parents(individuals_ordered@, spec_node@);
                        assert(decreases_to!(*spec_node => (*spec_node)->Optional_value_type));
                    }
                    let child_values = optional_children(individuals_ordered);
                    let child_ctx = path_node_ctx.get_or_create_child_mut("optional");
                    let child_params = crossover_params.rescaled_for_crossover(choices, child_ctx.current_rescaling());
                    proof {
                        assert forall|i: int| 0 <= i < child_values@.len() implies (#[trigger] child_values@[i] matches Some(c) ==> conforms(c@, vt)) by {
                            assert(individuals_ordered@[i]@ is Optional);
                        }
                        if within {
                            assert forall|i: int| 0 <= i < child_values@.len() implies (#[trigger] child_values@[i] matches Some(c) ==> value::sizes_within(c@, vt)) by {
                                assert(vs[i] == individuals_ordered@[i]@);
                                assert(value::sizes_within(vs[i], spec_node@));
                            }
                        }
                    }
                    let same = all_same_presence(&child_values);
                    let ghost mut picked: int = 0;
                    let select_none = if same {
                        child_values[0].is_none()
                    } else {
                        let ghost prev_draws = draws@;
                        let i = select_position(choices, child_params.params(), child_values.len(), draws);
                        proof {
                            lemma_extends_trans(first_draws, prev_draws, draws@);
                            picked = i as int;
                        }
                        child_values[i].is_none()
                    };
                    let ghost sel_draws = draws@;
                    assert(extends(first_draws, sel_draws));
                    let content: Option<Box<value::Node>> = if select_none {
                        proof { lemma_extends_refl(sel_draws); }
                        None
                    } else {
                        let present = present_children(&child_values, Ghost(vs), Ghost(vt), Ghost(within));
                        let ghost prev_draws = draws@;
                        let c = do_crossover(choices, &**value_type, &present, &child_params, child_ctx, draws);
                        proof {
                            lemma_extends_trans(first_draws, prev_draws, draws@);
                            assert(prev_draws == sel_draws);
                        }
                        Some(Box::new(c))
                    };
                    proof {
                        if content is Some {
                            assert(value::optional_view(content) == Some(Box::new(value::node_view(*content->Some_0))));
                        } else {
                            assert(value::optional_view(content) == None::<Box<value::NodeV>>);
                            assert(draws@ == sel_draws);
                        }
                        assert forall|i: int| 0 <= i < vs.len() implies ((#[trigger] vs[i])->Optional_0 is None <==> child_values@[i] is None) by {
                            assert(vs[i] == individuals_ordered@[i]@);
                        }
                        assert(same == forall|i: int| 0 <= i < vs.len() ==> ((#[trigger] vs[i])->Optional_0 is None <==> vs[0]->Optional_0 is None)) by {
                            if !same {
                                let w = choose|i: int| 0 <= i < child_values@.len()
                                    && !((#[trigger] child_values@[i]) is None <==> child_values@[0] is None);
                                assert(vs[w]->Optional_0 is None <==> child_values@[w] is None);
                            }
                        }
                        lemma_extends_trans(start_draws, first_draws, draws@);
                        crate::selection::lemma_first_drawn(start_draws, Draw::Cross(true), draws@);
                        assert(drawn_since(start_draws, draws@).skip(1) =~= drawn_since(first_draws, draws@));
                        if same {
                            assert(sel_draws == first_draws);
                        } else {
                            assert(sel_draws =~= first_draws.push(sel_draws.last()));
                            assert(extends(sel_draws, draws@));
                            crate::selection::lemma_first_drawn(first_draws, sel_draws.last(), draws@);
                            assert(drawn_since(start_draws, draws@).skip(2) =~= drawn_since(sel_draws, draws@));
                            assert(drawn_since(start_draws, draws@)[1] == sel_draws.last());
                            assert(select_none == (vs[picked]->Optional_0 is None));
                        }
                    }
                    value::Node::Optional(content)
                },
                _ => {
                    let ghost prev_draws = draws@;
                    let i = select_position(choices, crossover_params.params(), individuals_ordered.len(), draws);
                    proof { lemma_extends_trans(first_draws, prev_draws, draws@); }
                    proof {
                        assert(vs[i as int] == individuals_ordered@[i as int]@);
                        assert(conforms(vs[i as int], spec_node@));
                    }
                    individuals_ordered[i].copy()
                },
            };
            proof {
                lemma_extends_trans(start_draws, first_draws, draws@);
                crate::selection::lemma_first_drawn(start_draws, Draw::Cross(true), draws@);
            }
            r
        }
    } else {
        individuals_ordered[0].copy()
    }
}

/// The crossover operator, with the source of its random choices.
pub struct Crossover<S> {
    pub selection: S,
}

impl<S> Crossover<S> {
    /// A crossover operator that draws its choices from `selection`.
    pub fn new(selection: S) -> (r: Crossover<S>)
        ensures
            r.selection == selection,
    {
        Crossover { selection }
    }

    /// The offspring of the individuals, which are ordered best first, with
    /// the choices of this operator (see `crossover_with`).
    pub fn crossover<R: Default, P>(
        &mut self,
        spec: &spec::Spec,
        individuals_ordered: &Vec<&Value>,
        crossover_params: &P,
        path_ctx: &mut PathContext<R>,
        draws: &mut DrawLog,
    ) -> (r: Value) where S: CrossoverChoices<R, P>
        requires
            spec::wf(spec@),
            individuals_ordered@.len() > 0,
            forall|i: int| 0 <= i < individuals_ordered@.len() ==> conforms((#[trigger] individuals_ordered@[i])@, spec@),
        ensures
            conforms(r@, spec@),
            spec_is_leaf(spec@) ==> exists|i: int| 0 <= i < individuals_ordered@.len() && r@ == (#[trigger] individuals_ordered@[i])@,
            individuals_ordered@.len() == 1 ==> r@ == individuals_ordered@[0]@,
            (forall|i: int| 0 <= i < individuals_ordered@.len() ==> value::sizes_within((#[trigger] individuals_ordered@[i])@, spec@))
                ==> value::sizes_within(r@, spec@),
            extends(old(draws)@, final(draws)@),
            crossover_drawn(value_views(individuals_ordered@), spec@, drawn_since(old(draws)@, final(draws)@), r@),
            (individuals_ordered@.len() == 1 || spec_is_leaf(spec@) || spec@ is Const) ==> *final(path_ctx) == *old(path_ctx),
            (individuals_ordered@.len() == 1 || spec@ is Const
                || (spec_is_leaf(spec@) && forall|i: int| 0 <= i < individuals_ordered@.len() ==> #[trigger] individuals_ordered@[i]@ == individuals_ordered@[0]@))
                ==> final(self).selection == old(self).selection,
    {
        crossover_with(&mut self.selection, spec, individuals_ordered, crossover_params, path_ctx, draws)
    }
}

/// The offspring of the individuals, which are ordered best first (see
/// `do_crossover`), with the parameters rescaled at the root path node.
/// The offspring conforms to the spec; for a leaf spec it is one of the
/// individuals, a lone individual is its own offspring, and the sizes of anon
/// maps stay within their bounds where the individuals' do.
pub fn crossover_with<R: Default, P, C: CrossoverChoices<R, P>>(
    choices: &mut C,
    spec: &spec::Spec,
    individuals_ordered: &Vec<&Value>,
    crossover_params: &P,
    path_ctx: &mut PathContext<R>,
    draws: &mut DrawLog,
) -> (r: Value)
    requires
        spec::wf(spec@),
        individuals_ordered@.len() > 0,
        forall|i: int| 0 <= i < individuals_ordered@.len() ==> conforms((#[trigger] individuals_ordered@[i])@, spec@),
    ensures
        conforms(r@, spec@),
        spec_is_leaf(spec@) ==> exists|i: int| 0 <= i < individuals_ordered@.len() && r@ == (#[trigger] individuals_ordered@[i])@,
        individuals_ordered@.len() == 1 ==> r@ == individuals_ordered@[0]@,
        (forall|i: int| 0 <= i < individuals_ordered@.len() ==> value::sizes_within((#[trigger] individuals_ordered@[i])@, spec@))
            ==> value::sizes_within(r@, spec@),
        extends(old(draws)@, final(draws)@),
        crossover_drawn(value_views(individuals_ordered@), spec@, drawn_since(old(draws)@, final(draws)@), r@),
        (individuals_ordered@.len() == 1 || spec_is_leaf(spec@) || spec@ is Const) ==> *final(path_ctx) == *old(path_ctx),
        (individuals_ordered@.len() == 1 || spec@ is Const
            || (spec_is_leaf(spec@) && forall|i: int| 0 <= i < individuals_ordered@.len() ==> #[trigger] individuals_ordered@[i]@ == individuals_ordered@[0]@))
            ==> *final(choices) == *old(choices),
{
    let mut nodes: Vec<&value::Node> = Vec::new();
    let mut i: usize = 0;
    while i < individuals_ordered.len()
        invariant
            i <= individuals_ordered@.len(),
            nodes@.len() == i,
            forall|n: int| 0 <= n < i ==> (#[trigger] nodes@[n])@ == individuals_ordered@[n]@,
        decreases individuals_ordered.len() - i,
    {
        nodes.push(&individuals_ordered[i].0);
        i = i + 1;
    }
    proof {
        assert forall|n: int| 0 <= n < views(nodes@).len() implies conforms(#[trigger] views(nodes@)[n], spec@) by {
            assert(views(nodes@)[n] == individuals_ordered@[n]@);
        }
        if forall|n: int| 0 <= n < individuals_ordered@.len() ==> value::sizes_within((#[trigger] individuals_ordered@[n])@, spec@) {
            assert forall|n: int| 0 <= n < views(nodes@).len() implies value::sizes_within(#[trigger] views(nodes@)[n], spec@) by {
                assert(views(nodes@)[n] == individuals_ordered@[n]@);
            }
        }
    }
    let params = Scaled::at_root_for_crossover(&*choices, path_ctx.0.current_rescaling(), crossover_params);
    let r = do_crossover(choices, &spec.0, &nodes, &params, &mut path_ctx.0, draws);
    proof {
        assert(views(nodes@) =~= value_views(individuals_ordered@));
    }
    proof {
        if spec_is_leaf(spec@) {
            let w = choose|n: int| 0 <= n < views(nodes@).len() && views(nodes@)[n] == r@;
            assert(individuals_ordered@[w]@ == r@);
        }
    }
    Value(r)
}

} // verus!
