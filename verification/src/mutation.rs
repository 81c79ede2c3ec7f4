//! Mutation: a random change of an individual along the spec, node by node,
//! that keeps it within the spec.
use vstd::prelude::*;
use crate::path::{PathContext, PathNodeContext};
use crate::real_key::RealKey;
use crate::selection::{
    lemma_extends_trans, Draw, DrawLog, MutationChoices, Scaled, choose_position, clamp_position, draw_coin, draw_decision, draw_int, draw_real, drawn_since, extends,
};
use crate::seq_util::{key_pos, keys_distinct, lemma_key_pos, plain_keys, string_keys, view_keys};
use crate::spec;
use crate::value::{self, Value, conforms};
use crate::value_util::anon_insert;

verus! {

/// A real moved to within optional bounds.
pub open spec fn clamp_real(x: RealKey, min: Option<RealKey>, max: Option<RealKey>) -> RealKey {
    let lo = match min {
        Some(m) => if x.0 < m.0 { m } else { x },
        None => x,
    };
    match max {
        Some(m) => if lo.0 > m.0 { m } else { lo },
        None => lo,
    }
}

/// An integer moved to within optional bounds.
pub open spec fn clamp_int(x: i64, min: Option<i64>, max: Option<i64>) -> i64 {
    let lo = match min {
        Some(m) => if x < m { m } else { x },
        None => x,
    };
    match max {
        Some(m) => if lo > m { m } else { lo },
        None => lo,
    }
}

/// Whether `r` is the point within the optional bounds nearest to `x`:
/// within them, and no point within them is closer to `x`.
pub open spec fn nearest_real_within(x: RealKey, min: Option<RealKey>, max: Option<RealKey>, r: RealKey) -> bool {
    &&& spec::real_within(r, min, max)
    &&& forall|y: RealKey| spec::real_within(y, min, max) ==> #[trigger] distance(x.0 as int, y.0 as int) >= distance(x.0 as int, r.0 as int)
}

/// Whether `r` is the integer within the optional bounds nearest to `x`.
pub open spec fn nearest_int_within(x: i64, min: Option<i64>, max: Option<i64>, r: i64) -> bool {
    &&& spec::int_within(r, min, max)
    &&& forall|y: i64| spec::int_within(y, min, max) ==> #[trigger] distance(x as int, y as int) >= distance(x as int, r as int)
}

/// The distance between two numbers.
pub open spec fn distance(a: int, b: int) -> int {
    if a <= b { b - a } else { a - b }
}

/// A real moved to within bounds (the least not above the greatest) is the
/// point within them nearest to it: itself where it is within them, else the
/// bound it passed. The order of keys is the order of the reals.
pub proof fn law_clamp_real_nearest(x: RealKey, min: Option<RealKey>, max: Option<RealKey>)
    requires
        min matches Some(lo) ==> (max matches Some(hi) ==> lo.0 <= hi.0),
    ensures
        nearest_real_within(x, min, max, clamp_real(x, min, max)),
        spec::real_within(x, min, max) ==> clamp_real(x, min, max) == x,
        max matches Some(hi) ==> (x.0 > hi.0 ==> clamp_real(x, min, max) == hi),
        min matches Some(lo) ==> (x.0 < lo.0 ==> clamp_real(x, min, max) == lo),
{
}

/// An integer moved to within bounds (the least not above the greatest) is
/// the integer within them nearest to it: itself where it is within them,
/// else the bound it passed.
pub proof fn law_clamp_int_nearest(x: i64, min: Option<i64>, max: Option<i64>)
    requires
        min matches Some(lo) ==> (max matches Some(hi) ==> lo <= hi),
    ensures
        nearest_int_within(x, min, max, clamp_int(x, min, max)),
        spec::int_within(x, min, max) ==> clamp_int(x, min, max) == x,
        max matches Some(hi) ==> (x > hi ==> clamp_int(x, min, max) == hi),
        min matches Some(lo) ==> (x < lo ==> clamp_int(x, min, max) == lo),
{
}

/// Whether `r` is what mutating the real `value` gives on the answers `d`:
/// unchanged where the choices decide not to mutate, else the drawn real
/// moved to within the bounds.
pub open spec fn real_drawn(value: RealKey, min: Option<RealKey>, max: Option<RealKey>, d: Seq<Draw>, r: RealKey) -> bool {
    ||| d == seq![Draw::Decide(false)] && r == value
    ||| d.len() == 2 && d[0] == Draw::Decide(true) && (d[1] matches Draw::Real(x) && r == clamp_real(x, min, max))
}

/// Whether `r` is what mutating the integer `value` gives on the answers
/// `d`: unchanged where the choices decide not to mutate, else the drawn
/// integer moved to within the bounds.
pub open spec fn int_drawn(value: i64, min: Option<i64>, max: Option<i64>, d: Seq<Draw>, r: i64) -> bool {
    ||| d == seq![Draw::Decide(false)] && r == value
    ||| d.len() == 2 && d[0] == Draw::Decide(true) && (d[1] matches Draw::Int(x) && r == clamp_int(x, min, max))
}

/// Whether `r` is what mutating the bool `value` gives on the answers `d`:
/// flipped exactly where the choices decide to mutate.
pub open spec fn bool_drawn(value: bool, d: Seq<Draw>, r: bool) -> bool {
    d.len() == 1 && (d[0] matches Draw::Decide(b) && r == (value != b))
}

/// The values other than `current`, in their order.
pub open spec fn others_of(values: Seq<Seq<char>>, current: Seq<char>) -> Seq<Seq<char>>
    decreases values.len(),
{
    if values.len() == 0 {
        Seq::empty()
    } else {
        let o = others_of(values.drop_last(), current);
        if values.last() != current {
            o.push(values.last())
        } else {
            o
        }
    }
}

/// The positions of the keys other than `a`, in order.
pub open spec fn other_positions(keys: Seq<Seq<char>>, a: Seq<char>) -> Seq<int>
    decreases keys.len(),
{
    if keys.len() == 0 {
        Seq::empty()
    } else {
        let o = other_positions(keys.drop_last(), a);
        if keys.last() != a {
            o.push(keys.len() - 1)
        } else {
            o
        }
    }
}

/// The views of strings.
pub open spec fn string_views(values: Seq<String>) -> Seq<Seq<char>> {
    values.map_values(|s: String| s@)
}

/// Whether `r` is what mutating the enum value `current` gives on the
/// answers `d`: unchanged where the choices decide not to mutate, or where
/// there is no other value; else the other value at the picked position.
pub open spec fn enum_drawn(values: Seq<Seq<char>>, current: Seq<char>, d: Seq<Draw>, r: Seq<char>) -> bool {
    ||| d == seq![Draw::Decide(false)] && r == current
    ||| d == seq![Draw::Decide(true)] && others_of(values, current).len() == 0 && r == current
    ||| d.len() == 2 && d[0] == Draw::Decide(true) && others_of(values, current).len() > 0 && (d[1] matches Draw::Pick(m, i) && m == others_of(values, current).len()
        && r == others_of(values, current)[clamp_position(i, others_of(values, current).len() as int)])
}

/// The other values are values, and none is `current`.
pub proof fn lemma_others_of(values: Seq<Seq<char>>, current: Seq<char>)
    ensures
        forall|j: int| 0 <= j < others_of(values, current).len() ==> {
            &&& #[trigger] others_of(values, current)[j] != current
            &&& values.contains(others_of(values, current)[j])
        },
        (exists|j: int| 0 <= j < values.len() && values[j] != current) ==> others_of(values, current).len() > 0,
    decreases values.len(),
{
    if values.len() > 0 {
        let p = values.drop_last();
        lemma_others_of(p, current);
        let o = others_of(p, current);
        assert forall|j: int| 0 <= j < others_of(values, current).len() implies {
            &&& #[trigger] others_of(values, current)[j] != current
            &&& values.contains(others_of(values, current)[j])
        } by {
            if j < o.len() {
                assert(others_of(values, current)[j] == o[j]);
                let w = choose|w: int| 0 <= w < p.len() && p[w] == o[j];
                assert(values[w] == p[w]);
            } else {
                assert(values[values.len() - 1] == values.last());
            }
        }
        if exists|j: int| 0 <= j < values.len() && values[j] != current {
            let j = choose|j: int| 0 <= j < values.len() && values[j] != current;
            if j < values.len() - 1 {
                assert(p[j] == values[j]);
            }
        }
    }
}

/// A real, mutated where the choices decide so: drawn around its value and
/// moved to within the bounds. The answers drawn are logged.
pub fn mutate_real<R, P, C: MutationChoices<R, P>>(
    value: RealKey,
    scale: RealKey,
    min: Option<RealKey>,
    max: Option<RealKey>,
    mutation_params: &P,
    choices: &mut C,
    draws: &mut DrawLog,
) -> (r: RealKey)
    requires
        min matches Some(lo) ==> (max matches Some(hi) ==> lo.0 <= hi.0),
    ensures
        extends(old(draws)@, final(draws)@),
        real_drawn(value, min, max, drawn_since(old(draws)@, final(draws)@), r),
        r == value || spec::real_within(r, min, max),
        forall|x: RealKey| drawn_since(old(draws)@, final(draws)@) == seq![Draw::Decide(true), Draw::Real(x)]
            ==> nearest_real_within(x, min, max, r),
{
    proof {
        assert forall|x: RealKey| true implies nearest_real_within(x, min, max, clamp_real(x, min, max)) by {
            law_clamp_real_nearest(x, min, max);
        }
    }
    if draw_decision(choices, mutation_params, draws) {
        let mut v = draw_real(choices, value, scale, mutation_params, draws);
        let ghost x = v;
        if let Some(m) = min {
            if v.0 < m.0 {
                v = m;
            }
        }
        if let Some(m) = max {
            if v.0 > m.0 {
                v = m;
            }
        }
        assert(v == clamp_real(x, min, max));
        assert(drawn_since(old(draws)@, draws@) =~= seq![Draw::Decide(true), Draw::Real(x)]);
        assert(draws@.take(old(draws)@.len() as int) =~= old(draws)@);
        v
    } else {
        assert(drawn_since(old(draws)@, draws@) =~= seq![Draw::Decide(false)]);
        assert(draws@.take(old(draws)@.len() as int) =~= old(draws)@);
        value
    }
}

/// An integer, mutated where the choices decide so: drawn around its value
/// and moved to within the bounds. The answers drawn are logged.
pub fn mutate_int<R, P, C: MutationChoices<R, P>>(
    value: i64,
    scale: RealKey,
    min: Option<i64>,
    max: Option<i64>,
    mutation_params: &P,
    choices: &mut C,
    draws: &mut DrawLog,
) -> (r: i64)
    requires
        min matches Some(lo) ==> (max matches Some(hi) ==> lo <= hi),
    ensures
        extends(old(draws)@, final(draws)@),
        int_drawn(value, min, max, drawn_since(old(draws)@, final(draws)@), r),
        r == value || spec::int_within(r, min, max),
        forall|x: i64| drawn_since(old(draws)@, final(draws)@) == seq![Draw::Decide(true), Draw::Int(x)]
            ==> nearest_int_within(x, min, max, r),
{
    proof {
        assert forall|x: i64| true implies nearest_int_within(x, min, max, clamp_int(x, min, max)) by {
            law_clamp_int_nearest(x, min, max);
        }
    }
    if draw_decision(choices, mutation_params, draws) {
        let mut v = draw_int(choices, value, scale, mutation_params, draws);
        let ghost x = v;
        if let Some(m) = min {
            if v < m {
                v = m;
            }
        }
        if let Some(m) = max {
            if v > m {
                v = m;
            }
        }
        assert(v == clamp_int(x, min, max));
        assert(drawn_since(old(draws)@, draws@) =~= seq![Draw::Decide(true), Draw::Int(x)]);
        assert(draws@.take(old(draws)@.len() as int) =~= old(draws)@);
        v
    } else {
        assert(drawn_since(old(draws)@, draws@) =~= seq![Draw::Decide(false)]);
        assert(draws@.take(old(draws)@.len() as int) =~= old(draws)@);
        value
    }
}

/// A bool, flipped where the choices decide so. The answer is logged.
pub fn mutate_bool<R, P, C: MutationChoices<R, P>>(value: bool, mutation_params: &P, choices: &mut C, draws: &mut DrawLog) -> (r: bool)
    ensures
        extends(old(draws)@, final(draws)@),
        bool_drawn(value, drawn_since(old(draws)@, final(draws)@), r),
{
    let b = draw_decision(choices, mutation_params, draws);
    assert(drawn_since(old(draws)@, draws@) =~= seq![Draw::Decide(b)]);
    assert(draws@.take(old(draws)@.len() as int) =~= old(draws)@);
    value ^ b
}

/// An enum value, moved to another of the values where the choices decide so
/// (and kept where there is no other value). The answers drawn are logged.
pub fn mutate_enum<R, P, C: MutationChoices<R, P>>(
    spec_values: &Vec<String>,
    current_value: &str,
    mutation_params: &P,
    choices: &mut C,
    draws: &mut DrawLog,
) -> (r: String)
    requires
        exists|i: int| 0 <= i < spec_values@.len() && spec_values@[i]@ == current_value@,
    ensures
        exists|i: int| 0 <= i < spec_values@.len() && spec_values@[i]@ == r@,
        extends(old(draws)@, final(draws)@),
        enum_drawn(string_views(spec_values@), current_value@, drawn_since(old(draws)@, final(draws)@), r@),
        (drawn_since(old(draws)@, final(draws)@)[0] == Draw::Decide(true)
            && exists|i: int| 0 <= i < spec_values@.len() && spec_values@[i]@ != current_value@) ==> r@ != current_value@,
{
    let ghost vals = string_views(spec_values@);
    if draw_decision(choices, mutation_params, draws) {
        let probe: String = current_value.to_owned();
        let mut others: Vec<&String> = Vec::new();
        let mut i: usize = 0;
        while i < spec_values.len()
            invariant
                i <= spec_values@.len(),
                probe@ == current_value@,
                vals == string_views(spec_values@),
                others@.len() == others_of(vals.take(i as int), current_value@).len(),
                forall|n: int| 0 <= n < others@.len() ==> (#[trigger] others@[n])@ == others_of(vals.take(i as int), current_value@)[n],
            decreases spec_values.len() - i,
        {
            let ghost before = others@;
            proof {
                assert(vals.take(i + 1).drop_last() =~= vals.take(i as int));
                assert(vals.take(i + 1).last() == spec_values@[i as int]@);
            }
            if spec_values[i] != probe {
                others.push(&spec_values[i]);
                proof {
                    assert forall|n: int| 0 <= n < others@.len() implies (#[trigger] others@[n])@ == others_of(vals.take(i + 1), current_value@)[n] by {
                        if n < before.len() {
                            assert(others@[n] == before[n]);
                        }
                    }
                }
            }
            i = i + 1;
        }
        proof {
            assert(vals.take(spec_values@.len() as int) =~= vals);
            lemma_others_of(vals, current_value@);
        }
        if others.len() == 0 {
            proof {
                assert(drawn_since(old(draws)@, draws@) =~= seq![Draw::Decide(true)]);
                assert(draws@.take(old(draws)@.len() as int) =~= old(draws)@);
                if exists|i: int| 0 <= i < spec_values@.len() && spec_values@[i]@ != current_value@ {
                    let w = choose|i: int| 0 <= i < spec_values@.len() && spec_values@[i]@ != current_value@;
                    assert(vals[w] != current_value@);
                }
            }
            return current_value.to_owned();
        }
        let ghost mid = draws@;
        let n = choose_position(choices, others.len(), draws);
        let r = others[n].clone();
        proof {
            let o = others_of(vals, current_value@);
            assert(r@ == o[n as int]);
            let w = choose|w: int| 0 <= w < vals.len() && vals[w] == o[n as int];
            assert(spec_values@[w]@ == r@);
            assert(draws@ =~= mid.push(draws@.last()));
            assert(drawn_since(old(draws)@, draws@) =~= seq![Draw::Decide(true), draws@.last()]);
            assert(draws@.take(old(draws)@.len() as int) =~= old(draws)@);
        }
        r
    } else {
        assert(drawn_since(old(draws)@, draws@) =~= seq![Draw::Decide(false)]);
        assert(draws@.take(old(draws)@.len() as int) =~= old(draws)@);
        current_value.to_owned()
    }
}

/// The answers of consecutive parts, one after the other.
pub open spec fn concat_draws(cs: Seq<Seq<Draw>>) -> Seq<Draw>
    decreases cs.len(),
{
    if cs.len() == 0 {
        Seq::empty()
    } else {
        concat_draws(cs.drop_last()) + cs.last()
    }
}

/// Whether none of the answers `d` is a decision to mutate.
pub open spec fn declines_all(d: Seq<Draw>) -> bool {
    forall|i: int| 0 <= i < d.len() ==> d[i] != Draw::Decide(true)
}

/// Where no answer of a concatenation decides to mutate, none of its parts
/// does.
pub proof fn lemma_declines_parts(cs: Seq<Seq<Draw>>)
    requires
        declines_all(concat_draws(cs)),
    ensures
        forall|k: int| 0 <= k < cs.len() ==> declines_all(#[trigger] cs[k]),
    decreases cs.len(),
{
    if cs.len() > 0 {
        let a = concat_draws(cs.drop_last());
        let b = cs.last();
        assert(concat_draws(cs) == a + b);
        assert forall|i: int| 0 <= i < a.len() implies a[i] != Draw::Decide(true) by {
            assert((a + b)[i] == a[i]);
        }
        assert forall|i: int| 0 <= i < b.len() implies b[i] != Draw::Decide(true) by {
            assert((a + b)[a.len() + i] == b[i]);
        }
        lemma_declines_parts(cs.drop_last());
        assert forall|k: int| 0 <= k < cs.len() implies declines_all(#[trigger] cs[k]) by {
            if k < cs.len() - 1 {
                assert(cs[k] == cs.drop_last()[k]);
            }
        }
    }
}

/// Whether `new` is what mutating `old` at spec node `s` gives on the answers
/// `d`: a leaf exactly (see `real_drawn` and the like), a const drawing
/// nothing, a sub node child by child on consecutive parts of `d`; an
/// optional or a variant by its decision (the first answer), then its
/// content, fresh or old, on the rest; an anon map as `anon_drawn` says.
pub open spec fn node_drawn(old: value::NodeV, s: spec::NodeV, d: Seq<Draw>, new: value::NodeV) -> bool
    decreases s, 0nat,
{
    match s {
        spec::NodeV::Sub { map } => old matches value::NodeV::Sub(oes) ==> (new matches value::NodeV::Sub(nes)
            && exists|cs: Seq<Seq<Draw>>| #![trigger concat_draws(cs)] {
                &&& cs.len() == map.len()
                &&& d == concat_draws(cs)
                &&& forall|k: int| 0 <= k < map.len() && k < oes.len() && k < nes.len()
                    ==> node_drawn(oes[k].1, (#[trigger] map[k]).1, cs[k], nes[k].1)
            }),
        spec::NodeV::Real { min, max, .. } => old matches value::NodeV::Real(x) ==> (new matches value::NodeV::Real(y) && real_drawn(x, min, max, d, y)),
        spec::NodeV::Int { min, max, .. } => old matches value::NodeV::Int(x) ==> (new matches value::NodeV::Int(y) && int_drawn(x, min, max, d, y)),
        spec::NodeV::Bool { .. } => old matches value::NodeV::Bool(x) ==> (new matches value::NodeV::Bool(y) && bool_drawn(x, d, y)),
        spec::NodeV::Enum { values, .. } => old matches value::NodeV::Enum(x) ==> (new matches value::NodeV::Enum(y) && enum_drawn(values, x, d, y)),
        spec::NodeV::Const => d.len() == 0,
        spec::NodeV::Optional { value_type, .. } => old matches value::NodeV::Optional(o) ==> (d.len() >= 1 && (d[0] matches Draw::Decide(f)
            && (new matches value::NodeV::Optional(p) && {
                &&& (p is Some) == ((o is Some) != f)
                &&& (f && o is None) ==> (p matches Some(c) && node_drawn(spec::initial(*value_type), *value_type, d.drop_first(), *c))
                &&& (!f && o is Some) ==> (p matches Some(c) && node_drawn(*o->Some_0, *value_type, d.drop_first(), *c))
                &&& ((f && o is Some) || (!f && o is None)) ==> d.len() == 1
            }))),
        spec::NodeV::Variant { map, .. } => old matches value::NodeV::Variant(a, oc) ==> (d.len() >= 1 && (d[0] matches Draw::Decide(c)
            && (new matches value::NodeV::Variant(b, nc) && (c <==> b != a) && {
                &&& (!c && 0 <= key_pos(view_keys(map), a) < map.len())
                    ==> node_drawn(*oc, map[key_pos(view_keys(map), a)].1, d.drop_first(), *nc)
                &&& c ==> (d.len() >= 2 && (d[1] matches Draw::Pick(m, j) && {
                    let op = other_positions(view_keys(map), a);
                    let pos = op[clamp_position(j, op.len() as int)];
                    &&& m == op.len()
                    &&& 0 <= pos < map.len() ==> {
                        &&& b == view_keys(map)[pos]
                        &&& node_drawn(spec::initial(map[pos].1), map[pos].1, d.skip(2), *nc)
                    }
                }))
            }))),
        spec::NodeV::AnonMap { value_type, min_size, max_size, .. } => old matches value::NodeV::AnonMap(es) ==> (d.len() >= 1
            && (d[0] matches Draw::Decide(resize) && (new matches value::NodeV::AnonMap(ns) && anon_resized(es, ns, resize, min_size, max_size)
            && anon_drawn(es, ns, *value_type, d, resize, min_size, max_size, None)))),
        _ => true,
    }
}

/// Whether anon map entries `ns` are what mutating `es` gives on the answers
/// `d`, which begin with the decision `resize`: first the answers that
/// decide how the size changes (see `anon_head`), then those of the value of
/// an added entry (which starts from the picked entry's value, or from the
/// initial value in an empty map), then those of each entry's value in turn.
/// An entry is removed at the picked position, or added; every other entry
/// keeps its key and holds its mutated value. Where the path node's next key
/// is known (`next`), an entry is added under it exactly when the resize
/// does not remove one and a key is left to hand out.
pub open spec fn anon_drawn(
    es: Seq<(usize, value::NodeV)>,
    ns: Seq<(usize, value::NodeV)>,
    vt: spec::NodeV,
    d: Seq<Draw>,
    resize: bool,
    min_size: Option<usize>,
    max_size: Option<usize>,
    next: Option<usize>,
) -> bool
    decreases vt, 1nat,
{
    exists|h: int, h2: int, cs: Seq<Seq<Draw>>, ms: Seq<value::NodeV>|
        #![trigger d.take(h), d.skip(h2), concat_draws(cs), anon_zip(es, ms)] {
        let hs = d.take(h);
        let zs = anon_zip(es, ms);
        let n = es.len() as int;
        let removes = anon_removes(n, hs, min_size, max_size);
        &&& 1 <= h <= h2 <= d.len()
        &&& anon_head(n, hs, min_size, max_size)
        &&& d.skip(h2) == concat_draws(cs)
        &&& cs.len() == es.len()
        &&& ms.len() == es.len()
        &&& forall|p: int| 0 <= p < es.len() ==> node_drawn(es[p].1, vt, cs[p], #[trigger] ms[p])
        &&& !resize ==> (h2 == h && ns == zs)
        &&& removes ==> (h2 == h && (hs.last() matches Draw::Pick(_, i) && ns == zs.remove(clamp_position(i, n))))
        &&& (resize && !removes) ==> ((h2 == h && ns == zs && (next matches Some(k) ==> k == usize::MAX))
            || exists|key: usize, a: value::NodeV| #![trigger anon_insert(zs, key, a)] {
            &&& next matches Some(k) ==> (key == k && k < usize::MAX)
            &&& ns == anon_insert(zs, key, a)
            &&& node_drawn(
                if n > 0 { es[clamp_position(hs.last()->Pick_1, n)].1 } else { spec::initial(vt) },
                vt,
                d.subrange(h, h2),
                a,
            )
        })
    }
}

/// Whether `new` fits as the mutation of `old` at an anon map spec node `s`
/// on the answers `d` (see `anon_drawn`), where the path node hands out
/// `next` as its next key.
pub open spec fn anon_drawn_at(old: value::NodeV, s: spec::NodeV, d: Seq<Draw>, new: value::NodeV, next: usize) -> bool {
    s matches spec::NodeV::AnonMap { value_type, min_size, max_size, .. } ==> (old matches value::NodeV::AnonMap(es) ==> (
        new matches value::NodeV::AnonMap(ns) && d.len() >= 1 && (d[0] matches Draw::Decide(resize)
            && anon_drawn(es, ns, *value_type, d, resize, min_size, max_size, Some(next)))))
}

/// The entries `es` with their values replaced by `ms`.
pub open spec fn anon_zip(es: Seq<(usize, value::NodeV)>, ms: Seq<value::NodeV>) -> Seq<(usize, value::NodeV)> {
    Seq::new(es.len(), |p: int| (es[p].0, ms[p]))
}

/// Whether an anon map of `n` entries is at its minimum size (or empty).
pub open spec fn anon_at_min(n: int, min_size: Option<usize>) -> bool {
    n == 0 || (min_size matches Some(m) && m == n)
}

/// Whether an anon map of `n` entries is at its maximum size.
pub open spec fn anon_at_max(n: int, max_size: Option<usize>) -> bool {
    max_size matches Some(m) && m == n
}

/// Whether the answers `hs` at an anon map of `n` entries remove an entry:
/// the choices decide to resize, the map is above its minimum size, and it
/// is at its maximum size or the coin says so.
pub open spec fn anon_removes(n: int, hs: Seq<Draw>, min_size: Option<usize>, max_size: Option<usize>) -> bool {
    &&& hs[0] == Draw::Decide(true)
    &&& !anon_at_min(n, min_size)
    &&& (anon_at_max(n, max_size) || hs[1] == Draw::Coin(true))
}

/// Whether `hs` are the answers an anon map of `n` entries draws before any
/// value is mutated: the decision to resize; where it resizes between its
/// bounds, a coin; then the position of the entry to remove, or, where an
/// entry is added to a map that has entries, of the entry whose value the
/// new one starts from.
pub open spec fn anon_head(n: int, hs: Seq<Draw>, min_size: Option<usize>, max_size: Option<usize>) -> bool {
    hs.len() >= 1 && (hs[0] matches Draw::Decide(resize) && {
        let coin = resize && !anon_at_min(n, min_size) && !anon_at_max(n, max_size);
        let k: int = if coin { 2 } else { 1 };
        &&& coin ==> (hs.len() >= 2 && hs[1] is Coin)
        &&& !resize ==> hs.len() == 1
        &&& (resize && (anon_removes(n, hs, min_size, max_size) || n > 0)) ==> (hs.len() == k + 1 && (hs.last() matches Draw::Pick(m, _) && m == n))
        &&& (resize && !anon_removes(n, hs, min_size, max_size) && n == 0) ==> hs.len() == k
    })
}

/// Whether the keys of anon map entries `ns` fit as the resizing of `es`
/// when the path node hands out `next` as its next key: each key is an old
/// one or `next`; resizing at the minimum size (or when empty) adds an entry
/// under `next`, where it is fresh and can be handed out.
pub open spec fn anon_keys_added(
    es: Seq<(usize, value::NodeV)>,
    ns: Seq<(usize, value::NodeV)>,
    next: usize,
    resize: bool,
    min_size: Option<usize>,
) -> bool {
    &&& forall|j: int| 0 <= j < ns.len() ==> (plain_keys(es).contains(#[trigger] ns[j].0) || ns[j].0 == next)
    &&& (resize && (es.len() == 0 || (min_size matches Some(m) && m == es.len())) && next < usize::MAX && !plain_keys(es).contains(next))
        ==> ns.len() == es.len() + 1 && plain_keys(ns).contains(next)
}

/// Whether anon map entries `ns` fit as the resizing of `es`: the same keys
/// where the choices decide not to resize; at most one entry more or fewer;
/// one fewer where resizing at the maximum size (and above the minimum).
pub open spec fn anon_resized(
    es: Seq<(usize, value::NodeV)>,
    ns: Seq<(usize, value::NodeV)>,
    resize: bool,
    min_size: Option<usize>,
    max_size: Option<usize>,
) -> bool {
    &&& !resize ==> plain_keys(ns) == plain_keys(es)
    &&& ns.len() <= es.len() + 1
    &&& es.len() <= ns.len() + 1
    &&& (resize && es.len() > 0 && !(min_size matches Some(m) && m == es.len()) && (max_size matches Some(m) && m == es.len()))
        ==> ns.len() + 1 == es.len()
}

/// The `k`-th child of a sub value.
fn sub_child(node: &value::Node, k: usize) -> (r: &value::Node)
    requires
        node@ is Sub,
        k < node@->Sub_0.len(),
    ensures
        r@ == node@->Sub_0[k as int].1,
{
    match node {
        value::Node::Sub(m) => {
            assert(node@->Sub_0 == value::sub_entries_view(m@));
            &m[k].1
        },
        _ => vstd::pervasive::unreached(),
    }
}

/// Binding a key in an anon map whose values keep their sizes within bounds,
/// to a value that does too, adds at most one entry and keeps them within.
proof fn lemma_anon_insert_sizes(m: Seq<(usize, value::NodeV)>, k: usize, v: value::NodeV, s: spec::NodeV)
    requires
        forall|i: int| 0 <= i < m.len() ==> value::sizes_within(#[trigger] m[i].1, s),
        value::sizes_within(v, s),
    ensures
        crate::value_util::anon_insert(m, k, v).len() == m.len() || crate::value_util::anon_insert(m, k, v).len() == m.len() + 1,
        forall|i: int| 0 <= i < crate::value_util::anon_insert(m, k, v).len() ==> value::sizes_within(#[trigger] crate::value_util::anon_insert(m, k, v)[i].1, s),
{
    let r = crate::value_util::anon_insert(m, k, v);
    let p = key_pos(plain_keys(m), k);
    assert forall|i: int| 0 <= i < r.len() implies value::sizes_within(#[trigger] r[i].1, s) by {
        if 0 <= p < m.len() {
            if i != p {
                assert(r[i] == m[i]);
            }
        } else if i < m.len() {
            assert(r[i] == m[i]);
        }
    }
}

/// The content of an optional value.
fn optional_content(node: &value::Node) -> (r: Option<&value::Node>)
    requires
        node@ is Optional,
    ensures
        match r {
            Some(c) => node@->Optional_0 == Some(Box::new(c@)),
            None => node@->Optional_0 is None,
        },
{
    match node {
        value::Node::Optional(o) => match o {
            Some(c) => {
                assert(value::optional_view(*o) == Some(Box::new(value::node_view(**c))));
                Some(&**c)
            },
            None => {
                assert(value::optional_view(*o) == None::<Box<value::NodeV>>);
                None
            },
        },
        _ => vstd::pervasive::unreached(),
    }
}

/// The answers at an anon map, split into the part that decides how its size
/// changes, the part of an added value and the parts of the old values, fit
/// `anon_drawn`.
proof fn lemma_anon_drawn(
    es: Seq<(usize, value::NodeV)>,
    ns: Seq<(usize, value::NodeV)>,
    vt: spec::NodeV,
    min_size: Option<usize>,
    max_size: Option<usize>,
    resize: bool,
    start: Seq<Draw>,
    head: Seq<Draw>,
    body: Seq<Draw>,
    fin: Seq<Draw>,
    hs: Seq<Draw>,
    chunks: Seq<Seq<Draw>>,
    ms: Seq<value::NodeV>,
    removed: Option<usize>,
    added: Option<usize>,
    source: value::NodeV,
    a: value::NodeV,
    next: Option<usize>,
)
    requires
        next matches Some(k) ==> (added is Some <==> (resize && removed is None && k < usize::MAX)),
        next matches Some(k) ==> (added matches Some(key) ==> key == k),
        head == start + hs,
        extends(head, body),
        extends(body, fin),
        hs.len() >= 1,
        hs[0] == Draw::Decide(resize),
        anon_head(es.len() as int, hs, min_size, max_size),
        anon_removes(es.len() as int, hs, min_size, max_size) == (removed is Some),
        removed matches Some(i) ==> (hs.last() matches Draw::Pick(_, p) && i == clamp_position(p, es.len() as int)),
        (removed is Some || added is None) ==> body == head,
        added is Some ==> (resize && removed is None),
        !resize ==> (removed is None && added is None),
        chunks.len() == es.len(),
        ms.len() == es.len(),
        drawn_since(body, fin) == concat_draws(chunks),
        forall|p: int| 0 <= p < es.len() ==> node_drawn(es[p].1, vt, chunks[p], #[trigger] ms[p]),
        removed matches Some(i) ==> ns == anon_zip(es, ms).remove(i as int),
        (removed is None && added is None) ==> ns == anon_zip(es, ms),
        added matches Some(key) ==> ns == anon_insert(anon_zip(es, ms), key, a),
        added is Some ==> node_drawn(source, vt, drawn_since(head, body), a),
        added is Some ==> source == (if es.len() > 0 {
            es[clamp_position(hs.last()->Pick_1, es.len() as int)].1
        } else {
            spec::initial(vt)
        }),
    ensures
        anon_drawn(es, ns, vt, drawn_since(start, fin), resize, min_size, max_size, next),
{
    let d = drawn_since(start, fin);
    let h: int = hs.len() as int;
    let h2: int = body.len() - start.len();
    assert(extends(start, head)) by {
        assert(head.take(start.len() as int) =~= start);
    }
    lemma_extends_trans(start, head, body);
    lemma_extends_trans(start, body, fin);
    assert(d.take(h) =~= hs);
    assert(d.subrange(h, h2) =~= drawn_since(head, body));
    assert(d.skip(h2) =~= drawn_since(body, fin));
    let zs = anon_zip(es, ms);
    if added is Some {
        let key = added->Some_0;
        assert(ns == anon_insert(zs, key, a));
    }
    assert({
        let hs2 = d.take(h);
        let n = es.len() as int;
        let removes = anon_removes(n, hs2, min_size, max_size);
        &&& 1 <= h <= h2 <= d.len()
        &&& anon_head(n, hs2, min_size, max_size)
        &&& d.skip(h2) == concat_draws(chunks)
        &&& chunks.len() == es.len()
        &&& ms.len() == es.len()
        &&& forall|p: int| 0 <= p < es.len() ==> node_drawn(es[p].1, vt, chunks[p], #[trigger] ms[p])
        &&& !resize ==> (h2 == h && ns == zs)
        &&& removes ==> (h2 == h && (hs2.last() matches Draw::Pick(_, i) && ns == zs.remove(clamp_position(i, n))))
        &&& (resize && !removes) ==> ((h2 == h && ns == zs && (next matches Some(k) ==> k == usize::MAX))
            || exists|key: usize, a: value::NodeV| #![trigger anon_insert(zs, key, a)] {
            &&& next matches Some(k) ==> (key == k && k < usize::MAX)
            &&& ns == anon_insert(zs, key, a)
            &&& node_drawn(
                if n > 0 { es[clamp_position(hs2.last()->Pick_1, n)].1 } else { spec::initial(vt) },
                vt,
                d.subrange(h, h2),
                a,
            )
        })
    });
}

/// The mutation of an anon map value (see `do_mutate`): where the choices
/// decide to resize it, an entry is removed (never when empty or at the
/// minimum size; always at the maximum size; between the bounds where the
/// coin says so) or else one is added under the path node's next key, its
/// value starting from a picked entry's value (or the initial value in an
/// empty map) and mutated; then the value of each entry that was there is
/// mutated, and the picked entry removed or the new one inserted. Each
/// entry's value is mutated with the parameters rescaled at its own path
/// node.
#[verifier::rlimit(60)]
fn mutate_anon_map<R: Default, P, C: MutationChoices<R, P>>(
    choices: &mut C,
    value: &value::Node,
    spec_node: &spec::Node,
    mutation_params: &Scaled<R, P>,
    path_node_ctx: &mut PathNodeContext<R>,
    draws: &mut DrawLog,
) -> (r: value::Node)
    requires
        mutation_params.rescalings().len() > 0,
        mutation_params.rescalings().last() == old(path_node_ctx).rescaling(),
        spec_node@ is AnonMap,
        spec::wf(spec_node@),
        conforms(value@, spec_node@),
    ensures
        conforms(r@, spec_node@),
        extends(old(draws)@, final(draws)@),
        node_drawn(value@, spec_node@, drawn_since(old(draws)@, final(draws)@), r@),
        spec_node@ matches spec::NodeV::AnonMap { min_size, .. } ==> (value@ matches value::NodeV::AnonMap(es) ==> (r@ matches value::NodeV::AnonMap(ns)
            && anon_keys_added(es, ns, old(path_node_ctx).next_anon_key(), drawn_since(old(draws)@, final(draws)@)[0] == Draw::Decide(true), min_size))),
        anon_drawn_at(value@, spec_node@, drawn_since(old(draws)@, final(draws)@), r@, old(path_node_ctx).next_anon_key()),
        value::sizes_within(value@, spec_node@) ==> value::sizes_within(r@, spec_node@),
    decreases spec_node, 0nat,
{
    let ghost start_draws = draws@;
    proof { crate::selection::lemma_extends_refl(start_draws); }
    let (value_type, min_size, max_size) = match spec_node {
        spec::Node::AnonMap { value_type, min_size, max_size, .. } => (value_type, min_size, max_size),
        _ => vstd::pervasive::unreached(),
    };
    let ghost vt = spec::node_view(**value_type);
    proof {
        assert(spec_node@->AnonMap_value_type == Box::new(vt));
        assert(decreases_to!(*spec_node => (*spec_node)->AnonMap_value_type));
    }
    let mapping = crate::crossover::extract_anon_map_inner(value);
    let ghost es = value@->AnonMap_0;
    let ghost next0 = path_node_ctx.next_anon_key();
    let ghost within = value::sizes_within(value@, spec_node@);
    proof {
        if within {
            assert(spec::size_within(es.len() as int, *min_size, *max_size));
            assert forall|j: int| 0 <= j < es.len() implies value::sizes_within(#[trigger] es[j].1, vt) by {}
        }
    }
    let n = mapping.len();
    let ghost prev_draws = draws@;
    let resize = draw_decision(choices, mutation_params.params(), draws);
    proof { lemma_extends_trans(start_draws, prev_draws, draws@); }
    let ghost first_draws = draws@;
    proof { crate::selection::lemma_extends_refl(first_draws); }
    let ghost mut hs: Seq<Draw> = seq![Draw::Decide(resize)];
    let ghost mut head_draws: Seq<Draw> = first_draws;
    let ghost mut source_view: value::NodeV = spec::initial(vt);
    let ghost mut added_view: value::NodeV = spec::initial(vt);
    let ghost mut added_key: Option<usize> = None;
    proof { assert(head_draws =~= start_draws + hs); }
    let mut index_to_remove: Option<usize> = None;
    let mut to_add: Option<(usize, value::Node)> = None;
    if resize {
        let is_at_min_size = n == 0 || match min_size {
            Some(size) => n == *size,
            None => false,
        };
        let is_at_max_size = match max_size {
            Some(size) => n == *size,
            None => false,
        };
        let remove_one = if !is_at_min_size && !is_at_max_size {
            let ghost prev_draws = draws@;
            let c = draw_coin(choices, draws);
            proof {
                lemma_extends_trans(first_draws, prev_draws, draws@);
                hs = hs.push(Draw::Coin(c));
                head_draws = draws@;
                assert(head_draws =~= start_draws + hs);
            }
            c
        } else {
            !is_at_min_size && is_at_max_size
        };
        if remove_one {
            let ghost prev_draws = draws@;
            index_to_remove = Some(choose_position(choices, n, draws));
            proof {
                lemma_extends_trans(first_draws, prev_draws, draws@);
                assert(draws@ =~= prev_draws.push(draws@.last()));
                hs = hs.push(draws@.last());
                head_draws = draws@;
                assert(head_draws =~= start_draws + hs);
            }
        } else {
            let initial;
            let source: &value::Node = if n > 0 {
                let ghost prev_draws = draws@;
                let j = choose_position(choices, n, draws);
                proof {
                    lemma_extends_trans(first_draws, prev_draws, draws@);
                    assert(draws@ =~= prev_draws.push(draws@.last()));
                    hs = hs.push(draws@.last());
                    head_draws = draws@;
                    assert(head_draws =~= start_draws + hs);
                    source_view = es[j as int].1;
                }
                assert(es[j as int].1 == mapping@[j as int].1@);
                proof {
                    if within {
                        assert(value::sizes_within(es[j as int].1, vt));
                    }
                }
                &mapping[j].1
            } else {
                proof {
                    crate::laws::law_initial_conforms(vt);
                    crate::laws::law_initial_sizes_within(vt);
                }
                initial = (**value_type).initial_value();
                &initial
            };
            assert(source_view == source@);
            assert(head_draws == draws@);
            if path_node_ctx.has_next_key() {
                let key = path_node_ctx.next_key();
                let key_text = crate::number_text::usize_to_decimal(key);
                let child_ctx = path_node_ctx.get_or_create_child_mut(key_text.as_str());
                let child_params = mutation_params.rescaled_for_mutation(choices, child_ctx.current_rescaling());
                let ghost prev_draws = draws@;
                let added = do_mutate(choices, source, &**value_type, &child_params, child_ctx, draws);
                proof {
                    lemma_extends_trans(first_draws, prev_draws, draws@);
                    added_view = added@;
                    added_key = Some(key);
                    assert(prev_draws == head_draws);
                }
                to_add = Some((key, added));
            }
            proof {
                if next0 < usize::MAX {
                    assert(to_add matches Some(e) && e.0 == next0);
                }
            }
        }
    }
    proof {
        if draws@ == head_draws {
            crate::selection::lemma_extends_refl(head_draws);
        }
    }
    let ghost body_draws = draws@;
    let ghost mut chunks: Seq<Seq<Draw>> = Seq::empty();
    proof {
        crate::selection::lemma_extends_refl(body_draws);
        assert(drawn_since(body_draws, draws@) =~= concat_draws(chunks));
    }
    let mut out: Vec<(usize, value::Node)> = Vec::new();
    let mut k: usize = 0;
    while k < mapping.len()
        invariant
            extends(first_draws, draws@),
            k <= mapping@.len(),
            n == mapping@.len(),
            (*spec_node) is AnonMap && (*spec_node)->AnonMap_value_type == *value_type,
            vt == spec::node_view(**value_type),
            spec::wf(vt),
            value::anon_entries_view(mapping@) == es,
            keys_distinct(plain_keys(es)),
            forall|j: int| 0 <= j < es.len() ==> conforms(#[trigger] es[j].1, vt),
            out@.len() == k,
            forall|j: int| 0 <= j < k ==> (#[trigger] out@[j]).0 == es[j].0 && conforms(out@[j].1@, vt),
            within ==> forall|j: int| 0 <= j < es.len() ==> value::sizes_within(#[trigger] es[j].1, vt),
            within ==> forall|j: int| 0 <= j < k ==> value::sizes_within((#[trigger] out@[j]).1@, vt),
            extends(body_draws, draws@),
            chunks.len() == k,
            drawn_since(body_draws, draws@) == concat_draws(chunks),
            forall|j: int| 0 <= j < k ==> node_drawn(es[j].1, vt, chunks[j], (#[trigger] out@[j]).1@),
        decreases mapping.len() - k,
    {
        proof {
            assert(decreases_to!(*spec_node => (*spec_node)->AnonMap_value_type));
            assert(es[k as int].1 == mapping@[k as int].1@);
            assert(conforms(es[k as int].1, vt));
            if within {
                assert(value::sizes_within(es[k as int].1, vt));
            }
        }
        let key = mapping[k].0;
        let key_text = crate::number_text::usize_to_decimal(key);
        let child_ctx = path_node_ctx.get_or_create_child_mut(key_text.as_str());
        let child_params = mutation_params.rescaled_for_mutation(choices, child_ctx.current_rescaling());
        let ghost prev_draws = draws@;
        let child = do_mutate(choices, &mapping[k].1, &**value_type, &child_params, child_ctx, draws);
        proof {
            lemma_extends_trans(first_draws, prev_draws, draws@);
            lemma_extends_trans(body_draws, prev_draws, draws@);
            let c = drawn_since(prev_draws, draws@);
            let old_chunks = chunks;
            chunks = chunks.push(c);
            assert(chunks.drop_last() =~= old_chunks);
            assert(concat_draws(chunks) == concat_draws(old_chunks) + c);
        }
        let ghost old_out = out@;
        out.push((key, child));
        proof {
            assert forall|j: int| 0 <= j < k + 1 implies node_drawn(es[j].1, vt, chunks[j], (#[trigger] out@[j]).1@) by {
                if j < k {
                    assert(out@[j] == old_out[j]);
                }
            }
        }
        k = k + 1;
    }
    let ghost ms = Seq::new(n as nat, |p: int| out@[p].1@);
    let ghost zs = anon_zip(es, ms);
    proof {
        let outv = value::anon_entries_view(out@);
        assert(outv =~= zs);
        assert(plain_keys(outv) =~= plain_keys(es));
        assert forall|j: int| 0 <= j < outv.len() implies conforms(#[trigger] outv[j].1, vt) by {
            assert(outv[j].1 == out@[j].1@);
        }
        if within {
            assert forall|j: int| 0 <= j < outv.len() implies value::sizes_within(#[trigger] outv[j].1, vt) by {
                assert(outv[j].1 == out@[j].1@);
            }
        }
    }
    match index_to_remove {
        Some(i) => {
            let ghost before = value::anon_entries_view(out@);
            out.remove(i);
            proof {
                let after = value::anon_entries_view(out@);
                assert forall|j: int| 0 <= j < after.len() implies plain_keys(es).contains(#[trigger] after[j].0) by {
                    let j2 = if j >= i { j + 1 } else { j };
                    assert(after[j] == before[j2]);
                    assert(plain_keys(before)[j2] == before[j2].0);
                }
                assert(after =~= before.remove(i as int));
                assert(plain_keys(after) =~= plain_keys(before).remove(i as int));
                assert forall|a: int, b: int| 0 <= a < b < plain_keys(after).len() implies plain_keys(after)[a] != plain_keys(after)[b] by {
                    if a >= i {
                        assert(plain_keys(after)[a] == plain_keys(before)[a + 1]);
                        assert(plain_keys(after)[b] == plain_keys(before)[b + 1]);
                    } else if b >= i {
                        assert(plain_keys(after)[a] == plain_keys(before)[a]);
                        assert(plain_keys(after)[b] == plain_keys(before)[b + 1]);
                    } else {
                        assert(plain_keys(after)[a] == plain_keys(before)[a]);
                        assert(plain_keys(after)[b] == plain_keys(before)[b]);
                    }
                }
                assert forall|j: int| 0 <= j < after.len() implies conforms(#[trigger] after[j].1, vt) by {
                    if j >= i {
                        assert(after[j] == before[j + 1]);
                    } else {
                        assert(after[j] == before[j]);
                    }
                }
                if within {
                    assert forall|j: int| 0 <= j < after.len() implies value::sizes_within(#[trigger] after[j].1, vt) by {
                        if j >= i {
                            assert(after[j] == before[j + 1]);
                        } else {
                            assert(after[j] == before[j]);
                        }
                    }
                }
            }
        },
        None => {
            match to_add {
                Some(entry) => {
                    let (key, added) = entry;
                    let ghost before = value::anon_entries_view(out@);
                    crate::value_util::insert_entry(&mut out, key, added);
                    proof {
                        assert(key == next0);
                        let after = value::anon_entries_view(out@);
                        let p = key_pos(plain_keys(before), key);
                        lemma_key_pos(plain_keys(before), key);
                        assert forall|j: int| 0 <= j < after.len() implies (plain_keys(es).contains(#[trigger] after[j].0) || after[j].0 == next0) by {
                            if j < before.len() && !(0 <= p < before.len() && j == p) {
                                assert(after[j] == before[j]);
                                assert(plain_keys(before)[j] == before[j].0);
                            }
                        }
                        if !plain_keys(es).contains(key) {
                            assert(after[before.len() as int].0 == key);
                            assert(plain_keys(after)[before.len() as int] == key);
                        }
                        crate::laws::lemma_anon_insert(before, key, added@, vt);
                        if within {
                            lemma_anon_insert_sizes(before, key, added@, vt);
                        }
                    }
                },
                None => {},
            }
        },
    }
    let r = value::Node::AnonMap(out);
    assert(r@ == value::NodeV::AnonMap(value::anon_entries_view(out@)));
    proof {
        crate::selection::lemma_first_drawn(start_draws, Draw::Decide(resize), draws@);
        let ns = value::anon_entries_view(out@);
        if index_to_remove is None && to_add is None {
            assert forall|j: int| 0 <= j < ns.len() implies (plain_keys(es).contains(#[trigger] ns[j].0) || ns[j].0 == next0) by {
                assert(plain_keys(ns)[j] == ns[j].0);
                assert(plain_keys(es)[j] == plain_keys(ns)[j]);
            }
        }
        lemma_anon_drawn(
            es, ns, vt, *min_size, *max_size, resize, start_draws, head_draws, body_draws, draws@, hs, chunks, ms,
            index_to_remove, added_key, source_view, added_view, None,
        );
        lemma_anon_drawn(
            es, ns, vt, *min_size, *max_size, resize, start_draws, head_draws, body_draws, draws@, hs, chunks, ms,
            index_to_remove, added_key, source_view, added_view, Some(next0),
        );
    }
    r
}

/// A mutation of a value at a spec node. Leaves: a real or int is drawn
/// around its value and moved to within the bounds, a bool flipped, an enum
/// moved to another value, each where the choices decide to mutate it. A sub
/// node mutates each child. An anon map is mutated by `mutate_anon_map`. A
/// variant, where the choices decide so, moves to another variant
/// at its initial value; then its content is mutated. An optional, where the
/// choices decide so, becomes absent or present at its initial value; then a
/// present content is mutated. Each child uses its own path node and the
/// parameters rescaled there: the parameters at a node are always those
/// that this node's rescaling made last (see `Scaled`).
#[verifier::rlimit(40)]
fn do_mutate<R: Default, P, C: MutationChoices<R, P>>(
    choices: &mut C,
    value: &value::Node,
    spec_node: &spec::Node,
    mutation_params: &Scaled<R, P>,
    path_node_ctx: &mut PathNodeContext<R>,
    draws: &mut DrawLog,
) -> (r: value::Node)
    requires
        mutation_params.rescalings().len() > 0,
        mutation_params.rescalings().last() == old(path_node_ctx).rescaling(),
        spec::wf(spec_node@),
        conforms(value@, spec_node@),
    ensures
        conforms(r@, spec_node@),
        extends(old(draws)@, final(draws)@),
        node_drawn(value@, spec_node@, drawn_since(old(draws)@, final(draws)@), r@),
        spec_node@ matches spec::NodeV::AnonMap { min_size, .. } ==> (value@ matches value::NodeV::AnonMap(es) ==> (r@ matches value::NodeV::AnonMap(ns)
            && anon_keys_added(es, ns, old(path_node_ctx).next_anon_key(), drawn_since(old(draws)@, final(draws)@)[0] == Draw::Decide(true), min_size))),
        anon_drawn_at(value@, spec_node@, drawn_since(old(draws)@, final(draws)@), r@, old(path_node_ctx).next_anon_key()),
        value::sizes_within(value@, spec_node@) ==> value::sizes_within(r@, spec_node@),
    decreases spec_node, 1nat,
{
    let ghost start_draws = draws@;
    proof { crate::selection::lemma_extends_refl(start_draws); }
    match spec_node {
        spec::Node::Real { scale, min, max, .. } => {
            match value {
                value::Node::Real(x) => value::Node::Real(mutate_real(*x, *scale, *min, *max, mutation_params.params(), choices, draws)),
                _ => vstd::pervasive::unreached(),
            }
        },
        spec::Node::Int { scale, min, max, .. } => {
            match value {
                value::Node::Int(x) => value::Node::Int(mutate_int(*x, *scale, *min, *max, mutation_params.params(), choices, draws)),
                _ => vstd::pervasive::unreached(),
            }
        },
        spec::Node::Bool { .. } => {
            match value {
                value::Node::Bool(b) => value::Node::Bool(mutate_bool(*b, mutation_params.params(), choices, draws)),
                _ => vstd::pervasive::unreached(),
            }
        },
        spec::Node::Enum { values, .. } => {
            match value {
                value::Node::Enum(name) => {
                    proof {
                        let vs = spec_node@->Enum_values;
                        assert(vs == values@.map_values(|s: String| s@));
                        let w = choose|i: int| 0 <= i < vs.len() && vs[i] == name@;
                        assert(values@[w]@ == name@);
                    }
                    let r = mutate_enum(values, name.as_str(), mutation_params.params(), choices, draws);
                    proof {
                        let vs = spec_node@->Enum_values;
                        let w = choose|i: int| 0 <= i < values@.len() && values@[i]@ == r@;
                        assert(vs[w] == r@);
                    }
                    value::Node::Enum(r)
                },
                _ => vstd::pervasive::unreached(),
            }
        },
        spec::Node::Sub { map } => {
            let ghost mv = spec::map_view(map@);
            proof {
                assert(spec_node@ == spec::NodeV::Sub { map: mv });
            }
            let mut out: Vec<(String, value::Node)> = Vec::new();
            let ghost mut chunks: Seq<Seq<Draw>> = Seq::empty();
            proof {
                assert(drawn_since(start_draws, draws@) =~= concat_draws(chunks));
            }
            let mut k: usize = 0;
            while k < map.len()
                invariant
                    extends(start_draws, draws@),
                    chunks.len() == k,
                    drawn_since(start_draws, draws@) == concat_draws(chunks),
                    forall|n: int| 0 <= n < k ==> node_drawn(value@->Sub_0[n].1, (#[trigger] mv[n]).1, chunks[n], out@[n].1@),
                    k <= map@.len(),
                    mv == spec::map_view(map@),
                    spec_node@ == (spec::NodeV::Sub { map: mv }),
                    *spec_node == (spec::Node::Sub { map: *map }),
                    spec::wf(spec_node@),
                    conforms(value@, spec_node@),
                    out@.len() == k,
                    forall|n: int| 0 <= n < k ==> (#[trigger] out@[n]).0@ == mv[n].0 && conforms(out@[n].1@, mv[n].1),
                    value::sizes_within(value@, spec_node@) ==> forall|n: int| 0 <= n < k ==> value::sizes_within((#[trigger] out@[n]).1@, mv[n].1),
                decreases map.len() - k,
            {
                proof {
                    assert(decreases_to!(*spec_node => (*spec_node)->Sub_map));
                    assert(decreases_to!((*spec_node)->Sub_map => map@));
                    assert(decreases_to!(map@ => map@[k as int]));
                    assert(decreases_to!(map@[k as int] => map@[k as int].1));
                    assert(mv[k as int].1 == map@[k as int].1@);
                    assert(spec::wf(mv[k as int].1));
                    assert(mv[k as int] == (map@[k as int].0@, map@[k as int].1@));
                    let es = value@->Sub_0;
                    assert(es[k as int].0 == mv[k as int].0 && conforms(es[k as int].1, mv[k as int].1));
                    if value::sizes_within(value@, spec_node@) {
                        assert(value::sizes_within(es[k as int].1, mv[k as int].1));
                    }
                }
                let child_value = sub_child(value, k);
                let child_ctx = path_node_ctx.get_or_create_child_mut(map[k].0.as_str());
                let child_params = mutation_params.rescaled_for_mutation(choices, child_ctx.current_rescaling());
                let ghost prev_draws = draws@;
                let child = do_mutate(choices, child_value, &map[k].1, &child_params, child_ctx, draws);
                proof {
                    lemma_extends_trans(start_draws, prev_draws, draws@);
                    let c = drawn_since(prev_draws, draws@);
                    let old_chunks = chunks;
                    chunks = chunks.push(c);
                    assert(chunks.drop_last() =~= old_chunks);
                    assert(concat_draws(chunks) == concat_draws(old_chunks) + c);
                    assert forall|n: int| 0 <= n < k + 1 implies node_drawn(value@->Sub_0[n].1, (#[trigger] mv[n]).1, chunks[n], (if n < k { out@[n].1@ } else { child@ })) by {
                        if n < k {
                            assert(chunks[n] == old_chunks[n]);
                        }
                    }
                }
                let ghost old_out = out@;
                out.push((map[k].0.clone(), child));
                proof {
                    assert forall|n: int| 0 <= n < k + 1 implies node_drawn(value@->Sub_0[n].1, (#[trigger] mv[n]).1, chunks[n], out@[n].1@) by {
                        if n < k {
                            assert(out@[n] == old_out[n]);
                        }
                    }
                }
                k = k + 1;
            }
            let r = value::Node::Sub(out);
            proof {
                let es = value::sub_entries_view(out@);
                assert(r@ == value::NodeV::Sub(es));
                assert forall|n: int| 0 <= n < es.len() implies (#[trigger] es[n]).0 == mv[n].0 && conforms(es[n].1, mv[n].1) by {
                    assert(out@[n].0@ == mv[n].0);
                }
                if value::sizes_within(value@, spec_node@) {
                    assert forall|n: int| 0 <= n < es.len() && n < mv.len() implies value::sizes_within(#[trigger] es[n].1, mv[n].1) by {
                        assert(es[n].1 == out@[n].1@);
                    }
                }
                let oes = value@->Sub_0;
                assert forall|n: int| 0 <= n < mv.len() && n < oes.len() && n < es.len()
                    implies node_drawn(oes[n].1, (#[trigger] mv[n]).1, chunks[n], es[n].1) by {
                    assert(es[n].1 == out@[n].1@);
                }
                assert(chunks.len() == mv.len());
                assert(drawn_since(start_draws, draws@) == concat_draws(chunks));
            }
            r
        },
        spec::Node::Optional { value_type, .. } => {
            let ghost vt = spec::node_view(**value_type);
            proof {
                assert(spec_node@->Optional_value_type == Box::new(vt));
                assert(decreases_to!(*spec_node => (*spec_node)->Optional_value_type));
            }
            let current = optional_content(value);
            let ghost prev_draws = draws@;
            let flip = draw_decision(choices, mutation_params.params(), draws);
            proof { lemma_extends_trans(start_draws, prev_draws, draws@); }
            let ghost first_draws = draws@;
            proof { crate::selection::lemma_extends_refl(first_draws); }
            let content: Option<Box<value::Node>> = if flip && current.is_some() {
                None
            } else {
                let initial;
                let to_mutate: Option<&value::Node> = if flip {
                    proof {
                        crate::laws::law_initial_conforms(vt);
                        crate::laws::law_initial_sizes_within(vt);
                    }
                    initial = (**value_type).initial_value();
                    Some(&initial)
                } else {
                    current
                };
                match to_mutate {
                    Some(v) => {
                        let child_ctx = path_node_ctx.get_or_create_child_mut("optional");
                        let child_params = mutation_params.rescaled_for_mutation(choices, child_ctx.current_rescaling());
                        let ghost prev_draws = draws@;
                        let c = do_mutate(choices, v, &**value_type, &child_params, child_ctx, draws);
                        proof { lemma_extends_trans(first_draws, prev_draws, draws@); }
                        Some(Box::new(c))
                    },
                    None => None,
                }
            };
            proof {
                if content is Some {
                    assert(value::optional_view(content) == Some(Box::new(value::node_view(*content->Some_0))));
                } else {
                    assert(value::optional_view(content) == None::<Box<value::NodeV>>);
                }
                crate::selection::lemma_first_drawn(start_draws, Draw::Decide(flip), draws@);
                assert(drawn_since(start_draws, draws@).drop_first() =~= drawn_since(first_draws, draws@));
                if draws@ == first_draws {
                    assert(drawn_since(first_draws, draws@) =~= Seq::<Draw>::empty());
                }
            }
            value::Node::Optional(content)
        },
        spec::Node::AnonMap { .. } => mutate_anon_map(choices, value, spec_node, mutation_params, path_node_ctx, draws),
        spec::Node::Variant { map, init } => {
            let ghost mv = spec::map_view(map@);
            proof {
                assert(spec_node@ == spec::NodeV::Variant { map: mv, init: init@ });
                assert(string_keys(map@) =~= view_keys(mv));
            }
            let (current_name, current_value) = match value {
                value::Node::Variant(name, child) => (name, &**child),
                _ => vstd::pervasive::unreached(),
            };
            let ghost cur_pos = key_pos(view_keys(mv), current_name@);
            proof {
                assert(value@ == value::NodeV::Variant(current_name@, Box::new(current_value@)));
                assert(0 <= cur_pos < mv.len() && conforms(current_value@, mv[cur_pos].1));
                crate::seq_util::lemma_key_pos(view_keys(mv), current_name@);
            }
            let ghost prev_draws = draws@;
            let change_variant = draw_decision(choices, mutation_params.params(), draws);
            proof { lemma_extends_trans(start_draws, prev_draws, draws@); }
            let ghost first_draws = draws@;
            proof { crate::selection::lemma_extends_refl(first_draws); }
            let initial;
            let ghost mut pick_draws: Seq<Draw> = Seq::empty();
            let (pos, pre_mutation_val): (usize, &value::Node) = if change_variant {
                let mut others: Vec<usize> = Vec::new();
                let mut i: usize = 0;
                while i < map.len()
                    invariant
                        i <= map@.len(),
                        mv == spec::map_view(map@),
                        string_keys(map@) == view_keys(mv),
                        0 <= cur_pos < mv.len(),
                        view_keys(mv)[cur_pos] == current_name@,
                        forall|j: int| 0 <= j < others@.len() ==> #[trigger] others@[j] < map@.len(),
                        forall|j: int| 0 <= j < others@.len() ==> view_keys(mv)[#[trigger] others@[j] as int] != current_name@,
                        (exists|j: int| 0 <= j < i && (#[trigger] view_keys(mv)[j]) != current_name@) ==> others@.len() > 0,
                        others@.len() == other_positions(view_keys(mv).take(i as int), current_name@).len(),
                        forall|n: int| 0 <= n < others@.len() ==> (#[trigger] others@[n]) as int == other_positions(view_keys(mv).take(i as int), current_name@)[n],
                    decreases map.len() - i,
                {
                    proof {
                        assert(view_keys(mv).take(i + 1).drop_last() =~= view_keys(mv).take(i as int));
                        assert(view_keys(mv).take(i + 1).last() == view_keys(mv)[i as int]);
                        assert(view_keys(mv)[i as int] == map@[i as int].0@);
                    }
                    let ghost before = others@;
                    if map[i].0 != *current_name {
                        others.push(i);
                        proof {
                            assert forall|n: int| 0 <= n < others@.len() implies (#[trigger] others@[n]) as int == other_positions(view_keys(mv).take(i + 1), current_name@)[n] by {
                                if n < before.len() {
                                    assert(others@[n] == before[n]);
                                }
                            }
                        }
                    }
                    i = i + 1;
                }
                proof {
                    assert(view_keys(mv).take(map@.len() as int) =~= view_keys(mv));
                }
                proof {
                    crate::seq_util::lemma_key_pos(view_keys(mv), current_name@);
                    let other: int = if cur_pos == 0 { 1 } else { 0 };
                    assert(view_keys(mv)[other] != view_keys(mv)[cur_pos]);
                }
                let ghost prev_draws = draws@;
                let j = choose_position(choices, others.len(), draws);
                proof {
                    lemma_extends_trans(first_draws, prev_draws, draws@);
                    assert(draws@ == first_draws.push(draws@.last()));
                }
                proof { pick_draws = draws@; }
                let p = others[j];
                proof {
                    assert(mv[p as int].1 == map@[p as int].1@);
                    crate::laws::law_initial_conforms(mv[p as int].1);
                    crate::laws::law_initial_sizes_within(mv[p as int].1);
                }
                initial = map[p].1.initial_value();
                (p, &initial)
            } else {
                let p = crate::seq_util::find_key(map, current_name.as_str()).unwrap();
                (p, current_value)
            };
            proof {
                assert(decreases_to!(*spec_node => (*spec_node)->Variant_map));
                assert(decreases_to!((*spec_node)->Variant_map => map@));
                assert(decreases_to!(map@ => map@[pos as int]));
                assert(decreases_to!(map@[pos as int] => map@[pos as int].1));
                assert(mv[pos as int].1 == map@[pos as int].1@);
                assert(mv[pos as int] == (map@[pos as int].0@, map@[pos as int].1@));
                assert(spec::wf(mv[pos as int].1));
                crate::seq_util::lemma_key_pos_distinct(view_keys(mv), pos as int);
            }
            let out_variant_name: &str = map[pos].0.as_str();
            let child_ctx = path_node_ctx.get_or_create_child_mut(out_variant_name);
            let child_params = mutation_params.rescaled_for_mutation(choices, child_ctx.current_rescaling());
            let ghost prev_draws = draws@;
            let child = do_mutate(choices, pre_mutation_val, &map[pos].1, &child_params, child_ctx, draws);
            proof { lemma_extends_trans(first_draws, prev_draws, draws@); }
            let r = value::Node::Variant(out_variant_name.to_owned(), Box::new(child));
            proof {
                assert(drawn_since(start_draws, draws@).drop_first() =~= drawn_since(first_draws, draws@)) by {
                    crate::selection::lemma_first_drawn(start_draws, Draw::Decide(change_variant), draws@);
                }
                if change_variant {
                    crate::selection::lemma_first_drawn(first_draws, pick_draws.last(), draws@);
                    assert(drawn_since(start_draws, draws@).skip(2) =~= drawn_since(pick_draws, draws@));
                    assert(pre_mutation_val@ == spec::initial(mv[pos as int].1));
                }
                assert(view_keys(mv)[pos as int] == out_variant_name@);
                assert(r@ == value::NodeV::Variant(out_variant_name@, Box::new(child@)));
                if !change_variant {
                    assert(pos == cur_pos);
                }
                crate::selection::lemma_first_drawn(start_draws, Draw::Decide(change_variant), draws@);
                if !change_variant && value::sizes_within(value@, spec_node@) {
                    assert(pos == cur_pos);
                    assert(value::sizes_within(current_value@, mv[cur_pos].1));
                }
            }
            r
        },
        spec::Node::Const => value::Node::Const,
    }
}

/// A mutation of an individual (see `do_mutate`), with the parameters
/// rescaled at the root path node, and the answers of the choices logged in
/// `draws`. The result conforms to the spec, keeps the sizes of its anon maps
/// within their bounds where the individual does, and is what the logged
/// answers give (see `node_drawn`); a key added at a root anon map is the
/// root path node's next key (see `anon_keys_added`).
pub fn mutate<R: Default, P, C: MutationChoices<R, P>>(
    spec: &spec::Spec,
    individual: &Value,
    mutation_params: &P,
    path_ctx: &mut PathContext<R>,
    choices: &mut C,
    draws: &mut DrawLog,
) -> (r: Value)
    requires
        spec::wf(spec@),
        conforms(individual@, spec@),
    ensures
        conforms(r@, spec@),
        value::sizes_within(individual@, spec@) ==> value::sizes_within(r@, spec@),
        extends(old(draws)@, final(draws)@),
        node_drawn(individual@, spec@, drawn_since(old(draws)@, final(draws)@), r@),
        spec@ matches spec::NodeV::AnonMap { min_size, .. } ==> (individual@ matches value::NodeV::AnonMap(es) ==> (r@ matches value::NodeV::AnonMap(ns)
            && anon_keys_added(es, ns, old(path_ctx).0.next_anon_key(), drawn_since(old(draws)@, final(draws)@)[0] == Draw::Decide(true), min_size))),
        anon_drawn_at(individual@, spec@, drawn_since(old(draws)@, final(draws)@), r@, old(path_ctx).0.next_anon_key()),
{
    let params = Scaled::at_root_for_mutation(&*choices, path_ctx.0.current_rescaling(), mutation_params);
    Value(do_mutate(choices, &individual.0, &spec.0, &params, &mut path_ctx.0, draws))
}

} // verus!
