//! The population of the algorithm: individuals ranked by the summary of
//! their objective function values, re-evaluation of promising individuals
//! until their sample is complete, and offspring made by crossover and
//! mutation with meta parameters that adapt to what worked before.
use vstd::prelude::*;
use crate::crossover::{crossover_drawn, crossover_with, value_views};
use crate::meta::{MetaParamsSource, MetaParamsWrapper};
use crate::mutation::{mutate, node_drawn};
use crate::path::PathContext;
use crate::quantile::{between_quantile_neighbours, law_quantile_positions, quantile_positions};
use crate::real_key::RealKey;
use crate::selection::{CrossoverChoices, Draw, DrawLog, MutationChoices, clamp_position, drawn_since, extends, lemma_extends_refl, lemma_extends_trans};
use crate::spec::{self, Spec};
use crate::value::{self, Value, conforms};

verus! {

/// The random choices of the algorithm itself, and the summary of a sample of
/// objective function values, which is computed in floating point. `CP` and
/// `MP` are the parameters of crossover and of mutation.
pub trait AlgoChoices<CP, MP> {
    /// Whether to evaluate a promising individual once more.
    fn decide_to_reeval(&mut self) -> bool;

    /// Whether to try exploratory meta parameters.
    fn decide_exploratory(&mut self) -> bool;

    /// Exploratory meta parameters.
    fn create_exploratory(&mut self) -> (CP, MP);

    /// A position among `n` sets of meta parameters, ordered best first.
    fn select_meta_params(&mut self, n: usize) -> usize;

    /// Whether to mutate the selected meta parameters.
    fn decide_to_mutate_meta_params(&mut self) -> bool;

    /// A mutation of meta parameters.
    fn mutate_meta_params(&mut self, crossover_params: CP, mutation_params: MP) -> (CP, MP);

    /// The quantile of a sample of objective function values, interpolated
    /// between neighbours in the order in which the values came.
    fn summarize(&mut self, obj_func_vals: &Vec<RealKey>, quantile: RealKey) -> RealKey;
}

/// Where an individual stands in its evaluation: waiting for a result, with
/// the values of its sample so far; ready for another evaluation; or done,
/// with the summary of its complete sample.
#[derive(Debug, PartialEq, Eq)]
pub enum IndState {
    PendingEval(Vec<RealKey>),
    Ready(Vec<RealKey>),
    Final(RealKey),
}

/// An individual: its id, its value, the meta parameters that made it (none
/// for the initial value), and its evaluation state.
#[derive(Debug)]
pub struct IndContext<M> {
    pub id: usize,
    pub value: Value,
    pub meta_params_used: Option<M>,
    pub state: IndState,
}

impl<M> IndContext<M> {
    /// A new individual, with no evaluation yet.
    pub fn new(id: usize, value: Value, meta_params_used: Option<M>) -> (r: IndContext<M>)
        ensures
            r.id == id,
            r.value == value,
            r.meta_params_used == meta_params_used,
            r.state matches IndState::PendingEval(vals) && vals@.len() == 0,
    {
        IndContext { id, value, meta_params_used, state: IndState::PendingEval(Vec::new()) }
    }

}

/// The rank key of a population entry: its summary objective function value
/// (as an order key), then its id.
pub open spec fn rank_key<M>(e: (RealKey, IndContext<M>)) -> (u64, usize) {
    (e.0.0, e.1.id)
}

/// Whether rank key `a` comes before `b`: a lower value, or the same value
/// and a lower id.
pub open spec fn ranks_before(a: (u64, usize), b: (u64, usize)) -> bool {
    a.0 < b.0 || (a.0 == b.0 && a.1 < b.1)
}

/// Whether every entry of a population ranks before every later one.
pub open spec fn is_ranked<M>(p: Seq<(RealKey, IndContext<M>)>) -> bool {
    forall|i: int, j: int| 0 <= i < j < p.len() ==> ranks_before(rank_key(#[trigger] p[i]), rank_key(#[trigger] p[j]))
}

/// Whether `pos` is where an entry with rank key `k` belongs: after the
/// entries that rank before it, at or before the others.
pub open spec fn is_rank_position<M>(p: Seq<(RealKey, IndContext<M>)>, k: (u64, usize), pos: int) -> bool {
    &&& 0 <= pos <= p.len()
    &&& forall|j: int| 0 <= j < pos ==> ranks_before(rank_key(#[trigger] p[j]), k)
    &&& forall|j: int| pos <= j < p.len() ==> !ranks_before(rank_key(#[trigger] p[j]), k)
}

/// The population with `e` put at `pos`, in place of an entry with the same
/// rank key there.
pub open spec fn put_at<M>(p: Seq<(RealKey, IndContext<M>)>, e: (RealKey, IndContext<M>), pos: int) -> Seq<(RealKey, IndContext<M>)> {
    if pos < p.len() && rank_key(p[pos]) == rank_key(e) {
        p.update(pos, e)
    } else {
        p.insert(pos, e)
    }
}

/// The best `max` entries of a ranked population.
pub open spec fn prune<M>(p: Seq<(RealKey, IndContext<M>)>, max: usize) -> Seq<(RealKey, IndContext<M>)> {
    if p.len() > max {
        p.take(max as int)
    } else {
        p
    }
}

/// Whether entry `i` is the best one that is ready for another evaluation.
pub open spec fn is_first_ready<M>(p: Seq<(RealKey, IndContext<M>)>, i: int) -> bool {
    &&& 0 <= i < p.len()
    &&& p[i].1.state is Ready
    &&& forall|j: int| 0 <= j < i ==> !((#[trigger] p[j]).1.state is Ready)
}

/// Whether entry `i` is the best one whose sample is complete.
pub open spec fn is_first_final<M>(p: Seq<(RealKey, IndContext<M>)>, i: int) -> bool {
    &&& 0 <= i < p.len()
    &&& p[i].1.state is Final
    &&& forall|j: int| 0 <= j < i ==> !((#[trigger] p[j]).1.state is Final)
}

/// Whether `after` is `before` with one more objective function value `v` in
/// its sample, summarized as `k`: final once the sample has `sample_size`
/// values, else ready for another evaluation.
pub open spec fn is_evaluated<M>(after: IndContext<M>, before: IndContext<M>, v: RealKey, k: RealKey, sample_size: usize) -> bool {
    &&& after.id == before.id
    &&& after.value == before.value
    &&& after.meta_params_used == before.meta_params_used
    &&& match before.state {
        IndState::PendingEval(vals) => match after.state {
            IndState::Final(f) => vals@.push(v).len() == sample_size && f == k,
            IndState::Ready(ws) => vals@.push(v).len() != sample_size && ws@ == vals@.push(v),
            _ => false,
        },
        _ => false,
    }
}

/// The smallest population at which a promising individual may be evaluated
/// again.
pub const MIN_POP_SIZE_FOR_REEVAL: usize = 20;

/// The largest population; the worst individuals beyond it are dropped.
pub const MAX_POP_SIZE: usize = 1000;

/// The state of the algorithm. `CP` and `MP` are the parameters of crossover
/// and of mutation, `R` the rescaling kept at each path node.
#[verifier::reject_recursive_types(R)]
pub struct AlgoContext<CP, MP, R> {
    spec: Spec,
    individual_sample_size: usize,
    obj_func_val_quantile: RealKey,
    individuals: Vec<(RealKey, IndContext<MetaParamsWrapper<CP, MP>>)>,
    initial_value: Value,
    initial_value_used: bool,
    path_ctx: PathContext<R>,
    next_id: usize,
    meta_params_override: Option<(CP, MP)>,
    min_pop_size_for_reeval: usize,
    max_pop_size: usize,
}

/// Whether a new individual `r` fits the state before and after
/// `next_individual` made it: the initial value first, then offspring, each
/// under the next id.
pub open spec fn is_new_individual<CP, MP, R>(
    before: AlgoContext<CP, MP, R>,
    after: AlgoContext<CP, MP, R>,
    r: IndContext<MetaParamsWrapper<CP, MP>>,
) -> bool {
    &&& after.population() == before.population()
    &&& r.id == before.next_id()
    &&& after.next_id() == before.next_id() + 1
    &&& r.state matches IndState::PendingEval(vals) && vals@.len() == 0
    &&& after.initial_value_used()
    &&& conforms(r.value@, before.spec_view())
    &&& !before.initial_value_used() ==> r.value@ == before.initial_value()@ && r.meta_params_used is None
    &&& before.initial_value_used() ==> (r.meta_params_used matches Some(m) && is_next_meta_params(before, m))
    &&& before.initial_value_used() ==> is_offspring(before, r.value@)
}

/// The values of a population, best first.
pub open spec fn population_values<M>(pop: Seq<(RealKey, IndContext<M>)>) -> Seq<value::NodeV> {
    Seq::new(pop.len(), |i: int| pop[i].1.value@)
}

/// Whether `x` fits as a crossover of the population, best first (see
/// `crossover_drawn`), on some answers of the choices; or is the initial
/// value while the population is empty.
pub open spec fn is_crossover<CP, MP, R>(ctx: AlgoContext<CP, MP, R>, x: value::NodeV) -> bool {
    if ctx.population().len() == 0 {
        x == ctx.initial_value()@
    } else {
        exists|d: Seq<Draw>| #[trigger] crossover_drawn(population_values(ctx.population()), ctx.spec_view(), d, x)
    }
}

/// Whether `v` fits as an offspring: a mutation (see `node_drawn`), on some
/// answers of the choices, of a crossover (see `is_crossover`).
pub open spec fn is_offspring<CP, MP, R>(ctx: AlgoContext<CP, MP, R>, v: value::NodeV) -> bool {
    exists|x: value::NodeV, d: Seq<Draw>| #[trigger] node_drawn(x, ctx.spec_view(), d, v) && is_crossover(ctx, x)
}

/// Whether `m` fits as the meta parameters of the next offspring: the
/// override, where there is one; parameters that some individual was made
/// with, where selected; a mutation of such, where selected and mutated;
/// exploratory ones where no individual holds meta parameters.
pub open spec fn is_next_meta_params<CP, MP, R>(ctx: AlgoContext<CP, MP, R>, m: MetaParamsWrapper<CP, MP>) -> bool {
    &&& (m.source == MetaParamsSource::Override <==> ctx.has_override())
    &&& (ctx.meta_params_override() matches Some(o) ==> m.crossover_params == o.0 && m.mutation_params == o.1)
    &&& (m.source == MetaParamsSource::Selected ==> exists|i: int| 0 <= i < ctx.population().len()
        && ((#[trigger] ctx.population()[i]).1.meta_params_used matches Some(u)
            && u.crossover_params == m.crossover_params && u.mutation_params == m.mutation_params))
    &&& (m.source == MetaParamsSource::SelectedAndMutated ==> exists|i: int| 0 <= i < ctx.population().len()
        && (#[trigger] ctx.population()[i]).1.meta_params_used is Some)
    &&& ((!ctx.has_override() && forall|i: int| 0 <= i < ctx.population().len() ==> (#[trigger] ctx.population()[i]).1.meta_params_used is None)
        ==> m.source == MetaParamsSource::Exploratory)
}

/// The meta parameters that the individuals of a population were made with,
/// best first.
pub open spec fn used_meta<CP, MP>(pop: Seq<(RealKey, IndContext<MetaParamsWrapper<CP, MP>>)>) -> Seq<MetaParamsWrapper<CP, MP>>
    decreases pop.len(),
{
    if pop.len() == 0 {
        Seq::empty()
    } else {
        let o = used_meta(pop.drop_last());
        match pop.last().1.meta_params_used {
            Some(m) => o.push(m),
            None => o,
        }
    }
}

/// Whether `m` is what the next meta parameters are on the answers `d`: the
/// override where there is one, drawing nothing; else, after the decision
/// whether to explore, exploratory ones where it explores or no individual
/// holds meta parameters; else those at the picked position among the
/// individuals' meta parameters (best first), which the last answer decides
/// to mutate or not.
pub open spec fn meta_drawn<CP, MP, R>(ctx: AlgoContext<CP, MP, R>, d: Seq<Draw>, m: MetaParamsWrapper<CP, MP>) -> bool {
    match ctx.meta_params_override() {
        Some(o) => d.len() == 0 && m.source == MetaParamsSource::Override && m.crossover_params == o.0 && m.mutation_params == o.1,
        None => d.len() >= 1 && (d[0] matches Draw::Explore(e) && {
            let used = used_meta(ctx.population());
            if e || used.len() == 0 {
                d.len() == 1 && m.source == MetaParamsSource::Exploratory
            } else {
                d.len() == 3 && (d[1] matches Draw::MetaPick(k, i) && k == used.len() && (d[2] matches Draw::MetaMutate(b) && {
                    let u = used[clamp_position(i, used.len() as int)];
                    if b {
                        m.source == MetaParamsSource::SelectedAndMutated
                    } else {
                        &&& m.source == MetaParamsSource::Selected
                        &&& m.crossover_params == u.crossover_params
                        &&& m.mutation_params == u.mutation_params
                    }
                }))
            }
        }),
    }
}

/// Whether `v`, made with meta parameters `m`, is the offspring on the
/// answers `d`: first those of the meta parameters (see `meta_drawn`), then
/// those of the crossover of the population, best first (none while the
/// population is empty: the initial value stands in), then those of the
/// mutation of the crossover.
pub open spec fn offspring_drawn<CP, MP, R>(ctx: AlgoContext<CP, MP, R>, d: Seq<Draw>, v: value::NodeV, m: MetaParamsWrapper<CP, MP>) -> bool {
    exists|h1: int, h2: int, x: value::NodeV| #![trigger d.take(h1), node_drawn(x, ctx.spec_view(), d.skip(h2), v)] {
        &&& 0 <= h1 <= h2 <= d.len()
        &&& meta_drawn(ctx, d.take(h1), m)
        &&& if ctx.population().len() == 0 {
            h2 == h1 && x == ctx.initial_value()@
        } else {
            crossover_drawn(population_values(ctx.population()), ctx.spec_view(), d.subrange(h1, h2), x)
        }
        &&& node_drawn(x, ctx.spec_view(), d.skip(h2), v)
    }
}

/// Whether an individual has a sample ready for another evaluation.
pub open spec fn has_ready<M>(pop: Seq<(RealKey, IndContext<M>)>) -> bool {
    exists|i: int| 0 <= i < pop.len() && (#[trigger] pop[i]).1.state is Ready
}

/// Whether `r` is the next individual on the answers `d`: where the sample
/// size is above one and the population is large enough, the first answer
/// decides whether to re-evaluate; re-evaluation takes the best ready
/// individual where there is one (see `is_reeval_individual`); otherwise a
/// new individual (see `is_new_individual`), an offspring on the remaining
/// answers (see `offspring_drawn`) once the initial value was handed out.
pub open spec fn next_drawn<CP, MP, R>(
    before: AlgoContext<CP, MP, R>,
    after: AlgoContext<CP, MP, R>,
    d: Seq<Draw>,
    r: IndContext<MetaParamsWrapper<CP, MP>>,
) -> bool {
    let asked = before.sample_size() > 1 && before.population().len() >= before.min_pop_size_for_reeval();
    let reeval = asked && d.len() >= 1 && d[0] == Draw::Reeval(true) && has_ready(before.population());
    let rest = if asked { d.skip(1) } else { d };
    &&& asked ==> (d.len() >= 1 && d[0] is Reeval)
    &&& reeval ==> (d.len() == 1 && is_reeval_individual(before, after, r))
    &&& !reeval ==> {
        &&& is_new_individual(before, after, r)
        &&& !before.initial_value_used() ==> rest.len() == 0
        &&& before.initial_value_used() ==> (r.meta_params_used matches Some(m) && offspring_drawn(before, rest, r.value@, m))
    }
}

/// Whether `r` is the best individual that was ready for another evaluation,
/// taken out of the population for it.
pub open spec fn is_reeval_individual<CP, MP, R>(
    before: AlgoContext<CP, MP, R>,
    after: AlgoContext<CP, MP, R>,
    r: IndContext<MetaParamsWrapper<CP, MP>>,
) -> bool {
    &&& before.sample_size() > 1
    &&& before.population().len() >= before.min_pop_size_for_reeval()
    &&& after.next_id() == before.next_id()
    &&& after.initial_value_used() == before.initial_value_used()
    &&& exists|i: int| {
        &&& is_first_ready(before.population(), i)
        &&& after.population() == before.population().remove(i)
        &&& r.id == (#[trigger] before.population()[i]).1.id
        &&& r.value == before.population()[i].1.value
        &&& r.meta_params_used == before.population()[i].1.meta_params_used
        &&& (before.population()[i].1.state matches IndState::Ready(ws)
            && (r.state matches IndState::PendingEval(vs) && vs@ == ws@))
    }
}

impl<CP, MP, R> AlgoContext<CP, MP, R> {
    /// The individuals, best first, each with the summary of its sample.
    pub closed spec fn population(&self) -> Seq<(RealKey, IndContext<MetaParamsWrapper<CP, MP>>)> {
        self.individuals@
    }

    /// The spec of the parameters.
    pub closed spec fn spec_view(&self) -> spec::NodeV {
        self.spec@
    }

    /// The number of evaluations in an individual's complete sample.
    pub closed spec fn sample_size(&self) -> usize {
        self.individual_sample_size
    }

    /// The quantile of the sample that summarizes an individual.
    pub closed spec fn quantile(&self) -> RealKey {
        self.obj_func_val_quantile
    }

    /// The value evaluated first.
    pub closed spec fn initial_value(&self) -> Value {
        self.initial_value
    }

    /// Whether the initial value was handed out.
    pub closed spec fn initial_value_used(&self) -> bool {
        self.initial_value_used
    }

    /// The id of the next new individual.
    pub closed spec fn next_id(&self) -> usize {
        self.next_id
    }

    /// Whether fixed meta parameters override the adapted ones.
    pub closed spec fn has_override(&self) -> bool {
        self.meta_params_override is Some
    }

    /// The fixed meta parameters, where there are some.
    pub closed spec fn meta_params_override(&self) -> Option<(CP, MP)> {
        self.meta_params_override
    }

    /// The smallest population at which re-evaluation may happen.
    pub closed spec fn min_pop_size_for_reeval(&self) -> usize {
        self.min_pop_size_for_reeval
    }

    /// The largest population.
    pub closed spec fn max_pop_size(&self) -> usize {
        self.max_pop_size
    }

    /// Whether two states of the algorithm have the same configuration.
    pub open spec fn same_config(&self, other: &Self) -> bool {
        &&& self.spec_view() == other.spec_view()
        &&& self.sample_size() == other.sample_size()
        &&& self.quantile() == other.quantile()
        &&& self.initial_value()@ == other.initial_value()@
        &&& self.meta_params_override() == other.meta_params_override()
        &&& self.min_pop_size_for_reeval() == other.min_pop_size_for_reeval()
        &&& self.max_pop_size() == other.max_pop_size()
    }

    /// What every state of the algorithm keeps: a well-formed spec, a
    /// conforming initial value, and a ranked
    /// population of conforming individuals, no larger than the maximum.
    pub closed spec fn inv(&self) -> bool {
        &&& spec::wf(self.spec@)
        &&& conforms(self.initial_value@, self.spec@)
        &&& is_ranked(self.individuals@)
        &&& self.individuals@.len() <= self.max_pop_size
        &&& forall|i: int| 0 <= i < self.individuals@.len() ==> conforms((#[trigger] self.individuals@[i]).1.value@, self.spec@)
    }

    /// What the invariant gives callers: a well-formed spec, a conforming
    /// initial value, and a population ranked best first (so that the first
    /// individual of a kind is the best of that kind), of conforming
    /// individuals, no larger than the maximum.
    pub proof fn lemma_inv(&self)
        requires
            self.inv(),
        ensures
            spec::wf(self.spec_view()),
            conforms(self.initial_value()@, self.spec_view()),
            is_ranked(self.population()),
            self.population().len() <= self.max_pop_size(),
            forall|i: int| 0 <= i < self.population().len() ==> conforms((#[trigger] self.population()[i]).1.value@, self.spec_view()),
    {
    }

    /// Whether an id is left for another new individual.
    pub fn has_next_id(&self) -> (r: bool)
        ensures
            r == (self.next_id() < usize::MAX),
    {
        self.next_id < usize::MAX
    }

    /// The number of individuals in the population.
    pub fn num_individuals(&self) -> (r: usize)
        ensures
            r == self.population().len(),
    {
        self.individuals.len()
    }

    /// The individual at a rank, best first.
    pub fn individual(&self, rank: usize) -> (r: &IndContext<MetaParamsWrapper<CP, MP>>)
        requires
            rank < self.population().len(),
        ensures
            *r == self.population()[rank as int].1,
    {
        &self.individuals[rank].1
    }

    /// The best individual whose sample is complete, with the summary of its
    /// sample.
    pub fn best_seen_final(&self) -> (r: Option<(RealKey, &Value)>)
        ensures
            match r {
                Some((k, v)) => exists|i: int| {
                    &&& is_first_final(self.population(), i)
                    &&& (#[trigger] self.population()[i]).1.state == IndState::Final(k)
                    &&& *v == self.population()[i].1.value
                },
                None => forall|i: int| 0 <= i < self.population().len() ==> !((#[trigger] self.population()[i]).1.state is Final),
            },
    {
        let mut i: usize = 0;
        while i < self.individuals.len()
            invariant
                i <= self.individuals@.len(),
                forall|j: int| 0 <= j < i ==> !((#[trigger] self.individuals@[j]).1.state is Final),
            decreases self.individuals.len() - i,
        {
            match &self.individuals[i].1.state {
                IndState::Final(k) => {
                    return Some((*k, &self.individuals[i].1.value));
                },
                _ => {},
            }
            i = i + 1;
        }
        None
    }
}

/// The summary of a sample where it needs no arithmetic: its one value, or
/// its first value for the quantile 0, or its last for the quantile 1.
pub open spec fn exact_summary(vals: Seq<RealKey>, quantile: RealKey) -> Option<RealKey> {
    if vals.len() == 1 {
        Some(vals[0])
    } else if vals.len() > 1 && quantile.0 == crate::real_key::SIGN_BIT {
        Some(vals[0])
    } else if vals.len() > 1 && quantile.0 == crate::real_key::SIGN_BIT + crate::real_key::ONE_BITS {
        Some(vals.last())
    } else {
        None
    }
}

/// 2^53: up to this number every position is a double, so that where the
/// quantile falls in a sample of one more value is computed exactly.
pub const MAX_EXACT_POSITION: u64 = 0x20_0000_0000_0000u64;

/// Whether the summary of a sample has its place between the neighbours of
/// the quantile: a quantile in the unit interval, and a sample of at least
/// one and at most `MAX_EXACT_POSITION + 1` values.
pub open spec fn summary_placed(vals: Seq<RealKey>, quantile: RealKey) -> bool {
    &&& 1 <= vals.len() <= MAX_EXACT_POSITION + 1
    &&& crate::real_key::SIGN_BIT <= quantile.0 <= crate::real_key::SIGN_BIT + crate::real_key::ONE_BITS
}

/// The summary of a non-empty sample: the quantile interpolated between
/// neighbours in the order in which the values came. Where that needs no
/// arithmetic (see `exact_summary`) it is taken here; otherwise the choices
/// compute it in floating point, and it is kept between the values of the
/// positions just below and just above where the quantile falls.
fn summarize_sample<CP, MP, C: AlgoChoices<CP, MP>>(vals: &Vec<RealKey>, quantile: RealKey, choices: &mut C) -> (r: RealKey)
    requires
        vals@.len() > 0,
    ensures
        exact_summary(vals@, quantile) matches Some(x) ==> r == x,
        summary_placed(vals@, quantile) ==> between_quantile_neighbours(vals@, quantile, r),
{
    let n = vals.len();
    proof {
        if summary_placed(vals@, quantile) {
            law_quantile_positions(n as int, quantile);
        }
    }
    if n == 1 {
        vals[0]
    } else if quantile.0 == crate::real_key::SIGN_BIT {
        vals[0]
    } else if quantile.0 == crate::real_key::SIGN_BIT + crate::real_key::ONE_BITS {
        vals[n - 1]
    } else {
        let k = choices.summarize(vals, quantile);
        if (n - 1) as u64 <= MAX_EXACT_POSITION && crate::real_key::SIGN_BIT <= quantile.0
            && quantile.0 <= crate::real_key::SIGN_BIT + crate::real_key::ONE_BITS {
            // The interpolation between neighbours lies between them.
            let (lo, hi) = quantile_positions(n, quantile);
            let a = vals[lo];
            let b = vals[hi];
            let (least, greatest) = if a.0 <= b.0 { (a, b) } else { (b, a) };
            if k.0 < least.0 {
                least
            } else if k.0 > greatest.0 {
                greatest
            } else {
                k
            }
        } else {
            k
        }
    }
}

/// Whether a state is ready for another evaluation.
fn is_ready(state: &IndState) -> (r: bool)
    ensures
        r == (*state is Ready),
{
    match state {
        IndState::Ready(_) => true,
        _ => false,
    }
}

/// Putting an entry at its rank position keeps a population ranked.
proof fn lemma_put_at_ranked<M>(p: Seq<(RealKey, IndContext<M>)>, e: (RealKey, IndContext<M>), pos: int)
    requires
        is_ranked(p),
        is_rank_position(p, rank_key(e), pos),
    ensures
        is_ranked(put_at(p, e, pos)),
{
    let q = put_at(p, e, pos);
    if pos < p.len() && rank_key(p[pos]) == rank_key(e) {
        assert forall|i: int, j: int| 0 <= i < j < q.len() implies ranks_before(rank_key(#[trigger] q[i]), rank_key(#[trigger] q[j])) by {
            if i == pos {
                assert(ranks_before(rank_key(p[i]), rank_key(p[j])));
            } else if j == pos {
                assert(ranks_before(rank_key(p[i]), rank_key(p[j])));
            } else {
                assert(ranks_before(rank_key(p[i]), rank_key(p[j])));
            }
        }
    } else {
        assert forall|i: int, j: int| 0 <= i < j < q.len() implies ranks_before(rank_key(#[trigger] q[i]), rank_key(#[trigger] q[j])) by {
            if j < pos {
                assert(q[i] == p[i] && q[j] == p[j]);
                assert(ranks_before(rank_key(p[i]), rank_key(p[j])));
            } else if j == pos {
                assert(q[i] == p[i]);
            } else if i < pos {
                assert(q[i] == p[i] && q[j] == p[j - 1]);
                assert(!ranks_before(rank_key(p[j - 1]), rank_key(e)));
            } else if i == pos {
                assert(q[j] == p[j - 1]);
                assert(!ranks_before(rank_key(p[j - 1]), rank_key(e)));
                if pos < p.len() {
                    assert(!ranks_before(rank_key(p[pos]), rank_key(e)));
                    if j - 1 > pos {
                        assert(ranks_before(rank_key(p[pos]), rank_key(p[j - 1])));
                    }
                }
            } else {
                assert(q[i] == p[i - 1] && q[j] == p[j - 1]);
                assert(ranks_before(rank_key(p[i - 1]), rank_key(p[j - 1])));
            }
        }
    }
}

impl<CP: Copy, MP: Copy, R: Default> AlgoContext<CP, MP, R> {
    /// A new state for a spec, with the usual population limits (see
    /// `new_impl`).
    pub fn new(
        spec: Spec,
        individual_sample_size: usize,
        obj_func_val_quantile: RealKey,
        meta_params_override: Option<(CP, MP)>,
        explicit_init_value: Option<Value>,
    ) -> (r: AlgoContext<CP, MP, R>)
        requires
            spec::wf(spec@),
            explicit_init_value matches Some(v) ==> conforms(v@, spec@),
        ensures
            r.inv(),
            r.population().len() == 0,
            r.spec_view() == spec@,
            r.sample_size() == individual_sample_size,
            r.quantile() == obj_func_val_quantile,
            r.meta_params_override() == meta_params_override,
            r.initial_value()@ == (match explicit_init_value { Some(v) => v@, None => spec::initial(spec@) }),
            !r.initial_value_used(),
            r.next_id() == 0,
            r.min_pop_size_for_reeval() == MIN_POP_SIZE_FOR_REEVAL,
            r.max_pop_size() == MAX_POP_SIZE,
    {
        Self::new_impl(
            spec,
            individual_sample_size,
            obj_func_val_quantile,
            meta_params_override,
            explicit_init_value,
            MIN_POP_SIZE_FOR_REEVAL,
            MAX_POP_SIZE,
        )
    }

    /// A new state for a spec: its initial value is the explicit one where
    /// given, else the spec's; re-evaluation waits for a population of
    /// `min_pop_size_for_reeval`, and the population keeps its best
    /// `max_pop_size` individuals.
    pub fn new_impl(
        spec: Spec,
        individual_sample_size: usize,
        obj_func_val_quantile: RealKey,
        meta_params_override: Option<(CP, MP)>,
        explicit_init_value: Option<Value>,
        min_pop_size_for_reeval: usize,
        max_pop_size: usize,
    ) -> (r: AlgoContext<CP, MP, R>)
        requires
            spec::wf(spec@),
            explicit_init_value matches Some(v) ==> conforms(v@, spec@),
        ensures
            r.inv(),
            r.population().len() == 0,
            r.spec_view() == spec@,
            r.sample_size() == individual_sample_size,
            r.quantile() == obj_func_val_quantile,
            r.meta_params_override() == meta_params_override,
            r.initial_value()@ == (match explicit_init_value { Some(v) => v@, None => spec::initial(spec@) }),
            !r.initial_value_used(),
            r.next_id() == 0,
            r.min_pop_size_for_reeval() == min_pop_size_for_reeval,
            r.max_pop_size() == max_pop_size,
    {
        let initial_value = match explicit_init_value {
            Some(v) => v,
            None => {
                proof {
                    crate::laws::law_initial_conforms(spec@);
                }
                spec.initial_value()
            },
        };
        AlgoContext {
            spec,
            individual_sample_size,
            obj_func_val_quantile,
            individuals: Vec::new(),
            initial_value,
            initial_value_used: false,
            path_ctx: PathContext::default(),
            next_id: 0,
            meta_params_override,
            min_pop_size_for_reeval,
            max_pop_size,
        }
    }
}

/// Whether to evaluate a promising individual once more, logged.
fn draw_reeval<CP, MP, C: AlgoChoices<CP, MP>>(choices: &mut C, draws: &mut DrawLog) -> (r: bool)
    ensures
        final(draws)@ == old(draws)@.push(Draw::Reeval(r)),
        extends(old(draws)@, final(draws)@),
{
    let r = choices.decide_to_reeval();
    draws.record(Draw::Reeval(r));
    r
}

/// Whether to try exploratory meta parameters, logged.
fn draw_explore<CP, MP, C: AlgoChoices<CP, MP>>(choices: &mut C, draws: &mut DrawLog) -> (r: bool)
    ensures
        final(draws)@ == old(draws)@.push(Draw::Explore(r)),
        extends(old(draws)@, final(draws)@),
{
    let r = choices.decide_exploratory();
    draws.record(Draw::Explore(r));
    r
}

/// A position among `n` sets of meta parameters, logged as answered and
/// moved into range.
fn draw_meta_pick<CP, MP, C: AlgoChoices<CP, MP>>(choices: &mut C, n: usize, draws: &mut DrawLog) -> (r: usize)
    requires
        n > 0,
    ensures
        final(draws)@.len() == old(draws)@.len() + 1,
        final(draws)@.drop_last() == old(draws)@,
        final(draws)@.last() matches Draw::MetaPick(m, i) && m == n && r == clamp_position(i, n as int),
        extends(old(draws)@, final(draws)@),
{
    let i = choices.select_meta_params(n);
    draws.record(Draw::MetaPick(n, i));
    proof {
        assert(draws@.drop_last() =~= old(draws)@);
    }
    if i < n {
        i
    } else {
        n - 1
    }
}

/// Whether to mutate the selected meta parameters, logged.
fn draw_meta_mutate<CP, MP, C: AlgoChoices<CP, MP>>(choices: &mut C, draws: &mut DrawLog) -> (r: bool)
    ensures
        final(draws)@ == old(draws)@.push(Draw::MetaMutate(r)),
        extends(old(draws)@, final(draws)@),
{
    let r = choices.decide_to_mutate_meta_params();
    draws.record(Draw::MetaMutate(r));
    r
}

impl<CP: Copy, MP: Copy, R: Default> AlgoContext<CP, MP, R> {
    /// The best individual that is ready for another evaluation, taken out of
    /// the population and waiting for its next result, if there is one.
    fn extract_best_ready(&mut self) -> (r: Option<IndContext<MetaParamsWrapper<CP, MP>>>)
        requires
            old(self).inv(),
        ensures
            final(self).inv(),
            final(self).same_config(&*old(self)),
            final(self).next_id() == old(self).next_id(),
            final(self).initial_value_used() == old(self).initial_value_used(),
            match r {
                Some(ind) => exists|i: int| {
                    &&& is_first_ready(old(self).population(), i)
                    &&& final(self).population() == old(self).population().remove(i)
                    &&& ind.id == (#[trigger] old(self).population()[i]).1.id
                    &&& ind.value == old(self).population()[i].1.value
                    &&& ind.meta_params_used == old(self).population()[i].1.meta_params_used
                    &&& (old(self).population()[i].1.state matches IndState::Ready(ws)
                        && (ind.state matches IndState::PendingEval(vs) && vs@ == ws@))
                },
                None => final(self).population() == old(self).population()
                    && forall|i: int| 0 <= i < old(self).population().len() ==> !((#[trigger] old(self).population()[i]).1.state is Ready),
            },
    {
        let mut i: usize = 0;
        while i < self.individuals.len()
            invariant
                i <= self.individuals@.len(),
                *self == *old(self),
                self.inv(),
                forall|j: int| 0 <= j < i ==> !((#[trigger] self.individuals@[j]).1.state is Ready),
            decreases self.individuals.len() - i,
        {
            if is_ready(&self.individuals[i].1.state) {
                let ghost p = self.individuals@;
                let (_, ind) = self.individuals.remove(i);
                proof {
                    assert(is_first_ready(p, i as int));
                    assert forall|a: int, b: int| 0 <= a < b < self.individuals@.len() implies
                        ranks_before(rank_key(#[trigger] self.individuals@[a]), rank_key(#[trigger] self.individuals@[b])) by {
                        let a2 = if a < i { a } else { a + 1 };
                        let b2 = if b < i { b } else { b + 1 };
                        assert(self.individuals@[a] == p[a2]);
                        assert(self.individuals@[b] == p[b2]);
                        assert(ranks_before(rank_key(p[a2]), rank_key(p[b2])));
                    }
                    assert forall|a: int| 0 <= a < self.individuals@.len() implies conforms((#[trigger] self.individuals@[a]).1.value@, self.spec@) by {
                        let a2 = if a < i { a } else { a + 1 };
                        assert(self.individuals@[a] == p[a2]);
                    }
                }
                let IndContext { id, value, meta_params_used, state } = ind;
                let vals = match state {
                    IndState::Ready(vals) => vals,
                    _ => vstd::pervasive::unreached(),
                };
                return Some(IndContext { id, value, meta_params_used, state: IndState::PendingEval(vals) });
            }
            i = i + 1;
        }
        None
    }

    /// The meta parameters of the next offspring: the override where there is
    /// one; else exploratory ones where the choices decide so or no individual
    /// has meta parameters; else those of a selected individual (ranked best
    /// first), mutated where the choices decide so. The answers are logged
    /// (see `meta_drawn`).
    fn next_meta_params<C: AlgoChoices<CP, MP>>(&self, choices: &mut C, draws: &mut DrawLog) -> (r: MetaParamsWrapper<CP, MP>)
        ensures
            is_next_meta_params(*self, r),
            extends(old(draws)@, final(draws)@),
            meta_drawn(*self, drawn_since(old(draws)@, final(draws)@), r),
    {
        let ghost start = draws@;
        proof { lemma_extends_refl(start); }
        match &self.meta_params_override {
            Some(o) => {
                assert(drawn_since(start, draws@) =~= Seq::<Draw>::empty());
                return MetaParamsWrapper::new(MetaParamsSource::Override, o.0, o.1);
            },
            None => {},
        }
        let explore = draw_explore(choices, draws);
        let ghost first = draws@;
        proof {
            assert(drawn_since(start, draws@) =~= seq![Draw::Explore(explore)]);
        }
        if explore {
            let (cp, mp) = choices.create_exploratory();
            return MetaParamsWrapper::new(MetaParamsSource::Exploratory, cp, mp);
        }
        let ghost pop = self.individuals@;
        let mut used: Vec<&MetaParamsWrapper<CP, MP>> = Vec::new();
        let ghost mut idx: Seq<int> = Seq::empty();
        let mut i: usize = 0;
        while i < self.individuals.len()
            invariant
                i <= self.individuals@.len(),
                pop == self.individuals@,
                idx.len() == used@.len(),
                forall|j: int| 0 <= j < idx.len() ==> 0 <= #[trigger] idx[j] < self.individuals@.len()
                    && self.individuals@[idx[j]].1.meta_params_used == Some(*used@[j]),
                forall|j: int| 0 <= j < i && (#[trigger] self.individuals@[j]).1.meta_params_used is Some ==> used@.len() > 0,
                used@.len() == used_meta(pop.take(i as int)).len(),
                forall|j: int| 0 <= j < used@.len() ==> *(#[trigger] used@[j]) == used_meta(pop.take(i as int))[j],
            decreases self.individuals.len() - i,
        {
            proof {
                assert(pop.take(i + 1).drop_last() =~= pop.take(i as int));
                assert(pop.take(i + 1).last() == pop[i as int]);
            }
            let ghost before = used@;
            match &self.individuals[i].1.meta_params_used {
                Some(m) => {
                    used.push(m);
                    proof {
                        idx = idx.push(i as int);
                        assert forall|j: int| 0 <= j < used@.len() implies *(#[trigger] used@[j]) == used_meta(pop.take(i + 1))[j] by {
                            if j < before.len() {
                                assert(used@[j] == before[j]);
                            }
                        }
                    }
                },
                None => {},
            }
            i = i + 1;
        }
        proof {
            assert(pop.take(pop.len() as int) =~= pop);
        }
        if used.len() == 0 {
            let (cp, mp) = choices.create_exploratory();
            MetaParamsWrapper::new(MetaParamsSource::Exploratory, cp, mp)
        } else {
            let n = used.len();
            let pos = draw_meta_pick(choices, n, draws);
            let ghost picked = draws@;
            let cp = used[pos].crossover_params;
            let mp = used[pos].mutation_params;
            proof {
                let j = idx[pos as int];
                assert(self.population()[j].1.meta_params_used == Some(*used@[pos as int]));
                lemma_extends_trans(start, first, picked);
            }
            let mutate_meta = draw_meta_mutate(choices, draws);
            proof {
                lemma_extends_trans(start, picked, draws@);
                assert(drawn_since(start, draws@) =~= seq![Draw::Explore(false), picked.last(), Draw::MetaMutate(mutate_meta)]);
            }
            if mutate_meta {
                let (cp2, mp2) = choices.mutate_meta_params(cp, mp);
                MetaParamsWrapper::new(MetaParamsSource::SelectedAndMutated, cp2, mp2)
            } else {
                MetaParamsWrapper::new(MetaParamsSource::Selected, cp, mp)
            }
        }
    }

    /// An offspring: a crossover of the population (ranked best first), or of
    /// the initial value while the population is empty, then mutated, under
    /// the next meta parameters, with all the answers logged (see
    /// `offspring_drawn`).
    fn create_offspring<C>(&mut self, choices: &mut C, draws: &mut DrawLog) -> (r: (Value, MetaParamsWrapper<CP, MP>))
        where C: AlgoChoices<CP, MP> + CrossoverChoices<R, CP> + MutationChoices<R, MP>
        requires
            old(self).inv(),
        ensures
            final(self).inv(),
            final(self).same_config(&*old(self)),
            final(self).population() == old(self).population(),
            final(self).next_id() == old(self).next_id(),
            final(self).initial_value_used() == old(self).initial_value_used(),
            conforms(r.0@, old(self).spec_view()),
            is_next_meta_params(*old(self), r.1),
            is_offspring(*old(self), r.0@),
            extends(old(draws)@, final(draws)@),
            offspring_drawn(*old(self), drawn_since(old(draws)@, final(draws)@), r.0@, r.1),
    {
        let ghost start = draws@;
        let meta = self.next_meta_params(choices, draws);
        let ghost before = *self;
        let ghost meta_draws = draws@;
        let crossover_result = if self.individuals.len() == 0 {
            proof { lemma_extends_refl(meta_draws); }
            Value(self.initial_value.0.copy())
        } else {
            let mut ordered: Vec<&Value> = Vec::new();
            let mut i: usize = 0;
            while i < self.individuals.len()
                invariant
                    i <= self.individuals@.len(),
                    ordered@.len() == i,
                    forall|n: int| 0 <= n < i ==> (#[trigger] ordered@[n])@ == self.individuals@[n].1.value@,
                decreases self.individuals.len() - i,
            {
                ordered.push(&self.individuals[i].1.value);
                i = i + 1;
            }
            proof {
                assert forall|n: int| 0 <= n < ordered@.len() implies conforms((#[trigger] ordered@[n])@, self.spec@) by {
                    assert(conforms(self.individuals@[n].1.value@, self.spec@));
                }
            }
            let x = crossover_with(choices, &self.spec, &ordered, &meta.crossover_params, &mut self.path_ctx, draws);
            proof {
                assert(value_views(ordered@) =~= population_values(before.population()));
                assert(crossover_drawn(population_values(before.population()), before.spec_view(), drawn_since(meta_draws, draws@), x@));
            }
            x
        };
        let ghost cross_draws = draws@;
        let result = mutate(&self.spec, &crossover_result, &meta.mutation_params, &mut self.path_ctx, choices, draws);
        proof {
            assert(before == *old(self));
            let ctx = *old(self);
            lemma_extends_trans(start, meta_draws, cross_draws);
            lemma_extends_trans(start, cross_draws, draws@);
            let d = drawn_since(start, draws@);
            let h1: int = meta_draws.len() - start.len();
            let h2: int = cross_draws.len() - start.len();
            assert(d.take(h1) =~= drawn_since(start, meta_draws));
            assert(d.subrange(h1, h2) =~= drawn_since(meta_draws, cross_draws));
            assert(d.skip(h2) =~= drawn_since(cross_draws, draws@));
            let x = crossover_result@;
            if before.population().len() > 0 {
                assert(crossover_drawn(population_values(ctx.population()), ctx.spec_view(), d.subrange(h1, h2), x));
                assert(is_crossover(ctx, x));
            } else {
                assert(cross_draws == meta_draws);
                assert(x == ctx.initial_value()@);
            }
            assert(node_drawn(x, ctx.spec_view(), d.skip(h2), result@));
            assert(is_offspring(ctx, result@));
            assert(meta_drawn(ctx, d.take(h1), meta));
        }
        (result, meta)
    }

    /// The next individual to evaluate. Where the sample size is above one,
    /// the population has at least `min_pop_size_for_reeval` individuals and
    /// the choices decide so, the best individual that is ready for another
    /// evaluation, if any, taken out of the population. Otherwise a new
    /// individual under the next id: the initial value the first time, an
    /// offspring (see `create_offspring`) after that. The answers of the
    /// choices are logged in `draws` (see `next_drawn`).
    pub fn next_individual<C>(&mut self, choices: &mut C, draws: &mut DrawLog) -> (r: IndContext<MetaParamsWrapper<CP, MP>>)
        where C: AlgoChoices<CP, MP> + CrossoverChoices<R, CP> + MutationChoices<R, MP>
        requires
            old(self).inv(),
            old(self).next_id() < usize::MAX,
        ensures
            final(self).inv(),
            final(self).same_config(&*old(self)),
            is_new_individual(*old(self), *final(self), r) || is_reeval_individual(*old(self), *final(self), r),
            extends(old(draws)@, final(draws)@),
            next_drawn(*old(self), *final(self), drawn_since(old(draws)@, final(draws)@), r),
    {
        let ghost start = draws@;
        let ghost first = *self;
        proof { lemma_extends_refl(start); }
        let asked = self.individual_sample_size > 1 && self.individuals.len() >= self.min_pop_size_for_reeval;
        if asked {
            let reeval = draw_reeval(choices, draws);
            proof {
                assert(drawn_since(start, draws@) =~= seq![Draw::Reeval(reeval)]);
            }
            if reeval {
                let ghost before = *self;
                match self.extract_best_ready() {
                    Some(ind) => {
                        proof {
                            assert(is_reeval_individual(before, *self, ind));
                        }
                        return ind;
                    },
                    None => {
                        proof {
                            assert(!has_ready(first.population()));
                        }
                    },
                }
            }
        }
        let ghost before = *self;
        let ghost rest_start = draws@;
        proof {
            if asked {
                assert(drawn_since(start, draws@).skip(1) =~= drawn_since(rest_start, draws@));
            }
        }
        let (value, meta_params_used) = if !self.initial_value_used {
            self.initial_value_used = true;
            proof { lemma_extends_refl(rest_start); }
            (Value(self.initial_value.0.copy()), None)
        } else {
            let (value, meta) = self.create_offspring(choices, draws);
            (value, Some(meta))
        };
        let id = self.next_id;
        self.next_id = self.next_id + 1;
        let r = IndContext::new(id, value, meta_params_used);
        proof {
            assert(is_new_individual(before, *self, r));
            lemma_extends_trans(start, rest_start, draws@);
            let d = drawn_since(start, draws@);
            if asked {
                assert(d.skip(1) =~= drawn_since(rest_start, draws@));
            } else {
                assert(d =~= drawn_since(rest_start, draws@));
            }
        }
        r
    }
}

impl<CP, MP, R> AlgoContext<CP, MP, R> {
    /// Records the result of an individual's evaluation. A rejected value
    /// (`None`) drops the individual. Otherwise the value joins its sample,
    /// the sample is summarized (final once complete, else ready for another
    /// evaluation), the individual takes its rank in the population, in place
    /// of one with the same rank key, and the population keeps its best
    /// `max_pop_size` individuals.
    pub fn process_individual_eval<C: AlgoChoices<CP, MP>>(
        &mut self,
        ind_ctx: IndContext<MetaParamsWrapper<CP, MP>>,
        obj_func_val: Option<RealKey>,
        choices: &mut C,
    )
        requires
            old(self).inv(),
            ind_ctx.state is PendingEval,
            conforms(ind_ctx.value@, old(self).spec_view()),
        ensures
            final(self).inv(),
            final(self).same_config(&*old(self)),
            final(self).next_id() == old(self).next_id(),
            final(self).initial_value_used() == old(self).initial_value_used(),
            final(self).population().len() <= final(self).max_pop_size(),
            is_ranked(final(self).population()),
            obj_func_val is None ==> final(self).population() == old(self).population(),
            obj_func_val matches Some(v) ==> exists|k: RealKey, e: IndContext<MetaParamsWrapper<CP, MP>>, pos: int|
                #![trigger is_evaluated(e, ind_ctx, v, k, old(self).sample_size()), is_rank_position(old(self).population(), (k.0, ind_ctx.id), pos)]
            {
                &&& is_evaluated(e, ind_ctx, v, k, old(self).sample_size())
                &&& (ind_ctx.state matches IndState::PendingEval(vals)
                    ==> (exact_summary(vals@.push(v), old(self).quantile()) matches Some(x) ==> k == x))
                &&& (ind_ctx.state matches IndState::PendingEval(vals)
                    ==> (summary_placed(vals@.push(v), old(self).quantile())
                        ==> between_quantile_neighbours(vals@.push(v), old(self).quantile(), k)))
                &&& is_rank_position(old(self).population(), (k.0, ind_ctx.id), pos)
                &&& final(self).population() == prune(put_at(old(self).population(), (k, e), pos), old(self).max_pop_size())
            },
    {
        match obj_func_val {
            None => {},
            Some(v) => {
                let ghost before = ind_ctx;
                let IndContext { id, value, meta_params_used, state } = ind_ctx;
                let mut vals = match state {
                    IndState::PendingEval(vals) => vals,
                    _ => vstd::pervasive::unreached(),
                };
                vals.push(v);
                let k = summarize_sample(&vals, self.obj_func_val_quantile, choices);
                let new_state = if vals.len() == self.individual_sample_size {
                    IndState::Final(k)
                } else {
                    IndState::Ready(vals)
                };
                let e = IndContext { id, value, meta_params_used, state: new_state };
                let ghost eg = e;
                let ghost p = self.individuals@;
                let ghost key: (u64, usize) = (k.0, id);
                let mut pos: usize = 0;
                while pos < self.individuals.len()
                    invariant
                        pos <= self.individuals@.len(),
                        self.individuals@ == p,
                        is_ranked(p),
                        key == (k.0, id),
                        forall|j: int| 0 <= j < pos ==> ranks_before(rank_key(#[trigger] p[j]), key),
                    ensures
                        pos <= p.len(),
                        forall|j: int| 0 <= j < pos ==> ranks_before(rank_key(#[trigger] p[j]), key),
                        pos < p.len() ==> !ranks_before(rank_key(p[pos as int]), key),
                    decreases self.individuals.len() - pos,
                {
                    let entry_key = self.individuals[pos].0.0;
                    let entry_id = self.individuals[pos].1.id;
                    if entry_key < k.0 || (entry_key == k.0 && entry_id < id) {
                        pos = pos + 1;
                    } else {
                        break;
                    }
                }
                proof {
                    assert forall|j: int| pos <= j < p.len() implies !ranks_before(rank_key(#[trigger] p[j]), key) by {
                        if j > pos {
                            assert(ranks_before(rank_key(p[pos as int]), rank_key(p[j])));
                        }
                    }
                    assert(is_rank_position(p, key, pos as int));
                    assert(rank_key((k, e)) == key);
                    lemma_put_at_ranked(p, (k, e), pos as int);
                }
                if pos < self.individuals.len() && self.individuals[pos].0.0 == k.0 && self.individuals[pos].1.id == id {
                    self.individuals.remove(pos);
                    self.individuals.insert(pos, (k, e));
                    proof {
                        assert(self.individuals@ =~= p.update(pos as int, (k, eg)));
                    }
                } else {
                    self.individuals.insert(pos, (k, e));
                }
                let ghost q = self.individuals@;
                proof {
                    assert(q == put_at(p, (k, eg), pos as int));
                }
                if self.individuals.len() > self.max_pop_size {
                    self.individuals.truncate(self.max_pop_size);
                }
                proof {
                    assert(self.individuals@ == prune(q, self.max_pop_size));
                    assert forall|a: int, b: int| 0 <= a < b < self.individuals@.len() implies
                        ranks_before(rank_key(#[trigger] self.individuals@[a]), rank_key(#[trigger] self.individuals@[b])) by {
                        assert(self.individuals@[a] == q[a] && self.individuals@[b] == q[b]);
                    }
                    assert forall|a: int| 0 <= a < self.individuals@.len() implies conforms((#[trigger] self.individuals@[a]).1.value@, self.spec@) by {
                        assert(self.individuals@[a] == q[a]);
                        if pos < p.len() && rank_key(p[pos as int]) == key {
                            if a != pos {
                                assert(q[a] == p[a]);
                            }
                        } else if a < pos {
                            assert(q[a] == p[a]);
                        } else if a > pos {
                            assert(q[a] == p[a - 1]);
                        }
                    }
                    assert(is_evaluated(eg, before, v, k, old(self).sample_size()));
                    assert(is_rank_position(old(self).population(), (k.0, before.id), pos as int));
                    assert(self.population() == prune(put_at(old(self).population(), (k, eg), pos as int), old(self).max_pop_size()));
                }
            },
        }
    }
}
} // verus!
