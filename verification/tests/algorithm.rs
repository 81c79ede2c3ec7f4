use cambrian::algorithm::{AlgoChoices, AlgoContext, IndContext, IndState, MIN_POP_SIZE_FOR_REEVAL};
use cambrian::meta::{MetaParamsSource, MetaParamsWrapper};
use cambrian::real_key::RealKey;
use cambrian::selection::{CrossoverChoices, Draw, DrawLog, MutationChoices};
use cambrian::spec::{Node as SpecNode, Spec};
use cambrian::value::{Node, Value};
use rand::rngs::StdRng;
use rand::seq::SliceRandom;
use rand::{Rng, SeedableRng};
use rand_distr::{Bernoulli, Cauchy, Distribution};

fn rk(x: f64) -> RealKey {
    RealKey::from_bits(x.to_bits()).unwrap()
}

fn real_of(k: RealKey) -> f64 {
    f64::from_bits(k.to_bits())
}

#[derive(Debug, Clone, Copy, PartialEq)]
struct CrossoverParams {
    crossover_prob: f64,
    selection_pressure: f64,
}

#[derive(Debug, Clone, Copy, PartialEq)]
struct MutationParams {
    mutation_prob: f64,
    mutation_scale: f64,
}

#[derive(Debug, Default)]
struct Rescaling;

/// The probabilities of the algorithm's own decisions.
struct StaticParams {
    meta_params_prob_exploratory: f64,
    meta_params_select_pressure: f64,
    meta_params_prob_mutation: f64,
    prob_reeval: f64,
}

const STATIC_PARAMS: StaticParams = StaticParams {
    meta_params_prob_exploratory: 0.25,
    meta_params_select_pressure: 0.9,
    meta_params_prob_mutation: 0.5,
    prob_reeval: 0.5,
};

/// Random choices drawn from one seeded source.
struct Choices {
    rng: StdRng,
    static_params: StaticParams,
}

fn select(pressure: f64, n: usize, rng: &mut StdRng) -> usize {
    let dist = Bernoulli::new(pressure).unwrap();
    for i in 0..n {
        if dist.sample(rng) {
            return i;
        }
    }
    rng.gen_range(0..n)
}

fn summary_obj_func_val(obj_func_vals: &[f64], quantile: f64) -> f64 {
    let n = obj_func_vals.len() as f64;
    let loc_target = (n - 1.0) * quantile;
    let left_idx_f64 = loc_target.floor();
    let left_val = obj_func_vals[left_idx_f64 as usize];
    let right_val = obj_func_vals[loc_target.ceil() as usize];
    left_val + (loc_target - left_idx_f64) * (right_val - left_val)
}

impl AlgoChoices<CrossoverParams, MutationParams> for Choices {
    fn decide_to_reeval(&mut self) -> bool {
        Bernoulli::new(self.static_params.prob_reeval).unwrap().sample(&mut self.rng)
    }
    fn decide_exploratory(&mut self) -> bool {
        Bernoulli::new(self.static_params.meta_params_prob_exploratory).unwrap().sample(&mut self.rng)
    }
    fn create_exploratory(&mut self) -> (CrossoverParams, MutationParams) {
        (
            CrossoverParams { crossover_prob: 0.5, selection_pressure: 0.5 },
            MutationParams { mutation_prob: 0.5, mutation_scale: 1.0 },
        )
    }
    fn select_meta_params(&mut self, n: usize) -> usize {
        select(self.static_params.meta_params_select_pressure, n, &mut self.rng)
    }
    fn decide_to_mutate_meta_params(&mut self) -> bool {
        Bernoulli::new(self.static_params.meta_params_prob_mutation).unwrap().sample(&mut self.rng)
    }
    fn mutate_meta_params(&mut self, crossover_params: CrossoverParams, mutation_params: MutationParams) -> (CrossoverParams, MutationParams) {
        (crossover_params, mutation_params)
    }
    fn summarize(&mut self, obj_func_vals: &Vec<RealKey>, quantile: RealKey) -> RealKey {
        let vals: Vec<f64> = obj_func_vals.iter().map(|k| real_of(*k)).collect();
        rk(summary_obj_func_val(&vals, real_of(quantile)))
    }
}

impl CrossoverChoices<Rescaling, CrossoverParams> for Choices {
    fn rescale(&self, _rescaling: &Rescaling, params: &CrossoverParams) -> CrossoverParams {
        *params
    }
    fn decide_to_crossover(&mut self, params: &CrossoverParams) -> bool {
        Bernoulli::new(params.crossover_prob).unwrap().sample(&mut self.rng)
    }
    fn select(&mut self, params: &CrossoverParams, n: usize) -> usize {
        select(params.selection_pressure, n, &mut self.rng)
    }
    fn shuffle(&mut self, mut keys: Vec<usize>) -> Vec<usize> {
        keys.shuffle(&mut self.rng);
        keys
    }
}

impl MutationChoices<Rescaling, MutationParams> for Choices {
    fn rescale(&self, _rescaling: &Rescaling, params: &MutationParams) -> MutationParams {
        *params
    }
    fn decide_to_mutate(&mut self, params: &MutationParams) -> bool {
        Bernoulli::new(params.mutation_prob).unwrap().sample(&mut self.rng)
    }
    fn flip_coin(&mut self) -> bool {
        Bernoulli::new(0.5).unwrap().sample(&mut self.rng)
    }
    fn pick(&mut self, n: usize) -> usize {
        self.rng.gen_range(0..n)
    }
    fn sample_real(&mut self, value: RealKey, scale: RealKey, params: &MutationParams) -> RealKey {
        let x = Cauchy::new(real_of(value), real_of(scale) * params.mutation_scale).unwrap().sample(&mut self.rng);
        RealKey::from_bits(x.to_bits()).unwrap_or(value)
    }
    fn sample_int(&mut self, value: i64, scale: RealKey, params: &MutationParams) -> i64 {
        Cauchy::new(value as f64, real_of(scale) * params.mutation_scale).unwrap().sample(&mut self.rng).round() as i64
    }
}

fn choices(static_params: StaticParams) -> Choices {
    Choices { rng: StdRng::seed_from_u64(0), static_params }
}

const NEVER_CROSSOVER: CrossoverParams = CrossoverParams { crossover_prob: 0.0, selection_pressure: 1.0 };

const ALWAYS_MUTATE: MutationParams = MutationParams { mutation_prob: 1.0, mutation_scale: 1.0 };

type Sut = AlgoContext<CrossoverParams, MutationParams, Rescaling>;

type Ind = IndContext<MetaParamsWrapper<CrossoverParams, MutationParams>>;

fn trivial_spec() -> Spec {
    Spec(SpecNode::Bool { init: true })
}

fn make_sut() -> Sut {
    AlgoContext::new(trivial_spec(), 1, rk(1.0), Some((NEVER_CROSSOVER, ALWAYS_MUTATE)), None)
}

fn make_result(id: usize, value: bool, obj_func_val: f64) -> (Ind, Option<RealKey>) {
    (
        IndContext::new(
            id,
            Value(Node::Bool(value)),
            Some(MetaParamsWrapper::new(MetaParamsSource::Override, NEVER_CROSSOVER, ALWAYS_MUTATE)),
        ),
        Some(rk(obj_func_val)),
    )
}

fn best_seen(sut: &Sut) -> Option<(f64, &Value)> {
    sut.best_seen_final().map(|(k, v)| (real_of(k), v))
}

#[test]
fn initial_guess_then_mutation() {
    let mut sut = make_sut();
    let mut c = choices(STATIC_PARAMS);

    assert_eq!(sut.next_individual(&mut c, &mut DrawLog::new()).value.0, Node::Bool(true));
    for _ in 0..2 {
        assert_eq!(sut.next_individual(&mut c, &mut DrawLog::new()).value.0, Node::Bool(false));
    }

    assert!(best_seen(&sut).is_none());
}

#[test]
fn initial_guess_ignored_after_first_evaluation() {
    let mut sut = make_sut();
    let mut c = choices(STATIC_PARAMS);

    for _ in 0..2 {
        sut.next_individual(&mut c, &mut DrawLog::new());
    }

    let (ind_ctx, obj_func_val) = make_result(0, false, 0.1);

    sut.process_individual_eval(ind_ctx, obj_func_val, &mut c);

    for _ in 0..2 {
        assert_eq!(sut.next_individual(&mut c, &mut DrawLog::new()).value.0, Node::Bool(true));
    }

    if let Some((obj_func_val, value)) = best_seen(&sut) {
        assert_eq!(obj_func_val, 0.1);
        assert_eq!(*value, Value(Node::Bool(false)));
    } else {
        panic!()
    }
}

#[test]
fn best_seen_overtaken() {
    let mut sut = make_sut();
    let mut c = choices(STATIC_PARAMS);
    sut.next_individual(&mut c, &mut DrawLog::new());
    assert!(best_seen(&sut).is_none());

    let (ind_ctx, obj_func_val) = make_result(0, true, 0.2);
    sut.process_individual_eval(ind_ctx, obj_func_val, &mut c);

    assert_eq!(best_seen(&sut).map(|(obj_func_val, _)| obj_func_val), Some(0.2));
    assert_eq!(sut.next_individual(&mut c, &mut DrawLog::new()).value.0, Node::Bool(false));

    let (ind_ctx, obj_func_val) = make_result(1, false, 0.1);
    sut.process_individual_eval(ind_ctx, obj_func_val, &mut c);

    assert_eq!(sut.next_individual(&mut c, &mut DrawLog::new()).value.0, Node::Bool(true));

    let (obj_func_val, value) = best_seen(&sut).unwrap();
    assert_eq!(obj_func_val, 0.1);

    assert_eq!(*value, Value(Node::Bool(false)));
}

#[test]
fn max_population_size() {
    let mut sut: Sut = AlgoContext::new_impl(
        trivial_spec(),
        1,
        rk(1.0),
        Some((NEVER_CROSSOVER, ALWAYS_MUTATE)),
        None,
        MIN_POP_SIZE_FOR_REEVAL,
        1,
    );
    let mut c = choices(STATIC_PARAMS);

    sut.next_individual(&mut c, &mut DrawLog::new());

    let (ind_ctx, obj_func_val) = make_result(0, true, 0.3);
    sut.process_individual_eval(ind_ctx, obj_func_val, &mut c);
    assert_eq!(sut.num_individuals(), 1);

    let (ind_ctx, obj_func_val) = make_result(1, true, 0.2);
    sut.process_individual_eval(ind_ctx, obj_func_val, &mut c);
    assert_eq!(sut.num_individuals(), 1);
    assert_eq!(sut.individual(0).id, 1); // the individual 0 was evicted
}

#[test]
fn reeval() {
    let sample_size = 2;

    let mut sut: Sut = AlgoContext::new_impl(
        trivial_spec(),
        sample_size,
        rk(1.0),
        Some((NEVER_CROSSOVER, ALWAYS_MUTATE)),
        None,
        2,
        1000,
    );
    let mut c = choices(StaticParams { prob_reeval: 1.0, ..STATIC_PARAMS });

    sut.next_individual(&mut c, &mut DrawLog::new());

    let (ind_ctx, obj_func_val) = make_result(0, true, 0.2);
    sut.process_individual_eval(ind_ctx, obj_func_val, &mut c);
    let top_individual = sut.individual(0);
    assert!(matches!(
        top_individual,
        IndContext {
            id: 0,
            value: Value(Node::Bool(true)),
            state: IndState::Ready(obj_func_vals),
            ..
        } if *obj_func_vals == vec![rk(0.2)]
    ));

    // mutated offspring created
    let next_individual = sut.next_individual(&mut c, &mut DrawLog::new());
    assert_eq!(next_individual.value.0, Node::Bool(false));

    sut.process_individual_eval(next_individual, Some(rk(0.3)), &mut c);
    assert_eq!(sut.num_individuals(), 2);

    // picking the first individual for reevaluation
    let next_individual = sut.next_individual(&mut c, &mut DrawLog::new());
    assert_eq!(sut.num_individuals(), 1);
    assert!(matches!(
        next_individual,
        IndContext {
            id: 0,
            value: Value(Node::Bool(true)),
            state: IndState::PendingEval(ref obj_func_vals),
            ..
        } if *obj_func_vals == vec![rk(0.2)]
    ));

    // reevaluation result
    sut.process_individual_eval(next_individual, Some(rk(0.1)), &mut c);

    // context state transitioned to final after two evaluations
    let top_individual = sut.individual(0);
    assert!(matches!(
        *top_individual,
        IndContext {
            id: 0,
            value: Value(Node::Bool(true)),
            state: IndState::Final(obj_func_vals),
            ..
        } if obj_func_vals == rk(0.1)
    ));
    assert_eq!(sut.num_individuals(), 2);

    // picking the second individual for reevaluation
    let ind_1_for_reeval = sut.next_individual(&mut c, &mut DrawLog::new());
    assert_eq!(sut.num_individuals(), 1);
    assert!(matches!(
        ind_1_for_reeval,
        IndContext {
            id: 1,
            value: Value(Node::Bool(false)),
            state: IndState::PendingEval(ref obj_func_vals),
            ..
        } if *obj_func_vals == vec![rk(0.3)]
    ));

    // mutated offspring created based on first individual
    let next_individual = sut.next_individual(&mut c, &mut DrawLog::new());
    assert_eq!(sut.num_individuals(), 1);
    assert!(matches!(
        next_individual,
        IndContext {
            id: 2,
            value: Value(Node::Bool(false)),
            state: IndState::PendingEval(ref obj_func_vals),
            ..
        } if obj_func_vals.is_empty()
    ));

    // comes back first, better than second, but worse than first
    sut.process_individual_eval(next_individual, Some(rk(0.25)), &mut c);
    assert_eq!(sut.num_individuals(), 2);

    // second individual comes back after final evaluation, ranks worst
    sut.process_individual_eval(ind_1_for_reeval, Some(rk(0.4)), &mut c);
    assert_eq!(sut.num_individuals(), 3);

    let ind_ids_in_ranking_order: Vec<usize> = (0..sut.num_individuals()).map(|i| sut.individual(i).id).collect();
    assert_eq!(ind_ids_in_ranking_order, vec![0, 2, 1]);
}

#[test]
fn rejected_evaluation_leaves_population_unchanged() {
    let mut sut = make_sut();
    let mut c = choices(STATIC_PARAMS);
    let first = sut.next_individual(&mut c, &mut DrawLog::new());
    sut.process_individual_eval(first, None, &mut c);
    assert_eq!(sut.num_individuals(), 0);
    assert!(best_seen(&sut).is_none());
    let (ind_ctx, obj_func_val) = make_result(1, false, -3.5);
    sut.process_individual_eval(ind_ctx, obj_func_val, &mut c);
    let second = sut.next_individual(&mut c, &mut DrawLog::new());
    sut.process_individual_eval(second, None, &mut c);
    assert_eq!(sut.num_individuals(), 1);
    assert_eq!(best_seen(&sut).map(|(v, _)| v), Some(-3.5));
}

#[test]
fn new_individuals_take_increasing_ids() {
    let mut sut = make_sut();
    let mut c = choices(STATIC_PARAMS);
    let ids: Vec<usize> = (0..4).map(|_| sut.next_individual(&mut c, &mut DrawLog::new()).id).collect();
    assert_eq!(ids, vec![0, 1, 2, 3]);
}

#[test]
fn override_meta_params_are_used() {
    let mut sut = make_sut();
    let mut c = choices(STATIC_PARAMS);
    let first = sut.next_individual(&mut c, &mut DrawLog::new());
    assert!(first.meta_params_used.is_none());
    let second = sut.next_individual(&mut c, &mut DrawLog::new());
    let meta = second.meta_params_used.unwrap();
    assert_eq!(meta.source, MetaParamsSource::Override);
    assert_eq!(meta.crossover_params, NEVER_CROSSOVER);
    assert_eq!(meta.mutation_params, ALWAYS_MUTATE);
}

#[test]
fn next_individual_logs_its_answers() {
    let mut sut = make_sut();
    let mut c = choices(STATIC_PARAMS);
    let mut draws = DrawLog::new();
    assert_eq!(sut.next_individual(&mut c, &mut draws).value.0, Node::Bool(true));
    assert_eq!(draws.len(), 0);
    let ind = sut.next_individual(&mut c, &mut draws);
    assert_eq!(ind.value.0, Node::Bool(false));
    assert_eq!(draws.len(), 1);
    assert_eq!(draws.get(0), Draw::Decide(true));

    let mut free: Sut = AlgoContext::new(trivial_spec(), 1, rk(1.0), None, None);
    free.next_individual(&mut c, &mut DrawLog::new());
    let mut draws = DrawLog::new();
    let ind = free.next_individual(&mut c, &mut draws);
    assert_eq!(draws.len(), 2);
    assert!(matches!(draws.get(0), Draw::Explore(_)));
    assert!(matches!(draws.get(1), Draw::Decide(_)));
    assert_eq!(ind.meta_params_used.unwrap().source, MetaParamsSource::Exploratory);
}
