use cambrian::crossover::Crossover;
use cambrian::doc::{YamlDoc, YamlEntry, YamlNumber};
use cambrian::error::Error;
use cambrian::path::{PathContext, PathNodeContext};
use cambrian::real_key::RealKey;
use cambrian::selection::{CrossoverChoices, Draw, DrawLog};
use cambrian::spec::Spec;
use cambrian::spec_util::from_yaml_doc;
use cambrian::value::{Node, Value};
use rand::rngs::StdRng;
use rand::seq::SliceRandom;
use rand::SeedableRng;
use rand_distr::{Bernoulli, Distribution};
use std::collections::HashSet;

fn real_key(x: f64) -> Option<RealKey> {
    RealKey::from_bits(x.to_bits())
}

fn from_yaml_str(text: &str) -> Result<Spec, Error> {
    cambrian::spec_util::from_yaml_str(text)
}

fn extract_from_node<'a>(node: Option<&'a Node>, path: &[&str]) -> Option<&'a Node> {
    node.and_then(|node| match path.first() {
        Some(head) => match node {
            Node::Sub(mapping) => extract_from_node(mapping.iter().find(|(k, _)| k == head).map(|(_, v)| v), &path[1..]),
            Node::AnonMap(mapping) => {
                let key: usize = head.parse().expect("Invalid path");
                extract_from_node(mapping.iter().find(|(k, _)| *k == key).map(|(_, v)| v), &path[1..])
            },
            Node::Variant(name, value) => {
                if head != name {
                    panic!("Invalid path");
                }
                extract_from_node(Some(value), &path[1..])
            },
            Node::Optional(o) => {
                if *head != "optional" {
                    panic!("Invalid path");
                }
                extract_from_node(o.as_ref().map(|b| b.as_ref()), &path[1..])
            },
            _ => panic!("Invalid path"),
        },
        None => Some(node),
    })
}

fn extract_from_value<'a>(value: &'a Value, path: &[&str]) -> Option<&'a Node> {
    extract_from_node(Some(&value.0), path)
}

#[derive(Debug, Clone, Copy)]
struct CrossoverParams {
    crossover_prob: f64,
    selection_pressure: f64,
}

#[derive(Debug)]
struct Rescaling {
    crossover_prob_factor: f64,
    selection_pressure_factor: f64,
}

impl Default for Rescaling {
    fn default() -> Self {
        Rescaling { crossover_prob_factor: 1.0, selection_pressure_factor: 1.0 }
    }
}

fn set_rescaling_at_path(ctx: &mut PathNodeContext<Rescaling>, path: &[&str], rescaling: Rescaling) {
    match path.first() {
        Some(head) => set_rescaling_at_path(ctx.get_child_mut(head), &path[1..], rescaling),
        None => ctx.rescaling_ctx = rescaling,
    }
}

fn rescale(rescaling: &Rescaling, params: &CrossoverParams) -> CrossoverParams {
    CrossoverParams {
        crossover_prob: params.crossover_prob * rescaling.crossover_prob_factor,
        selection_pressure: params.selection_pressure * rescaling.selection_pressure_factor,
    }
}

/// Selects the positions given, in turn; draws the rest from a seeded source.
struct SelectionMock {
    selected_indexes: Vec<usize>,
    next_pos: usize,
    rng: StdRng,
}

impl CrossoverChoices<Rescaling, CrossoverParams> for SelectionMock {
    fn rescale(&self, rescaling: &Rescaling, params: &CrossoverParams) -> CrossoverParams {
        rescale(rescaling, params)
    }
    fn decide_to_crossover(&mut self, params: &CrossoverParams) -> bool {
        Bernoulli::new(params.crossover_prob).unwrap().sample(&mut self.rng)
    }
    fn select(&mut self, _params: &CrossoverParams, n: usize) -> usize {
        if n == 1 {
            0
        } else {
            let pos = self.next_pos;
            self.next_pos += 1;
            self.selected_indexes[pos]
        }
    }
    fn shuffle(&mut self, mut keys: Vec<usize>) -> Vec<usize> {
        keys.shuffle(&mut self.rng);
        keys
    }
}

/// Selects the first individual under high selection pressure, else the second.
struct PressureAwareSelectionMock {
    rng: StdRng,
}

impl CrossoverChoices<Rescaling, CrossoverParams> for PressureAwareSelectionMock {
    fn rescale(&self, rescaling: &Rescaling, params: &CrossoverParams) -> CrossoverParams {
        rescale(rescaling, params)
    }
    fn decide_to_crossover(&mut self, params: &CrossoverParams) -> bool {
        Bernoulli::new(params.crossover_prob).unwrap().sample(&mut self.rng)
    }
    fn select(&mut self, params: &CrossoverParams, _n: usize) -> usize {
        if params.selection_pressure > 0.5 {
            0
        } else {
            1
        }
    }
    fn shuffle(&mut self, mut keys: Vec<usize>) -> Vec<usize> {
        keys.shuffle(&mut self.rng);
        keys
    }
}

/// Selection as the algorithm makes it: each individual in turn with the
/// selection pressure as probability, else one at random.
struct SelectionImpl {
    rng: StdRng,
}

impl CrossoverChoices<Rescaling, CrossoverParams> for SelectionImpl {
    fn rescale(&self, rescaling: &Rescaling, params: &CrossoverParams) -> CrossoverParams {
        rescale(rescaling, params)
    }
    fn decide_to_crossover(&mut self, params: &CrossoverParams) -> bool {
        Bernoulli::new(params.crossover_prob).unwrap().sample(&mut self.rng)
    }
    fn select(&mut self, params: &CrossoverParams, n: usize) -> usize {
        let dist = Bernoulli::new(params.selection_pressure).unwrap();
        for i in 0..n {
            if dist.sample(&mut self.rng) {
                return i;
            }
        }
        let positions: Vec<usize> = (0..n).collect();
        *positions.choose(&mut self.rng).unwrap()
    }
    fn shuffle(&mut self, mut keys: Vec<usize>) -> Vec<usize> {
        keys.shuffle(&mut self.rng);
        keys
    }
}

fn make_rng() -> StdRng {
    StdRng::seed_from_u64(0)
}

fn make_crossover(selection_indexes: &[usize]) -> Crossover<SelectionMock> {
    Crossover::new(SelectionMock { selected_indexes: Vec::from(selection_indexes), next_pos: 0, rng: make_rng() })
}

fn make_crossover_with_pressure_aware_selection() -> Crossover<PressureAwareSelectionMock> {
    Crossover::new(PressureAwareSelectionMock { rng: make_rng() })
}

const SELECT_0: f64 = 1.0;
const SELECT_1: f64 = 0.0;

fn make_rescaling(crossover_prob_factor: f64, selection_pressure_factor: f64) -> Rescaling {
    Rescaling { crossover_prob_factor, selection_pressure_factor }
}

fn no_crossover_rescaling() -> Rescaling {
    make_rescaling(0.0, 1.0)
}

const ALWAYS_CROSSOVER_PARAMS: CrossoverParams = CrossoverParams { crossover_prob: 1.0, selection_pressure: 1.0 };

const NEVER_CROSSOVER_PARAMS: CrossoverParams = CrossoverParams { crossover_prob: 0.0, selection_pressure: 1.0 };

fn path_ctx_for(values: &[&Value]) -> PathNodeContext<Rescaling> {
    let mut root_path_node_ctx = PathNodeContext::default();
    for v in values {
        root_path_node_ctx.add_nodes_for(&v.0);
    }
    root_path_node_ctx
}

fn cross_two(
    sut: &mut Crossover<SelectionMock>,
    spec: &Spec,
    value0: &Value,
    value1: &Value,
    params: &CrossoverParams,
    ctx: PathNodeContext<Rescaling>,
) -> Value {
    sut.crossover(spec, &vec![value0, value1], params, &mut PathContext(ctx), &mut DrawLog::new())
}

fn real_node(x: f64) -> Node {
    Node::Real(real_key(x).unwrap())
}

fn sub(entries: Vec<(&str, Node)>) -> Node {
    Node::Sub(entries.into_iter().map(|(k, v)| (k.to_string(), v)).collect())
}

#[test]
fn leaf_real() {
    let spec = from_yaml_str("
        type: real
        init: 0
        scale: 1
        ").unwrap();
    let value0 = Value(real_node(0.0));
    let value1 = Value(real_node(1.0));
    let ctx = path_ctx_for(&[&value0, &value1]);
    let result = cross_two(&mut make_crossover(&[1]), &spec, &value0, &value1, &ALWAYS_CROSSOVER_PARAMS, ctx);
    assert_eq!(result, value1);
}

#[test]
fn leaf_real_all_same() {
    let spec = from_yaml_str("
        type: real
        init: 0
        scale: 1
        ").unwrap();
    let value0 = Value(real_node(1.0));
    let value1 = Value(real_node(1.0));
    let ctx = path_ctx_for(&[&value0, &value1]);
    let result = cross_two(&mut make_crossover(&[]), &spec, &value0, &value1, &ALWAYS_CROSSOVER_PARAMS, ctx);
    assert_eq!(result, value1);
}

#[test]
fn leaf_int() {
    let spec = from_yaml_str("
        type: int
        init: 0
        scale: 1
        ").unwrap();
    let value0 = Value(Node::Int(0));
    let value1 = Value(Node::Int(1));
    let ctx = path_ctx_for(&[&value0, &value1]);
    let result = cross_two(&mut make_crossover(&[1]), &spec, &value0, &value1, &ALWAYS_CROSSOVER_PARAMS, ctx);
    assert_eq!(result, value1);
}

#[test]
fn leaf_int_all_same() {
    let spec = from_yaml_str("
        type: int
        init: 0
        scale: 1
        ").unwrap();
    let value0 = Value(Node::Int(1));
    let value1 = Value(Node::Int(1));
    let ctx = path_ctx_for(&[&value0, &value1]);
    let result = cross_two(&mut make_crossover(&[]), &spec, &value0, &value1, &ALWAYS_CROSSOVER_PARAMS, ctx);
    assert_eq!(result, value1);
}

#[test]
fn leaf_const() {
    let spec = from_yaml_str("
        type: const
        ").unwrap();
    let value0 = Value(Node::Const);
    let value1 = Value(Node::Const);
    let ctx = path_ctx_for(&[&value0, &value1]);
    let result = cross_two(&mut make_crossover(&[]), &spec, &value0, &value1, &ALWAYS_CROSSOVER_PARAMS, ctx);
    assert_eq!(result, value1);
}

#[test]
fn leaf_bool_all_same() {
    let spec = from_yaml_str("
        type: bool
        init: true
        ").unwrap();
    let value0 = Value(Node::Bool(true));
    let value1 = Value(Node::Bool(true));
    let ctx = path_ctx_for(&[&value0, &value1]);
    let result = cross_two(&mut make_crossover(&[]), &spec, &value0, &value1, &ALWAYS_CROSSOVER_PARAMS, ctx);
    assert_eq!(result, value1);
}

#[test]
fn leaf_bool() {
    let spec = from_yaml_str("
        type: bool
        init: true
        ").unwrap();
    let value0 = Value(Node::Bool(false));
    let value1 = Value(Node::Bool(true));
    let ctx = path_ctx_for(&[&value0, &value1]);
    let result = cross_two(&mut make_crossover(&[1]), &spec, &value0, &value1, &ALWAYS_CROSSOVER_PARAMS, ctx);
    assert_eq!(result, value1);
}

#[test]
fn leaf_enum() {
    let spec = from_yaml_str("
        type: enum
        init: foo
        values:
        - foo
        - bar
        ").unwrap();
    let value0 = Value(Node::Enum("foo".to_string()));
    let value1 = Value(Node::Enum("bar".to_string()));
    let ctx = path_ctx_for(&[&value0, &value1]);
    let result = cross_two(&mut make_crossover(&[1]), &spec, &value0, &value1, &ALWAYS_CROSSOVER_PARAMS, ctx);
    assert_eq!(result, value1);
}

#[test]
fn leaf_enum_all_same() {
    let spec = from_yaml_str("
        type: enum
        init: foo
        values:
        - foo
        - bar
        ").unwrap();
    let value0 = Value(Node::Enum("bar".to_string()));
    let value1 = Value(Node::Enum("bar".to_string()));
    let ctx = path_ctx_for(&[&value0, &value1]);
    let result = cross_two(&mut make_crossover(&[]), &spec, &value0, &value1, &ALWAYS_CROSSOVER_PARAMS, ctx);
    assert_eq!(result, value1);
}

const FOO_BAR_SPEC: &str = "
        foo:
            type: bool
            init: true
        bar:
            type: bool
            init: true
        ";

#[test]
fn sub_no_crossover() {
    let spec = from_yaml_str(FOO_BAR_SPEC).unwrap();
    let value0 = Value(sub(vec![("foo", Node::Bool(false)), ("bar", Node::Bool(false))]));
    let value1 = Value(sub(vec![("foo", Node::Bool(true)), ("bar", Node::Bool(true))]));
    let ctx = path_ctx_for(&[&value0, &value1]);
    let result = cross_two(&mut make_crossover(&[0, 1]), &spec, &value0, &value1, &NEVER_CROSSOVER_PARAMS, ctx);
    assert_eq!(result, value0);
}

#[test]
fn sub_crossover() {
    let spec = from_yaml_str(FOO_BAR_SPEC).unwrap();
    let value0 = Value(sub(vec![("foo", Node::Bool(false)), ("bar", Node::Bool(false))]));
    let value1 = Value(sub(vec![("foo", Node::Bool(true)), ("bar", Node::Bool(true))]));
    let ctx = path_ctx_for(&[&value0, &value1]);
    let result = cross_two(&mut make_crossover(&[0, 1]), &spec, &value0, &value1, &ALWAYS_CROSSOVER_PARAMS, ctx);
    let value_foo = extract_from_value(&result, &["foo"]).unwrap();
    let value_bar = extract_from_value(&result, &["bar"]).unwrap();
    assert_ne!(value_foo, value_bar);
}

const OPTIONAL_BOOL_SPEC: &str = "
        type: optional
        initPresent: false
        valueType:
            type: bool
            init: true
        ";

#[test]
fn crossover_optional_one_absent() {
    let spec = from_yaml_str(OPTIONAL_BOOL_SPEC).unwrap();
    let value0 = Value(Node::Optional(Some(Box::new(Node::Bool(false)))));
    let value1 = Value(Node::Optional(None));
    let ctx = path_ctx_for(&[&value0, &value1]);
    let result = cross_two(&mut make_crossover(&[1]), &spec, &value0, &value1, &ALWAYS_CROSSOVER_PARAMS, ctx);
    assert_eq!(result, value1);
}

#[test]
fn crossover_optional_both_present() {
    let spec = from_yaml_str(OPTIONAL_BOOL_SPEC).unwrap();
    let value0 = Value(Node::Optional(Some(Box::new(Node::Bool(false)))));
    let value1 = Value(Node::Optional(Some(Box::new(Node::Bool(true)))));
    let ctx = path_ctx_for(&[&value0, &value1]);
    let result = cross_two(&mut make_crossover(&[1]), &spec, &value0, &value1, &ALWAYS_CROSSOVER_PARAMS, ctx);
    assert_eq!(result, value1);
}

#[test]
fn crossover_optional_one_deep() {
    let spec = from_yaml_str("
        type: optional
        initPresent: false
        valueType:
            foo:
                type: bool
                init: true
            bar:
                type: bool
                init: true
        ").unwrap();
    let value0 = Value(Node::Optional(Some(Box::new(sub(vec![("foo", Node::Bool(false)), ("bar", Node::Bool(false))])))));
    let value1 = Value(Node::Optional(Some(Box::new(sub(vec![("foo", Node::Bool(true)), ("bar", Node::Bool(true))])))));
    let mut ctx = path_ctx_for(&[&value0, &value1]);
    set_rescaling_at_path(&mut ctx, &["optional"], no_crossover_rescaling());
    let result = cross_two(&mut make_crossover(&[1]), &spec, &value0, &value1, &ALWAYS_CROSSOVER_PARAMS, ctx);
    assert_eq!(result, value1);
}

#[test]
fn crossover_variant_one_deep() {
    let spec = from_yaml_str("
        type: variant
        init: foo
        foo:
            foo:
                type: bool
                init: true
            bar:
                type: bool
                init: true
        bar:
            type: bool
            init: false
        ").unwrap();
    let value0 = Value(Node::Variant("foo".to_string(), Box::new(sub(vec![("foo", Node::Bool(false)), ("bar", Node::Bool(false))]))));
    let value1 = Value(Node::Variant("foo".to_string(), Box::new(sub(vec![("foo", Node::Bool(true)), ("bar", Node::Bool(true))]))));
    let mut ctx = path_ctx_for(&[&value0, &value1]);
    set_rescaling_at_path(&mut ctx, &["foo"], no_crossover_rescaling());
    let result = cross_two(&mut make_crossover(&[1]), &spec, &value0, &value1, &ALWAYS_CROSSOVER_PARAMS, ctx);
    assert_eq!(result, value1);
}

#[test]
fn sub_optional() {
    let spec = from_yaml_str("
        foo:
            type: optional
            initPresent: false
            valueType:
                type: int
                init: 0
                scale: 1
        bar:
            type: optional
            initPresent: true
            valueType:
                type: int
                init: 0
                scale: 1
        ").unwrap();
    let value0 = Value(sub(vec![("foo", Node::Optional(None)), ("bar", Node::Optional(None))]));
    let value1 = Value(sub(vec![
        ("foo", Node::Optional(Some(Box::new(Node::Int(0))))),
        ("bar", Node::Optional(Some(Box::new(Node::Int(0))))),
    ]));
    let ctx = path_ctx_for(&[&value0, &value1]);
    let result = cross_two(&mut make_crossover(&[0, 1]), &spec, &value0, &value1, &ALWAYS_CROSSOVER_PARAMS, ctx);
    if let Node::Sub(mapping) = result.0 {
        assert_eq!(mapping.len(), 2);
        let num_present = mapping
            .iter()
            .filter_map(|(_, val)| if let Node::Optional(value_option) = val { value_option.as_ref() } else { unreachable!() })
            .count();
        assert_eq!(num_present, 1);
    } else {
        unreachable!();
    }
}

const ANON_MAP_BOOL_SPEC: &str = "
        type: anon map
        initSize: 1
        valueType:
            type: bool
            init: true
        ";

#[test]
fn anon_map_crossover() {
    let spec = from_yaml_str(ANON_MAP_BOOL_SPEC).unwrap();
    let value0 = Value(Node::AnonMap(vec![(0, Node::Bool(false)), (1, Node::Bool(false))]));
    let value1 = Value(Node::AnonMap(vec![(0, Node::Bool(true)), (1, Node::Bool(true))]));
    let ctx = path_ctx_for(&[&value0, &value1]);
    let result = cross_two(&mut make_crossover(&[0, 1]), &spec, &value0, &value1, &ALWAYS_CROSSOVER_PARAMS, ctx);
    let v0 = extract_from_value(&result, &["0"]).unwrap();
    let v1 = extract_from_value(&result, &["1"]).unwrap();
    assert_ne!(v0, v1);
}

#[test]
fn anon_map_crossover_size_bounds() {
    let spec_min_size = from_yaml_str("
        type: anon map
        initSize: 1
        minSize: 1
        valueType:
            type: bool
            init: true
        ").unwrap();
    let spec_max_size = from_yaml_str("
        type: anon map
        initSize: 1
        maxSize: 1
        valueType:
            type: bool
            init: true
        ").unwrap();
    let value0 = Value(Node::AnonMap(vec![(0, Node::Bool(false))]));
    let value1 = Value(Node::AnonMap(vec![(1, Node::Bool(true))]));
    let mut path_ctx = PathContext(path_ctx_for(&[&value0, &value1]));
    let mut sut = Crossover::new(SelectionImpl { rng: make_rng() });
    let mut sizes_min_size = HashSet::new();
    let mut sizes_max_size = HashSet::new();
    let crossover_params = CrossoverParams { crossover_prob: 1.0, selection_pressure: 0.5 };
    for _ in 0..100 {
        let result_min_size = sut.crossover(&spec_min_size, &vec![&value0, &value1], &crossover_params, &mut path_ctx, &mut DrawLog::new());
        let result_max_size = sut.crossover(&spec_max_size, &vec![&value0, &value1], &crossover_params, &mut path_ctx, &mut DrawLog::new());
        if let (Node::AnonMap(mapping_min_size), Node::AnonMap(mapping_max_size)) = (result_min_size.0, result_max_size.0) {
            sizes_min_size.insert(mapping_min_size.len());
            sizes_max_size.insert(mapping_max_size.len());
        } else {
            panic!();
        }
    }
    assert_eq!(sizes_min_size, HashSet::from([1, 2]));
    assert_eq!(sizes_max_size, HashSet::from([0, 1]));
}

#[test]
fn anon_map_optional() {
    let spec = from_yaml_str(ANON_MAP_BOOL_SPEC).unwrap();
    let value0 = Value(Node::AnonMap(vec![]));
    let value1 = Value(Node::AnonMap(vec![(0, Node::Bool(true)), (1, Node::Bool(true))]));
    let ctx = path_ctx_for(&[&value0, &value1]);
    let result = cross_two(&mut make_crossover(&[0, 1]), &spec, &value0, &value1, &ALWAYS_CROSSOVER_PARAMS, ctx);
    if let Node::AnonMap(mapping) = result.0 {
        assert_eq!(mapping.len(), 1);
        assert_eq!(mapping[0].1, Node::Bool(true));
    } else {
        unreachable!();
    }
}

const VARIANT_SPEC: &str = "
        type: variant
        init: foo
        foo:
            type: bool
            init: false
        bar:
            type: int
            init: 0
            scale: 1
        ";

#[test]
fn variant_crossover_different_variant() {
    let spec = from_yaml_str(VARIANT_SPEC).unwrap();
    let value0 = Value(Node::Variant("foo".to_string(), Box::new(Node::Bool(true))));
    let value1 = Value(Node::Variant("bar".to_string(), Box::new(Node::Int(3))));
    let mut ctx = path_ctx_for(&[&value0, &value1]);
    set_rescaling_at_path(&mut ctx, &[], no_crossover_rescaling());
    let result = cross_two(&mut make_crossover(&[1]), &spec, &value0, &value1, &ALWAYS_CROSSOVER_PARAMS, ctx);
    assert_eq!(result.0, Node::Variant("bar".to_string(), Box::new(Node::Int(3))));
}

#[test]
fn variant_crossover_same_variant() {
    let spec = from_yaml_str(VARIANT_SPEC).unwrap();
    let value0 = Value(Node::Variant("foo".to_string(), Box::new(Node::Bool(false))));
    let value1 = Value(Node::Variant("bar".to_string(), Box::new(Node::Bool(true))));
    let mut ctx = path_ctx_for(&[&value0, &value1]);
    set_rescaling_at_path(&mut ctx, &[], no_crossover_rescaling());
    let mut sut = make_crossover(&[1]);
    let result = sut.crossover(&spec, &vec![&value0, &value1], &ALWAYS_CROSSOVER_PARAMS, &mut PathContext(ctx), &mut DrawLog::new());
    assert_eq!(result.0, Node::Variant("bar".to_string(), Box::new(Node::Bool(true))));
}

#[test]
fn rescaling_at_root() {
    let spec = from_yaml_str(FOO_BAR_SPEC).unwrap();
    let value0 = Value(sub(vec![("foo", Node::Bool(false)), ("bar", Node::Bool(false))]));
    let value1 = Value(sub(vec![("foo", Node::Bool(true)), ("bar", Node::Bool(true))]));
    let mut ctx = path_ctx_for(&[&value0, &value1]);
    set_rescaling_at_path(&mut ctx, &[], no_crossover_rescaling());
    let result = cross_two(&mut make_crossover(&[0]), &spec, &value0, &value1, &ALWAYS_CROSSOVER_PARAMS, ctx);
    let value_foo = extract_from_value(&result, &["foo"]).unwrap();
    let value_bar = extract_from_value(&result, &["bar"]).unwrap();
    assert_eq!(*value_foo, Node::Bool(false));
    assert_eq!(*value_bar, Node::Bool(false));
}

const ANON_MAP_OF_SUB_SPEC: &str = "
        type: anon map
        initSize: 1
        valueType:
            foo:
                type: bool
                init: true
            bar:
                type: bool
                init: true
        ";

#[test]
fn one_deep_crossover_by_rescaling() {
    let spec = from_yaml_str(ANON_MAP_OF_SUB_SPEC).unwrap();
    let value0 = Value(Node::AnonMap(vec![(0, sub(vec![("foo", Node::Bool(false)), ("bar", Node::Bool(false))]))]));
    let value1 = Value(Node::AnonMap(vec![(0, sub(vec![("foo", Node::Bool(true)), ("bar", Node::Bool(true))]))]));
    let mut ctx = path_ctx_for(&[&value0, &value1]);
    set_rescaling_at_path(&mut ctx, &[], no_crossover_rescaling());
    let result = cross_two(&mut make_crossover(&[0]), &spec, &value0, &value1, &ALWAYS_CROSSOVER_PARAMS, ctx);
    let value_foo = extract_from_value(&result, &["0", "foo"]).unwrap();
    let value_bar = extract_from_value(&result, &["0", "bar"]).unwrap();
    assert_eq!(*value_foo, Node::Bool(false));
    assert_eq!(*value_bar, Node::Bool(false));
}

#[test]
fn full_depth_crossover() {
    let spec = from_yaml_str(ANON_MAP_OF_SUB_SPEC).unwrap();
    let value0 = Value(Node::AnonMap(vec![(0, sub(vec![("foo", Node::Bool(false)), ("bar", Node::Bool(true))]))]));
    let value1 = Value(Node::AnonMap(vec![(0, sub(vec![("foo", Node::Bool(true)), ("bar", Node::Bool(false))]))]));
    let ctx = path_ctx_for(&[&value0, &value1]);
    let result = cross_two(&mut make_crossover(&[0, 1]), &spec, &value0, &value1, &ALWAYS_CROSSOVER_PARAMS, ctx);
    let value_foo = extract_from_value(&result, &["0", "foo"]).unwrap();
    let value_bar = extract_from_value(&result, &["0", "bar"]).unwrap();
    assert_eq!(*value_foo, *value_bar);
}

#[test]
fn complex_scenario() {
    let spec = from_yaml_str("
        foo_sub:
            a:
                type: anon map
                initSize: 1
                valueType:
                    type: bool
                    init: false
            b:
                type: optional
                initPresent: false
                valueType:
                    type: int
                    init: 0
                    scale: 1
        foo:
            type: optional
            initPresent: false
            valueType:
                type: int
                init: 0
                scale: 1
        bar:
            type: optional
            initPresent: false
            valueType:
                type: int
                init: 0
                scale: 1
        ").unwrap();
    let value0 = Value(sub(vec![
        ("foo_sub", sub(vec![
            ("a", Node::AnonMap(vec![(0, Node::Bool(false)), (1, Node::Bool(true))])),
            ("b", Node::Optional(Some(Box::new(Node::Int(5))))),
        ])),
        ("foo", Node::Optional(Some(Box::new(Node::Int(3))))),
        ("bar", Node::Optional(None)),
    ]));
    let value1 = Value(sub(vec![
        ("foo_sub", sub(vec![
            ("a", Node::AnonMap(vec![(0, Node::Bool(true)), (1, Node::Bool(false))])),
            ("b", Node::Optional(None)),
        ])),
        ("foo", Node::Optional(None)),
        ("bar", Node::Optional(Some(Box::new(Node::Int(4))))),
    ]));
    let mut ctx = path_ctx_for(&[&value0, &value1]);
    set_rescaling_at_path(&mut ctx, &["foo_sub", "b"], make_rescaling(1.0, SELECT_1));
    set_rescaling_at_path(&mut ctx, &["foo_sub", "a"], make_rescaling(0.0, SELECT_0));
    set_rescaling_at_path(&mut ctx, &["foo"], make_rescaling(1.0, SELECT_0));
    set_rescaling_at_path(&mut ctx, &["bar"], make_rescaling(1.0, SELECT_1));
    let mut sut = make_crossover_with_pressure_aware_selection();
    let result = sut.crossover(&spec, &vec![&value0, &value1], &ALWAYS_CROSSOVER_PARAMS, &mut PathContext(ctx), &mut DrawLog::new());
    let value_a0 = extract_from_value(&result, &["foo_sub", "a", "0"]).unwrap();
    let value_a1 = extract_from_value(&result, &["foo_sub", "a", "1"]).unwrap();
    let value_b = extract_from_value(&result, &["foo_sub", "b"]).unwrap();
    let value_at_foo = extract_from_value(&result, &["foo", "optional"]).unwrap();
    let value_at_bar = extract_from_value(&result, &["bar", "optional"]).unwrap();
    let foo_sub_value = extract_from_value(&result, &["foo_sub"]).unwrap();
    match foo_sub_value {
        Node::Sub(mapping) => assert_eq!(mapping.len(), 2),
        _ => unreachable!(),
    }
    assert_eq!(*value_a0, Node::Bool(false));
    assert_eq!(*value_a1, Node::Bool(true));
    assert_eq!(*value_b, Node::Optional(None));
    assert_eq!(*value_at_foo, Node::Int(3));
    assert_eq!(*value_at_bar, Node::Int(4));
}

#[test]
fn single_individual_is_copied() {
    let spec = from_yaml_str(FOO_BAR_SPEC).unwrap();
    let value0 = Value(sub(vec![("foo", Node::Bool(false)), ("bar", Node::Bool(true))]));
    let mut sut = make_crossover(&[]);
    let result = sut.crossover(&spec, &vec![&value0], &ALWAYS_CROSSOVER_PARAMS, &mut PathContext::default(), &mut DrawLog::new());
    assert_eq!(result, value0);
}

#[test]
fn crossover_creates_path_nodes() {
    let spec = from_yaml_str(FOO_BAR_SPEC).unwrap();
    let value0 = Value(sub(vec![("foo", Node::Bool(false)), ("bar", Node::Bool(false))]));
    let value1 = Value(sub(vec![("foo", Node::Bool(true)), ("bar", Node::Bool(true))]));
    let mut path_ctx: PathContext<Rescaling> = PathContext::default();
    let mut sut = make_crossover(&[0, 1]);
    sut.crossover(&spec, &vec![&value0, &value1], &ALWAYS_CROSSOVER_PARAMS, &mut path_ctx, &mut DrawLog::new());
    assert_eq!(path_ctx.0.num_children(), 2);
    assert_eq!(path_ctx.0.get_child("foo").num_children(), 0);
}

#[test]
fn single_individual_is_its_own_offspring() {
    let spec = from_yaml_str("
        foo:
            type: anon map
            initSize: 1
            valueType:
                type: real
                init: 0.5
                scale: 1
        bar:
            type: optional
            initPresent: true
            valueType:
                type: int
                init: 3
                scale: 1
        ").unwrap();
    let value = Value(sub(vec![
        ("foo", Node::AnonMap(vec![(4, real_node(1.5)), (2, real_node(-2.0))])),
        ("bar", Node::Optional(Some(Box::new(Node::Int(7))))),
    ]));
    let mut path_ctx = PathContext(path_ctx_for(&[&value]));
    let mut sut = Crossover::new(SelectionImpl { rng: make_rng() });
    let result = sut.crossover(&spec, &vec![&value], &ALWAYS_CROSSOVER_PARAMS, &mut path_ctx, &mut DrawLog::new());
    assert_eq!(result.0, value.0);
}

#[test]
fn crossover_keeps_nested_anon_map_sizes_within_bounds() {
    let spec = from_yaml_str("
        foo:
            type: anon map
            initSize: 2
            minSize: 2
            maxSize: 3
            valueType:
                type: bool
                init: true
        ").unwrap();
    let value0 = Value(sub(vec![("foo", Node::AnonMap(vec![(0, Node::Bool(false)), (1, Node::Bool(false))]))]));
    let value1 = Value(sub(vec![(
        "foo",
        Node::AnonMap(vec![(2, Node::Bool(true)), (3, Node::Bool(true)), (4, Node::Bool(true))]),
    )]));
    let mut path_ctx = PathContext(path_ctx_for(&[&value0, &value1]));
    let mut sut = Crossover::new(SelectionImpl { rng: make_rng() });
    let crossover_params = CrossoverParams { crossover_prob: 1.0, selection_pressure: 0.5 };
    let mut sizes = HashSet::new();
    for _ in 0..200 {
        let result = sut.crossover(&spec, &vec![&value0, &value1], &crossover_params, &mut path_ctx, &mut DrawLog::new());
        match extract_from_value(&result, &["foo"]) {
            Some(Node::AnonMap(m)) => {
                assert!(m.len() >= 2 && m.len() <= 3);
                sizes.insert(m.len());
            },
            _ => panic!(),
        }
    }
    assert_eq!(sizes, HashSet::from([2, 3]));
}

#[test]
fn leaf_offspring_is_the_selected_individual() {
    let spec = from_yaml_str("
        type: real
        init: 0.0
        scale: 1.0
        ").unwrap();
    let value0 = Value(real_node(0.0));
    let value1 = Value(real_node(1.0));
    let ctx = path_ctx_for(&[&value0, &value1]);
    let mut sut = make_crossover(&[1]);
    let mut draws = DrawLog::new();
    let result = sut.crossover(&spec, &vec![&value0, &value1], &ALWAYS_CROSSOVER_PARAMS, &mut PathContext(ctx), &mut draws);
    assert_eq!(result.0, real_node(1.0));
    assert_eq!(draws.len(), 1);
    assert_eq!(draws.get(0), Draw::Select(2, 1));
}

#[test]
fn no_crossover_takes_selected_individual_whole() {
    let spec = from_yaml_str(FOO_BAR_SPEC).unwrap();
    let value0 = Value(sub(vec![("foo", Node::Bool(false)), ("bar", Node::Bool(false))]));
    let value1 = Value(sub(vec![("foo", Node::Bool(true)), ("bar", Node::Bool(true))]));
    let ctx = path_ctx_for(&[&value0, &value1]);
    let mut sut = make_crossover(&[1]);
    let mut draws = DrawLog::new();
    let result = sut.crossover(&spec, &vec![&value0, &value1], &NEVER_CROSSOVER_PARAMS, &mut PathContext(ctx), &mut draws);
    assert_eq!(result.0, value1.0);
    assert_eq!(draws.len(), 2);
    assert_eq!(draws.get(0), Draw::Cross(false));
    assert_eq!(draws.get(1), Draw::Select(2, 1));
}

#[test]
fn crossed_over_variant_crosses_the_holders_of_the_selected_variant() {
    let spec = from_yaml_str(VARIANT_SPEC).unwrap();
    let value0 = Value(Node::Variant("foo".to_string(), Box::new(Node::Bool(true))));
    let value1 = Value(Node::Variant("bar".to_string(), Box::new(Node::Int(3))));
    let ctx = path_ctx_for(&[&value0, &value1]);
    let mut sut = make_crossover(&[1]);
    let mut draws = DrawLog::new();
    let result = sut.crossover(&spec, &vec![&value0, &value1], &ALWAYS_CROSSOVER_PARAMS, &mut PathContext(ctx), &mut draws);
    assert_eq!(result.0, Node::Variant("bar".to_string(), Box::new(Node::Int(3))));
    assert_eq!(draws.len(), 2);
    assert_eq!(draws.get(0), Draw::Cross(true));
    assert_eq!(draws.get(1), Draw::Select(2, 1));
}

#[test]
fn anon_map_crossover_logs_key_order_and_selections() {
    let spec = from_yaml_str(ANON_MAP_BOOL_SPEC).unwrap();
    let value0 = Value(Node::AnonMap(vec![(0, Node::Bool(false))]));
    let value1 = Value(Node::AnonMap(vec![(1, Node::Bool(true))]));
    let ctx = path_ctx_for(&[&value0, &value1]);
    let mut sut = make_crossover(&[1, 1]);
    let mut draws = DrawLog::new();
    let result = sut.crossover(&spec, &vec![&value0, &value1], &ALWAYS_CROSSOVER_PARAMS, &mut PathContext(ctx), &mut draws);
    assert_eq!(draws.get(0), Draw::Cross(true));
    let mut order = vec![];
    let mut j = 1;
    while j < draws.len() {
        match draws.get(j) {
            Draw::Order(k) => order.push(k),
            _ => break,
        }
        j += 1;
    }
    order.sort();
    assert_eq!(order, vec![0, 1]);
    match result.0 {
        Node::AnonMap(m) => {
            let keys: Vec<usize> = m.iter().map(|(k, _)| *k).collect();
            assert_eq!(keys, vec![1]);
        }
        _ => panic!(),
    }
}
