use cambrian::doc::{JsonDoc, JsonNumber, YamlDoc, YamlEntry, YamlNumber};
use cambrian::error::Error;
use cambrian::mutation::{mutate, mutate_bool, mutate_enum, mutate_int, mutate_real};
use cambrian::path::{PathContext, PathNodeContext};
use cambrian::real_key::RealKey;
use cambrian::selection::{Draw, DrawLog, MutationChoices};
use cambrian::spec::Spec;
use cambrian::spec_util::from_yaml_doc;
use cambrian::value::{Node, Value};
use cambrian::value_util::from_json_doc;
use float_cmp::{ApproxEq, F64Margin};
use rand::rngs::StdRng;
use rand::{Rng, SeedableRng};
use rand_distr::{Bernoulli, Cauchy, Distribution};
use std::collections::HashSet;

fn real_key(x: f64) -> Option<RealKey> {
    RealKey::from_bits(x.to_bits())
}

fn real_of(k: RealKey) -> f64 {
    f64::from_bits(k.to_bits())
}

fn spec_from_yaml_str(text: &str) -> Result<Spec, Error> {
    cambrian::spec_util::from_yaml_str(text)
}

fn value_from_json_str(text: &str, spec: &Spec) -> Result<Value, Error> {
    cambrian::value_util::from_json_str(text, spec)
}

fn extract_from_node<'a>(node: Option<&'a Node>, path: &[&str]) -> Option<&'a Node> {
    node.and_then(|node| match path.first() {
        Some(head) => match node {
            Node::Sub(mapping) => extract_from_node(mapping.iter().find(|(k, _)| k == head).map(|(_, v)| v), &path[1..]),
            Node::AnonMap(mapping) => {
                let key: usize = head.parse().expect("Invalid path");
                extract_from_node(mapping.iter().find(|(k, _)| *k == key).map(|(_, v)| v), &path[1..])
            },
            Node::Variant(name, value) => {
                if head != name {
                    panic!("Invalid path");
                }
                extract_from_node(Some(value), &path[1..])
            },
            Node::Optional(o) => {
                if *head != "optional" {
                    panic!("Invalid path");
                }
                extract_from_node(o.as_ref().map(|b| b.as_ref()), &path[1..])
            },
            _ => panic!("Invalid path"),
        },
        None => Some(node),
    })
}

fn extract_as_real(value: &Value, path: &[&str]) -> Option<f64> {
    extract_from_node(Some(&value.0), path).map(|n| if let Node::Real(k) = n { real_of(*k) } else { panic!("Node is not of type real") })
}

fn extract_as_int(value: &Value, path: &[&str]) -> Option<i64> {
    extract_from_node(Some(&value.0), path).map(|n| if let Node::Int(x) = n { *x } else { panic!("Node is not of type int") })
}

fn extract_as_bool(value: &Value, path: &[&str]) -> Option<bool> {
    extract_from_node(Some(&value.0), path).map(|n| if let Node::Bool(x) = n { *x } else { panic!("Node is not of type bool") })
}

fn extract_as_anon_map(value: &Value, path: &[&str]) -> Option<Vec<(usize, Node)>> {
    extract_from_node(Some(&value.0), path).map(|n| {
        if let Node::AnonMap(m) = n {
            m.iter().map(|(k, v)| (*k, v.copy())).collect()
        } else {
            panic!("Node is not of type anon map")
        }
    })
}

#[derive(Debug, Clone, Copy)]
struct MutationParams {
    mutation_prob: f64,
    mutation_scale: f64,
}

#[derive(Debug)]
struct Rescaling {
    mutation_prob_factor: f64,
    mutation_scale_factor: f64,
}

impl Default for Rescaling {
    fn default() -> Self {
        Rescaling { mutation_prob_factor: 1.0, mutation_scale_factor: 1.0 }
    }
}

fn make_rescaling(mutation_prob_factor: f64, mutation_scale_factor: f64) -> Rescaling {
    Rescaling { mutation_prob_factor, mutation_scale_factor }
}

fn never_mutate_rescaling() -> Rescaling {
    make_rescaling(0.0, 1.0)
}

fn set_rescaling_at_path(ctx: &mut PathNodeContext<Rescaling>, path: &[&str], rescaling: Rescaling) {
    match path.first() {
        Some(head) => set_rescaling_at_path(ctx.get_child_mut(head), &path[1..], rescaling),
        None => ctx.rescaling_ctx = rescaling,
    }
}

/// The random choices of mutation, drawn as the algorithm draws them.
struct Choices {
    rng: StdRng,
}

impl MutationChoices<Rescaling, MutationParams> for Choices {
    fn rescale(&self, rescaling: &Rescaling, params: &MutationParams) -> MutationParams {
        MutationParams {
            mutation_prob: params.mutation_prob * rescaling.mutation_prob_factor,
            mutation_scale: params.mutation_scale * rescaling.mutation_scale_factor,
        }
    }
    fn decide_to_mutate(&mut self, params: &MutationParams) -> bool {
        Bernoulli::new(params.mutation_prob).unwrap().sample(&mut self.rng)
    }
    fn flip_coin(&mut self) -> bool {
        Bernoulli::new(0.5).unwrap().sample(&mut self.rng)
    }
    fn pick(&mut self, n: usize) -> usize {
        self.rng.gen_range(0..n)
    }
    fn sample_real(&mut self, value: RealKey, scale: RealKey, params: &MutationParams) -> RealKey {
        let x = Cauchy::new(real_of(value), real_of(scale) * params.mutation_scale).unwrap().sample(&mut self.rng);
        real_key(x).unwrap_or(value)
    }
    fn sample_int(&mut self, value: i64, scale: RealKey, params: &MutationParams) -> i64 {
        Cauchy::new(value as f64, real_of(scale) * params.mutation_scale).unwrap().sample(&mut self.rng).round() as i64
    }
}

fn rng() -> Choices {
    Choices { rng: StdRng::seed_from_u64(0) }
}

fn run_mutate(spec: &Spec, value: &Value, params: &MutationParams, path_ctx: &mut PathContext<Rescaling>, choices: &mut Choices) -> Value {
    mutate(spec, value, params, path_ctx, choices, &mut DrawLog::new())
}

#[test]
fn mutate_const() {
    let spec = spec_from_yaml_str("
        type: const
        ").unwrap();
    let value = value_from_json_str("null", &spec).unwrap();
    let mutation_params = MutationParams { mutation_prob: 1.0, mutation_scale: 10.0 };
    let mut rng = rng();
    let mut path_ctx = PathContext::default();
    path_ctx.0.add_nodes_for(&value.0);
    let result = run_mutate(&spec, &value, &mutation_params, &mut path_ctx, &mut rng);
    assert_eq!(result.0, Node::Const);
}

#[test]
fn mutate_bool_guaranteed_not() {
    let mutation_params = MutationParams { mutation_prob: 0.0, mutation_scale: 1.0 };
    let result = mutate_bool(true, &mutation_params, &mut rng(), &mut DrawLog::new());
    assert!(result);
}

#[test]
fn mutate_bool_guaranteed() {
    let mutation_params = MutationParams { mutation_prob: 1.0, mutation_scale: 1.0 };
    let result = mutate_bool(true, &mutation_params, &mut rng(), &mut DrawLog::new());
    assert!(!result);
}

#[test]
fn mutate_enum_guaranteed() {
    let mutation_params = MutationParams { mutation_prob: 1.0, mutation_scale: 1.0 };
    let current_value = "foo";
    let spec_values = vec!["foo".to_string(), "bar".to_string()];
    let result = mutate_enum(&spec_values, current_value, &mutation_params, &mut rng(), &mut DrawLog::new());
    assert!(Node::Enum(result) == Node::Enum("bar".to_string()));
}

#[test]
fn mutate_enum_guaranteed_not() {
    let mutation_params = MutationParams { mutation_prob: 0.0, mutation_scale: 1.0 };
    let current_value = "foo";
    let spec_values = vec!["foo".to_string(), "bar".to_string()];
    let result = mutate_enum(&spec_values, current_value, &mutation_params, &mut rng(), &mut DrawLog::new());
    assert!(Node::Enum(result) == Node::Enum("foo".to_string()));
}

fn ten() -> RealKey {
    real_key(10.0).unwrap()
}

#[test]
fn mutate_int_guaranteed_not() {
    let mutation_params = MutationParams { mutation_prob: 0.0, mutation_scale: 1.0 };
    let result = mutate_int(10, ten(), None, None, &mutation_params, &mut rng(), &mut DrawLog::new());
    assert_eq!(result, 10);
}

#[test]
fn mutate_int_guaranteed() {
    let mutation_params = MutationParams { mutation_prob: 1.0, mutation_scale: 10.0 };
    let mut rng = rng();
    let mut found_changed = false;
    for _ in 0..100 {
        let result = mutate_int(10, ten(), None, None, &mutation_params, &mut rng, &mut DrawLog::new());
        if result != 10 {
            found_changed = true;
        }
    }
    assert!(found_changed);
}

#[test]
fn mutate_int_near_zero_scale() {
    let mutation_params = MutationParams { mutation_prob: 1.0, mutation_scale: 1e-9 };
    let mut rng = rng();
    let mut found_changed = false;
    for _ in 0..100 {
        let result = mutate_int(10, ten(), None, None, &mutation_params, &mut rng, &mut DrawLog::new());
        if result != 10 && result != 9 {
            found_changed = true;
        }
    }
    assert!(!found_changed);
}

#[test]
fn mutate_int_min_and_max() {
    let mutation_params = MutationParams { mutation_prob: 1.0, mutation_scale: 10.0 };
    let mut rng = rng();
    let mut values = HashSet::new();
    for _ in 0..500 {
        let result = mutate_int(10, ten(), Some(9), Some(11), &mutation_params, &mut rng, &mut DrawLog::new());
        values.insert(result);
    }
    assert_eq!(values, HashSet::from_iter([9, 10, 11]));
}

#[test]
fn mutate_real_guaranteed_not() {
    let mutation_params = MutationParams { mutation_prob: 0.0, mutation_scale: 1.0 };
    let result = mutate_real(ten(), ten(), None, None, &mutation_params, &mut rng(), &mut DrawLog::new());
    assert_eq!(real_of(result), 10.0);
}

#[test]
fn mutate_real_guaranteed() {
    let mutation_params = MutationParams { mutation_prob: 1.0, mutation_scale: 1.0 };
    let result = mutate_real(ten(), ten(), None, None, &mutation_params, &mut rng(), &mut DrawLog::new());
    assert_ne!(real_of(result), 10.0);
}

#[test]
fn mutate_real_min_and_max() {
    let mutation_params = MutationParams { mutation_prob: 1.0, mutation_scale: 10.0 };
    let mut rng = rng();
    let mut values = Vec::new();
    for _ in 0..500 {
        let result = mutate_real(ten(), ten(), real_key(9.0), real_key(11.0), &mutation_params, &mut rng, &mut DrawLog::new());
        values.push(real_of(result));
    }
    let min_found = values.iter().cloned().fold(f64::INFINITY, f64::min);
    assert!(min_found >= 9.0);
    assert!(min_found < 10.0);
    let max_found = values.iter().cloned().fold(f64::NEG_INFINITY, f64::max);
    assert!(max_found <= 11.0);
    assert!(max_found > 10.0);
}

const OPTIONAL_BOOL_SPEC: &str = "
        type: optional
        initPresent: false
        valueType:
            type: bool
            init: false
        ";

#[test]
fn mutate_optional_some_to_none() {
    let spec = spec_from_yaml_str(OPTIONAL_BOOL_SPEC).unwrap();
    let value = value_from_json_str("true", &spec).unwrap();
    let mutation_params = MutationParams { mutation_prob: 1.0, mutation_scale: 10.0 };
    let mut rng = rng();
    let mut path_ctx = PathContext::default();
    path_ctx.0.add_nodes_for(&value.0);
    let result = run_mutate(&spec, &value, &mutation_params, &mut path_ctx, &mut rng);
    assert_eq!(result.0, Node::Optional(None));
}

#[test]
fn mutate_optional_none_to_some() {
    let spec = spec_from_yaml_str(OPTIONAL_BOOL_SPEC).unwrap();
    let value = value_from_json_str("null", &spec).unwrap();
    let mutation_params = MutationParams { mutation_prob: 1.0, mutation_scale: 10.0 };
    let mut rng = rng();
    let mut path_ctx = PathContext::default();
    path_ctx.0.add_nodes_for(&value.0);
    let result = run_mutate(&spec, &value, &mutation_params, &mut path_ctx, &mut rng);
    assert_eq!(result.0, Node::Optional(Some(Box::new(Node::Bool(true)))));
}

#[test]
fn mutate_optional_guaranteed_not() {
    let spec = spec_from_yaml_str(OPTIONAL_BOOL_SPEC).unwrap();
    let value = value_from_json_str("false", &spec).unwrap();
    let mutation_params = MutationParams { mutation_prob: 0.0, mutation_scale: 10.0 };
    let mut rng = rng();
    let mut path_ctx = PathContext::default();
    path_ctx.0.add_nodes_for(&value.0);
    let result = run_mutate(&spec, &value, &mutation_params, &mut path_ctx, &mut rng);
    assert_eq!(result.0, Node::Optional(Some(Box::new(Node::Bool(false)))));
}

#[test]
fn mutate_optional_one_deep() {
    let spec = spec_from_yaml_str(OPTIONAL_BOOL_SPEC).unwrap();
    let value = value_from_json_str("null", &spec).unwrap();
    let other_value = value_from_json_str("false", &spec).unwrap();
    let mutation_params = MutationParams { mutation_prob: 1.0, mutation_scale: 10.0 };
    let mut rng = rng();
    let mut path_ctx = PathContext::default();
    path_ctx.0.add_nodes_for(&value.0);
    path_ctx.0.add_nodes_for(&other_value.0);
    set_rescaling_at_path(&mut path_ctx.0, &["optional"], never_mutate_rescaling());
    let result = run_mutate(&spec, &value, &mutation_params, &mut path_ctx, &mut rng);
    assert_eq!(result.0, Node::Optional(Some(Box::new(Node::Bool(false)))));
}

const VARIANT_SPEC: &str = "
        type: variant
        init: foo
        foo:
            type: int
            init: 0
            scale: 1
        bar:
            type: bool
            init: false
        ";

#[test]
fn mutate_variant_guaranteed() {
    let spec = spec_from_yaml_str(VARIANT_SPEC).unwrap();
    let value = value_from_json_str("{\"foo\": 1}", &spec).unwrap();
    let mutation_params = MutationParams { mutation_prob: 1.0, mutation_scale: 10.0 };
    let mut rng = rng();
    let mut path_ctx = PathContext::default();
    path_ctx.0.add_nodes_for(&value.0);
    let result = run_mutate(&spec, &value, &mutation_params, &mut path_ctx, &mut rng);
    assert_eq!(result.0, Node::Variant("bar".to_string(), Box::new(Node::Bool(true))));
}

#[test]
fn mutate_variant_guaranteed_not() {
    let spec = spec_from_yaml_str(VARIANT_SPEC).unwrap();
    let value = value_from_json_str("{\"foo\": 1}", &spec).unwrap();
    let mutation_params = MutationParams { mutation_prob: 0.0, mutation_scale: 10.0 };
    let mut rng = rng();
    let mut path_ctx = PathContext::default();
    path_ctx.0.add_nodes_for(&value.0);
    let result = run_mutate(&spec, &value, &mutation_params, &mut path_ctx, &mut rng);
    assert_eq!(result.0, Node::Variant("foo".to_string(), Box::new(Node::Int(1))));
}

#[test]
fn mutate_variant_one_deep() {
    let spec = spec_from_yaml_str(VARIANT_SPEC).unwrap();
    let value = value_from_json_str("{\"foo\": 1}", &spec).unwrap();
    let other_value = value_from_json_str("{\"bar\": false}", &spec).unwrap();
    let mutation_params = MutationParams { mutation_prob: 1.0, mutation_scale: 10.0 };
    let mut rng = rng();
    let mut path_ctx = PathContext::default();
    path_ctx.0.add_nodes_for(&value.0);
    path_ctx.0.add_nodes_for(&other_value.0);
    set_rescaling_at_path(&mut path_ctx.0, &["bar"], never_mutate_rescaling());
    let result = run_mutate(&spec, &value, &mutation_params, &mut path_ctx, &mut rng);
    assert_eq!(result.0, Node::Variant("bar".to_string(), Box::new(Node::Bool(false))));
}

#[test]
fn mutate_sub() {
    let spec = spec_from_yaml_str("
        real_a:
            type: optional
            initPresent: false
            valueType:
                type: real
                init: 0
                scale: 1
        real_b:
            type: optional
            initPresent: false
            valueType:
                type: real
                init: 0
                scale: 1
        real_c:
            type: real
            init: 0
            scale: 1
        int_a:
            type: optional
            initPresent: false
            valueType:
                type: int
                init: 0
                scale: 1
        int_b:
            type: optional
            initPresent: false
            valueType:
                type: int
                init: 0
                scale: 1
        int_c:
            type: int
            init: 0
            scale: 1
        bool_a:
            type: bool
            init: false
        ").unwrap();
    let value_str = r#"
        {
            "real_a": 1,
            "real_b": null,
            "real_c": 2,
            "int_a": 3,
            "int_b": null,
            "int_c": 4,
            "bool_a": true
        }
        "#;
    let value = value_from_json_str(value_str, &spec).unwrap();
    let mutation_params = MutationParams { mutation_prob: 1.0, mutation_scale: 10.0 };
    let mut rng = rng();
    let mut path_ctx = PathContext::default();
    path_ctx.0.add_nodes_for(&value.0);
    let result = run_mutate(&spec, &value, &mutation_params, &mut path_ctx, &mut rng);

    assert!(extract_as_real(&result, &["real_a", "optional"]).is_none());
    assert!(matches!(extract_as_real(&result, &["real_b", "optional"]), Some(value) if value != 0.0));
    assert!(matches!(extract_as_real(&result, &["real_c"]), Some(value) if value != 2.0));
    assert!(extract_as_int(&result, &["int_a", "optional"]).is_none());
    assert!(extract_as_int(&result, &["int_b", "optional"]).is_some());
    assert!(extract_as_int(&result, &["int_c"]).is_some());
    assert!(!extract_as_bool(&result, &["bool_a"]).unwrap());
}

#[test]
fn mutate_anon_map() {
    let spec = spec_from_yaml_str("
        type: anon map
        valueType:
            type: bool
            init: false
        initSize: 1
        minSize: 1
        maxSize: 4
        ").unwrap();
    let value_str = r#"
        {
            "0": false,
            "1": false
        }
        "#;
    let mut value = value_from_json_str(value_str, &spec).unwrap();
    let mutation_params = MutationParams { mutation_prob: 1.0, mutation_scale: 10.0 };
    let mut rng = rng();
    let mut path_ctx = PathContext::default();
    path_ctx.0.add_nodes_for(&value.0);
    let mut out_values = Vec::new();
    for _ in 0..1000 {
        let mutated_value = run_mutate(&spec, &value, &mutation_params, &mut path_ctx, &mut rng);
        let original_map = extract_as_anon_map(&value, &[]).unwrap();
        let mutated_map = extract_as_anon_map(&mutated_value, &[]).unwrap();
        if original_map.len() > 1 && original_map.len() < 4 {
            assert!(mutated_map.len() != original_map.len());
        }
        for (key, mutated_val) in mutated_map {
            if let Node::Bool(mutated_val) = mutated_val {
                let original_val = original_map.iter().find(|(k, _)| *k == key).map(|(_, v)| v);
                if let Some(Node::Bool(original_val)) = original_val {
                    assert_ne!(mutated_val, *original_val);
                }
            } else {
                unreachable!()
            }
        }
        value = mutated_value;
        out_values.push(value.0.copy());
    }
    let sizes: Vec<usize> = out_values.iter().map(|v| if let Node::AnonMap(m) = v { m.len() } else { unreachable!() }).collect();
    let min_size = *sizes.iter().min().unwrap();
    let max_size = *sizes.iter().max().unwrap();
    assert_eq!(min_size, 1);
    assert_eq!(max_size, 4);
}

#[test]
fn mutate_non_empty_anon_map() {
    let spec = spec_from_yaml_str("
        type: anon map
        initSize: 1
        minSize: 1
        valueType:
            type: int
            init: 1
            scale: 1
        ").unwrap();
    let value = value_from_json_str(r#"{ "0": 10 }"#, &spec).unwrap();
    let mutation_params = MutationParams { mutation_prob: 1.0, mutation_scale: 1e-12 };
    let mut rng = rng();
    let mut path_ctx = PathContext::default();
    path_ctx.0.add_nodes_for(&value.0);
    let result = run_mutate(&spec, &value, &mutation_params, &mut path_ctx, &mut rng);
    assert_eq!(extract_as_int(&result, &["1"]).unwrap(), 10);
}

#[test]
fn mutate_empty_anon_map() {
    let spec = spec_from_yaml_str("
        type: anon map
        initSize: 1
        minSize: 0
        valueType:
            type: int
            init: 1
            scale: 1
        ").unwrap();
    let value = value_from_json_str("{}", &spec).unwrap();
    let mutation_params = MutationParams { mutation_prob: 1.0, mutation_scale: 1e-12 };
    let mut rng = rng();
    let mut path_ctx = PathContext::default();
    path_ctx.0.add_nodes_for(&value.0);
    let result = run_mutate(&spec, &value, &mutation_params, &mut path_ctx, &mut rng);
    assert_eq!(extract_as_int(&result, &["0"]).unwrap(), 1);
}

#[test]
fn rescale_mut_prob() {
    let spec = spec_from_yaml_str("
        foo:
            type: bool
            init: false
        ").unwrap();
    let value = value_from_json_str(r#"{ "foo": false }"#, &spec).unwrap();
    let mutation_params = MutationParams { mutation_prob: 1.0, mutation_scale: 10.0 };
    let mut rng = rng();
    let mut path_ctx = PathContext::default();
    path_ctx.0.add_nodes_for(&value.0);
    set_rescaling_at_path(&mut path_ctx.0, &["foo"], never_mutate_rescaling());
    let result = run_mutate(&spec, &value, &mutation_params, &mut path_ctx, &mut rng);
    assert!(!extract_as_bool(&result, &["foo"]).unwrap());
}

#[test]
fn rescale_mut_prob_anon_map_deep() {
    let spec = spec_from_yaml_str("
        type: anon map
        initSize: 1
        minSize: 1
        valueType: 
            foo:
                type: bool
                init: false
        ").unwrap();
    let value = value_from_json_str(r#"{ "0": { "foo": false } }"#, &spec).unwrap();
    let mutation_params = MutationParams { mutation_prob: 1.0, mutation_scale: 10.0 };
    let mut rng = rng();
    let mut path_ctx = PathContext::default();
    path_ctx.0.add_nodes_for(&value.0);
    set_rescaling_at_path(&mut path_ctx.0, &["0", "foo"], never_mutate_rescaling());
    let result = run_mutate(&spec, &value, &mutation_params, &mut path_ctx, &mut rng);
    assert_eq!(extract_as_anon_map(&result, &[]).unwrap().len(), 2);
    assert!(!extract_as_bool(&result, &["0", "foo"]).unwrap());
    assert!(extract_as_bool(&result, &["1", "foo"]).unwrap());
}

#[test]
fn rescale_mut_scale() {
    let spec = spec_from_yaml_str("
        type: real
        init: 0
        scale: 1
        ").unwrap();
    let value = value_from_json_str("1.0", &spec).unwrap();
    let mutation_params = MutationParams { mutation_prob: 1.0, mutation_scale: 10.0 };
    let mut rng = rng();
    let mut path_ctx = PathContext::default();
    path_ctx.0.add_nodes_for(&value.0);
    set_rescaling_at_path(&mut path_ctx.0, &[], make_rescaling(1.0, 1e-9));
    let result = run_mutate(&spec, &value, &mutation_params, &mut path_ctx, &mut rng);
    let result = extract_as_real(&result, &[]).unwrap();
    assert!(result.approx_eq(1.0, F64Margin { epsilon: 1e-6, ulps: 0 }));
}

#[test]
fn stochstic_scenario() {
    let spec = spec_from_yaml_str("
        foo:
            type: optional
            initPresent: false
            valueType:
                bar:
                    type: bool
                    init: false
        ").unwrap();
    let value = value_from_json_str(r#"{ "foo": null }"#, &spec).unwrap();
    let val_for_path_prep = value_from_json_str(r#"{ "foo": { "bar": false } }"#, &spec).unwrap();
    let mutation_params = MutationParams { mutation_prob: 1.0, mutation_scale: 10.0 };
    let mut rng = rng();
    let mut path_ctx = PathContext::default();
    path_ctx.0.add_nodes_for(&val_for_path_prep.0);
    set_rescaling_at_path(&mut path_ctx.0, &["foo", "optional", "bar"], make_rescaling(0.5, 1.0));
    const N: usize = 10000;
    let mut true_count = 0;
    for _ in 0..N {
        let result = run_mutate(&spec, &value, &mutation_params, &mut path_ctx, &mut rng);
        if extract_as_bool(&result, &["foo", "optional", "bar"]).unwrap_or(false) {
            true_count += 1;
        }
    }
    let true_fraction = true_count as f64 / N as f64;
    assert!(true_fraction.approx_eq(0.5, F64Margin { epsilon: 5e-2, ulps: 0 }));
}

#[test]
fn enum_without_alternative_stays() {
    let spec = spec_from_yaml_str("
        type: enum
        init: a
        values:
        - a
        - a
        ").unwrap();
    let value = spec.initial_value();
    let mutation_params = MutationParams { mutation_prob: 1.0, mutation_scale: 1.0 };
    let mut path_ctx = PathContext::default();
    let mut draws = DrawLog::new();
    let result = mutate(&spec, &value, &mutation_params, &mut path_ctx, &mut rng(), &mut draws);
    assert_eq!(result.0, value.0);
    assert_eq!(draws.len(), 1);
    assert_eq!(draws.get(0), Draw::Decide(true));
}

#[test]
fn mutation_keeps_values_within_spec() {
    let spec = spec_from_yaml_str("
        r:
            type: real
            init: 0.5
            scale: 100
            min: 0
            max: 1
        i:
            type: int
            init: 3
            scale: 100
            min: -5
            max: 5
        ").unwrap();
    let mut value = spec.initial_value();
    let mutation_params = MutationParams { mutation_prob: 1.0, mutation_scale: 10.0 };
    let mut rng = rng();
    let mut path_ctx = PathContext::default();
    for _ in 0..200 {
        value = run_mutate(&spec, &value, &mutation_params, &mut path_ctx, &mut rng);
        let r = extract_as_real(&value, &["r"]).unwrap();
        let i = extract_as_int(&value, &["i"]).unwrap();
        assert!((0.0..=1.0).contains(&r));
        assert!((-5..=5).contains(&i));
    }
}

#[test]
fn mutation_keeps_nested_anon_map_sizes_within_bounds() {
    let spec = spec_from_yaml_str("
        outer:
            type: anon map
            initSize: 2
            minSize: 1
            maxSize: 3
            valueType:
                type: anon map
                initSize: 1
                minSize: 1
                maxSize: 2
                valueType:
                    type: bool
                    init: false
        ").unwrap();
    let mut value = spec.initial_value();
    let mutation_params = MutationParams { mutation_prob: 1.0, mutation_scale: 1.0 };
    let mut rng = rng();
    let mut path_ctx = PathContext::default();
    path_ctx.0.add_nodes_for(&value.0);
    for _ in 0..300 {
        value = run_mutate(&spec, &value, &mutation_params, &mut path_ctx, &mut rng);
        let outer = extract_as_anon_map(&value, &["outer"]).unwrap();
        assert!(outer.len() >= 1 && outer.len() <= 3);
        for (_, inner) in outer {
            match inner {
                Node::AnonMap(m) => assert!(m.len() >= 1 && m.len() <= 2),
                _ => panic!(),
            }
        }
    }
}

#[test]
fn mutation_follows_logged_draws() {
    let spec = spec_from_yaml_str("
        a:
            type: bool
            init: false
        b:
            type: bool
            init: true
        ").unwrap();
    let value = value_from_json_str(r#"{ "a": false, "b": true }"#, &spec).unwrap();
    let mutation_params = MutationParams { mutation_prob: 1.0, mutation_scale: 1.0 };
    let mut rng = rng();
    let mut path_ctx = PathContext::default();
    path_ctx.0.add_nodes_for(&value.0);
    let mut draws = DrawLog::new();
    let result = mutate(&spec, &value, &mutation_params, &mut path_ctx, &mut rng, &mut draws);
    assert_eq!(draws.len(), 2);
    assert_eq!(draws.get(0), Draw::Decide(true));
    assert_eq!(draws.get(1), Draw::Decide(true));
    assert_eq!(extract_as_bool(&result, &["a"]), Some(true));
    assert_eq!(extract_as_bool(&result, &["b"]), Some(false));
}

#[test]
fn unmutated_real_logs_one_decision() {
    let mutation_params = MutationParams { mutation_prob: 0.0, mutation_scale: 1.0 };
    let mut draws = DrawLog::new();
    let result = mutate_real(ten(), ten(), None, None, &mutation_params, &mut rng(), &mut draws);
    assert_eq!(result, ten());
    assert_eq!(draws.len(), 1);
    assert_eq!(draws.get(0), Draw::Decide(false));
}

#[test]
fn empty_anon_map_grows_from_initial_value() {
    let spec = spec_from_yaml_str("
        type: anon map
        initSize: 1
        minSize: 0
        valueType:
            type: int
            init: 1
            scale: 1
        ").unwrap();
    let value = value_from_json_str("{}", &spec).unwrap();
    let mutation_params = MutationParams { mutation_prob: 1.0, mutation_scale: 1e-12 };
    let mut path_ctx = PathContext::default();
    path_ctx.0.add_nodes_for(&value.0);
    let mut draws = DrawLog::new();
    let result = mutate(&spec, &value, &mutation_params, &mut path_ctx, &mut rng(), &mut draws);
    assert!(draws.len() >= 2);
    assert_eq!(draws.get(0), Draw::Decide(true));
    assert_eq!(draws.get(1), Draw::Decide(true));
    assert_eq!(extract_as_anon_map(&result, &[]).unwrap().len(), 1);
    assert_eq!(extract_as_int(&result, &["0"]).unwrap(), 1);
}

#[test]
fn declined_mutation_keeps_nested_value() {
    let spec = spec_from_yaml_str("
        o:
            type: optional
            initPresent: true
            valueType:
                type: int
                init: 2
                scale: 1
        v:
            type: variant
            init: x
            x:
                type: bool
                init: true
            y:
                type: real
                init: 1.5
                scale: 1
        m:
            type: anon map
            initSize: 2
            valueType:
                type: bool
                init: false
        ").unwrap();
    let value = spec.initial_value();
    let mutation_params = MutationParams { mutation_prob: 0.0, mutation_scale: 1.0 };
    let mut path_ctx = PathContext::default();
    path_ctx.0.add_nodes_for(&value.0);
    let mut draws = DrawLog::new();
    let result = mutate(&spec, &value, &mutation_params, &mut path_ctx, &mut rng(), &mut draws);
    assert_eq!(result.0, value.0);
    assert!(draws.len() > 0);
    for i in 0..draws.len() {
        assert_eq!(draws.get(i), Draw::Decide(false));
    }
}
