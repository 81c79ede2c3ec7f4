use cambrian::doc::{YamlDoc, YamlEntry, YamlNumber};
use cambrian::error::Error;
use cambrian::real_key::RealKey;
use cambrian::spec::{Node, Spec};
use cambrian::spec_util::{check_bounds_sanity, check_size_bounds_sanity, from_yaml_doc, is_leaf};
use cambrian::value;
use float_cmp::{ApproxEq, F64Margin};

fn real_key(x: f64) -> Option<RealKey> {
    RealKey::from_bits(x.to_bits())
}

fn approx(a: f64, b: f64) -> bool {
    a.approx_eq(b, F64Margin::default())
}

fn real_of(k: RealKey) -> f64 {
    f64::from_bits(k.to_bits())
}

fn from_yaml_str(text: &str) -> Result<Spec, Error> {
    cambrian::spec_util::from_yaml_str(text)
}

fn map_get<'a>(map: &'a [(String, Node)], key: &str) -> Option<&'a Node> {
    map.iter().find(|(k, _)| k == key).map(|(_, v)| v)
}

#[test]
fn invalid_yaml() {
    let invalid_yaml_str = "{";
    assert!(matches!(from_yaml_str(invalid_yaml_str), Err(Error::InvalidYaml(_))));
}

#[test]
fn yaml_not_map() {
    let yaml_str = "foo";
    assert!(matches!(from_yaml_str(yaml_str), Err(Error::ValueMustBeMap { .. })));
}

#[test]
fn unknown_type_name() {
    let yaml_str = "
        type: foo
        ";
    assert!(matches!(
        from_yaml_str(yaml_str),
        Err(Error::UnknownTypeName { path_hint, unknown_type_name })
        if path_hint == "(root)" && unknown_type_name == "foo"
    ));
}

#[test]
fn const_node() {
    let yaml_str = "
        type: const
        ";
    assert!(matches!(from_yaml_str(yaml_str), Ok(Spec(Node::Const))))
}

#[test]
fn const_unexpected_attribute() {
    let yaml_str = "
        type: const
        init: false
        ";
    assert!(matches!(
        from_yaml_str(yaml_str),
        Err(Error::UnexpectedAttribute { path_hint, unexpected_attribute_name })
        if path_hint == "(root)" && unexpected_attribute_name == "init"
    ));
}

#[test]
fn spec_util_bool() {
    let yaml_str = "
        type: bool
        init: true
        ";
    assert!(matches!(from_yaml_str(yaml_str), Ok(Spec(Node::Bool { init: true }))));
}

#[test]
fn spec_util_real() {
    let yaml_str = "
        type: real
        init: 0.25
        scale: 0.1
        min: -1
        max: 1.6
        ";
    assert!(matches!(
        from_yaml_str(yaml_str),
        Ok(Spec(Node::Real {
            min: Some(min),
            max: Some(max),
            init,
            scale,
        })) if
        approx(real_of(min), -1.0) &&
        approx(real_of(max), 1.6) &&
        approx(real_of(init), 0.25) &&
        approx(real_of(scale), 0.1)
    ));
}

#[test]
fn real_scale_not_strictly_positive() {
    let yaml_str = "
        type: real
        init: 0
        scale: 0.0
        ";
    assert!(matches!(
        from_yaml_str(yaml_str),
        Err(Error::ScaleMustBeStrictlyPositive { path_hint })
        if path_hint == "(root)"
    ));
}

#[test]
fn real_missing_scale() {
    let yaml_str = "
        type: real
        init: 0
        ";
    assert!(matches!(
        from_yaml_str(yaml_str),
        Err(Error::MandatoryAttributeMissing { path_hint, missing_attribute_name })
        if path_hint == "(root)" && missing_attribute_name == "scale"
    ));
}

#[test]
fn real_missing_init() {
    let yaml_str = "
        type: real
        scale: 1
        ";
    assert!(matches!(
        from_yaml_str(yaml_str),
        Err(Error::MandatoryAttributeMissing { path_hint, missing_attribute_name })
        if path_hint == "(root)" && missing_attribute_name == "init"
    ));
}

#[test]
fn real_bounds_sanity() {
    let yaml_str = "
        type: real
        init: 0
        scale: 1
        min: 1
        max: 0
        ";
    assert!(matches!(
        from_yaml_str(yaml_str),
        Err(Error::InvalidBounds { path_hint }) if *"(root)" == path_hint
    ));
}

#[test]
fn non_finite_number() {
    let yaml_str = "
        type: real
        init: 0
        scale: .nan
        ";
    assert!(matches!(
        from_yaml_str(yaml_str),
        Err(Error::NonFiniteNumber { path_hint, attribute_name }) if *"(root)" == path_hint && *"scale" == attribute_name
    ));
}

#[test]
fn real_defaults() {
    let yaml_str = "
        type: real
        init: 0.0
        scale: 1.0
        ";
    assert!(matches!(
        from_yaml_str(yaml_str),
        Ok(Spec(Node::Real {
            min: None,
            max: None,
            init,
            scale,
        })) if
        approx(real_of(init), 0.0) &&
        approx(real_of(scale), 1.0)
    ));
}

#[test]
fn init_not_within_bounds() {
    let yaml_str = "
        type: real
        min: 0
        max: 1
        init: 2
        ";
    assert!(matches!(
        from_yaml_str(yaml_str),
        Err(Error::InitNotWithinBounds { path_hint })
        if path_hint == "(root)"
    ));
}

#[test]
fn spec_util_int() {
    let yaml_str = "
        type: int
        init: 2
        scale: 0.5
        min: -1
        max: 10
        ";
    assert!(matches!(
        from_yaml_str(yaml_str),
        Ok(Spec(Node::Int {
            min: Some(-1),
            max: Some(10),
            init: 2,
            scale,
        })) if
        approx(real_of(scale), 0.5)
    ));
}

#[test]
fn int_missing_scale() {
    let yaml_str = "
        type: int
        init: 0
        ";
    assert!(matches!(
        from_yaml_str(yaml_str),
        Err(Error::MandatoryAttributeMissing { path_hint, missing_attribute_name })
        if path_hint == "(root)" && missing_attribute_name == "scale"
    ));
}

#[test]
fn int_scale_not_positive() {
    let yaml_str = "
        type: int
        init: 0
        scale: -0.5
        ";
    assert!(matches!(
        from_yaml_str(yaml_str),
        Err(Error::ScaleMustBeStrictlyPositive { path_hint })
        if path_hint == "(root)"
    ));
}

#[test]
fn int_missing_init() {
    let yaml_str = "
        type: int
        scale: 1
        ";
    assert!(matches!(
        from_yaml_str(yaml_str),
        Err(Error::MandatoryAttributeMissing { path_hint, missing_attribute_name })
        if path_hint == "(root)" && missing_attribute_name == "init"
    ));
}

#[test]
fn int_bounds_sanity() {
    let yaml_str = "
        type: int
        init: 0
        scale: 1
        min: 1
        max: 0
        ";
    assert!(matches!(
        from_yaml_str(yaml_str),
        Err(Error::InvalidBounds { path_hint }) if *"(root)" == path_hint
    ));
}

#[test]
fn int_defaults() {
    let yaml_str = "
        type: int
        init: 0
        scale: 1.0
        ";
    assert!(matches!(
        from_yaml_str(yaml_str),
        Ok(Spec(Node::Int {
            min: None,
            max: None,
            init: 0,
            scale,
        })) if
        approx(real_of(scale), 1.0)
    ));
}

#[test]
fn spec_util_sub() {
    let yaml_str = "
        foo:
            type: bool
            init: false
        ";
    assert!(matches!(
        from_yaml_str(yaml_str),
        Ok(Spec(Node::Sub {
            map
        })) if map.len() == 1 &&
            *map_get(&map, "foo").unwrap() == Node::Bool { init: false }
    ));
}

#[test]
fn sub_empty() {
    let yaml_str = "
        type: sub
        ";
    assert!(matches!(
        from_yaml_str(yaml_str),
        Err(Error::EmptySub {
            path_hint
        }) if path_hint == "(root)"
    ));
}

#[test]
fn spec_util_anon_map() {
    let yaml_str = "
        type: anon map
        valueType:
            type: bool
            init: false
        initSize: 2
        minSize: 2
        maxSize: 4
        ";
    assert!(matches!(
        from_yaml_str(yaml_str),
        Ok(Spec(Node::AnonMap {
            init_size: 2,
            value_type,
            min_size: Some(2),
            max_size: Some(4)
        })) if *value_type.as_ref() == Node::Bool { init: false }
    ));
}

#[test]
fn anon_map_defaults() {
    let yaml_str = "
        type: anon map
        initSize: 1
        valueType:
            type: bool
            init: false
        ";
    assert!(matches!(
        from_yaml_str(yaml_str),
        Ok(Spec(Node::AnonMap {
            init_size: 1,
            value_type,
            min_size: None,
            max_size: None
        })) if *value_type.as_ref() == Node::Bool { init: false }
    ));
}

#[test]
fn anon_map_zero_max_size() {
    let yaml_str = "
        type: anon map
        valueType:
            type: bool
            init: false
        maxSize: 0
        ";
    assert!(matches!(
        from_yaml_str(yaml_str),
        Err(Error::ZeroMaxSize { path_hint })
        if path_hint == "(root)"
    ));
}

#[test]
fn anon_map_missing_value_type() {
    let yaml_str = "
        type: anon map
        ";
    assert!(matches!(
        from_yaml_str(yaml_str),
        Err(Error::MandatoryAttributeMissing { path_hint, missing_attribute_name })
        if path_hint == "(root)" && missing_attribute_name == "valueType"
    ));
}

#[test]
fn anon_map_invalid_size_bounds() {
    let yaml_str = "
        type: anon map
        valueType:
            type: bool
            init: false
        minSize: 3
        maxSize: 2
        ";
    assert!(matches!(
        from_yaml_str(yaml_str),
        Err(Error::InvalidSizeBounds { path_hint })
        if path_hint == "(root)"
    ));
}

#[test]
fn anon_map_init_size_out_of_bounds() {
    let yaml_str = "
        type: anon map
        valueType:
            type: bool
            init: false
        minSize: 2
        maxSize: 3
        initSize: 4
        ";
    assert!(matches!(
        from_yaml_str(yaml_str),
        Err(Error::InitSizeNotWithinBounds { path_hint })
        if path_hint == "(root)"
    ));
}

#[test]
fn spec_util_variant() {
    let yaml_str = "
        type: variant
        init: bar
        foo:
            type: bool
            init: false
        bar:
            type: int
            init: 0
            scale: 1
        ";
    assert!(matches!(
        from_yaml_str(yaml_str),
        Ok(Spec(Node::Variant {
            map,
            init
        })) if map.len() == 2 &&
            *map_get(&map, "foo").unwrap() == Node::Bool { init: false } &&
            matches!(*map_get(&map, "bar").unwrap(), Node::Int { init: 0, .. }) &&
            init == *"bar"
    ));
}

#[test]
fn variant_not_enough_values() {
    let yaml_str = "
        type: variant
        init: foo
        foo:
            type: bool
            init: false
        ";
    assert!(matches!(
        from_yaml_str(yaml_str),
        Err(Error::NotEnoughVariantValues {
            path_hint
        }) if path_hint == "(root)"
    ));
}

#[test]
fn variant_unknown_init() {
    let yaml_str = "
        type: variant
        init: bars
        foo:
            type: bool
            init: false
        bar:
            type: int
            init: 0
            scale: 1
        ";
    assert!(matches!(
        from_yaml_str(yaml_str),
        Err(Error::InitNotAKnownValue {
            path_hint,
            init
        }) if path_hint == "(root)" && init == "bars"
    ));
}

#[test]
fn enum_spec() {
    let yaml_str = "
        type: enum
        init: bar
        values:
        - foo
        - bar
        ";
    assert!(matches!(
        from_yaml_str(yaml_str),
        Ok(Spec(Node::Enum {
            values,
            init
        })) if values == vec!["foo", "bar"] &&
            init == *"bar"
    ));
}

#[test]
fn enum_not_enough_values() {
    let yaml_str = "
        type: enum
        init: foo
        values:
        - foo
        ";
    assert!(matches!(
        from_yaml_str(yaml_str),
        Err(Error::NotEnoughEnumValues {
            path_hint
        }) if path_hint == "(root)"
    ));
}

#[test]
fn enum_unknown_init() {
    let yaml_str = "
        type: enum
        init: bars
        values:
        - foo
        - bar
        ";
    assert!(matches!(
        from_yaml_str(yaml_str),
        Err(Error::InitNotAKnownValue {
            path_hint,
            init
        }) if path_hint == "(root)" && init == "bars"
    ));
}

#[test]
fn enum_items_must_be_string() {
    let yaml_str = "
        type: enum
        init: \"foo\"
        values:
        - 0
        - foo
        ";
    assert!(matches!(
        from_yaml_str(yaml_str),
        Err(Error::EnumItemsMustBeString {
            path_hint
        }) if path_hint == "(root)"
    ));
}

#[test]
fn optional() {
    let yaml_str = "
        type: optional
        valueType:
            type: bool
            init: true
        initPresent: true
        ";
    let expected = Node::Optional { value_type: Box::new(Node::Bool { init: true }), init_present: true };
    assert_eq!(from_yaml_str(yaml_str).unwrap().0, expected);
}

#[test]
fn optional_init_missing() {
    let yaml_str = "
        type: optional
        valueType:
            type: bool
            init: true
        ";
    if let Error::MandatoryAttributeMissing { path_hint, missing_attribute_name } = from_yaml_str(yaml_str).unwrap_err() {
        assert_eq!(path_hint, "(root)");
        assert_eq!(missing_attribute_name, "initPresent");
    } else {
        panic!();
    }
}

#[test]
fn unexpected_attribute() {
    let yaml_str = "
        type: anon map
        unexpected: false
        ";
    assert!(matches!(
        from_yaml_str(yaml_str),
        Err(Error::UnexpectedAttribute { path_hint, unexpected_attribute_name })
        if path_hint == "(root)" && unexpected_attribute_name == "unexpected"
    ));
}

#[test]
fn invalid_attribute_value_type() {
    let yaml_str = "
        type: anon map
        valueType:
            type: bool
            init: true
        maxSize: true
        ";
    assert!(matches!(
        from_yaml_str(yaml_str),
        Err(Error::InvalidAttributeValueType { path_hint, attribute_name, expected_type_hint })
        if path_hint == "(root)" && attribute_name == "maxSize" && expected_type_hint == "a positive integer"
    ));
}

#[test]
fn invalid_attribute_key_type() {
    let yaml_str = "
        1: 1
        ";
    assert!(matches!(
        from_yaml_str(yaml_str),
        Err(Error::InvalidAttributeKeyType { path_hint, .. })
        if path_hint == "(root)"
    ));
}

#[test]
fn path_hint() {
    let yaml_str = "
        foo:
            type: bar
        ";
    assert!(matches!(
        from_yaml_str(yaml_str),
        Err(Error::UnknownTypeName { path_hint, .. })
        if path_hint == "foo"
    ));
}

#[test]
fn spec_scenario() {
    let spec_str = "
        a:
            type: real
            init: 2.0
            scale: 1.0
        b:
            type: int
            init: 1
            scale: 1
        c:
            type: anon map
            valueType:
                type: bool
                init: true
            initSize: 1 
        d:
            type: variant
            init: foo
            foo:
                type: const
            bar:
                type: bool
                init: false
        ";
    let expected_init_val = value::Value(value::Node::Sub(vec![
        ("a".to_string(), value::Node::Real(real_key(2.0).unwrap())),
        ("b".to_string(), value::Node::Int(1)),
        ("c".to_string(), value::Node::AnonMap(vec![(0, value::Node::Bool(true))])),
        ("d".to_string(), value::Node::Variant("foo".to_string(), Box::new(value::Node::Const))),
    ]));
    let init_val = from_yaml_str(spec_str).unwrap().initial_value();
    assert_eq!(init_val, expected_init_val);
}

#[test]
fn anon_map_zero_init_size() {
    let spec_str = "
        type: anon map
        valueType:
            type: bool
            init: true
        initSize: 0
        ";
    let expected_init_val = value::Value(value::Node::AnonMap(Vec::new()));
    let init_val = from_yaml_str(spec_str).unwrap().initial_value();
    assert_eq!(init_val, expected_init_val);
}

#[test]
fn leaves_and_inner_nodes() {
    assert!(is_leaf(&Node::Bool { init: true }));
    assert!(is_leaf(&Node::Const));
    assert!(is_leaf(&Node::Enum { values: vec!["a".to_string(), "b".to_string()], init: "a".to_string() }));
    assert!(!is_leaf(&Node::Sub { map: vec![("a".to_string(), Node::Const)] }));
    assert!(!is_leaf(&Node::Optional { value_type: Box::new(Node::Const), init_present: false }));
}

#[test]
fn bounds_sanity_checks() {
    assert_eq!(check_bounds_sanity(Some(0), Some(1), &vec!["x"]), Ok(()));
    assert_eq!(check_bounds_sanity(None, Some(1), &vec![]), Ok(()));
    assert_eq!(
        check_bounds_sanity(Some(1), Some(1), &vec!["x", "y"]),
        Err(Error::InvalidBounds { path_hint: "x.y".to_string() })
    );
    assert_eq!(check_size_bounds_sanity(Some(1), Some(2), &vec![]), Ok(()));
    assert_eq!(
        check_size_bounds_sanity(Some(3), Some(2), &vec![]),
        Err(Error::InvalidSizeBounds { path_hint: "(root)".to_string() })
    );
}

#[test]
fn sub_children_keep_document_order() {
    let yaml_str = "
        zeta:
            type: bool
            init: false
        alpha:
            type: const
        ";
    match from_yaml_str(yaml_str).unwrap().0 {
        Node::Sub { map } => {
            assert_eq!(map[0].0, "zeta");
            assert_eq!(map[1].0, "alpha");
        },
        _ => panic!(),
    }
}

#[test]
fn nested_error_path() {
    let yaml_str = "
        outer:
            inner:
                type: int
                init: 5
                scale: 1
                max: 2
        ";
    assert!(matches!(
        from_yaml_str(yaml_str),
        Err(Error::InitNotWithinBounds { path_hint }) if path_hint == "outer.inner"
    ));
}

#[test]
fn key_outside_the_finite_doubles_is_refused() {
    let entry = |k: &str, v: YamlDoc| YamlEntry { key: YamlDoc::Str(k.to_string()), key_text: k.to_string(), value: v };
    let num = |k: Option<RealKey>| YamlDoc::Number(YamlNumber { as_i64: None, as_u64: None, as_real: k });
    let doc = YamlDoc::Mapping(vec![
        entry("type", YamlDoc::Str("real".to_string())),
        entry("init", num(real_key(0.0))),
        entry("scale", num(Some(RealKey(u64::MAX)))),
    ]);
    assert!(matches!(
        from_yaml_doc(&doc),
        Err(Error::NonFiniteNumber { path_hint, attribute_name }) if *"(root)" == path_hint && *"scale" == attribute_name
    ));
}
