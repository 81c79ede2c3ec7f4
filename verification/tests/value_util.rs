use cambrian::doc::{JsonDoc, JsonNumber, YamlDoc, YamlEntry, YamlNumber};
use cambrian::error::Error;
use cambrian::real_key::RealKey;
use cambrian::spec::Spec;
use cambrian::spec_util::from_yaml_doc;
use cambrian::value::{Node, Value};
use cambrian::value_util::from_json_doc;
use float_cmp::{ApproxEq, F64Margin};

fn real_key(x: f64) -> Option<RealKey> {
    RealKey::from_bits(x.to_bits())
}

fn approx(a: f64, b: f64) -> bool {
    a.approx_eq(b, F64Margin::default())
}

fn real_of(k: RealKey) -> f64 {
    f64::from_bits(k.to_bits())
}

fn spec_from_yaml_str(text: &str) -> Result<Spec, Error> {
    cambrian::spec_util::from_yaml_str(text)
}

fn json_value(d: &JsonDoc) -> serde_json::Value {
    match d {
        JsonDoc::Null => serde_json::Value::Null,
        JsonDoc::Bool(b) => serde_json::Value::Bool(*b),
        JsonDoc::Number(n) => match (n.as_i64, n.as_real) {
            (Some(i), _) => serde_json::Value::from(i),
            (None, Some(k)) => serde_json::Value::from(real_of(k)),
            (None, None) => serde_json::Value::Null,
        },
        JsonDoc::Str(s) => serde_json::Value::String(s.clone()),
        JsonDoc::Array(items) => serde_json::Value::Array(items.iter().map(json_value).collect()),
        JsonDoc::Object(members) => {
            let mut m = serde_json::Map::new();
            for (k, v) in members {
                m.insert(k.clone(), json_value(v));
            }
            serde_json::Value::Object(m)
        },
    }
}

fn from_json_str(text: &str, spec: &Spec) -> Result<Value, Error> {
    cambrian::value_util::from_json_str(text, spec)
}

#[test]
fn invalid_json() {
    let spec_str = "
        type: bool
        init: false
        ";
    let invalid_json_str = "{";
    let spec = spec_from_yaml_str(spec_str).unwrap();
    let result = from_json_str(invalid_json_str, &spec);
    assert!(matches!(result, Err(Error::InvalidJson(_))));
}

#[test]
fn value_util_bool() {
    let spec_str = "
        type: bool
        init: false
        ";
    let spec = spec_from_yaml_str(spec_str).unwrap();
    let result = from_json_str("true", &spec);
    assert!(matches!(result, Ok(Value(Node::Bool(true)))));
}

#[test]
fn bool_wrong_value_type() {
    let spec_str = "
        type: bool
        init: false
        ";
    let spec = spec_from_yaml_str(spec_str).unwrap();
    let result = from_json_str("4.0", &spec);
    assert!(
        matches!(result, Err(Error::WrongTypeForValue { path_hint, type_hint }) if path_hint == *"(root)" && type_hint == *"a boolean" )
    );
}

#[test]
fn value_util_real() {
    let spec_str = "
        type: real
        init: 0
        scale: 1
        ";
    let spec = spec_from_yaml_str(spec_str).unwrap();
    let result = from_json_str("4.0", &spec);
    assert!(matches!(result, Ok(Value(Node::Real(value))) if approx(real_of(value), 4.0)));
}

#[test]
fn real_upper_bound_breach() {
    let spec_str = "
        type: real
        init: 3
        scale: 1
        min: 3
        max: 4
        ";
    let spec = spec_from_yaml_str(spec_str).unwrap();
    let result = from_json_str("4.01", &spec);
    assert!(matches!(result, Err(Error::ValueNotWithinBounds { path_hint }) if path_hint == *"(root)" ));
}

#[test]
fn real_lower_bound_breach() {
    let spec_str = "
        type: real
        init: 3
        scale: 1
        min: 3
        max: 4
        ";
    let spec = spec_from_yaml_str(spec_str).unwrap();
    let result = from_json_str("2.99", &spec);
    assert!(matches!(result, Err(Error::ValueNotWithinBounds { path_hint }) if path_hint == *"(root)" ));
}

#[test]
fn real_not_present() {
    let spec_str = "
        foo:
            type: real
            init: 0
            scale: 1
        bar:
            type: real
            init: 0
            scale: 1
        ";
    let value_str = "{
            \"bar\": 4.0
        }";
    let spec = spec_from_yaml_str(spec_str).unwrap();
    let result = from_json_str(value_str, &spec);
    assert!(matches!(result, Err(Error::MandatoryValueMissing { path_hint }) if path_hint.as_str() == "foo"));
}

#[test]
fn real_wrong_value_type() {
    let spec_str = "
        type: real
        init: 0
        scale: 1
        ";
    let spec = spec_from_yaml_str(spec_str).unwrap();
    let result = from_json_str("{ \"foo\": 4.0}", &spec);
    assert!(
        matches!(result, Err(Error::WrongTypeForValue { path_hint, type_hint }) if path_hint == *"(root)" && type_hint == *"a real number" )
    );
}

#[test]
fn value_util_int() {
    let spec_str = "
        type: int
        init: 0
        scale: 1
        min: 0
        max: 5
        ";
    let spec = spec_from_yaml_str(spec_str).unwrap();
    let result = from_json_str("5", &spec);
    assert!(matches!(result, Ok(Value(Node::Int(5)))));
}

#[test]
fn int_upper_bound_breach() {
    let spec_str = "
        type: int
        init: 3
        scale: 1
        min: 3
        max: 4
        ";
    let spec = spec_from_yaml_str(spec_str).unwrap();
    let result = from_json_str("5", &spec);
    assert!(matches!(result, Err(Error::ValueNotWithinBounds { path_hint }) if path_hint == *"(root)" ));
}

#[test]
fn int_lower_bound_breach() {
    let spec_str = "
        type: int
        init: 3
        scale: 1
        min: 3
        max: 4
        ";
    let spec = spec_from_yaml_str(spec_str).unwrap();
    let result = from_json_str("2", &spec);
    assert!(matches!(result, Err(Error::ValueNotWithinBounds { path_hint }) if path_hint == *"(root)" ));
}

#[test]
fn int_not_present() {
    let spec_str = "
        foo:
            type: int
            init: 0
            scale: 1
        bar:
            type: int
            init: 0
            scale: 1
        ";
    let value_str = "{
            \"bar\": 4
        }";
    let spec = spec_from_yaml_str(spec_str).unwrap();
    let result = from_json_str(value_str, &spec);
    assert!(matches!(result, Err(Error::MandatoryValueMissing { path_hint }) if path_hint.as_str() == "foo"));
}

#[test]
fn int_wrong_value_type() {
    let spec_str = "
        type: int
        init: 0
        scale: 1
        ";
    let spec = spec_from_yaml_str(spec_str).unwrap();
    let result = from_json_str("false", &spec);
    assert!(
        matches!(result, Err(Error::WrongTypeForValue { path_hint, type_hint }) if path_hint == *"(root)" && type_hint == *"integer" )
    );
}

#[test]
fn int_number_conversion_failed() {
    let spec_str = "
        type: int
        init: 0
        scale: 1
        ";
    let spec = spec_from_yaml_str(spec_str).unwrap();
    let result = from_json_str("2.5", &spec);
    assert!(matches!(result, Err(Error::NumberConversionFailed { path_hint }) if path_hint == *"(root)" ));
}

#[test]
fn value_util_sub() {
    let spec_str = "
        foo:
            type: int
            init: 0
            scale: 1
        ";
    let value_str = "{
            \"foo\": 4
        }";
    let spec = spec_from_yaml_str(spec_str).unwrap();
    let result = from_json_str(value_str, &spec);
    assert_eq!(result.unwrap(), Value(Node::Sub(vec![("foo".to_owned(), Node::Int(4))])));
}

#[test]
fn sub_unexpected_key() {
    let spec_str = "
        foo:
            type: int
            init: 0
            scale: 1
        ";
    let value_str = "{
            \"bar\": 4
        }";
    let spec = spec_from_yaml_str(spec_str).unwrap();
    let result = from_json_str(value_str, &spec);
    assert!(matches!(result, Err(Error::UnexpectedKey { path_hint, key }) if path_hint.as_str() == "(root)" && key.as_str() == "bar"));
}

#[test]
fn sub_wrong_type_for_value() {
    let spec_str = "
        foo:
            type: int
            init: 0
            scale: 1
        ";
    let spec = spec_from_yaml_str(spec_str).unwrap();
    let result = from_json_str("false", &spec);
    assert!(
        matches!(result, Err(Error::WrongTypeForValue { path_hint, type_hint }) if path_hint.as_str() == "(root)" && type_hint.as_str() == "map")
    );
}

#[test]
fn sub_not_present() {
    let spec_str = "
        foo:
            bar:
                type: int
                init: 0
                scale: 1
        bar:
            type: int
            init: 0
            scale: 1
        ";
    let value_str = "{
            \"bar\": 4
        }";
    let spec = spec_from_yaml_str(spec_str).unwrap();
    let result = from_json_str(value_str, &spec);
    assert!(matches!(result, Err(Error::MandatoryValueMissing { path_hint }) if path_hint.as_str() == "foo"));
}

#[test]
fn value_util_variant() {
    let spec_str = "
        type: variant
        init: foo
        foo:
            type: int
            init: 0
            scale: 1
        bar:
            type: bool
            init: true
        ";
    let value_str = "{
            \"bar\": false
        }";
    let spec = spec_from_yaml_str(spec_str).unwrap();
    let result = from_json_str(value_str, &spec);
    let expected = Node::Variant("bar".to_string(), Box::new(Node::Bool(false)));
    assert_eq!(result.unwrap(), Value(expected));
}

#[test]
fn variant_unknown() {
    let spec_str = "
        type: variant
        init: foo
        foo:
            type: int
            init: 0
            scale: 1
        bar:
            type: bool
            init: true
        ";
    let value_str = "{
            \"bars\": false
        }";
    let spec = spec_from_yaml_str(spec_str).unwrap();
    let result = from_json_str(value_str, &spec);
    assert!(
        matches!(result, Err(Error::UnknownVariant { path_hint, variant_name }) if path_hint.as_str() == "(root)" && variant_name == "bars")
    );
}

#[test]
fn variant_only_one_allowed() {
    let spec_str = "
        type: variant
        init: foo
        foo:
            type: int
            init: 0
            scale: 1
        bar:
            type: bool
            init: true
        ";
    let value_str = "{
            \"foo\": 1,
            \"bar\": false
        }";
    let spec = spec_from_yaml_str(spec_str).unwrap();
    let result = from_json_str(value_str, &spec);
    assert!(matches!(result, Err(Error::OnlyOneVariantAllowed { path_hint }) if path_hint.as_str() == "(root)"));
}

#[test]
fn variant_wrong_type() {
    let spec_str = "
        type: variant
        init: foo
        foo:
            type: int
            init: 0
            scale: 1
        bar:
            type: bool
            init: true
        ";
    let value_str = "{
            \"foo\": false
        }";
    let spec = spec_from_yaml_str(spec_str).unwrap();
    let result = from_json_str(value_str, &spec);
    assert!(
        matches!(result, Err(Error::WrongTypeForValue { path_hint, type_hint }) if path_hint.as_str() == "foo" && type_hint == "integer")
    );
}

#[test]
fn enum_value() {
    let spec_str = "
        type: enum
        init: foo
        values:
        - foo
        - bar
        ";
    let spec = spec_from_yaml_str(spec_str).unwrap();
    let result = from_json_str("\"bar\"", &spec);
    let expected = Node::Enum("bar".to_string());
    assert_eq!(result.unwrap(), Value(expected));
}

#[test]
fn enum_unknown_value() {
    let spec_str = "
        type: enum
        init: foo
        values:
        - foo
        - bar
        ";
    let spec = spec_from_yaml_str(spec_str).unwrap();
    let result = from_json_str("\"bars\"", &spec);
    assert!(matches!(result, Err(Error::UnknownValue { path_hint, value }) if path_hint.as_str() == "(root)" && value == "bars"));
}

#[test]
fn optional_absent() {
    let spec_str = "
        type: optional
        valueType:
            type: bool
            init: false
        initPresent: true
        ";
    let spec = spec_from_yaml_str(spec_str).unwrap();
    let result = from_json_str("null", &spec);
    assert_eq!(result.unwrap().0, Node::Optional(None));
}

#[test]
fn optional_present() {
    let spec_str = "
        type: optional
        valueType:
            type: bool
            init: false
        initPresent: true
        ";
    let spec = spec_from_yaml_str(spec_str).unwrap();
    let result = from_json_str("true", &spec);
    assert_eq!(result.unwrap().0, Node::Optional(Some(Box::new(Node::Bool(true)))));
}

#[test]
fn optional_wrong_type() {
    let spec_str = "
        type: optional
        valueType:
            type: bool
            init: false
        initPresent: true
        ";
    let spec = spec_from_yaml_str(spec_str).unwrap();
    let result = from_json_str("1", &spec);
    assert!(matches!(result,
        Err(Error::WrongTypeForValue { path_hint, type_hint })
        if path_hint.as_str() == "(root)" && type_hint == "a boolean"));
}

#[test]
fn optional_missing_null() {
    let spec_str = "
        foo:
            type: optional
            initPresent: false
            valueType:
                type: bool
                init: false
        ";
    let spec = spec_from_yaml_str(spec_str).unwrap();
    let result = from_json_str("{}", &spec);
    assert!(matches!(result,
        Err(Error::MandatoryValueMissing { path_hint })
        if path_hint.as_str() == "foo"));
}

#[test]
fn anon_map_no_keys() {
    let spec_str = "
        type: anon map
        initSize: 1
        valueType:
            type: bool
            init: false
        ";
    let value_str = "
        [true]
        ";
    let spec = spec_from_yaml_str(spec_str).unwrap();
    let result = from_json_str(value_str, &spec);
    assert_eq!(result.unwrap(), Value(Node::AnonMap(vec![(0usize, Node::Bool(true))])));
}

#[test]
fn anon_map_with_keys() {
    let spec_str = "
        type: anon map
        initSize: 1
        valueType:
            type: bool
            init: false
        ";
    let value_str = "{
        \"2\": true
        }";
    let spec = spec_from_yaml_str(spec_str).unwrap();
    let result = from_json_str(value_str, &spec);
    assert_eq!(result.unwrap(), Value(Node::AnonMap(vec![(2usize, Node::Bool(true))])));
}

#[test]
fn anon_map_invalid_key() {
    let spec_str = "
        type: anon map
        initSize: 1
        valueType:
            type: bool
            init: false
        ";
    let value_str = "{
        \"foo\": true
        }";
    let spec = spec_from_yaml_str(spec_str).unwrap();
    let result = from_json_str(value_str, &spec);
    assert!(matches!(result, Err(Error::InvalidAnonMapKey { path_hint }) if path_hint.as_str() == "(root)"));
}

#[test]
fn anon_map_wrong_type() {
    let spec_str = "
        type: anon map
        initSize: 1
        valueType:
            type: bool
            init: false
        ";
    let value_str = "
        3
        ";
    let spec = spec_from_yaml_str(spec_str).unwrap();
    let result = from_json_str(value_str, &spec);
    assert!(
        matches!(result, Err(Error::WrongTypeForValue { path_hint, type_hint }) if path_hint.as_str() == "(root)" && type_hint.as_str() == "array or map")
    );
}

const COMPLEX_SPEC: &str = "
        l0a:
            type: anon map
            initSize: 1
            valueType:
                type: sub
                foo:
                    type: int
                    init: 0
                    scale: 1
                bar:
                    type: optional
                    initPresent: true
                    valueType:
                        type: real
                        init: 0
                        scale: 1
                foo_variant:
                    type: optional
                    initPresent: false
                    valueType:
                        type: variant
                        init: foo
                        foo:
                            type: enum
                            init: bar
                            values:
                            - foo
                            - bar
                        bar:
                            type: bool
                            init: false
        l0b:
            type: bool
            init: false
        ";

#[test]
fn complex_example_success() {
    let value_str = "{
            \"l0a\": [
                {
                    \"foo\": 2,
                    \"bar\": 0.2,
                    \"foo_variant\": null
                },
                {
                    \"foo\": 5,
                    \"bar\": null,
                    \"foo_variant\": {
                        \"foo\": \"foo\"
                    }
                },
                {
                    \"foo\": 5,
                    \"bar\": null,
                    \"foo_variant\": {
                        \"bar\": true
                    }
                }
            ],
            \"l0b\": true
        }";
    let spec = spec_from_yaml_str(COMPLEX_SPEC).unwrap();
    let result = from_json_str(value_str, &spec);
    assert!(matches!(result, Ok(_)));
}

#[test]
fn complex_example_wrong_type() {
    let spec_str = "
        l0a:
            type: anon map
            initSize: 1
            valueType:
                type: sub
                foo:
                    type: int
                    init: 0
                    scale: 1
                bar:
                    type: optional
                    initPresent: true
                    valueType:
                        type: real
                        init: 0
                        scale: 1
        l0b:
            type: bool
            init: false
        ";
    let value_str = "{
            \"l0a\": [
                {
                    \"foo\": 2,
                    \"bar\": 0.2
                },
                {
                    \"foo\": false,
                    \"bar\": null
                }
            ],
            \"l0b\": true
        }";
    let spec = spec_from_yaml_str(spec_str).unwrap();
    let result = from_json_str(value_str, &spec);
    assert!(matches!(
        result,
        Err(Error::WrongTypeForValue {
            path_hint,
            type_hint
        }) if path_hint.as_str() == "l0a.1.foo" && type_hint.as_str() == "integer"
    ));
}

#[test]
fn value_scenario() {
    let value = Value(Node::Sub(vec![
        ("a".to_string(), Node::Real(real_key(2.0).unwrap())),
        ("b".to_string(), Node::Int(1)),
        ("c".to_string(), Node::AnonMap(vec![(0, Node::Bool(true))])),
    ]));
    let expect_json_text = r#"{"a":2.0,"b":1,"c":{"0":true}}"#;
    assert_eq!(json_value(&value.to_json()).to_string(), expect_json_text);
}

#[test]
fn json_round_trip_of_complex_value() {
    let spec = spec_from_yaml_str(COMPLEX_SPEC).unwrap();
    let value_str = "{\"l0a\": {\"3\": {\"foo\": 2, \"bar\": 0.5, \"foo_variant\": {\"bar\": true}}}, \"l0b\": false}";
    let value = from_json_str(value_str, &spec).unwrap();
    let again = from_json_doc(&value.to_json(), &spec).unwrap();
    assert_eq!(again, value);
}

#[test]
fn initial_value_conforms_and_reads_back() {
    let spec = spec_from_yaml_str(COMPLEX_SPEC).unwrap();
    let initial = spec.initial_value();
    let text = json_value(&initial.to_json()).to_string();
    assert_eq!(text, r#"{"l0a":{"0":{"bar":0.0,"foo":0,"foo_variant":null}},"l0b":false}"#);
    assert_eq!(from_json_str(&text, &spec).unwrap(), initial);
}
