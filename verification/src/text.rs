//! Documents read from YAML and JSON text by `serde_yaml` and `serde_json`,
//! taken over node by node into the library's document trees.
use vstd::prelude::*;
use crate::doc::{JsonDoc, JsonDocV, JsonNumber, YamlDoc, YamlEntry, YamlNumber};
use crate::real_key::RealKey;
use serde_json::Value as JsonNode;
use serde_yaml::Value as YamlNode;

verus! {

/// A YAML document as `serde_yaml` reads it.
#[verifier::external_type_specification]
#[verifier::external_body]
pub struct ExYamlNode(YamlNode);

/// The document that `serde_yaml::from_str` reads from a text, taken node by
/// node into a `YamlDoc`, if it reads one.
pub uninterp spec fn parsed_yaml(text: Seq<char>) -> Option<YamlDoc>;

/// A YAML node of `serde_yaml` as a `YamlDoc`, variant by variant: numbers
/// with each of their readings (a real one as its order key, none where it
/// is not finite), mapping entries in order, tags dropped.
#[verifier::external_body]
fn yaml_doc_of(v: &YamlNode) -> YamlDoc {
    match v {
        YamlNode::Null => YamlDoc::Null,
        YamlNode::Bool(b) => YamlDoc::Bool(*b),
        YamlNode::Number(n) => YamlDoc::Number(YamlNumber {
            as_i64: n.as_i64(),
            as_u64: n.as_u64(),
            as_real: n.as_f64().and_then(|x| RealKey::from_bits(x.to_bits())),
        }),
        YamlNode::String(s) => YamlDoc::Str(s.clone()),
        YamlNode::Sequence(items) => YamlDoc::Sequence(items.iter().map(yaml_doc_of).collect()),
        YamlNode::Mapping(m) => YamlDoc::Mapping(m.iter().map(|(k, v)| yaml_entry_of(k, v)).collect()),
        YamlNode::Tagged(t) => YamlDoc::Tagged(Box::new(yaml_doc_of(&t.value))),
    }
}

/// A mapping entry of `serde_yaml` as a `YamlEntry`: the key, the key as
/// `serde_yaml::to_string` writes it (without its line breaks), the value.
#[verifier::external_body]
fn yaml_entry_of(k: &YamlNode, v: &YamlNode) -> YamlEntry {
    let key_text = serde_yaml::to_string(k).unwrap_or_default().replace('\n', "");
    YamlEntry { key: yaml_doc_of(k), key_text, value: yaml_doc_of(v) }
}

/// Reads YAML text with `serde_yaml::from_str` (into a `serde_yaml::Value`,
/// taken over by `yaml_doc_of`); its error shown as text. The contract says
/// only that the result is that function of the text (`parsed_yaml`); the
/// YAML grammar it does not spell out.
#[verifier::external_body]
pub(crate) fn parse_yaml(text: &str) -> (r: Result<YamlDoc, String>)
    ensures
        match r {
            Ok(d) => parsed_yaml(text@) == Some(d),
            Err(_) => parsed_yaml(text@) is None,
        },
{
    match serde_yaml::from_str::<YamlNode>(text) {
        Ok(v) => Ok(yaml_doc_of(&v)),
        Err(e) => Err(e.to_string()),
    }
}


/// A JSON document as `serde_json` reads it.
#[verifier::external_type_specification]
#[verifier::external_body]
pub struct ExJsonNode(JsonNode);

/// The document that `serde_json::from_str` reads from a text, taken node by
/// node into a `JsonDoc`, if it reads one.
pub uninterp spec fn parsed_json(text: Seq<char>) -> Option<JsonDocV>;

/// A JSON node of `serde_json` as a `JsonDoc`, variant by variant: numbers
/// with their readings as a signed integer and as a real's order key (none
/// where it is not finite), object members in the order `serde_json` keeps.
#[verifier::external_body]
fn json_doc_of(v: &JsonNode) -> JsonDoc {
    match v {
        JsonNode::Null => JsonDoc::Null,
        JsonNode::Bool(b) => JsonDoc::Bool(*b),
        JsonNode::Number(n) => JsonDoc::Number(JsonNumber {
            as_i64: n.as_i64(),
            as_real: n.as_f64().and_then(|x| RealKey::from_bits(x.to_bits())),
        }),
        JsonNode::String(s) => JsonDoc::Str(s.clone()),
        JsonNode::Array(items) => JsonDoc::Array(items.iter().map(json_doc_of).collect()),
        JsonNode::Object(m) => JsonDoc::Object(m.iter().map(|(k, v)| (k.clone(), json_doc_of(v))).collect()),
    }
}

/// Reads JSON text with `serde_json::from_str` (into a `serde_json::Value`,
/// taken over by `json_doc_of`); its error shown as text. The contract says
/// only that the result is that function of the text (`parsed_json`); the
/// JSON grammar it does not spell out.
#[verifier::external_body]
pub(crate) fn parse_json(text: &str) -> (r: Result<JsonDoc, String>)
    ensures
        match r {
            Ok(d) => parsed_json(text@) == Some(d@),
            Err(_) => parsed_json(text@) is None,
        },
{
    match serde_json::from_str::<JsonNode>(text) {
        Ok(v) => Ok(json_doc_of(&v)),
        Err(e) => Err(e.to_string()),
    }
}


} // verus!
