//! Documents read from YAML and JSON text, as plain trees.
//!
//! Text is parsed outside the library; what the parse yields is handed to the
//! library in these types. Numbers come with every reading that the library
//! takes of them, real numbers as order keys (see `real_key`).
use vstd::prelude::*;
use crate::real_key::RealKey;

verus! {

/// A YAML number, with its readings as a signed integer, an unsigned integer
/// and a real number (`as_real` is `None` when the number is not finite).
#[derive(Clone, Copy, Debug, PartialEq, Eq)]
pub struct YamlNumber {
    pub as_i64: Option<i64>,
    pub as_u64: Option<u64>,
    pub as_real: Option<RealKey>,
}

/// A YAML document.
#[derive(Debug, PartialEq)]
pub enum YamlDoc {
    Null,
    Bool(bool),
    Number(YamlNumber),
    Str(String),
    Sequence(Vec<YamlDoc>),
    /// The entries of a mapping in document order.
    Mapping(Vec<YamlEntry>),
    /// A value with a tag; the tag's name does not matter to the library.
    Tagged(Box<YamlDoc>),
}

/// One entry of a YAML mapping: its key, the key as YAML text on one line
/// (used in messages), and its value.
#[derive(Debug, PartialEq)]
pub struct YamlEntry {
    pub key: YamlDoc,
    pub key_text: String,
    pub value: YamlDoc,
}

/// A JSON number, with its readings as a signed integer and as a real number.
#[derive(Clone, Copy, Debug, PartialEq, Eq)]
pub struct JsonNumber {
    pub as_i64: Option<i64>,
    pub as_real: Option<RealKey>,
}

/// A JSON document.
#[derive(Debug, PartialEq)]
pub enum JsonDoc {
    Null,
    Bool(bool),
    Number(JsonNumber),
    Str(String),
    Array(Vec<JsonDoc>),
    /// The members of an object in document order.
    Object(Vec<(String, JsonDoc)>),
}

/// A JSON document as seen in specifications.
pub enum JsonDocV {
    Null,
    Bool(bool),
    Number(JsonNumber),
    Str(Seq<char>),
    Array(Seq<JsonDocV>),
    Object(Seq<(Seq<char>, JsonDocV)>),
}

/// The view of the items of a JSON array.
pub open spec fn items_view(items: Seq<JsonDoc>) -> Seq<JsonDocV>
    decreases items,
{
    Seq::new(items.len(), |i: int| if 0 <= i < items.len() { json_view(items[i]) } else { JsonDocV::Null })
}

/// The view of the members of a JSON object.
pub open spec fn members_view(members: Seq<(String, JsonDoc)>) -> Seq<(Seq<char>, JsonDocV)>
    decreases members,
{
    Seq::new(
        members.len(),
        |i: int|
            (
                members[i].0@,
                if 0 <= i < members.len() {
                    json_view(members[i].1)
                } else {
                    JsonDocV::Null
                },
            ),
    )
}

/// The view of a JSON document.
pub open spec fn json_view(d: JsonDoc) -> JsonDocV
    decreases d,
{
    match d {
        JsonDoc::Null => JsonDocV::Null,
        JsonDoc::Bool(b) => JsonDocV::Bool(b),
        JsonDoc::Number(n) => JsonDocV::Number(n),
        JsonDoc::Str(s) => JsonDocV::Str(s@),
        JsonDoc::Array(items) => JsonDocV::Array(items_view(items@)),
        JsonDoc::Object(members) => JsonDocV::Object(members_view(members@)),
    }
}

impl View for JsonDoc {
    type V = JsonDocV;

    open spec fn view(&self) -> JsonDocV {
        json_view(*self)
    }
}

} // verus!
