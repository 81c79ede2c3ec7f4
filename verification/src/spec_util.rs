//! Reading a spec from a YAML document.
//!
//! Every node of a spec document is a mapping. Its `type` attribute names the
//! kind of node (`sub` when absent); the other attributes depend on the kind.
//! The first problem found, in document order, is reported with the path at
//! which it was found.
use vstd::prelude::*;
use crate::common_util::{format_path, path_view, spec_format_path};
use crate::doc::{YamlDoc, YamlEntry};
use crate::text::{parse_yaml, parsed_yaml};
use crate::error::{Error, ErrorV, result_view};
use crate::real_key::{RealKey, SIGN_BIT};
use crate::seq_util::{key_pos, lemma_key_pos, view_keys};
use crate::spec::{Node, NodeV, Spec, map_view};

verus! {

// ---------------------------------------------------------------------------
// Readings of YAML values
// ---------------------------------------------------------------------------

/// A value with all its tags removed.
pub open spec fn untag(d: YamlDoc) -> YamlDoc
    decreases d,
{
    match d {
        YamlDoc::Tagged(inner) => untag(*inner),
        _ => d,
    }
}

/// The value as a string, through tags.
pub open spec fn doc_as_str(d: YamlDoc) -> Option<Seq<char>> {
    match untag(d) {
        YamlDoc::Str(s) => Some(s@),
        _ => None,
    }
}

/// The value as a boolean, through tags.
pub open spec fn doc_as_bool(d: YamlDoc) -> Option<bool> {
    match untag(d) {
        YamlDoc::Bool(b) => Some(b),
        _ => None,
    }
}

/// The value as a signed integer, through tags.
pub open spec fn doc_as_i64(d: YamlDoc) -> Option<i64> {
    match untag(d) {
        YamlDoc::Number(n) => n.as_i64,
        _ => None,
    }
}

/// The value as an unsigned integer, through tags.
pub open spec fn doc_as_u64(d: YamlDoc) -> Option<u64> {
    match untag(d) {
        YamlDoc::Number(n) => n.as_u64,
        _ => None,
    }
}

/// The value as a real number, through tags: `Some(None)` for a number that
/// is not finite.
pub open spec fn doc_as_real(d: YamlDoc) -> Option<Option<RealKey>> {
    match untag(d) {
        YamlDoc::Number(n) => Some(n.as_real),
        _ => None,
    }
}

/// The key as an untagged string, the only kind of key that attribute lookup
/// finds.
pub open spec fn plain_key(d: YamlDoc) -> Option<Seq<char>> {
    match d {
        YamlDoc::Str(s) => Some(s@),
        _ => None,
    }
}

/// The keys of mapping entries, as seen by attribute lookup.
pub open spec fn entry_keys(es: Seq<YamlEntry>) -> Seq<Option<Seq<char>>> {
    es.map_values(|e: YamlEntry| plain_key(e.key))
}

/// The position of the attribute `name` in a mapping, or -1.
pub open spec fn find_attr(es: Seq<YamlEntry>, name: Seq<char>) -> int {
    key_pos(entry_keys(es), Some(name))
}

/// The entries of a mapping document (empty for any other document).
pub open spec fn entries_of(d: YamlDoc) -> Seq<YamlEntry> {
    match d {
        YamlDoc::Mapping(es) => es@,
        _ => Seq::empty(),
    }
}

// ---------------------------------------------------------------------------
// Errors
// ---------------------------------------------------------------------------

pub open spec fn err_invalid_value_type(path: Seq<Seq<char>>, name: Seq<char>, hint: Seq<char>) -> ErrorV {
    ErrorV::InvalidAttributeValueType {
        path_hint: spec_format_path(path),
        attribute_name: name,
        expected_type_hint: hint,
    }
}

pub open spec fn err_missing(path: Seq<Seq<char>>, name: Seq<char>) -> ErrorV {
    ErrorV::MandatoryAttributeMissing { path_hint: spec_format_path(path), missing_attribute_name: name }
}

// ---------------------------------------------------------------------------
// Attributes
// ---------------------------------------------------------------------------

/// The kinds of reading that an attribute's value gets.
pub enum Reading {
    Str,
    Bool,
    Int,
    Unsigned,
    Real,
}

/// What the value of an attribute must be, as said in messages.
pub open spec fn reading_hint(r: Reading) -> Seq<char> {
    match r {
        Reading::Str => "a string"@,
        Reading::Bool => "a boolean"@,
        Reading::Int => "an integer"@,
        Reading::Unsigned => "a positive integer"@,
        Reading::Real => "a real number"@,
    }
}

/// A value read in one of the ways of `Reading`.
pub enum Read {
    Str(Seq<char>),
    Bool(bool),
    Int(i64),
    Unsigned(u64),
    Real(Option<RealKey>),
}

/// The reading of a value, if it has one.
pub open spec fn read_as(r: Reading, d: YamlDoc) -> Option<Read> {
    match r {
        Reading::Str => match doc_as_str(d) { Some(s) => Some(Read::Str(s)), None => None },
        Reading::Bool => match doc_as_bool(d) { Some(b) => Some(Read::Bool(b)), None => None },
        Reading::Int => match doc_as_i64(d) { Some(x) => Some(Read::Int(x)), None => None },
        Reading::Unsigned => match doc_as_u64(d) { Some(x) => Some(Read::Unsigned(x)), None => None },
        Reading::Real => match doc_as_real(d) { Some(x) => Some(Read::Real(x)), None => None },
    }
}

/// An attribute's value: `Ok(None)` when absent and not mandatory, an error
/// when absent and mandatory or when present without the reading asked for.
pub open spec fn spec_extract(
    es: Seq<YamlEntry>,
    name: Seq<char>,
    path: Seq<Seq<char>>,
    r: Reading,
    mandatory: bool,
) -> Result<Option<Read>, ErrorV> {
    let i = find_attr(es, name);
    if 0 <= i < es.len() {
        match read_as(r, es[i].value) {
            Some(v) => Ok(Some(v)),
            None => Err(err_invalid_value_type(path, name, reading_hint(r))),
        }
    } else if mandatory {
        Err(err_missing(path, name))
    } else {
        Ok(None)
    }
}

/// A string attribute.
pub open spec fn spec_extract_string(es: Seq<YamlEntry>, name: Seq<char>, path: Seq<Seq<char>>, mandatory: bool) -> Result<Option<Seq<char>>, ErrorV> {
    match spec_extract(es, name, path, Reading::Str, mandatory) {
        Err(e) => Err(e),
        Ok(Some(Read::Str(s))) => Ok(Some(s)),
        Ok(_) => Ok(None),
    }
}

/// A boolean attribute.
pub open spec fn spec_extract_bool(es: Seq<YamlEntry>, name: Seq<char>, path: Seq<Seq<char>>, mandatory: bool) -> Result<Option<bool>, ErrorV> {
    match spec_extract(es, name, path, Reading::Bool, mandatory) {
        Err(e) => Err(e),
        Ok(Some(Read::Bool(b))) => Ok(Some(b)),
        Ok(_) => Ok(None),
    }
}

/// An integer attribute.
pub open spec fn spec_extract_int(es: Seq<YamlEntry>, name: Seq<char>, path: Seq<Seq<char>>, mandatory: bool) -> Result<Option<i64>, ErrorV> {
    match spec_extract(es, name, path, Reading::Int, mandatory) {
        Err(e) => Err(e),
        Ok(Some(Read::Int(x))) => Ok(Some(x)),
        Ok(_) => Ok(None),
    }
}

/// A size attribute: an unsigned integer that must fit in `usize`.
pub open spec fn spec_extract_usize(es: Seq<YamlEntry>, name: Seq<char>, path: Seq<Seq<char>>, mandatory: bool) -> Result<Option<usize>, ErrorV> {
    match spec_extract(es, name, path, Reading::Unsigned, mandatory) {
        Err(e) => Err(e),
        Ok(Some(Read::Unsigned(x))) => if x <= usize::MAX {
            Ok(Some(x as usize))
        } else {
            Err(ErrorV::UnsignedIntConversionFailed { path_hint: spec_format_path(path), attribute_name: name })
        },
        Ok(_) => Ok(None),
    }
}

/// A real attribute, which must be finite.
pub open spec fn spec_extract_real(es: Seq<YamlEntry>, name: Seq<char>, path: Seq<Seq<char>>, mandatory: bool) -> Result<Option<RealKey>, ErrorV> {
    match spec_extract(es, name, path, Reading::Real, mandatory) {
        Err(e) => Err(e),
        Ok(Some(Read::Real(Some(k)))) => if crate::real_key::is_valid_key(k.0) {
            Ok(Some(k))
        } else {
            Err(ErrorV::NonFiniteNumber { path_hint: spec_format_path(path), attribute_name: name })
        },
        Ok(Some(Read::Real(None))) => Err(ErrorV::NonFiniteNumber { path_hint: spec_format_path(path), attribute_name: name }),
        Ok(_) => Ok(None),
    }
}

/// The sets of attributes that the kinds of node allow.
pub enum AttrSet {
    Real,
    Int,
    Bool,
    AnonMap,
    Enum,
    Optional,
    Const,
}

/// Whether a node kind allows an attribute.
pub open spec fn attr_allowed(set: AttrSet, k: Seq<char>) -> bool {
    k == "type"@ || match set {
        AttrSet::Real | AttrSet::Int => k == "min"@ || k == "max"@ || k == "scale"@ || k == "init"@,
        AttrSet::Bool => k == "init"@,
        AttrSet::AnonMap => k == "initSize"@ || k == "minSize"@ || k == "maxSize"@ || k == "valueType"@,
        AttrSet::Enum => k == "init"@ || k == "values"@,
        AttrSet::Optional => k == "initPresent"@ || k == "valueType"@,
        AttrSet::Const => false,
    }
}

/// The check of one attribute key against the allowed set.
pub open spec fn check_attr_key(e: YamlEntry, set: AttrSet, path: Seq<Seq<char>>) -> Result<(), ErrorV> {
    match e.key {
        YamlDoc::Str(s) => if attr_allowed(set, s@) {
            Ok(())
        } else {
            Err(ErrorV::UnexpectedAttribute { path_hint: spec_format_path(path), unexpected_attribute_name: s@ })
        },
        _ => Err(ErrorV::InvalidAttributeKeyType { path_hint: spec_format_path(path), formatted_attribute_key: e.key_text@ }),
    }
}

/// The first problem among the first `n` attribute keys.
pub open spec fn check_attrs_prefix(es: Seq<YamlEntry>, n: int, set: AttrSet, path: Seq<Seq<char>>) -> Result<(), ErrorV>
    decreases n,
{
    if n <= 0 {
        Ok(())
    } else {
        match check_attrs_prefix(es, n - 1, set, path) {
            Err(e) => Err(e),
            Ok(_) => check_attr_key(es[n - 1], set, path),
        }
    }
}

/// The first attribute that is not a string or not allowed, if any.
pub open spec fn check_attrs(es: Seq<YamlEntry>, set: AttrSet, path: Seq<Seq<char>>) -> Result<(), ErrorV> {
    check_attrs_prefix(es, es.len() as int, set, path)
}

// ---------------------------------------------------------------------------
// Leaf nodes
// ---------------------------------------------------------------------------

/// A real node.
pub open spec fn spec_build_real(es: Seq<YamlEntry>, path: Seq<Seq<char>>) -> Result<NodeV, ErrorV> {
    let hint = spec_format_path(path);
    match check_attrs(es, AttrSet::Real, path) {
        Err(e) => Err(e),
        Ok(_) => match spec_extract_real(es, "min"@, path, false) {
            Err(e) => Err(e),
            Ok(min) => match spec_extract_real(es, "max"@, path, false) {
                Err(e) => Err(e),
                Ok(max) => if min matches Some(lo) && max matches Some(hi) && lo.0 >= hi.0 {
                    Err(ErrorV::InvalidBounds { path_hint: hint })
                } else {
                    match spec_extract_real(es, "init"@, path, true) {
                        Err(e) => Err(e),
                        Ok(None) => Err(err_missing(path, "init"@)),
                        Ok(Some(init)) => if (min matches Some(lo) && init.0 < lo.0) || (max matches Some(hi) && init.0 > hi.0) {
                            Err(ErrorV::InitNotWithinBounds { path_hint: hint })
                        } else {
                            match spec_extract_real(es, "scale"@, path, true) {
                                Err(e) => Err(e),
                                Ok(None) => Err(err_missing(path, "scale"@)),
                                Ok(Some(scale)) => if scale.0 <= SIGN_BIT {
                                    Err(ErrorV::ScaleMustBeStrictlyPositive { path_hint: hint })
                                } else {
                                    Ok(NodeV::Real { init, scale, min, max })
                                },
                            }
                        },
                    }
                },
            },
        },
    }
}

/// An int node.
pub open spec fn spec_build_int(es: Seq<YamlEntry>, path: Seq<Seq<char>>) -> Result<NodeV, ErrorV> {
    let hint = spec_format_path(path);
    match check_attrs(es, AttrSet::Int, path) {
        Err(e) => Err(e),
        Ok(_) => match spec_extract_int(es, "min"@, path, false) {
            Err(e) => Err(e),
            Ok(min) => match spec_extract_int(es, "max"@, path, false) {
                Err(e) => Err(e),
                Ok(max) => if min matches Some(lo) && max matches Some(hi) && lo >= hi {
                    Err(ErrorV::InvalidBounds { path_hint: hint })
                } else {
                    match spec_extract_int(es, "init"@, path, true) {
                        Err(e) => Err(e),
                        Ok(None) => Err(err_missing(path, "init"@)),
                        Ok(Some(init)) => if (min matches Some(lo) && init < lo) || (max matches Some(hi) && init > hi) {
                            Err(ErrorV::InitNotWithinBounds { path_hint: hint })
                        } else {
                            match spec_extract_real(es, "scale"@, path, true) {
                                Err(e) => Err(e),
                                Ok(None) => Err(err_missing(path, "scale"@)),
                                Ok(Some(scale)) => if scale.0 <= SIGN_BIT {
                                    Err(ErrorV::ScaleMustBeStrictlyPositive { path_hint: hint })
                                } else {
                                    Ok(NodeV::Int { init, scale, min, max })
                                },
                            }
                        },
                    }
                },
            },
        },
    }
}

/// A bool node.
pub open spec fn spec_build_bool(es: Seq<YamlEntry>, path: Seq<Seq<char>>) -> Result<NodeV, ErrorV> {
    match check_attrs(es, AttrSet::Bool, path) {
        Err(e) => Err(e),
        Ok(_) => match spec_extract_bool(es, "init"@, path, true) {
            Err(e) => Err(e),
            Ok(Some(init)) => Ok(NodeV::Bool { init }),
            Ok(None) => Err(err_missing(path, "init"@)),
        },
    }
}

/// A const node.
pub open spec fn spec_build_const(es: Seq<YamlEntry>, path: Seq<Seq<char>>) -> Result<NodeV, ErrorV> {
    match check_attrs(es, AttrSet::Const, path) {
        Err(e) => Err(e),
        Ok(_) => Ok(NodeV::Const),
    }
}

/// The string items of an enum's `values`.
pub open spec fn enum_item_names(items: Seq<YamlDoc>) -> Seq<Seq<char>> {
    items.map_values(|d: YamlDoc| match d { YamlDoc::Str(s) => s@, _ => Seq::empty() })
}

/// An enum node.
pub open spec fn spec_build_enum(es: Seq<YamlEntry>, path: Seq<Seq<char>>) -> Result<NodeV, ErrorV> {
    let hint = spec_format_path(path);
    match check_attrs(es, AttrSet::Enum, path) {
        Err(e) => Err(e),
        Ok(_) => match spec_extract_string(es, "init"@, path, true) {
            Err(e) => Err(e),
            Ok(None) => Err(err_missing(path, "init"@)),
            Ok(Some(init)) => {
                let i = find_attr(es, "values"@);
                if !(0 <= i < es.len()) {
                    Err(err_missing(path, "values"@))
                } else {
                    match es[i].value {
                        YamlDoc::Sequence(items) => if items@.len() < 2 {
                            Err(ErrorV::NotEnoughEnumValues { path_hint: hint })
                        } else if exists|j: int| 0 <= j < items@.len() && !(items@[j] is Str) {
                            Err(ErrorV::EnumItemsMustBeString { path_hint: hint })
                        } else if !enum_item_names(items@).contains(init) {
                            Err(ErrorV::InitNotAKnownValue { path_hint: hint, init })
                        } else {
                            Ok(NodeV::Enum { values: enum_item_names(items@), init })
                        },
                        _ => Err(err_invalid_value_type(path, "values"@, "a sequence"@)),
                    }
                }
            },
        },
    }
}

// ---------------------------------------------------------------------------
// Inner nodes
// ---------------------------------------------------------------------------

/// An anon map node, once its value type has been read.
pub open spec fn spec_anon_map_rest(es: Seq<YamlEntry>, path: Seq<Seq<char>>, value_type: NodeV) -> Result<NodeV, ErrorV> {
    let hint = spec_format_path(path);
    match spec_extract_usize(es, "minSize"@, path, false) {
        Err(e) => Err(e),
        Ok(min_size) => match spec_extract_usize(es, "maxSize"@, path, false) {
            Err(e) => Err(e),
            Ok(max_size) => if min_size matches Some(lo) && max_size matches Some(hi) && lo >= hi {
                Err(ErrorV::InvalidSizeBounds { path_hint: hint })
            } else if max_size == Some(0usize) {
                Err(ErrorV::ZeroMaxSize { path_hint: hint })
            } else {
                match spec_extract_usize(es, "initSize"@, path, true) {
                    Err(e) => Err(e),
                    Ok(None) => Err(err_missing(path, "initSize"@)),
                    Ok(Some(init_size)) => if (min_size matches Some(lo) && init_size < lo) || (max_size matches Some(hi) && init_size > hi) {
                        Err(ErrorV::InitSizeNotWithinBounds { path_hint: hint })
                    } else {
                        Ok(NodeV::AnonMap { value_type: Box::new(value_type), init_size, min_size, max_size })
                    },
                }
            },
        },
    }
}

/// An optional node, once its value type has been read.
pub open spec fn spec_optional_rest(es: Seq<YamlEntry>, path: Seq<Seq<char>>, value_type: NodeV) -> Result<NodeV, ErrorV> {
    match spec_extract_bool(es, "initPresent"@, path, true) {
        Err(e) => Err(e),
        Ok(Some(init_present)) => Ok(NodeV::Optional { value_type: Box::new(value_type), init_present }),
        Ok(None) => Err(err_missing(path, "initPresent"@)),
    }
}

/// A map with `k` bound to `v`: the value replaced where `k` is already a key,
/// the pair appended otherwise.
pub open spec fn map_insert(m: Seq<(Seq<char>, NodeV)>, k: Seq<char>, v: NodeV) -> Seq<(Seq<char>, NodeV)> {
    let i = key_pos(view_keys(m), k);
    if 0 <= i < m.len() {
        m.update(i, (k, v))
    } else {
        m.push((k, v))
    }
}

/// The children of a sub or variant mapping read from its first `n` entries;
/// the keys `type` and, for variants, `init` are skipped.
pub open spec fn children_prefix(d: YamlDoc, n: int, path: Seq<Seq<char>>, skip_init: bool) -> Result<Seq<(Seq<char>, NodeV)>, ErrorV>
    decreases d, n,
{
    let es = entries_of(d);
    if n <= 0 || n > es.len() {
        Ok(Seq::empty())
    } else {
        match children_prefix(d, n - 1, path, skip_init) {
            Err(e) => Err(e),
            Ok(acc) => {
                let e = es[n - 1];
                match doc_as_str(e.key) {
                    None => Err(ErrorV::InvalidAttributeKeyType {
                        path_hint: spec_format_path(path),
                        formatted_attribute_key: e.key_text@,
                    }),
                    Some(k) => if k == "type"@ || (skip_init && k == "init"@) {
                        Ok(acc)
                    } else {
                        proof {
                            assert(decreases_to!(d => d->Mapping_0));
                            assert(decreases_to!(d->Mapping_0 => d->Mapping_0@));
                            assert(decreases_to!(d->Mapping_0@ => d->Mapping_0@[n - 1]));
                            assert(decreases_to!(d->Mapping_0@[n - 1] => d->Mapping_0@[n - 1].value));
                        }
                        match spec_build_node(e.value, path.push(k)) {
                            Err(err) => Err(err),
                            Ok(child) => Ok(map_insert(acc, k, child)),
                        }
                    },
                }
            },
        }
    }
}

/// The number of entries of a mapping document.
pub open spec fn mapping_len(d: YamlDoc) -> nat {
    entries_of(d).len()
}

/// The node read from a document at a path, or the first problem found.
pub open spec fn spec_build_node(d: YamlDoc, path: Seq<Seq<char>>) -> Result<NodeV, ErrorV>
    decreases d, mapping_len(d) + 1,
{
    let hint = spec_format_path(path);
    match d {
        YamlDoc::Mapping(entries) => {
            let es = entries@;
            match spec_extract_string(es, "type"@, path, false) {
                Err(e) => Err(e),
                Ok(tn) => {
                    let kind_name = match tn { Some(t) => t, None => "sub"@ };
                    if kind_name == "real"@ {
                        spec_build_real(es, path)
                    } else if kind_name == "int"@ {
                        spec_build_int(es, path)
                    } else if kind_name == "bool"@ {
                        spec_build_bool(es, path)
                    } else if kind_name == "sub"@ {
                        match children_prefix(d, es.len() as int, path, false) {
                            Err(e) => Err(e),
                            Ok(map) => if map.len() == 0 {
                                Err(ErrorV::EmptySub { path_hint: hint })
                            } else {
                                Ok(NodeV::Sub { map })
                            },
                        }
                    } else if kind_name == "anon map"@ || kind_name == "optional"@ {
                        let set = if kind_name == "anon map"@ { AttrSet::AnonMap } else { AttrSet::Optional };
                        match check_attrs(es, set, path) {
                            Err(e) => Err(e),
                            Ok(_) => {
                                let i = find_attr(es, "valueType"@);
                                if 0 <= i < es.len() {
                                    proof {
                                        assert(decreases_to!(d => d->Mapping_0));
                                        assert(decreases_to!(d->Mapping_0 => d->Mapping_0@));
                                        assert(decreases_to!(d->Mapping_0@ => d->Mapping_0@[i]));
                                        assert(decreases_to!(d->Mapping_0@[i] => d->Mapping_0@[i].value));
                                    }
                                    match spec_build_node(es[i].value, path) {
                                        Err(e) => Err(e),
                                        Ok(vt) => if kind_name == "anon map"@ {
                                            spec_anon_map_rest(es, path, vt)
                                        } else {
                                            spec_optional_rest(es, path, vt)
                                        },
                                    }
                                } else {
                                    Err(err_missing(path, "valueType"@))
                                }
                            },
                        }
                    } else if kind_name == "variant"@ {
                        match spec_extract_string(es, "init"@, path, true) {
                            Err(e) => Err(e),
                            Ok(None) => Err(err_missing(path, "init"@)),
                            Ok(Some(init)) => match children_prefix(d, es.len() as int, path, true) {
                                Err(e) => Err(e),
                                Ok(map) => if map.len() < 2 {
                                    Err(ErrorV::NotEnoughVariantValues { path_hint: hint })
                                } else if !view_keys(map).contains(init) {
                                    Err(ErrorV::InitNotAKnownValue { path_hint: hint, init })
                                } else {
                                    Ok(NodeV::Variant { map, init })
                                },
                            },
                        }
                    } else if kind_name == "enum"@ {
                        spec_build_enum(es, path)
                    } else if kind_name == "const"@ {
                        spec_build_const(es, path)
                    } else {
                        Err(ErrorV::UnknownTypeName { path_hint: hint, unknown_type_name: kind_name })
                    }
                },
            }
        },
        _ => Err(ErrorV::ValueMustBeMap { path_hint: hint }),
    }
}


// ---------------------------------------------------------------------------
// Lemmas on the folds above
// ---------------------------------------------------------------------------

/// Once a prefix of the attribute keys has a problem, every longer prefix has
/// the same one.
pub proof fn lemma_check_attrs_err(es: Seq<YamlEntry>, i: int, n: int, set: AttrSet, path: Seq<Seq<char>>)
    requires
        i <= n,
        check_attrs_prefix(es, i, set, path) is Err,
    ensures
        check_attrs_prefix(es, n, set, path) == check_attrs_prefix(es, i, set, path),
    decreases n - i,
{
    if i < n {
        lemma_check_attrs_err(es, i, n - 1, set, path);
    }
}

/// Once a prefix of the children has a problem, every longer prefix has the
/// same one.
pub proof fn lemma_children_err(d: YamlDoc, i: int, n: int, path: Seq<Seq<char>>, skip_init: bool)
    requires
        0 <= i <= n <= mapping_len(d),
        children_prefix(d, i, path, skip_init) is Err,
    ensures
        children_prefix(d, n, path, skip_init) == children_prefix(d, i, path, skip_init),
    decreases n - i,
{
    if i < n {
        lemma_children_err(d, i, n - 1, path, skip_init);
    }
}

// ---------------------------------------------------------------------------
// Views of results
// ---------------------------------------------------------------------------

/// A result whose error is seen as its view.
pub open spec fn err_view<T>(r: Result<T, Error>) -> Result<T, ErrorV> {
    match r {
        Ok(t) => Ok(t),
        Err(e) => Err(e@),
    }
}

/// A result holding an optional string, seen as views.
pub open spec fn opt_string_view(r: Result<Option<String>, Error>) -> Result<Option<Seq<char>>, ErrorV> {
    match r {
        Ok(Some(s)) => Ok(Some(s@)),
        Ok(None) => Ok(None),
        Err(e) => Err(e@),
    }
}

/// A result holding the children of a sub or variant node, seen as views.
pub open spec fn children_view(r: Result<Vec<(String, Node)>, Error>) -> Result<Seq<(Seq<char>, NodeV)>, ErrorV> {
    match r {
        Ok(m) => Ok(map_view(m@)),
        Err(e) => Err(e@),
    }
}

// ---------------------------------------------------------------------------
// Executable reading
// ---------------------------------------------------------------------------

/// Whether a string equals a literal.
fn is_text(s: &String, lit: &str) -> (r: bool)
    ensures
        r == (s@ == lit@),
{
    let probe: String = lit.to_owned();
    *s == probe
}

/// The value with all its tags removed.
fn untag_exec(d: &YamlDoc) -> (r: &YamlDoc)
    ensures
        *r == untag(*d),
    decreases d,
{
    match d {
        YamlDoc::Tagged(inner) => untag_exec(inner),
        _ => d,
    }
}

/// The path of a child.
fn child_path<'a>(path: &Vec<&'a str>, key: &'a str) -> (r: Vec<&'a str>)
    ensures
        r@ == path@.push(key),
        path_view(r@) == path_view(path@).push(key@),
{
    let mut out: Vec<&'a str> = Vec::new();
    let mut i: usize = 0;
    while i < path.len()
        invariant
            i <= path@.len(),
            out@ == path@.take(i as int),
        decreases path.len() - i,
    {
        out.push(path[i]);
        proof {
            assert(path@.take(i as int + 1) =~= path@.take(i as int).push(path@[i as int]));
        }
        i = i + 1;
    }
    assert(path@.take(path@.len() as int) =~= path@);
    out.push(key);
    assert(path_view(out@) =~= path_view(path@).push(key@));
    out
}

/// The path shown in messages.
fn hint(path: &Vec<&str>) -> (r: String)
    ensures
        r@ == spec_format_path(path_view(path@)),
{
    format_path(path.as_slice())
}

/// The position of the attribute `name`, if present.
fn find_attr_exec(es: &Vec<YamlEntry>, name: &str) -> (r: Option<usize>)
    ensures
        match r {
            Some(i) => i < es@.len() && find_attr(es@, name@) == i,
            None => find_attr(es@, name@) == -1,
        },
{
    let ghost keys = entry_keys(es@);
    let mut i: usize = 0;
    while i < es.len()
        invariant
            i <= es@.len(),
            keys == entry_keys(es@),
            forall|j: int| 0 <= j < i ==> keys[j] != Some(name@),
        decreases es.len() - i,
    {
        let hit = match &es[i].key {
            YamlDoc::Str(s) => is_text(s, name),
            _ => false,
        };
        if hit {
            proof {
                lemma_key_pos(keys, Some(name@));
                assert(keys[i as int] == Some(name@));
                assert(keys.contains(Some(name@)));
            }
            return Some(i);
        }
        i = i + 1;
    }
    proof {
        lemma_key_pos(keys, Some(name@));
        if keys.contains(Some(name@)) {
            let j = choose|j: int| 0 <= j < keys.len() && keys[j] == Some(name@);
            assert(keys[j] != Some(name@));
        }
    }
    None
}

/// The error for a missing mandatory attribute.
fn missing(path: &Vec<&str>, name: &str) -> (e: Error)
    ensures
        e@ == err_missing(path_view(path@), name@),
{
    Error::MandatoryAttributeMissing { path_hint: hint(path), missing_attribute_name: name.to_owned() }
}

/// The error for an attribute value without the reading asked for.
fn invalid_value_type(path: &Vec<&str>, name: &str, type_hint: &str) -> (e: Error)
    ensures
        e@ == err_invalid_value_type(path_view(path@), name@, type_hint@),
{
    Error::InvalidAttributeValueType {
        path_hint: hint(path),
        attribute_name: name.to_owned(),
        expected_type_hint: type_hint.to_owned(),
    }
}

/// Where the attribute `name` is: `Ok(None)` when it is absent and not
/// mandatory, the missing-attribute error when it is absent and mandatory.
fn locate(es: &Vec<YamlEntry>, name: &str, path: &Vec<&str>, mandatory: bool) -> (r: Result<Option<usize>, Error>)
    ensures
        ({
            let i = find_attr(es@, name@);
            match r {
                Ok(Some(j)) => j == i && 0 <= i < es@.len(),
                Ok(None) => !(0 <= i < es@.len()) && !mandatory,
                Err(e) => !(0 <= i < es@.len()) && mandatory && e@ == err_missing(path_view(path@), name@),
            }
        }),
{
    match find_attr_exec(es, name) {
        Some(i) => Ok(Some(i)),
        None => if mandatory {
            Err(missing(path, name))
        } else {
            Ok(None)
        },
    }
}

/// A string attribute.
fn extract_string(es: &Vec<YamlEntry>, name: &str, path: &Vec<&str>, mandatory: bool) -> (r: Result<Option<String>, Error>)
    ensures
        opt_string_view(r) == spec_extract_string(es@, name@, path_view(path@), mandatory),
{
    match locate(es, name, path, mandatory) {
        Err(e) => Err(e),
        Ok(None) => Ok(None),
        Ok(Some(i)) => match untag_exec(&es[i].value) {
            YamlDoc::Str(s) => Ok(Some(s.clone())),
            _ => Err(invalid_value_type(path, name, "a string")),
        },
    }
}

/// A boolean attribute.
fn extract_bool(es: &Vec<YamlEntry>, name: &str, path: &Vec<&str>, mandatory: bool) -> (r: Result<Option<bool>, Error>)
    ensures
        err_view(r) == spec_extract_bool(es@, name@, path_view(path@), mandatory),
{
    match locate(es, name, path, mandatory) {
        Err(e) => Err(e),
        Ok(None) => Ok(None),
        Ok(Some(i)) => match untag_exec(&es[i].value) {
            YamlDoc::Bool(b) => Ok(Some(*b)),
            _ => Err(invalid_value_type(path, name, "a boolean")),
        },
    }
}

/// An integer attribute.
fn extract_int(es: &Vec<YamlEntry>, name: &str, path: &Vec<&str>, mandatory: bool) -> (r: Result<Option<i64>, Error>)
    ensures
        err_view(r) == spec_extract_int(es@, name@, path_view(path@), mandatory),
{
    match locate(es, name, path, mandatory) {
        Err(e) => Err(e),
        Ok(None) => Ok(None),
        Ok(Some(i)) => match untag_exec(&es[i].value) {
            YamlDoc::Number(n) => match n.as_i64 {
                Some(x) => Ok(Some(x)),
                None => Err(invalid_value_type(path, name, "an integer")),
            },
            _ => Err(invalid_value_type(path, name, "an integer")),
        },
    }
}

/// A size attribute.
fn extract_usize_attribute_value(es: &Vec<YamlEntry>, name: &str, path: &Vec<&str>, mandatory: bool) -> (r: Result<Option<usize>, Error>)
    ensures
        err_view(r) == spec_extract_usize(es@, name@, path_view(path@), mandatory),
{
    let value_u64 = match locate(es, name, path, mandatory) {
        Err(e) => { return Err(e); },
        Ok(None) => { return Ok(None); },
        Ok(Some(i)) => match untag_exec(&es[i].value) {
            YamlDoc::Number(n) => match n.as_u64 {
                Some(x) => x,
                None => { return Err(invalid_value_type(path, name, "a positive integer")); },
            },
            _ => { return Err(invalid_value_type(path, name, "a positive integer")); },
        },
    };
    if value_u64 <= usize::MAX as u64 {
        Ok(Some(value_u64 as usize))
    } else {
        Err(Error::UnsignedIntConversionFailed { path_hint: hint(path), attribute_name: name.to_owned() })
    }
}

/// A real attribute, which must be finite.
fn extract_real(es: &Vec<YamlEntry>, name: &str, path: &Vec<&str>, mandatory: bool) -> (r: Result<Option<RealKey>, Error>)
    ensures
        err_view(r) == spec_extract_real(es@, name@, path_view(path@), mandatory),
{
    match locate(es, name, path, mandatory) {
        Err(e) => Err(e),
        Ok(None) => Ok(None),
        Ok(Some(i)) => match untag_exec(&es[i].value) {
            YamlDoc::Number(n) => match n.as_real {
                Some(k) => if k.is_valid() {
                    Ok(Some(k))
                } else {
                    Err(Error::NonFiniteNumber { path_hint: hint(path), attribute_name: name.to_owned() })
                },
                None => Err(Error::NonFiniteNumber { path_hint: hint(path), attribute_name: name.to_owned() }),
            },
            _ => Err(invalid_value_type(path, name, "a real number")),
        },
    }
}

/// Whether a node kind allows an attribute.
fn attr_allowed_exec(set: &AttrSet, k: &String) -> (r: bool)
    ensures
        r == attr_allowed(*set, k@),
{
    is_text(k, "type") || match set {
        AttrSet::Real | AttrSet::Int => is_text(k, "min") || is_text(k, "max") || is_text(k, "scale") || is_text(k, "init"),
        AttrSet::Bool => is_text(k, "init"),
        AttrSet::AnonMap => is_text(k, "initSize") || is_text(k, "minSize") || is_text(k, "maxSize") || is_text(k, "valueType"),
        AttrSet::Enum => is_text(k, "init") || is_text(k, "values"),
        AttrSet::Optional => is_text(k, "initPresent") || is_text(k, "valueType"),
        AttrSet::Const => false,
    }
}

/// The first attribute key that is not a string or not allowed, if any.
fn check_for_unexpected_attributes(es: &Vec<YamlEntry>, set: AttrSet, path: &Vec<&str>) -> (r: Result<(), Error>)
    ensures
        err_view(r) == check_attrs(es@, set, path_view(path@)),
{
    let ghost pv = path_view(path@);
    let mut i: usize = 0;
    while i < es.len()
        invariant
            i <= es@.len(),
            pv == path_view(path@),
            check_attrs_prefix(es@, i as int, set, pv) == Ok::<(), ErrorV>(()),
        decreases es.len() - i,
    {
        let e = &es[i];
        match &e.key {
            YamlDoc::Str(s) => {
                if !attr_allowed_exec(&set, s) {
                    let err = Error::UnexpectedAttribute { path_hint: hint(path), unexpected_attribute_name: s.clone() };
                    proof { lemma_check_attrs_err(es@, i + 1, es@.len() as int, set, pv); }
                    return Err(err);
                }
            },
            _ => {
                let err = Error::InvalidAttributeKeyType { path_hint: hint(path), formatted_attribute_key: e.key_text.clone() };
                proof { lemma_check_attrs_err(es@, i + 1, es@.len() as int, set, pv); }
                return Err(err);
            },
        }
        i = i + 1;
    }
    Ok(())
}

/// Whether optional bounds are out of order: both present and `min >= max`
/// makes `InvalidBounds`.
pub fn check_bounds_sanity(min: Option<i128>, max: Option<i128>, path: &Vec<&str>) -> (r: Result<(), Error>)
    ensures
        match r {
            Ok(_) => !(min matches Some(lo) && max matches Some(hi) && lo >= hi),
            Err(e) => min matches Some(lo) && max matches Some(hi) && lo >= hi
                && e@ == (ErrorV::InvalidBounds { path_hint: spec_format_path(path_view(path@)) }),
        },
{
    match (min, max) {
        (Some(lo), Some(hi)) if lo >= hi => Err(Error::InvalidBounds { path_hint: hint(path) }),
        _ => Ok(()),
    }
}

/// Whether optional size bounds are out of order: both present and
/// `min >= max` makes `InvalidSizeBounds`.
pub fn check_size_bounds_sanity(min: Option<usize>, max: Option<usize>, path: &Vec<&str>) -> (r: Result<(), Error>)
    ensures
        match r {
            Ok(_) => !(min matches Some(lo) && max matches Some(hi) && lo >= hi),
            Err(e) => min matches Some(lo) && max matches Some(hi) && lo >= hi
                && e@ == (ErrorV::InvalidSizeBounds { path_hint: spec_format_path(path_view(path@)) }),
        },
{
    match (min, max) {
        (Some(lo), Some(hi)) if lo >= hi => Err(Error::InvalidSizeBounds { path_hint: hint(path) }),
        _ => Ok(()),
    }
}

/// Optional real bounds as integers that order the same way.
fn real_bound(x: Option<RealKey>) -> (r: Option<i128>)
    ensures
        r == (match x { Some(k) => Some(k.0 as i128), None => None::<i128> }),
{
    match x {
        Some(k) => Some(k.0 as i128),
        None => None,
    }
}

/// Optional integer bounds widened.
fn int_bound(x: Option<i64>) -> (r: Option<i128>)
    ensures
        r == (match x { Some(k) => Some(k as i128), None => None::<i128> }),
{
    match x {
        Some(k) => Some(k as i128),
        None => None,
    }
}

/// Reads a real node.
fn build_real(es: &Vec<YamlEntry>, path: &Vec<&str>) -> (r: Result<Node, Error>)
    ensures
        result_view(r) == spec_build_real(es@, path_view(path@)),
{
    if let Err(e) = check_for_unexpected_attributes(es, AttrSet::Real, path) {
        return Err(e);
    }
    let min = match extract_real(es, "min", path, false) { Err(e) => { return Err(e); }, Ok(x) => x };
    let max = match extract_real(es, "max", path, false) { Err(e) => { return Err(e); }, Ok(x) => x };
    if let Err(e) = check_bounds_sanity(real_bound(min), real_bound(max), path) {
        return Err(e);
    }
    let init = match extract_real(es, "init", path, true) {
        Err(e) => { return Err(e); },
        Ok(None) => { return Err(missing(path, "init")); },
        Ok(Some(x)) => x,
    };
    let below = match min { Some(lo) => init.0 < lo.0, None => false };
    let above = match max { Some(hi) => init.0 > hi.0, None => false };
    if below || above {
        return Err(Error::InitNotWithinBounds { path_hint: hint(path) });
    }
    let scale = match extract_real(es, "scale", path, true) {
        Err(e) => { return Err(e); },
        Ok(None) => { return Err(missing(path, "scale")); },
        Ok(Some(x)) => x,
    };
    if scale.0 <= SIGN_BIT {
        return Err(Error::ScaleMustBeStrictlyPositive { path_hint: hint(path) });
    }
    Ok(Node::Real { init, scale, min, max })
}

/// Reads an int node.
fn build_int(es: &Vec<YamlEntry>, path: &Vec<&str>) -> (r: Result<Node, Error>)
    ensures
        result_view(r) == spec_build_int(es@, path_view(path@)),
{
    if let Err(e) = check_for_unexpected_attributes(es, AttrSet::Int, path) {
        return Err(e);
    }
    let min = match extract_int(es, "min", path, false) { Err(e) => { return Err(e); }, Ok(x) => x };
    let max = match extract_int(es, "max", path, false) { Err(e) => { return Err(e); }, Ok(x) => x };
    if let Err(e) = check_bounds_sanity(int_bound(min), int_bound(max), path) {
        return Err(e);
    }
    let init = match extract_int(es, "init", path, true) {
        Err(e) => { return Err(e); },
        Ok(None) => { return Err(missing(path, "init")); },
        Ok(Some(x)) => x,
    };
    let below = match min { Some(lo) => init < lo, None => false };
    let above = match max { Some(hi) => init > hi, None => false };
    if below || above {
        return Err(Error::InitNotWithinBounds { path_hint: hint(path) });
    }
    let scale = match extract_real(es, "scale", path, true) {
        Err(e) => { return Err(e); },
        Ok(None) => { return Err(missing(path, "scale")); },
        Ok(Some(x)) => x,
    };
    if scale.0 <= SIGN_BIT {
        return Err(Error::ScaleMustBeStrictlyPositive { path_hint: hint(path) });
    }
    Ok(Node::Int { init, scale, min, max })
}

/// Reads a bool node.
fn build_bool(es: &Vec<YamlEntry>, path: &Vec<&str>) -> (r: Result<Node, Error>)
    ensures
        result_view(r) == spec_build_bool(es@, path_view(path@)),
{
    if let Err(e) = check_for_unexpected_attributes(es, AttrSet::Bool, path) {
        return Err(e);
    }
    match extract_bool(es, "init", path, true) {
        Err(e) => Err(e),
        Ok(Some(init)) => Ok(Node::Bool { init }),
        Ok(None) => Err(missing(path, "init")),
    }
}

/// Reads a const node.
fn build_const(es: &Vec<YamlEntry>, path: &Vec<&str>) -> (r: Result<Node, Error>)
    ensures
        result_view(r) == spec_build_const(es@, path_view(path@)),
{
    match check_for_unexpected_attributes(es, AttrSet::Const, path) {
        Err(e) => Err(e),
        Ok(_) => Ok(Node::Const),
    }
}

/// Reads an enum node.
#[verifier::loop_isolation(false)]
fn build_enum(es: &Vec<YamlEntry>, path: &Vec<&str>) -> (r: Result<Node, Error>)
    ensures
        result_view(r) == spec_build_enum(es@, path_view(path@)),
{
    if let Err(e) = check_for_unexpected_attributes(es, AttrSet::Enum, path) {
        return Err(e);
    }
    let init_value = match extract_string(es, "init", path, true) {
        Err(e) => { return Err(e); },
        Ok(None) => { return Err(missing(path, "init")); },
        Ok(Some(s)) => s,
    };
    let i = match find_attr_exec(es, "values") {
        None => { return Err(missing(path, "values")); },
        Some(i) => i,
    };
    let items = match &es[i].value {
        YamlDoc::Sequence(items) => items,
        _ => { return Err(invalid_value_type(path, "values", "a sequence")); },
    };
    if items.len() < 2 {
        return Err(Error::NotEnoughEnumValues { path_hint: hint(path) });
    }
    let mut values: Vec<String> = Vec::new();
    let mut j: usize = 0;
    while j < items.len()
        invariant
            j <= items@.len(),
            values@.len() == j,
            forall|k: int| 0 <= k < j ==> items@[k] is Str,
            forall|k: int| 0 <= k < j ==> (#[trigger] values@[k])@ == enum_item_names(items@)[k],
        decreases items.len() - j,
    {
        match &items[j] {
            YamlDoc::Str(name) => {
                values.push(name.clone());
            },
            _ => {
                assert(!(items@[j as int] is Str));
                return Err(Error::EnumItemsMustBeString { path_hint: hint(path) });
            },
        }
        j = j + 1;
    }
    let ghost names = enum_item_names(items@);
    assert(values@.map_values(|s: String| s@) =~= names);
    let mut known = false;
    let mut k: usize = 0;
    while k < values.len()
        invariant
            k <= values@.len(),
            known == (exists|m: int| 0 <= m < k && values@[m]@ == init_value@),
        decreases values.len() - k,
    {
        if values[k] == init_value {
            known = true;
        }
        k = k + 1;
    }
    assert(known == names.contains(init_value@)) by {
        if known {
            let m = choose|m: int| 0 <= m < values@.len() && values@[m]@ == init_value@;
            assert(names[m] == init_value@);
        }
        if names.contains(init_value@) {
            let m = choose|m: int| 0 <= m < names.len() && names[m] == init_value@;
            assert(values@[m]@ == init_value@);
        }
    }
    if !known {
        return Err(Error::InitNotAKnownValue { path_hint: hint(path), init: init_value });
    }
    Ok(Node::Enum { values, init: init_value })
}

/// Reads the rest of an anon map node once its value type has been read.
fn anon_map_rest(es: &Vec<YamlEntry>, path: &Vec<&str>, value_type: Node) -> (r: Result<Node, Error>)
    ensures
        result_view(r) == spec_anon_map_rest(es@, path_view(path@), value_type@),
{
    let min_size = match extract_usize_attribute_value(es, "minSize", path, false) { Err(e) => { return Err(e); }, Ok(x) => x };
    let max_size = match extract_usize_attribute_value(es, "maxSize", path, false) { Err(e) => { return Err(e); }, Ok(x) => x };
    if let Err(e) = check_size_bounds_sanity(min_size, max_size, path) {
        return Err(e);
    }
    if let Some(hi) = max_size {
        if hi == 0 {
            return Err(Error::ZeroMaxSize { path_hint: hint(path) });
        }
    }
    let init_size = match extract_usize_attribute_value(es, "initSize", path, true) {
        Err(e) => { return Err(e); },
        Ok(None) => { return Err(missing(path, "initSize")); },
        Ok(Some(x)) => x,
    };
    let below = match min_size { Some(lo) => init_size < lo, None => false };
    let above = match max_size { Some(hi) => init_size > hi, None => false };
    if below || above {
        return Err(Error::InitSizeNotWithinBounds { path_hint: hint(path) });
    }
    let ghost vt = value_type@;
    let r = Node::AnonMap { value_type: Box::new(value_type), init_size, min_size, max_size };
    assert(r@ == (NodeV::AnonMap { value_type: Box::new(vt), init_size, min_size, max_size }));
    Ok(r)
}

/// Reads the rest of an optional node once its value type has been read.
fn optional_rest(es: &Vec<YamlEntry>, path: &Vec<&str>, value_type: Node) -> (r: Result<Node, Error>)
    ensures
        result_view(r) == spec_optional_rest(es@, path_view(path@), value_type@),
{
    match extract_bool(es, "initPresent", path, true) {
        Err(e) => Err(e),
        Ok(Some(init_present)) => {
            let ghost vt = value_type@;
            let r = Node::Optional { value_type: Box::new(value_type), init_present };
            assert(r@ == (NodeV::Optional { value_type: Box::new(vt), init_present }));
            Ok(r)
        },
        Ok(None) => Err(missing(path, "initPresent")),
    }
}

/// The key of a mapping entry as a string, through tags.
fn key_as_str(d: &YamlDoc) -> (r: Option<&String>)
    ensures
        match r {
            Some(s) => doc_as_str(*d) == Some(s@),
            None => doc_as_str(*d) is None,
        },
{
    match untag_exec(d) {
        YamlDoc::Str(s) => Some(s),
        _ => None,
    }
}

/// Binds `k` to `v` in `m` (see `map_insert`).
fn insert_child(m: &mut Vec<(String, Node)>, k: String, v: Node)
    ensures
        map_view(final(m)@) == map_insert(map_view(old(m)@), k@, v@),
{
    let ghost mv = map_view(m@);
    assert(crate::seq_util::string_keys(m@) =~= view_keys(mv));
    let ghost kv = k@;
    let ghost vv = v@;
    match crate::seq_util::find_key(m, k.as_str()) {
        Some(i) => {
            m.set(i, (k, v));
            assert(map_view(m@) =~= mv.update(i as int, (kv, vv)));
        },
        None => {
            m.push((k, v));
            assert(map_view(m@) =~= mv.push((kv, vv)));
        },
    }
}

/// Reads the children of a sub or variant node.
fn build_children<'a>(d: &'a YamlDoc, path: &Vec<&'a str>, skip_init: bool) -> (r: Result<Vec<(String, Node)>, Error>)
    ensures
        children_view(r) == children_prefix(*d, mapping_len(*d) as int, path_view(path@), skip_init),
    decreases d, 1nat,
{
    let ghost pv = path_view(path@);
    let es = match d {
        YamlDoc::Mapping(es) => es,
        _ => {
            let r = Vec::new();
            assert(map_view(r@) =~= Seq::<(Seq<char>, NodeV)>::empty());
            return Ok(r);
        },
    };
    let mut acc: Vec<(String, Node)> = Vec::new();
    let mut i: usize = 0;
    assert(map_view(acc@) =~= Seq::<(Seq<char>, NodeV)>::empty());
    while i < es.len()
        invariant
            *d == YamlDoc::Mapping(*es),
            i <= es@.len(),
            pv == path_view(path@),
            children_prefix(*d, i as int, pv, skip_init) == Ok::<Seq<(Seq<char>, NodeV)>, ErrorV>(map_view(acc@)),
        decreases es.len() - i,
    {
        let e = &es[i];
        match key_as_str(&e.key) {
            None => {
                let err = Error::InvalidAttributeKeyType { path_hint: hint(path), formatted_attribute_key: e.key_text.clone() };
                proof { lemma_children_err(*d, i + 1, es@.len() as int, pv, skip_init); }
                return Err(err);
            },
            Some(k) => {
                let skip = is_text(k, "type") || (skip_init && is_text(k, "init"));
                if !skip {
                    let cp = child_path(path, k.as_str());
                    proof {
                        assert(decreases_to!(*d => (*d)->Mapping_0));
                        assert(decreases_to!((*d)->Mapping_0 => es@));
                        assert(decreases_to!(es@ => es@[i as int]));
                        assert(decreases_to!(es@[i as int] => es@[i as int].value));
                    }
                    match build_node(&e.value, &cp) {
                        Err(err) => {
                            proof { lemma_children_err(*d, i + 1, es@.len() as int, pv, skip_init); }
                            return Err(err);
                        },
                        Ok(child) => {
                            insert_child(&mut acc, k.clone(), child);
                        },
                    }
                }
            },
        }
        i = i + 1;
    }
    Ok(acc)
}

/// Reads the value type of an anon map or optional node.
fn extract_value_type_attr_value<'a>(d: &'a YamlDoc, es: &'a Vec<YamlEntry>, path: &Vec<&'a str>) -> (r: Result<Node, Error>)
    requires
        *d == YamlDoc::Mapping(*es),
    ensures
        ({
            let i = find_attr(es@, "valueType"@);
            if 0 <= i < es@.len() {
                result_view(r) == spec_build_node(es@[i].value, path_view(path@))
            } else {
                r is Err && r->Err_0@ == err_missing(path_view(path@), "valueType"@)
            }
        }),
    decreases d, 1nat,
{
    match find_attr_exec(es, "valueType") {
        Some(i) => {
            proof {
                assert(decreases_to!(*d => (*d)->Mapping_0));
                assert(decreases_to!((*d)->Mapping_0 => es@));
                assert(decreases_to!(es@ => es@[i as int]));
                assert(decreases_to!(es@[i as int] => es@[i as int].value));
            }
            build_node(&es[i].value, path)
        },
        None => Err(missing(path, "valueType")),
    }
}

/// Reads the node that a document describes at a path.
fn build_node<'a>(d: &'a YamlDoc, path: &Vec<&'a str>) -> (r: Result<Node, Error>)
    ensures
        result_view(r) == spec_build_node(*d, path_view(path@)),
    decreases d, 2nat,
{
    let ghost pv = path_view(path@);
    let es = match d {
        YamlDoc::Mapping(es) => es,
        _ => {
            return Err(Error::ValueMustBeMap { path_hint: hint(path) });
        },
    };
    let kind = match extract_string(es, "type", path, false) {
        Err(e) => { return Err(e); },
        Ok(Some(t)) => t,
        Ok(None) => "sub".to_owned(),
    };
    if is_text(&kind, "real") {
        build_real(es, path)
    } else if is_text(&kind, "int") {
        build_int(es, path)
    } else if is_text(&kind, "bool") {
        build_bool(es, path)
    } else if is_text(&kind, "sub") {
        let map = match build_children(d, path, false) {
            Err(e) => { return Err(e); },
            Ok(m) => m,
        };
        if map.len() == 0 {
            Err(Error::EmptySub { path_hint: hint(path) })
        } else {
            let ghost mv = map_view(map@);
            let r = Node::Sub { map };
            assert(r@ == (NodeV::Sub { map: mv }));
            Ok(r)
        }
    } else if is_text(&kind, "anon map") || is_text(&kind, "optional") {
        let is_anon_map = is_text(&kind, "anon map");
        let set = if is_anon_map { AttrSet::AnonMap } else { AttrSet::Optional };
        if let Err(e) = check_for_unexpected_attributes(es, set, path) {
            return Err(e);
        }
        let value_type = match extract_value_type_attr_value(d, es, path) {
            Err(e) => { return Err(e); },
            Ok(vt) => vt,
        };
        if is_anon_map {
            anon_map_rest(es, path, value_type)
        } else {
            optional_rest(es, path, value_type)
        }
    } else if is_text(&kind, "variant") {
        let init = match extract_string(es, "init", path, true) {
            Err(e) => { return Err(e); },
            Ok(None) => { return Err(missing(path, "init")); },
            Ok(Some(s)) => s,
        };
        let map = match build_children(d, path, true) {
            Err(e) => { return Err(e); },
            Ok(m) => m,
        };
        if map.len() < 2 {
            return Err(Error::NotEnoughVariantValues { path_hint: hint(path) });
        }
        let ghost mv = map_view(map@);
        let known = crate::seq_util::find_key(&map, init.as_str());
        proof {
            assert(crate::seq_util::string_keys(map@) =~= view_keys(mv));
            lemma_key_pos(view_keys(mv), init@);
        }
        if known.is_none() {
            return Err(Error::InitNotAKnownValue { path_hint: hint(path), init });
        }
        let ghost iv = init@;
        let r = Node::Variant { map, init };
        assert(r@ == (NodeV::Variant { map: mv, init: iv }));
        Ok(r)
    } else if is_text(&kind, "enum") {
        build_enum(es, path)
    } else if is_text(&kind, "const") {
        build_const(es, path)
    } else {
        Err(Error::UnknownTypeName { path_hint: hint(path), unknown_type_name: kind })
    }
}

/// Reads a spec from a YAML document (see `spec_build_node`, at the root path).
pub fn from_yaml_doc(doc: &YamlDoc) -> (r: Result<Spec, Error>)
    ensures
        match r {
            Ok(s) => spec_build_node(*doc, Seq::empty()) == Ok::<NodeV, ErrorV>(s@),
            Err(e) => spec_build_node(*doc, Seq::empty()) == Err::<NodeV, ErrorV>(e@),
        },
{
    let root: Vec<&str> = Vec::new();
    assert(path_view(root@) =~= Seq::<Seq<char>>::empty());
    match build_node(doc, &root) {
        Ok(n) => Ok(Spec(n)),
        Err(e) => Err(e),
    }
}

/// Whether a spec node is a leaf: it has no child nodes.
pub fn is_leaf(spec_node: &Node) -> (r: bool)
    ensures
        r == spec_is_leaf(spec_node@),
{
    match spec_node {
        Node::Sub { .. } | Node::AnonMap { .. } | Node::Variant { .. } | Node::Optional { .. } => false,
        Node::Bool { .. } | Node::Real { .. } | Node::Int { .. } | Node::Enum { .. } | Node::Const => true,
    }
}

/// Whether a spec node is a leaf.
pub open spec fn spec_is_leaf(s: NodeV) -> bool {
    !(s is Sub || s is AnonMap || s is Variant || s is Optional)
}


/// Reads a spec from YAML text: text that does not parse is invalid YAML;
/// else the spec that the document describes (see `from_yaml_doc`).
pub fn from_yaml_str(yaml_str: &str) -> (r: Result<Spec, Error>)
    ensures
        match parsed_yaml(yaml_str@) {
            None => r matches Err(Error::InvalidYaml(_)),
            Some(d) => match r {
                Ok(s) => spec_build_node(d, Seq::empty()) == Ok::<NodeV, ErrorV>(s@),
                Err(e) => spec_build_node(d, Seq::empty()) == Err::<NodeV, ErrorV>(e@),
            },
        },
{
    match parse_yaml(yaml_str) {
        Ok(doc) => from_yaml_doc(&doc),
        Err(message) => Err(Error::InvalidYaml(message)),
    }
}

} // verus!
