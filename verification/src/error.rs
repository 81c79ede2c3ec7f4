//! The errors of the library.
use vstd::prelude::*;

verus! {

/// What went wrong while reading a spec or a value, or while configuring a run.
/// Each message-bearing field is plain text; `path_hint` shows the path at which
/// the problem was found (see `common_util::format_path`).
#[derive(Debug, Clone, PartialEq)]
pub enum Error {
    /// The text is not YAML; the parser's message.
    InvalidYaml(String),
    /// The text is not JSON; the parser's message.
    InvalidJson(String),
    ValueMustBeMap { path_hint: String },
    UnsignedIntConversionFailed { path_hint: String, attribute_name: String },
    InvalidAttributeValueType { path_hint: String, attribute_name: String, expected_type_hint: String },
    InvalidAttributeKeyType { path_hint: String, formatted_attribute_key: String },
    UnknownTypeName { path_hint: String, unknown_type_name: String },
    InitNotWithinBounds { path_hint: String },
    InitSizeNotWithinBounds { path_hint: String },
    InvalidBounds { path_hint: String },
    InvalidSizeBounds { path_hint: String },
    ZeroMaxSize { path_hint: String },
    MandatoryAttributeMissing { path_hint: String, missing_attribute_name: String },
    UnexpectedAttribute { path_hint: String, unexpected_attribute_name: String },
    EmptySub { path_hint: String },
    NotEnoughVariantValues { path_hint: String },
    NotEnoughEnumValues { path_hint: String },
    MandatoryValueMissing { path_hint: String },
    NumberConversionFailed { path_hint: String },
    WrongTypeForValue { path_hint: String, type_hint: String },
    UnexpectedKey { path_hint: String, key: String },
    UnknownVariant { path_hint: String, variant_name: String },
    UnknownValue { path_hint: String, value: String },
    InvalidAnonMapKey { path_hint: String },
    InitNotAKnownValue { path_hint: String, init: String },
    ValueNotWithinBounds { path_hint: String },
    OnlyOneVariantAllowed { path_hint: String },
    EnumItemsMustBeString { path_hint: String },
    NonFiniteNumber { path_hint: String, attribute_name: String },
    ScaleMustBeStrictlyPositive { path_hint: String },
    ConflictingTerminationCriteria,
    NoIndividuals,
    InvalidQuantile,
    ZeroSampleSize,
    ZeroNumConcurrent,
}

/// An error as seen in specifications: its texts as character sequences.
pub enum ErrorV {
    InvalidYaml(Seq<char>),
    InvalidJson(Seq<char>),
    ValueMustBeMap { path_hint: Seq<char> },
    UnsignedIntConversionFailed { path_hint: Seq<char>, attribute_name: Seq<char> },
    InvalidAttributeValueType { path_hint: Seq<char>, attribute_name: Seq<char>, expected_type_hint: Seq<char> },
    InvalidAttributeKeyType { path_hint: Seq<char>, formatted_attribute_key: Seq<char> },
    UnknownTypeName { path_hint: Seq<char>, unknown_type_name: Seq<char> },
    InitNotWithinBounds { path_hint: Seq<char> },
    InitSizeNotWithinBounds { path_hint: Seq<char> },
    InvalidBounds { path_hint: Seq<char> },
    InvalidSizeBounds { path_hint: Seq<char> },
    ZeroMaxSize { path_hint: Seq<char> },
    MandatoryAttributeMissing { path_hint: Seq<char>, missing_attribute_name: Seq<char> },
    UnexpectedAttribute { path_hint: Seq<char>, unexpected_attribute_name: Seq<char> },
    EmptySub { path_hint: Seq<char> },
    NotEnoughVariantValues { path_hint: Seq<char> },
    NotEnoughEnumValues { path_hint: Seq<char> },
    MandatoryValueMissing { path_hint: Seq<char> },
    NumberConversionFailed { path_hint: Seq<char> },
    WrongTypeForValue { path_hint: Seq<char>, type_hint: Seq<char> },
    UnexpectedKey { path_hint: Seq<char>, key: Seq<char> },
    UnknownVariant { path_hint: Seq<char>, variant_name: Seq<char> },
    UnknownValue { path_hint: Seq<char>, value: Seq<char> },
    InvalidAnonMapKey { path_hint: Seq<char> },
    InitNotAKnownValue { path_hint: Seq<char>, init: Seq<char> },
    ValueNotWithinBounds { path_hint: Seq<char> },
    OnlyOneVariantAllowed { path_hint: Seq<char> },
    EnumItemsMustBeString { path_hint: Seq<char> },
    NonFiniteNumber { path_hint: Seq<char>, attribute_name: Seq<char> },
    ScaleMustBeStrictlyPositive { path_hint: Seq<char> },
    ConflictingTerminationCriteria,
    NoIndividuals,
    InvalidQuantile,
    ZeroSampleSize,
    ZeroNumConcurrent,
}

impl View for Error {
    type V = ErrorV;

    open spec fn view(&self) -> ErrorV {
        match self {
            Error::InvalidYaml(m) => ErrorV::InvalidYaml(m@),
            Error::InvalidJson(m) => ErrorV::InvalidJson(m@),
            Error::ValueMustBeMap { path_hint } => ErrorV::ValueMustBeMap { path_hint: path_hint@ },
            Error::UnsignedIntConversionFailed { path_hint, attribute_name } => ErrorV::UnsignedIntConversionFailed { path_hint: path_hint@, attribute_name: attribute_name@ },
            Error::InvalidAttributeValueType { path_hint, attribute_name, expected_type_hint } => ErrorV::InvalidAttributeValueType { path_hint: path_hint@, attribute_name: attribute_name@, expected_type_hint: expected_type_hint@ },
            Error::InvalidAttributeKeyType { path_hint, formatted_attribute_key } => ErrorV::InvalidAttributeKeyType { path_hint: path_hint@, formatted_attribute_key: formatted_attribute_key@ },
            Error::UnknownTypeName { path_hint, unknown_type_name } => ErrorV::UnknownTypeName { path_hint: path_hint@, unknown_type_name: unknown_type_name@ },
            Error::InitNotWithinBounds { path_hint } => ErrorV::InitNotWithinBounds { path_hint: path_hint@ },
            Error::InitSizeNotWithinBounds { path_hint } => ErrorV::InitSizeNotWithinBounds { path_hint: path_hint@ },
            Error::InvalidBounds { path_hint } => ErrorV::InvalidBounds { path_hint: path_hint@ },
            Error::InvalidSizeBounds { path_hint } => ErrorV::InvalidSizeBounds { path_hint: path_hint@ },
            Error::ZeroMaxSize { path_hint } => ErrorV::ZeroMaxSize { path_hint: path_hint@ },
            Error::MandatoryAttributeMissing { path_hint, missing_attribute_name } => ErrorV::MandatoryAttributeMissing { path_hint: path_hint@, missing_attribute_name: missing_attribute_name@ },
            Error::UnexpectedAttribute { path_hint, unexpected_attribute_name } => ErrorV::UnexpectedAttribute { path_hint: path_hint@, unexpected_attribute_name: unexpected_attribute_name@ },
            Error::EmptySub { path_hint } => ErrorV::EmptySub { path_hint: path_hint@ },
            Error::NotEnoughVariantValues { path_hint } => ErrorV::NotEnoughVariantValues { path_hint: path_hint@ },
            Error::NotEnoughEnumValues { path_hint } => ErrorV::NotEnoughEnumValues { path_hint: path_hint@ },
            Error::MandatoryValueMissing { path_hint } => ErrorV::MandatoryValueMissing { path_hint: path_hint@ },
            Error::NumberConversionFailed { path_hint } => ErrorV::NumberConversionFailed { path_hint: path_hint@ },
            Error::WrongTypeForValue { path_hint, type_hint } => ErrorV::WrongTypeForValue { path_hint: path_hint@, type_hint: type_hint@ },
            Error::UnexpectedKey { path_hint, key } => ErrorV::UnexpectedKey { path_hint: path_hint@, key: key@ },
            Error::UnknownVariant { path_hint, variant_name } => ErrorV::UnknownVariant { path_hint: path_hint@, variant_name: variant_name@ },
            Error::UnknownValue { path_hint, value } => ErrorV::UnknownValue { path_hint: path_hint@, value: value@ },
            Error::InvalidAnonMapKey { path_hint } => ErrorV::InvalidAnonMapKey { path_hint: path_hint@ },
            Error::InitNotAKnownValue { path_hint, init } => ErrorV::InitNotAKnownValue { path_hint: path_hint@, init: init@ },
            Error::ValueNotWithinBounds { path_hint } => ErrorV::ValueNotWithinBounds { path_hint: path_hint@ },
            Error::OnlyOneVariantAllowed { path_hint } => ErrorV::OnlyOneVariantAllowed { path_hint: path_hint@ },
            Error::EnumItemsMustBeString { path_hint } => ErrorV::EnumItemsMustBeString { path_hint: path_hint@ },
            Error::NonFiniteNumber { path_hint, attribute_name } => ErrorV::NonFiniteNumber { path_hint: path_hint@, attribute_name: attribute_name@ },
            Error::ScaleMustBeStrictlyPositive { path_hint } => ErrorV::ScaleMustBeStrictlyPositive { path_hint: path_hint@ },
            Error::ConflictingTerminationCriteria => ErrorV::ConflictingTerminationCriteria,
            Error::NoIndividuals => ErrorV::NoIndividuals,
            Error::InvalidQuantile => ErrorV::InvalidQuantile,
            Error::ZeroSampleSize => ErrorV::ZeroSampleSize,
            Error::ZeroNumConcurrent => ErrorV::ZeroNumConcurrent,
        }
    }
}

/// The view of a result whose success value has a view.
pub open spec fn result_view<T: View>(r: Result<T, Error>) -> Result<T::V, ErrorV> {
    match r {
        Ok(t) => Ok(t@),
        Err(e) => Err(e@),
    }
}

} // verus!
