//! Errors of DRISL serialization.
use vstd::prelude::*;

verus! {

/// Why a value cannot be written as DRISL.
#[derive(Debug, Clone, Copy, PartialEq, Eq, Structural)]
pub enum EncodeError {
    /// A float that is infinite or not a number.
    NonFiniteFloat,
    /// A signed integer outside `[-2^64, 2^64 - 1]`.
    IntegerOutOfRange,
    /// An unsigned integer above `2^64 - 1`.
    UnsignedOutOfRange,
    /// An element of a list of unknown length failed.
    ListElement,
    /// A value of a struct or map failed.
    StructValue,
    /// A key of a map failed.
    MapKey,
    /// A map key that is not a string, where the value model needs string keys.
    InvalidKeyType,
}

impl EncodeError {
    /// The message that describes this error.
    pub fn message(&self) -> (m: &'static str)
        ensures
            m@ == (match self {
                EncodeError::NonFiniteFloat => "Float must be a finite number, not Infinity or NaN"@,
                EncodeError::IntegerOutOfRange => "Integer must be within [-u64::MAX-1, u64::MAX] range"@,
                EncodeError::UnsignedOutOfRange => "Unsigned integer must be within [0, u64::MAX] range"@,
                EncodeError::ListElement => "List element cannot be serialized"@,
                EncodeError::StructValue => "Struct value cannot be serialized."@,
                EncodeError::MapKey => "Map key cannot be serialized."@,
                EncodeError::InvalidKeyType => "invalid key type, expected string"@,
            }),
    {
        match self {
            EncodeError::NonFiniteFloat => "Float must be a finite number, not Infinity or NaN",
            EncodeError::IntegerOutOfRange => "Integer must be within [-u64::MAX-1, u64::MAX] range",
            EncodeError::UnsignedOutOfRange => "Unsigned integer must be within [0, u64::MAX] range",
            EncodeError::ListElement => "List element cannot be serialized",
            EncodeError::StructValue => "Struct value cannot be serialized.",
            EncodeError::MapKey => "Map key cannot be serialized.",
            EncodeError::InvalidKeyType => "invalid key type, expected string",
        }
    }
}

} // verus!
