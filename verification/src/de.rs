//! What the deserializer can refuse.
use crate::value::ValueType;
use vstd::prelude::*;

verus! {

/// Why data could not be deserialized into the requested type.
#[derive(Debug)]
pub enum DeserializeError {
    CannotDeserializePointer,
    NotArray,
    NotDict,
    InvalidEnumType(ValueType),
    KeyWithoutValue,
    InvalidEnumLayout(&'static str, String),
    CannotDecodeSharedKeys,
}

} // verus!
