//! The errors of the library as one type.
use crate::de::DeserializeError;
use crate::encoder::error::EncodeError;
use crate::ser::SerializeError;
use crate::value::error::DecodeError;
use vstd::prelude::*;
use vstd::std_specs::convert::FromSpecImpl;

verus! {

/// Any error of the library.
#[derive(Debug)]
pub enum Error {
    Encode(EncodeError),
    Decode(DecodeError),
    Message(String),
    Serialize(SerializeError),
    Deserialize(DeserializeError),
}

impl From<EncodeError> for Error {
    fn from(value: EncodeError) -> (e: Self) {
        Error::Encode(value)
    }
}

impl FromSpecImpl<EncodeError> for Error {
    open spec fn obeys_from_spec() -> bool {
        true
    }

    open spec fn from_spec(v: EncodeError) -> Self {
        Error::Encode(v)
    }
}

impl From<DecodeError> for Error {
    fn from(value: DecodeError) -> (e: Self) {
        Error::Decode(value)
    }
}

impl FromSpecImpl<DecodeError> for Error {
    open spec fn obeys_from_spec() -> bool {
        true
    }

    open spec fn from_spec(v: DecodeError) -> Self {
        Error::Decode(v)
    }
}

impl From<SerializeError> for Error {
    fn from(value: SerializeError) -> (e: Self) {
        Error::Serialize(value)
    }
}

impl FromSpecImpl<SerializeError> for Error {
    open spec fn obeys_from_spec() -> bool {
        true
    }

    open spec fn from_spec(v: SerializeError) -> Self {
        Error::Serialize(v)
    }
}

impl From<DeserializeError> for Error {
    fn from(value: DeserializeError) -> (e: Self) {
        Error::Deserialize(value)
    }
}

impl FromSpecImpl<DeserializeError> for Error {
    open spec fn obeys_from_spec() -> bool {
        true
    }

    open spec fn from_spec(v: DeserializeError) -> Self {
        Error::Deserialize(v)
    }
}

} // verus!
