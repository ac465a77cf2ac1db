//! The encoding side of serialization: what a serializer writes through, and what it can
//! refuse.
use crate::encoder::error::EncodeError;
use crate::encoder::Encoder;
use crate::error::Error;
use vstd::prelude::*;

verus! {

/// Writes serialized data as Fleece, through an Encoder.
pub struct Serializer {
    pub encoder: Encoder,
}

/// Why a value could not be serialized.
#[derive(Debug, Clone, Copy, PartialEq, Eq, Structural)]
pub enum SerializeError {
    /// A map key that is not a string; it names what the key was.
    KeyNotString(KeyType),
    /// The value to serialize is not a collection (an enum, sequence, map or non-unit
    /// struct).
    ValueNotCollection,
}

/// What a map key that is not a string was.
#[derive(Debug, Clone, Copy, PartialEq, Eq, Structural)]
pub enum KeyType {
    Bool,
    Int,
    Float,
    Bytes,
    Unit,
    Option,
    Enum,
    Struct,
    Tuple,
    Sequence,
    Mapping,
}

impl Serializer {
    /// A serializer with a new Encoder.
    pub fn new() -> (s: Self)
        ensures
            s.encoder.wf(),
            s.encoder.spec_out().len() == 0,
            s.encoder.spec_stack().len() == 0,
            !s.encoder.spec_closed(),
    {
        Serializer { encoder: Encoder::new() }
    }

    /// The bytes written, once serializing ended with `result`: a value that opened no
    /// collection is refused as no collection.
    pub fn finish(self, result: Result<(), Error>) -> (r: Result<Vec<u8>, Error>)
        requires
            self.encoder.wf(),
        ensures
            result is Ok ==> (r matches Ok(out) && out@.len() >= self.encoder.spec_out().len()
                && out@.subrange(0, self.encoder.spec_out().len() as int) == self.encoder.spec_out()),
            result == Err::<(), Error>(Error::Encode(EncodeError::CollectionNotOpen)) ==> r
                == Err::<Vec<u8>, Error>(Error::Serialize(SerializeError::ValueNotCollection)),
            result is Err && result != Err::<(), Error>(Error::Encode(EncodeError::CollectionNotOpen))
                ==> r == Err::<Vec<u8>, Error>(result->Err_0),
    {
        match result {
            Ok(()) => Ok(self.encoder.finish()),
            Err(Error::Encode(EncodeError::CollectionNotOpen)) => Err(
                Error::Serialize(SerializeError::ValueNotCollection),
            ),
            Err(other) => Err(other),
        }
    }
}

/// The error for a map key that is not a string.
pub fn key_not_string(kind: KeyType) -> (e: Error)
    ensures
        e == Error::Serialize(SerializeError::KeyNotString(kind)),
{
    Error::Serialize(SerializeError::KeyNotString(kind))
}

} // verus!
