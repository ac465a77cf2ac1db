use vstd::prelude::*;

verus! {

/// Why the Encoder refused a call.
#[derive(Debug, Clone, Copy, PartialEq, Eq, Structural)]
pub enum EncodeError {
    ArrayNotOpen,
    DictNotOpen,
    DictWaitingForValue,
    DictWaitingForKey,
    CollectionNotOpen,
    PointerTooLarge,
    MultiTopLevelCollection,
}

/// The message that describes the error `e`.
pub open spec fn encode_error_text(e: EncodeError) -> Seq<char> {
    match e {
        EncodeError::ArrayNotOpen => "No open array"@,
        EncodeError::DictNotOpen => "No open dictionary"@,
        EncodeError::DictWaitingForValue => "Cannot write another key until the previous key has a value written to it"@,
        EncodeError::DictWaitingForKey => "Cannot write a value until a key has been written"@,
        EncodeError::CollectionNotOpen => "No open collection to write a value to"@,
        EncodeError::PointerTooLarge => "Value Pointer too large to be encoded"@,
        EncodeError::MultiTopLevelCollection => "Multiple top level collections are not allowed"@,
    }
}

impl EncodeError {
    /// The message that describes the error.
    pub fn message(&self) -> (s: &'static str)
        ensures
            s@ == encode_error_text(*self),
    {
        match self {
            EncodeError::ArrayNotOpen => "No open array",
            EncodeError::DictNotOpen => "No open dictionary",
            EncodeError::DictWaitingForValue => {
                "Cannot write another key until the previous key has a value written to it"
            },
            EncodeError::DictWaitingForKey => "Cannot write a value until a key has been written",
            EncodeError::CollectionNotOpen => "No open collection to write a value to",
            EncodeError::PointerTooLarge => "Value Pointer too large to be encoded",
            EncodeError::MultiTopLevelCollection => "Multiple top level collections are not allowed",
        }
    }
}

} // verus!
