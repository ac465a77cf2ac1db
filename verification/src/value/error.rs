use crate::value::ValueType;
use vstd::prelude::*;

verus! {

/// Why bytes are not valid Fleece. Positions are counted from the start of the data.
#[derive(Debug, Clone, Copy, PartialEq, Eq, Structural)]
pub enum DecodeError {
    InputIncorrectlySized,
    RootNotPointer,
    PointerTooSmall { actual: usize, expected: usize },
    PointerOffsetZero,
    IsNotDict,
    IsNotArray,
    /// The pointer at position `target` reaches `offset` bytes back, before `data_start`
    /// (or out of the data, for an external pointer).
    PointerTargetOutOfBounds { data_start: usize, target: usize, offset: u32 },
    ArrayOutOfBounds { count: usize, width: usize, available_size: usize },
    ValueOutOfBounds { value_type: ValueType, required_size: usize, available_size: usize },
}

} // verus!
