//! The two-byte encodings of the special values.
use vstd::prelude::*;

verus! {

pub const TRUE: [u8; 2] = [0x38, 0x00];
pub const FALSE: [u8; 2] = [0x34, 0x00];
pub const NULL: [u8; 2] = [0x30, 0x00];
pub const UNDEFINED: [u8; 2] = [0x3C, 0x00];

} // verus!
