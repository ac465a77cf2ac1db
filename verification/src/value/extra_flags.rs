//! Flags held in the low nibble of ints and floats.
use vstd::prelude::*;

verus! {

pub const UNSIGNED_INT: u8 = 0x08;
pub const DOUBLE_ENCODED: u8 = 0x08;
pub const DOUBLE_DECODED: u8 = 0x04;

} // verus!
