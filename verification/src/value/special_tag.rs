//! The low nibble of a special value (null, undefined, false, true).
use vstd::prelude::*;

verus! {

pub const NULL: u8 = 0x00;
pub const UNDEFINED: u8 = 0x0C;
pub const FALSE: u8 = 0x04;
pub const TRUE: u8 = 0x08;

} // verus!
