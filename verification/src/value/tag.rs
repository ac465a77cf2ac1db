//! The high nibble of a value's first byte: its tag.
use vstd::prelude::*;

verus! {

pub const SHORT: u8 = 0x00;
pub const INT: u8 = 0x10;
pub const FLOAT: u8 = 0x20;
pub const SPECIAL: u8 = 0x30;
pub const STRING: u8 = 0x40;
pub const DATA: u8 = 0x50;
pub const ARRAY: u8 = 0x60;
pub const DICT: u8 = 0x70;
// Pointers are 0x80 to 0xF0
pub const POINTER: u8 = 0x80;

} // verus!
