use crate::value::pointer::MAX_WIDE;
use crate::value::value_type::type_of_byte;
use crate::value::{Value, ValueType};
use vstd::prelude::*;

verus! {

/// A statically sized value of 4 bytes, to build values on the stack for the Encoder. A
/// pointer here holds its offset as a plain big-endian number with the pointer tag in the
/// top bits; it becomes a Fleece pointer when it is written.
#[derive(Clone, Copy)]
pub struct SizedValue {
    pub bytes: [u8; 4],
}

/// The big-endian `u32` of four bytes.
pub open spec fn be_u32(b0: u8, b1: u8, b2: u8, b3: u8) -> u32 {
    (b0 as int * 0x100_0000 + b1 as int * 0x1_0000 + b2 as int * 0x100 + b3 as int) as u32
}

impl SizedValue {
    pub open spec fn b(self, i: int) -> u8 {
        self.bytes@[i]
    }

    pub open spec fn spec_type(self) -> ValueType {
        type_of_byte(self.b(0))
    }

    /// The offset a pointer holds.
    pub open spec fn spec_pointer_offset(self) -> u32 {
        be_u32(self.b(0) ^ 0x80, self.b(1), self.b(2), self.b(3))
    }

    /// The value whose first two bytes are `narrow`, padded with two zero bytes.
    pub open spec fn spec_narrow(narrow: [u8; 2]) -> SizedValue {
        SizedValue { bytes: [narrow@[0], narrow@[1], 0, 0] }
    }

    /// A pointer holding `offset`.
    pub open spec fn spec_pointer(offset: u32) -> SizedValue {
        SizedValue {
            bytes: [
                ((offset / 0x100_0000) as u8) | 0x80,
                ((offset / 0x1_0000) % 0x100) as u8,
                ((offset / 0x100) % 0x100) as u8,
                (offset % 0x100) as u8,
            ],
        }
    }

    /// A pointer made of an offset that fits holds that offset.
    pub proof fn lemma_spec_pointer(offset: u32)
        requires
            offset <= MAX_WIDE,
        ensures
            Self::spec_pointer(offset).spec_type() == ValueType::Pointer,
            Self::spec_pointer(offset).spec_pointer_offset() == offset,
    {
        let b0 = (offset / 0x100_0000) as u8;
        assert(b0 <= 0x3F);
        assert(b0 <= 0x3F ==> (b0 | 0x80) & 0xF0 >= 0x80 && (b0 | 0x80) ^ 0x80 == b0) by (bit_vector);
        assert(type_of_byte(b0 | 0x80) == ValueType::Pointer);
    }

    /// Construct a `SizedValue` from a 2-byte value.
    pub fn new_narrow(narrow: [u8; 2]) -> (s: Self)
        ensures
            s == Self::spec_narrow(narrow),
    {
        Self { bytes: [narrow[0], narrow[1], 0, 0] }
    }

    /// A pointer that holds `offset`, if it fits in a wide pointer.
    pub fn new_pointer(offset: u32) -> (s: Option<Self>)
        ensures
            offset > MAX_WIDE <==> s is None,
            s matches Some(p) ==> p == Self::spec_pointer(offset) && p.spec_type() == ValueType::Pointer
                && p.spec_pointer_offset() == offset,
    {
        if offset > MAX_WIDE {
            None
        } else {
            let b0 = (offset / 0x100_0000) as u8;
            let p = Self {
                bytes: [
                    b0 | 0x80,
                    ((offset / 0x1_0000) % 0x100) as u8,
                    ((offset / 0x100) % 0x100) as u8,
                    (offset % 0x100) as u8,
                ],
            };
            proof {
                Self::lemma_spec_pointer(offset);
            }
            Some(p)
        }
    }

    pub fn value_type(&self) -> (t: ValueType)
        ensures
            t == self.spec_type(),
    {
        ValueType::from_byte(self.bytes[0])
    }

    /// The offset that a pointer holds.
    pub fn pointer_offset(&self) -> (o: u32)
        ensures
            o == self.spec_pointer_offset(),
    {
        let b0 = self.bytes[0] ^ 0x80;
        (b0 as u32) * 0x100_0000 + (self.bytes[1] as u32) * 0x1_0000 + (self.bytes[2] as u32) * 0x100
            + self.bytes[3] as u32
    }

    /// The distance from `out_len` back to the position a pointer holds.
    pub fn actual_pointer_offset(&self, out_len: usize) -> (o: u32)
        requires
            self.spec_pointer_offset() <= out_len,
            out_len - self.spec_pointer_offset() <= u32::MAX,
        ensures
            o == out_len - self.spec_pointer_offset(),
    {
        (out_len - self.pointer_offset() as usize) as u32
    }

    /// This value read as a Fleece value of its four bytes.
    pub fn as_value(&self) -> (v: Value<'_>)
        ensures
            v.wf(),
            v.start == 0,
            v.end == 4,
            v.data@ == self.bytes@,
    {
        Value { data: self.bytes.as_slice(), start: 0, end: 4 }
    }

    pub fn as_bytes(&self) -> (b: &[u8; 4])
        ensures
            *b == self.bytes,
    {
        &self.bytes
    }
}

} // verus!
