use vstd::prelude::*;

verus! {

/// The type of a Fleece value, as its first byte tells it.
#[derive(Debug, Clone, Copy, PartialEq, Eq, Structural)]
pub enum ValueType {
    Null,
    Undefined,
    False,
    True,
    Short,
    Int,
    UnsignedInt,
    Float,
    // Double32 is encoded as a 32-bit float, but should be decoded into a 64-bit float. This
    // avoids precision loss where a 64-bit float was encoded as a 32-bit float because it is
    // representable in 32 bits.
    Double32,
    Double64,
    String,
    Data,
    Array,
    Dict,
    Pointer,
}

/// The type that a value whose first byte is `byte` has.
pub open spec fn type_of_byte(byte: u8) -> ValueType {
    let hi = byte & 0xF0;
    if hi == 0x30 {
        let lo = byte & 0x0F;
        if lo == 0x0C {
            ValueType::Undefined
        } else if lo == 0x04 {
            ValueType::False
        } else if lo == 0x08 {
            ValueType::True
        } else {
            ValueType::Null
        }
    } else if hi == 0x00 {
        ValueType::Short
    } else if hi == 0x10 {
        if byte & 0x08 == 0 {
            ValueType::Int
        } else {
            ValueType::UnsignedInt
        }
    } else if hi == 0x20 {
        let f = byte & 0x0C;
        if f == 0 {
            ValueType::Float
        } else if f == 0x04 {
            ValueType::Double32
        } else {
            ValueType::Double64
        }
    } else if hi == 0x40 {
        ValueType::String
    } else if hi == 0x50 {
        ValueType::Data
    } else if hi == 0x60 {
        ValueType::Array
    } else if hi == 0x70 {
        ValueType::Dict
    } else {
        ValueType::Pointer
    }
}

impl ValueType {
    /// The type of a value whose first byte is `byte`.
    pub fn from_byte(byte: u8) -> (t: ValueType)
        ensures
            t == type_of_byte(byte),
    {
        let hi = byte & 0xF0;
        if hi == 0x30 {
            let lo = byte & 0x0F;
            if lo == 0x0C {
                ValueType::Undefined
            } else if lo == 0x04 {
                ValueType::False
            } else if lo == 0x08 {
                ValueType::True
            } else {
                ValueType::Null
            }
        } else if hi == 0x00 {
            ValueType::Short
        } else if hi == 0x10 {
            if byte & 0x08 == 0 {
                ValueType::Int
            } else {
                ValueType::UnsignedInt
            }
        } else if hi == 0x20 {
            let f = byte & 0x0C;
            if f == 0 {
                ValueType::Float
            } else if f == 0x04 {
                ValueType::Double32
            } else {
                ValueType::Double64
            }
        } else if hi == 0x40 {
            ValueType::String
        } else if hi == 0x50 {
            ValueType::Data
        } else if hi == 0x60 {
            ValueType::Array
        } else if hi == 0x70 {
            ValueType::Dict
        } else {
            ValueType::Pointer
        }
    }

    /// Whether this is one of the three float types.
    pub open spec fn is_float(self) -> bool {
        self == ValueType::Float || self == ValueType::Double32 || self == ValueType::Double64
    }
}

} // verus!
