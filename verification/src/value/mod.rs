pub mod array;
pub mod constants;
pub mod dict;
pub mod error;
pub mod extra_flags;
pub mod float_conv;
pub mod pointer;
pub mod sized;
pub mod special_tag;
pub mod tag;
pub mod utf8;
pub mod validate;
pub mod value_type;
pub mod varint;

pub use error::DecodeError;
pub use value_type::ValueType;

use crate::value::float_conv::{f32_bits_to_int, f64_bits_to_int, f32_to_int, f64_to_int};
use crate::value::value_type::type_of_byte;
use crate::value::varint::varint_read;
use vstd::arithmetic::power2::pow2;
use vstd::prelude::*;
use vstd::string::StringSliceAdditionalSpecFns;
use vstd::utf8::valid_utf8;

verus! {

/// Byte `i` of `d`, read only below `e`; 0 at and past `e`.
pub open spec fn byte_at(d: Seq<u8>, e: int, i: int) -> u8 {
    if 0 <= i < e && i < d.len() {
        d[i]
    } else {
        0
    }
}

/// The little-endian number held by the `n` bytes of `d` from `off` on, read below `e`.
pub open spec fn le_bytes(d: Seq<u8>, e: int, off: int, n: nat) -> nat
    decreases n,
{
    if n == 0 {
        0
    } else {
        byte_at(d, e, off) as nat + 256 * le_bytes(d, e, off + 1, (n - 1) as nat)
    }
}

pub proof fn lemma_le_bytes_bound(d: Seq<u8>, e: int, off: int, n: nat)
    ensures
        le_bytes(d, e, off, n) < pow2(8 * n),
    decreases n,
{
    if n == 0 {
        vstd::arithmetic::power2::lemma2_to64();
    } else {
        lemma_le_bytes_bound(d, e, off + 1, (n - 1) as nat);
        vstd::arithmetic::power2::lemma_pow2_adds(8, (8 * (n - 1)) as nat);
        vstd::arithmetic::power2::lemma2_to64();
        assert(8 * n == 8 + 8 * (n - 1));
        let r = le_bytes(d, e, off + 1, (n - 1) as nat);
        let b = byte_at(d, e, off) as nat;
        assert(b + 256 * r < 256 * pow2((8 * (n - 1)) as nat)) by (nonlinear_arith)
            requires
                b < 256,
                r < pow2((8 * (n - 1)) as nat),
        ;
    }
}

/// A Fleece value: the bytes `data[start..end]` of a buffer, which may refer (by pointers)
/// to bytes before `start`.
#[derive(Clone, Copy)]
pub struct Value<'a> {
    pub data: &'a [u8],
    pub start: usize,
    pub end: usize,
}

impl<'a> Value<'a> {
    /// A value holds at least two bytes, within its buffer.
    pub open spec fn wf(self) -> bool {
        self.start + 2 <= self.end <= self.data@.len()
    }

    /// Byte `i` of this value (0 past its end).
    pub open spec fn byte(self, i: int) -> u8 {
        byte_at(self.data@, self.end as int, self.start + i)
    }

    pub open spec fn spec_len(self) -> int {
        self.end - self.start
    }

    pub open spec fn spec_type(self) -> ValueType {
        type_of_byte(self.byte(0))
    }

    /// The 12 low bits of the first two bytes, big-endian.
    pub open spec fn short_bits(self) -> int {
        (self.byte(0) & 0x0F) as int * 256 + self.byte(1) as int
    }

    /// The 12-bit two's-complement number of a Short.
    pub open spec fn short_value(self) -> int {
        if self.short_bits() >= 2048 {
            self.short_bits() - 4096
        } else {
            self.short_bits()
        }
    }

    /// The number of payload bytes of an Int or UnsignedInt.
    pub open spec fn int_size(self) -> nat {
        ((self.byte(0) & 0x07) + 1) as nat
    }

    /// The payload of an Int or UnsignedInt, unsigned.
    pub open spec fn int_payload(self) -> nat {
        le_bytes(self.data@, self.end as int, self.start + 1, self.int_size())
    }

    /// The number an Int (sign-extended) or UnsignedInt holds, as an `i64`.
    pub open spec fn int_value(self) -> i64 {
        let n = self.int_size();
        let u = self.int_payload();
        if self.spec_type() == ValueType::Int && u >= pow2((8 * n - 1) as nat) {
            (u - pow2(8 * n)) as i64
        } else {
            u as i64
        }
    }

    /// The bits of a 32-bit float (Float, Double32).
    pub open spec fn f32_bits(self) -> u32 {
        le_bytes(self.data@, self.end as int, self.start + 2, 4) as u32
    }

    /// The bits of a 64-bit float (Double64).
    pub open spec fn f64_bits(self) -> u64 {
        le_bytes(self.data@, self.end as int, self.start + 2, 8) as u64
    }

    /// The float held, converted as Rust's `as` does to the integer range `[lo, hi]`.
    pub open spec fn float_as_int(self, lo: int, hi: int) -> int {
        if self.spec_type() == ValueType::Double64 {
            f64_bits_to_int(self.f64_bits(), lo, hi)
        } else {
            f32_bits_to_int(self.f32_bits(), lo, hi)
        }
    }

    pub open spec fn spec_to_int(self) -> i64 {
        match self.spec_type() {
            ValueType::True => 1,
            ValueType::False => 0,
            ValueType::Short => self.short_value() as i64,
            ValueType::Int | ValueType::UnsignedInt => self.int_value(),
            ValueType::Float | ValueType::Double32 | ValueType::Double64 => self.float_as_int(
                i64::MIN as int,
                i64::MAX as int,
            ) as i64,
            _ => 0,
        }
    }

    pub open spec fn spec_to_short(self) -> i16 {
        match self.spec_type() {
            ValueType::True => 1,
            ValueType::False => 0,
            ValueType::Short => self.short_value() as i16,
            ValueType::Int | ValueType::UnsignedInt => self.spec_to_int() as i16,
            ValueType::Float | ValueType::Double32 | ValueType::Double64 => self.float_as_int(
                i16::MIN as int,
                i16::MAX as int,
            ) as i16,
            _ => 0,
        }
    }

    pub open spec fn spec_to_bool(self) -> bool {
        match self.spec_type() {
            ValueType::False => false,
            ValueType::Short
            | ValueType::Int
            | ValueType::Float
            | ValueType::Double32
            | ValueType::Double64 => self.spec_to_int() != 0,
            _ => true,
        }
    }

    /// Where the bytes of a String or Data lie in the buffer (`[lo, hi)`), as its size nibble
    /// or, for size nibble 0x0F, the varint after the first byte gives it; `None` where that
    /// varint is missing.
    pub open spec fn data_range(self) -> Option<(int, int)> {
        let size = self.byte(0) & 0x0F;
        if size == 0x0F {
            let r = varint_read(self.data@.subrange(self.start + 1, self.end as int));
            if r.0 == 0 {
                None
            } else {
                let lo = self.start + 1 + r.0;
                Some((lo, lo + r.1))
            }
        } else {
            Some((self.start + 1, self.start + 1 + size))
        }
    }

    /// The bytes of a String or Data value; empty for other types, and where the declared
    /// bytes run past the end of the value.
    pub open spec fn spec_data(self) -> Seq<u8> {
        if self.spec_type() == ValueType::String || self.spec_type() == ValueType::Data {
            match self.data_range() {
                Some((lo, hi)) => if hi <= self.end {
                    self.data@.subrange(lo, hi)
                } else {
                    Seq::empty()
                },
                None => Seq::empty(),
            }
        } else {
            Seq::empty()
        }
    }

    /// The text of a String value: its bytes where they are valid UTF-8, else empty.
    pub open spec fn spec_str_bytes(self) -> Seq<u8> {
        if self.spec_type() == ValueType::String && valid_utf8(self.spec_data()) {
            self.spec_data()
        } else {
            Seq::empty()
        }
    }

    /// The number of bytes this value needs from its start on. For Array and Dict, only the
    /// header.
    pub open spec fn spec_required_size(self) -> int {
        match self.spec_type() {
            ValueType::Null
            | ValueType::Undefined
            | ValueType::False
            | ValueType::True
            | ValueType::Short => 2,
            ValueType::Int | ValueType::UnsignedInt => 2 + (self.byte(0) & 0x07),
            ValueType::Float | ValueType::Double32 => 6,
            ValueType::Double64 => 10,
            ValueType::String | ValueType::Data => match self.data_range() {
                Some((lo, hi)) => if hi <= lo {
                    0
                } else if hi - self.start > usize::MAX {
                    usize::MAX as int
                } else {
                    hi - self.start
                },
                None => 0,
            },
            ValueType::Array | ValueType::Dict | ValueType::Pointer => 2,
        }
    }

    /// Where the bytes of a String or Data begin, and how many there are.
    fn _data_range(&self) -> (r: Option<(usize, u64)>)
        requires
            self.wf(),
        ensures
            match self.data_range() {
                Some((lo, hi)) => r matches Some((l, n)) && l == lo && l + n == hi,
                None => r is None,
            },
    {
        let size = self.byte_exec(0) & 0x0F;
        if size == 0x0F {
            let (n, len) = varint::read(&self.data[self.start + 1..self.end]);
            proof {
                varint::lemma_varint_read_len(self.data@.subrange(self.start + 1, self.end as int));
            }
            if n == 0 {
                None
            } else {
                Some((self.start + 1 + n, len))
            }
        } else {
            Some((self.start + 1, size as u64))
        }
    }

    /// The bytes of a String or Data value (empty for other types, and where the declared
    /// bytes run past the end of the value).
    pub fn to_data(&self) -> (r: &'a [u8])
        requires
            self.wf(),
        ensures
            r@ == self.spec_data(),
    {
        let t = self.value_type();
        if t != ValueType::String && t != ValueType::Data {
            return &[];
        }
        match self._data_range() {
            Some((lo, n)) => {
                if lo <= self.end && n <= (self.end - lo) as u64 {
                    &self.data[lo..lo + n as usize]
                } else {
                    &[]
                }
            },
            None => &[],
        }
    }

    /// The text of a String value: empty for other types and where the bytes are not UTF-8.
    pub fn to_str(&self) -> (r: &'a str)
        requires
            self.wf(),
        ensures
            r.spec_bytes() == self.spec_str_bytes(),
    {
        if self.value_type() == ValueType::String {
            utf8::str_from_utf8_or_empty(self.to_data())
        } else {
            utf8::str_from_utf8_or_empty(&[])
        }
    }

    /// The number of bytes this value needs from its start on; for Array and Dict, only the
    /// header.
    pub fn required_size(&self) -> (n: usize)
        requires
            self.wf(),
        ensures
            n == self.spec_required_size(),
    {
        match self.value_type() {
            ValueType::Null
            | ValueType::Undefined
            | ValueType::False
            | ValueType::True
            | ValueType::Short => 2,
            ValueType::Int | ValueType::UnsignedInt => {
                let b0 = self.byte_exec(0);
                proof {
                    assert(b0 & 0x07 <= 7) by (bit_vector);
                }
                2 + (b0 & 0x07) as usize
            },
            ValueType::Float | ValueType::Double32 => 6,
            ValueType::Double64 => 10,
            ValueType::String | ValueType::Data => match self._data_range() {
                Some((lo, n)) => {
                    if n == 0 {
                        0
                    } else if n > (usize::MAX - (lo - self.start)) as u64 {
                        usize::MAX
                    } else {
                        lo - self.start + n as usize
                    }
                },
                None => 0,
            },
            ValueType::Array | ValueType::Dict | ValueType::Pointer => 2,
        }
    }

    /// Byte `i` of this value, or 0 past its end.
    pub(crate) fn byte_exec(&self, i: usize) -> (b: u8)
        requires
            self.wf(),
        ensures
            b == self.byte(i as int),
    {
        if i < self.end - self.start {
            self.data[self.start + i]
        } else {
            0
        }
    }

    /// The number of bytes this value spans in its buffer.
    pub fn len(&self) -> (n: usize)
        requires
            self.wf(),
        ensures
            n == self.spec_len(),
    {
        self.end - self.start
    }

    pub fn is_empty(&self) -> (b: bool)
        requires
            self.wf(),
        ensures
            b == (self.spec_len() == 0),
    {
        self.end == self.start
    }

    pub fn value_type(&self) -> (t: ValueType)
        requires
            self.wf(),
        ensures
            t == self.spec_type(),
    {
        ValueType::from_byte(self.byte_exec(0))
    }

    /// The 12 low bits of the first two bytes.
    fn _get_short(&self) -> (s: u16)
        requires
            self.wf(),
        ensures
            s == self.short_bits(),
            s < 4096,
    {
        let b0 = self.byte_exec(0);
        let b1 = self.byte_exec(1);
        proof {
            assert(b0 & 0x0F <= 15) by (bit_vector);
        }
        (b0 & 0x0F) as u16 * 256 + b1 as u16
    }

    /// The sign-extended 12-bit number of a Short.
    fn _short_value(&self) -> (v: i16)
        requires
            self.wf(),
        ensures
            v == self.short_value(),
    {
        let i = self._get_short();
        proof {
            assert(i < 4096 && i & 0x0800 != 0 ==> (i | 0xF000) as i16 == i - 4096) by (bit_vector);
            assert(i < 4096 && i & 0x0800 == 0 ==> i < 2048) by (bit_vector);
            assert(i < 4096 && i & 0x0800 != 0 ==> i >= 2048) by (bit_vector);
        }
        if i & 0x0800 != 0 {
            (i | 0xF000) as i16
        } else {
            i as i16
        }
    }

    /// The little-endian number of `n` bytes from byte `off` of this value on.
    fn read_le(&self, off: usize, n: usize) -> (r: u128)
        requires
            self.wf(),
            n <= 8,
            off <= 2,
        ensures
            r == le_bytes(self.data@, self.end as int, self.start + off, n as nat),
            r < pow2(8 * n as nat),
    {
        let mut acc: u128 = 0;
        let mut k: usize = n;
        proof {
            lemma_le_bytes_bound(self.data@, self.end as int, self.start + off, n as nat);
        }
        while k > 0
            invariant
                k <= n <= 8,
                off <= 2,
                self.wf(),
                acc == le_bytes(self.data@, self.end as int, self.start + off + k, (n - k) as nat),
            decreases k,
        {
            let b = self.byte_exec(off + k - 1);
            proof {
                lemma_le_bytes_bound(self.data@, self.end as int, self.start + off + k, (n - k) as nat);
                vstd::arithmetic::power2::lemma2_to64();
                vstd::arithmetic::power2::lemma2_to64_rest();
                if n - k < 7 {
                    vstd::arithmetic::power2::lemma_pow2_strictly_increases(8 * (n - k) as nat, 56);
                }
                assert(acc * 256 + b <= 0xFFFF_FFFF_FFFF_FFFF_FFFF) by (nonlinear_arith)
                    requires
                        acc < pow2(56),
                        pow2(56) == 0x100_0000_0000_0000,
                        b < 256,
                ;
            }
            acc = b as u128 + 256 * acc;
            k = k - 1;
        }
        acc
    }

    /// The number an Int or UnsignedInt holds.
    fn _get_int(&self) -> (v: i64)
        requires
            self.wf(),
            self.spec_type() == ValueType::Int || self.spec_type() == ValueType::UnsignedInt,
        ensures
            v == self.int_value(),
    {
        let b0 = self.byte_exec(0);
        proof {
            assert(b0 & 0x07 <= 7) by (bit_vector);
        }
        let n = (b0 & 0x07) as usize + 1;
        let u = self.read_le(1, n);
        let signed = b0 & 0x08 == 0;
        proof {
            vstd::arithmetic::power2::lemma2_to64();
            vstd::arithmetic::power2::lemma2_to64_rest();
        }
        let bits: u32 = 8 * n as u32;
        let full: u128 = 1u128 << bits;
        proof {
            vstd::arithmetic::power2::lemma_pow2_unfold((8 * n) as nat);
            assert(full == pow2((8 * n) as nat)) by {
                lemma_shl_pow2_u128(bits);
            }
            vstd::arithmetic::power2::lemma_pow2_unfold((8 * n) as nat);
            assert(pow2((8 * n) as nat) == 2 * pow2((8 * n - 1) as nat));
            assert(self.spec_type() == ValueType::Int <==> signed);
        }
        if signed && u >= full / 2 {
            (u as i128 - full as i128) as i64
        } else {
            u as i64
        }
    }

    /// The float held, converted as Rust's `as` does to `[lo, hi]`.
    fn _float_as_int(&self, lo: i64, hi: i64) -> (v: i64)
        requires
            self.wf(),
            lo <= 0 <= hi,
        ensures
            v == self.float_as_int(lo as int, hi as int),
    {
        if self.byte_exec(0) & 0xF0 == 0x20 && self.byte_exec(0) & 0x0C != 0 && self.byte_exec(0) & 0x0C != 0x04 {
            let bits = self.read_le(2, 8);
            proof {
                vstd::arithmetic::power2::lemma2_to64_rest();
            }
            f64_to_int(bits as u64, lo, hi)
        } else {
            let bits = self.read_le(2, 4);
            proof {
                vstd::arithmetic::power2::lemma2_to64();
            }
            f32_to_int(bits as u32, lo, hi)
        }
    }

    /// The value as a boolean: `false` for False and for numbers (but unsigned ints) that are
    /// 0, `true` for everything else.
    pub fn to_bool(&self) -> (b: bool)
        requires
            self.wf(),
        ensures
            b == self.spec_to_bool(),
    {
        match self.value_type() {
            ValueType::False => false,
            ValueType::Short
            | ValueType::Int
            | ValueType::Float
            | ValueType::Double32
            | ValueType::Double64 => self.to_int() != 0,
            _ => true,
        }
    }

    /// The value as an `i16`: Shorts sign-extended, ints truncated, floats saturated.
    pub fn to_short(&self) -> (v: i16)
        requires
            self.wf(),
        ensures
            v == self.spec_to_short(),
    {
        match self.value_type() {
            ValueType::True => 1,
            ValueType::False => 0,
            ValueType::Short => self._short_value(),
            ValueType::Int | ValueType::UnsignedInt => self._get_int() as i16,
            ValueType::Float | ValueType::Double32 | ValueType::Double64 => self._float_as_int(
                i16::MIN as i64,
                i16::MAX as i64,
            ) as i16,
            _ => 0,
        }
    }

    /// The value as an `i64`: ints as stored (signed ones sign-extended), floats truncated
    /// and saturated, booleans 1 and 0, anything else 0.
    pub fn to_int(&self) -> (v: i64)
        requires
            self.wf(),
        ensures
            v == self.spec_to_int(),
    {
        match self.value_type() {
            ValueType::True => 1,
            ValueType::False => 0,
            ValueType::Short => self._short_value() as i64,
            ValueType::Int | ValueType::UnsignedInt => self._get_int(),
            ValueType::Float | ValueType::Double32 | ValueType::Double64 => self._float_as_int(
                i64::MIN,
                i64::MAX,
            ),
            _ => 0,
        }
    }

    /// The IEEE 754 bits of the 32-bit float held by a Float or Double32 (bytes 2 to 5).
    pub fn float32_bits(&self) -> (b: u32)
        requires
            self.wf(),
        ensures
            b == self.f32_bits(),
    {
        proof {
            vstd::arithmetic::power2::lemma2_to64();
        }
        self.read_le(2, 4) as u32
    }

    /// The IEEE 754 bits of the 64-bit float held by a Double64 (bytes 2 to 9).
    pub fn float64_bits(&self) -> (b: u64)
        requires
            self.wf(),
        ensures
            b == self.f64_bits(),
    {
        proof {
            vstd::arithmetic::power2::lemma2_to64_rest();
        }
        self.read_le(2, 8) as u64
    }

    /// Whether this value belongs to a mutable collection rather than to Fleece data: those
    /// values are marked by an odd position, where no value of Fleece data starts.
    pub fn is_mutable(&self) -> (b: bool)
        ensures
            b == (self.start % 2 == 1),
    {
        self.start % 2 == 1
    }

    /// `to_int`, reinterpreted as unsigned.
    pub fn to_unsigned_int(&self) -> (v: u64)
        requires
            self.wf(),
        ensures
            v == self.spec_to_int() as u64,
    {
        self.to_int() as u64
    }

    /// `to_short`, reinterpreted as unsigned.
    pub fn to_unsigned_short(&self) -> (v: u16)
        requires
            self.wf(),
        ensures
            v == self.spec_to_short() as u16,
    {
        self.to_short() as u16
    }

    /// An Int read as a 16-bit number is the number it holds, cut to 16 bits: equal to it
    /// where it fits in 16 bits, and equal to it modulo 2^16 always.
    pub proof fn law_to_short_of_int(self)
        requires
            self.wf(),
            self.spec_type() == ValueType::Int || self.spec_type() == ValueType::UnsignedInt,
        ensures
            i16::MIN <= self.spec_to_int() <= i16::MAX ==> self.spec_to_short() == self.spec_to_int(),
            (self.spec_to_int() - self.spec_to_short()) % 0x1_0000 == 0,
    {
        let x = self.spec_to_int();
        assert(i16::MIN <= x <= i16::MAX ==> (x as i16) == x) by (bit_vector);
        assert((x - (x as i16)) % 0x1_0000 == 0) by (bit_vector);
    }

    /// A boolean or a Short read as a 16-bit number is the number it reads as: the 12 bits of
    /// a Short always fit.
    pub proof fn law_to_short_of_short(self)
        requires
            self.wf(),
            self.spec_type() == ValueType::Short || self.spec_type() == ValueType::True
                || self.spec_type() == ValueType::False,
        ensures
            self.spec_to_short() == self.spec_to_int(),
            -2048 <= self.spec_to_int() <= 2047,
    {
        let b = self.byte(0);
        vstd::bits::lemma_low_bits_mask_values();
        vstd::bits::lemma_u8_low_bits_mask_is_mod(b, 4);
        vstd::arithmetic::power2::lemma2_to64();
        assert(b & 0x0F == b % 16);
    }

    /// A number read as a boolean is true exactly where it is not zero: a Short, Int, Float or
    /// Double reads as `true` just when its value as an integer is nonzero, negative ones
    /// included.
    pub proof fn law_to_bool_of_number(self)
        requires
            self.wf(),
            self.spec_type() == ValueType::Short || self.spec_type() == ValueType::Int
                || self.spec_type() == ValueType::Float || self.spec_type() == ValueType::Double32
                || self.spec_type() == ValueType::Double64,
        ensures
            self.spec_to_bool() <==> self.spec_to_int() != 0,
            self.spec_to_int() < 0 ==> self.spec_to_bool(),
    {
    }
}

/// The value that the last two bytes of `data` lead to: a pointer there is followed; without
/// one, the data must be just those two bytes.
pub open spec fn spec_find_root(data: Seq<u8>) -> Result<(int, int), DecodeError> {
    let n = data.len() as int;
    if n == 0 || n % 2 != 0 {
        Err(DecodeError::InputIncorrectlySized)
    } else if type_of_byte(data[n - 2]) == ValueType::Pointer {
        pointer::spec_deref(data, n - 2, n, false)
    } else if n == 2 {
        Ok((0, 2))
    } else {
        Err(DecodeError::RootNotPointer)
    }
}

/// What `Value::from_bytes` gives for `data`: its root value, if the root and all it refers
/// to is valid Fleece.
pub open spec fn spec_from_bytes<'a>(data: &'a [u8]) -> Result<Value<'a>, DecodeError> {
    match spec_find_root(data@) {
        Err(e) => Err(e),
        Ok((s, t)) => {
            let root = Value { data, start: s as usize, end: t as usize };
            match root.spec_validate(false, false, data@.len() as int) {
                Ok(()) => Ok(root),
                Err(e) => Err(e),
            }
        },
    }
}

impl<'a> Value<'a> {
    /// Find the root value at the end of `data`, without validating it.
    fn _find_root(data: &'a [u8]) -> (r: Result<Value<'a>, DecodeError>)
        ensures
            match spec_find_root(data@) {
                Err(e) => r == Err::<Value<'a>, DecodeError>(e),
                Ok((s, t)) => r == Ok::<Value<'a>, DecodeError>(Value { data, start: s as usize, end: t as usize }),
            },
            r matches Ok(v) ==> v.wf() && v.start < data@.len(),
    {
        let n = data.len();
        if n == 0 || n % 2 != 0 {
            return Err(DecodeError::InputIncorrectlySized);
        }
        if ValueType::from_byte(data[n - 2]) == ValueType::Pointer {
            proof {
                pointer::lemma_deref_bounds(data@, n - 2, n as int, false);
            }
            pointer::deref_checked(data, n - 2, n, false)
        } else if n == 2 {
            Ok(Value { data, start: 0, end: 2 })
        } else {
            Err(DecodeError::RootNotPointer)
        }
    }

    /// Find and validate Fleece data in the given data, and return its root value (usually
    /// a Dict).
    pub fn from_bytes(data: &'a [u8]) -> (r: Result<Value<'a>, DecodeError>)
        ensures
            r == spec_from_bytes(data),
            r matches Ok(v) ==> v.wf(),
    {
        let root = Self::_find_root(data)?;
        match root.validate(false, false, data.len()) {
            Ok(()) => Ok(root),
            Err(e) => Err(e),
        }
    }
}

proof fn lemma_shl_pow2_u128(bits: u32)
    requires
        bits <= 64,
    ensures
        (1u128 << bits) == pow2(bits as nat),
    decreases bits,
{
    if bits == 0 {
        assert(1u128 << 0u32 == 1) by (bit_vector);
        vstd::arithmetic::power2::lemma2_to64();
    } else {
        lemma_shl_pow2_u128((bits - 1) as u32);
        assert(bits <= 64 && bits >= 1 ==> (1u128 << bits) == 2 * (1u128 << ((bits - 1) as u32)))
            by (bit_vector);
        vstd::arithmetic::power2::lemma_pow2_unfold(bits as nat);
    }
}

} // verus!
