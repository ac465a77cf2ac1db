//! The values that the Encoder writes, and their Fleece encodings.
use crate::value::pointer::MAX_NARROW;
use crate::value::sized::SizedValue;
use crate::value::varint::{varint_encoding, varint_size};
use crate::encoder::value_stack;
use crate::value::array::VARINT_COUNT;
use crate::value::value_type::type_of_byte;
use crate::value::{constants, tag, varint, ValueType};
use vstd::arithmetic::power2::pow2;
use vstd::string::StringSliceAdditionalSpecFns;
use vstd::prelude::*;

verus! {

/// A value that has a Fleece encoding.
pub trait Encodable {
    /// The bytes that encode this value. `is_wide` pads values that fit in two bytes to four,
    /// as the elements of a wide collection are.
    spec fn spec_fleece(&self, is_wide: bool) -> Seq<u8>;

    /// The value as an inline (at most 2-byte) value, if it is one.
    spec fn spec_sized(&self) -> Option<SizedValue>;

    /// Write the encoding to the start of `buf`; `None` if `buf` is too short for it.
    fn write_fleece_to(&self, buf: &mut [u8], is_wide: bool) -> (r: Option<usize>)
        ensures
            final(buf)@.len() == old(buf)@.len(),
            r is Some <==> old(buf)@.len() >= self.spec_fleece(is_wide).len(),
            r matches Some(n) ==> n == self.spec_fleece(is_wide).len() && n > 0
                && final(buf)@.subrange(0, n as int) == self.spec_fleece(is_wide)
                && final(buf)@.subrange(n as int, final(buf)@.len() as int) == old(buf)@.subrange(
                n as int,
                old(buf)@.len() as int,
            ),
            r is None ==> final(buf)@ == old(buf)@,
    ;

    /// The number of bytes of the (narrow) encoding; the wide one is at most two more.
    fn fleece_size(&self) -> (n: usize)
        requires
            self.spec_fleece(false).len() <= usize::MAX,
        ensures
            n == self.spec_fleece(false).len(),
            self.spec_fleece(true).len() <= n + 2,
    ;

    /// The value as an inline value, if it fits in two bytes.
    fn to_sized_value(&self) -> (r: Option<SizedValue>)
        ensures
            r == self.spec_sized(),
    ;
}

/// Copy `src` to the start of `buf`.
fn copy_to(buf: &mut [u8], src: &[u8])
    requires
        old(buf)@.len() >= src@.len(),
    ensures
        final(buf)@.len() == old(buf)@.len(),
        final(buf)@.subrange(0, src@.len() as int) == src@,
        final(buf)@.subrange(src@.len() as int, final(buf)@.len() as int) == old(buf)@.subrange(
            src@.len() as int,
            old(buf)@.len() as int,
        ),
{
    let mut i: usize = 0;
    while i < src.len()
        invariant
            i <= src@.len() <= buf@.len(),
            buf@.len() == old(buf)@.len(),
            forall|j: int| 0 <= j < i ==> buf@[j] == src@[j],
            forall|j: int| i <= j < buf@.len() ==> buf@[j] == old(buf)@[j],
        decreases src.len() - i,
    {
        buf[i] = src[i];
        i = i + 1;
    }
    proof {
        assert(buf@.subrange(0, src@.len() as int) =~= src@);
        assert(buf@.subrange(src@.len() as int, buf@.len() as int) =~= old(buf)@.subrange(
            src@.len() as int,
            old(buf)@.len() as int,
        ));
    }
}

/// Write `bytes` to the start of `buf` if it fits; the common tail of every `write_fleece_to`.
fn write_bytes_to(buf: &mut [u8], bytes: &[u8]) -> (r: Option<usize>)
    requires
        bytes@.len() > 0,
    ensures
        final(buf)@.len() == old(buf)@.len(),
        r is Some <==> old(buf)@.len() >= bytes@.len(),
        r matches Some(n) ==> n == bytes@.len() && final(buf)@.subrange(0, n as int) == bytes@
            && final(buf)@.subrange(n as int, final(buf)@.len() as int) == old(buf)@.subrange(
            n as int,
            old(buf)@.len() as int,
        ),
        r is None ==> final(buf)@ == old(buf)@,
{
    if buf.len() < bytes.len() {
        None
    } else {
        copy_to(buf, bytes);
        Some(bytes.len())
    }
}

/// The encoding of an inline value: its first two bytes, or all four where wide.
pub open spec fn sized_fleece(s: SizedValue, is_wide: bool) -> Seq<u8> {
    if is_wide {
        s.bytes@
    } else {
        s.bytes@.subrange(0, 2)
    }
}

/// The Fleece pointer, 2 or 4 bytes, for the distance `offset`: half of it, big-endian,
/// under the pointer tag.
#[verifier::opaque]
pub open spec fn pointer_fleece(offset: u32, is_wide: bool) -> Seq<u8> {
    let h = offset / 2;
    if offset > MAX_NARROW || is_wide {
        seq![
            ((h / 0x100_0000) as u8) | 0x80,
            ((h / 0x1_0000) % 0x100) as u8,
            ((h / 0x100) % 0x100) as u8,
            (h % 0x100) as u8,
        ]
    } else {
        seq![((h / 0x100) as u8) | 0x80, (h % 0x100) as u8]
    }
}

/// A pointer is four bytes where wide or too far for two, else two.
pub proof fn lemma_pointer_fleece_len(offset: u32, is_wide: bool)
    ensures
        pointer_fleece(offset, is_wide).len() == if offset > MAX_NARROW || is_wide {
            4int
        } else {
            2int
        },
{
    reveal(pointer_fleece);
}

impl Encodable for SizedValue {
    /// A pointer (whose offset is now the distance back to its target) becomes a Fleece
    /// pointer; other values are written as they are.
    open spec fn spec_fleece(&self, is_wide: bool) -> Seq<u8> {
        if self.spec_type() == ValueType::Pointer {
            pointer_fleece(self.spec_pointer_offset(), is_wide)
        } else {
            sized_fleece(*self, is_wide)
        }
    }

    open spec fn spec_sized(&self) -> Option<SizedValue> {
        Some(*self)
    }

    fn write_fleece_to(&self, buf: &mut [u8], is_wide: bool) -> (r: Option<usize>) {
        if self.value_type() == ValueType::Pointer {
            let offset = self.pointer_offset();
            let h = offset / 2;
            if offset > MAX_NARROW as u32 || is_wide {
                let b0 = (h / 0x100_0000) as u8;
                let bytes = [b0 | 0x80, ((h / 0x1_0000) % 0x100) as u8, ((h / 0x100) % 0x100) as u8, (h % 0x100) as u8];
                proof {
                    reveal(pointer_fleece);
                    assert(bytes@ =~= pointer_fleece(offset, is_wide));
                }
                write_bytes_to(buf, bytes.as_slice())
            } else {
                let b0 = (h / 0x100) as u8;
                let bytes = [b0 | 0x80, (h % 0x100) as u8];
                proof {
                    reveal(pointer_fleece);
                    assert(bytes@ =~= pointer_fleece(offset, is_wide));
                }
                write_bytes_to(buf, bytes.as_slice())
            }
        } else if is_wide {
            proof {
                assert(self.bytes@ =~= sized_fleece(*self, is_wide));
            }
            write_bytes_to(buf, self.bytes.as_slice())
        } else {
            let bytes = [self.bytes[0], self.bytes[1]];
            proof {
                assert(bytes@ =~= sized_fleece(*self, is_wide));
            }
            write_bytes_to(buf, bytes.as_slice())
        }
    }

    fn fleece_size(&self) -> (n: usize) {
        proof {
            lemma_pointer_fleece_len(self.spec_pointer_offset(), false);
            lemma_pointer_fleece_len(self.spec_pointer_offset(), true);
        }
        if self.value_type() == ValueType::Pointer {
            if self.pointer_offset() > MAX_NARROW as u32 {
                4
            } else {
                2
            }
        } else {
            2
        }
    }

    fn to_sized_value(&self) -> (r: Option<SizedValue>) {
        Some(*self)
    }
}

/// The null value, for the Encoder.
pub struct NullValue;

/// The undefined value, for the Encoder.
pub struct UndefinedValue;

/// The inline value of a constant (null, undefined, false, true).
pub open spec fn constant_sized(c: [u8; 2]) -> SizedValue {
    SizedValue::spec_narrow(c)
}

/// A first byte under 0x80 is no pointer; one under 0x10 is a Short.
pub(crate) proof fn lemma_inline_type(b: u8)
    requires
        b < 0x80,
    ensures
        type_of_byte(b) != ValueType::Pointer,
        b < 0x10 ==> type_of_byte(b) == ValueType::Short,
        b < 0x10 ==> b & 0x0F == b,
{
    assert((b < 0x80 ==> (b & 0xF0 == 0x00 || b & 0xF0 == 0x10 || b & 0xF0 == 0x20 || b & 0xF0 == 0x30
        || b & 0xF0 == 0x40 || b & 0xF0 == 0x50 || b & 0xF0 == 0x60 || b & 0xF0 == 0x70)) && (b < 0x10
        ==> b & 0xF0 == 0x00 && b & 0x0F == b)) by (bit_vector);
}

/// Write a constant, 2 bytes or (wide) 4.
fn write_fleece_constant(buf: &mut [u8], constant: [u8; 2], is_wide: bool) -> (r: Option<usize>)
    requires
        constant@[0] < 0x80,
    ensures
        final(buf)@.len() == old(buf)@.len(),
        r is Some <==> old(buf)@.len() >= sized_fleece(constant_sized(constant), is_wide).len(),
        r matches Some(n) ==> n == sized_fleece(constant_sized(constant), is_wide).len()
            && final(buf)@.subrange(0, n as int) == sized_fleece(constant_sized(constant), is_wide)
            && final(buf)@.subrange(n as int, final(buf)@.len() as int) == old(buf)@.subrange(
            n as int,
            old(buf)@.len() as int,
        ),
        r is None ==> final(buf)@ == old(buf)@,
{
    proof {
        lemma_inline_type(constant@[0]);
    }
    SizedValue::new_narrow(constant).write_fleece_to(buf, is_wide)
}

impl Encodable for bool {
    open spec fn spec_fleece(&self, is_wide: bool) -> Seq<u8> {
        sized_fleece(constant_sized(if *self { constants::TRUE } else { constants::FALSE }), is_wide)
    }

    open spec fn spec_sized(&self) -> Option<SizedValue> {
        Some(constant_sized(if *self { constants::TRUE } else { constants::FALSE }))
    }

    fn write_fleece_to(&self, buf: &mut [u8], is_wide: bool) -> (r: Option<usize>) {
        if *self {
            write_fleece_constant(buf, constants::TRUE, is_wide)
        } else {
            write_fleece_constant(buf, constants::FALSE, is_wide)
        }
    }

    fn fleece_size(&self) -> (n: usize) {
        2
    }

    fn to_sized_value(&self) -> (r: Option<SizedValue>) {
        if *self {
            Some(SizedValue::new_narrow(constants::TRUE))
        } else {
            Some(SizedValue::new_narrow(constants::FALSE))
        }
    }
}

impl Encodable for NullValue {
    open spec fn spec_fleece(&self, is_wide: bool) -> Seq<u8> {
        sized_fleece(constant_sized(constants::NULL), is_wide)
    }

    open spec fn spec_sized(&self) -> Option<SizedValue> {
        Some(constant_sized(constants::NULL))
    }

    fn write_fleece_to(&self, buf: &mut [u8], is_wide: bool) -> (r: Option<usize>) {
        write_fleece_constant(buf, constants::NULL, is_wide)
    }

    fn fleece_size(&self) -> (n: usize) {
        2
    }

    fn to_sized_value(&self) -> (r: Option<SizedValue>) {
        Some(SizedValue::new_narrow(constants::NULL))
    }
}

impl Encodable for UndefinedValue {
    open spec fn spec_fleece(&self, is_wide: bool) -> Seq<u8> {
        sized_fleece(constant_sized(constants::UNDEFINED), is_wide)
    }

    open spec fn spec_sized(&self) -> Option<SizedValue> {
        Some(constant_sized(constants::UNDEFINED))
    }

    fn write_fleece_to(&self, buf: &mut [u8], is_wide: bool) -> (r: Option<usize>) {
        write_fleece_constant(buf, constants::UNDEFINED, is_wide)
    }

    fn fleece_size(&self) -> (n: usize) {
        2
    }

    fn to_sized_value(&self) -> (r: Option<SizedValue>) {
        Some(SizedValue::new_narrow(constants::UNDEFINED))
    }
}

/// Whether `x` fits in `n` bytes, two's complement where `signed`.
pub open spec fn int_fits(x: int, n: nat, signed: bool) -> bool {
    if signed {
        -pow2((8 * n - 1) as nat) <= x < pow2((8 * n - 1) as nat)
    } else {
        0 <= x < pow2(8 * n)
    }
}

/// The fewest bytes, from `n` on and at most 8, that hold `x`.
pub open spec fn int_count_from(x: int, signed: bool, n: nat) -> nat
    decreases 8 - n,
{
    if n >= 8 || int_fits(x, n, signed) {
        n
    } else {
        int_count_from(x, signed, n + 1)
    }
}

/// The number of payload bytes of the Int that holds `x`.
pub open spec fn int_count(x: int, signed: bool) -> nat {
    int_count_from(x, signed, 1)
}

/// `x` as the 64-bit two's complement number.
pub open spec fn twos(x: int) -> nat {
    if x < 0 {
        (x + pow2(64)) as nat
    } else {
        x as nat
    }
}

/// Byte `i` of the little-endian bytes of `u`.
pub open spec fn le_digit(u: nat, i: int) -> u8 {
    ((u / pow2((8 * i) as nat)) % 256) as u8
}

/// The Fleece Int of `x` (Int where `signed`, UnsignedInt else): a header with the size, then
/// the fewest little-endian bytes that hold it.
pub open spec fn int_fleece(x: int, signed: bool) -> Seq<u8> {
    let n = int_count(x, signed);
    seq![(0x10 + (if signed { 0int } else { 8int }) + (n - 1)) as u8] + Seq::new(
        n,
        |i: int| le_digit(twos(x), i),
    )
}

/// The two bytes of the Short for `v` in `[-2048, 2047]`: its 12 low bits, big-endian.
pub open spec fn short_sized(v: int) -> SizedValue {
    SizedValue::spec_narrow([((v as u16) / 256 % 16) as u8, ((v as u16) % 256) as u8])
}

pub(crate) proof fn lemma_int_count_bounds(x: int, signed: bool, n: nat)
    requires
        1 <= n <= 8,
    ensures
        n <= int_count_from(x, signed, n) <= 8,
        int_count_from(x, signed, n) < 8 ==> int_fits(x, int_count_from(x, signed, n), signed),
    decreases 8 - n,
{
    if !(n >= 8 || int_fits(x, n, signed)) {
        lemma_int_count_bounds(x, signed, n + 1);
    }
}

/// Whether `x` lies under the bound `lim` (`[-lim, lim)` where `signed`, else `[0, 2 * lim)`).
fn fits_under(x: i128, lim: i128, signed: bool) -> (b: bool)
    requires
        0 < lim <= 0x8000_0000_0000_0000,
    ensures
        b == if signed {
            -lim <= x < lim
        } else {
            0 <= x < 2 * lim
        },
{
    if signed {
        -lim <= x && x < lim
    } else {
        0 <= x && x < 2 * lim
    }
}

/// The number of payload bytes of the Int for `x`.
fn int_count_exec(x: i128, signed: bool) -> (n: usize)
    ensures
        n == int_count(x as int, signed),
        1 <= n <= 8,
{
    let mut n: usize = 1;
    let mut lim: i128 = 128;
    proof {
        vstd::arithmetic::power2::lemma2_to64();
        lemma_int_count_bounds(x as int, signed, 1);
    }
    while n < 8 && !fits_under(x, lim, signed)
        invariant
            1 <= n <= 8,
            lim == pow2((8 * n - 1) as nat),
            0 < lim <= 0x8000_0000_0000_0000,
            int_count(x as int, signed) == int_count_from(x as int, signed, n as nat),
        decreases 8 - n,
    {
        proof {
            vstd::arithmetic::power2::lemma_pow2_unfold((8 * n) as nat);
            vstd::arithmetic::power2::lemma_pow2_adds((8 * n - 1) as nat, 8);
            vstd::arithmetic::power2::lemma2_to64();
            vstd::arithmetic::power2::lemma2_to64_rest();
            assert((8 * (n + 1) - 1) as nat == (8 * n - 1) as nat + 8);
            if n + 1 < 8 {
                vstd::arithmetic::power2::lemma_pow2_strictly_increases((8 * (n + 1) - 1) as nat, 63);
            }
            vstd::arithmetic::power2::lemma_pow2_pos((8 * (n + 1) - 1) as nat);
        }
        lim = lim * 256;
        n = n + 1;
    }
    proof {
        vstd::arithmetic::power2::lemma_pow2_unfold((8 * n) as nat);
    }
    n
}

/// Write the Int for `x` (two's complement bits `u`) to the start of `buf`.
fn write_int(buf: &mut [u8], x: i128, u: u64, signed: bool) -> (r: Option<usize>)
    requires
        u == twos(x as int),
        -0x8000_0000_0000_0000 <= x < 0x1_0000_0000_0000_0000,
    ensures
        final(buf)@.len() == old(buf)@.len(),
        r is Some <==> old(buf)@.len() >= int_fleece(x as int, signed).len(),
        r matches Some(n) ==> n == int_fleece(x as int, signed).len() && n > 0
            && final(buf)@.subrange(0, n as int) == int_fleece(x as int, signed)
            && final(buf)@.subrange(n as int, final(buf)@.len() as int) == old(buf)@.subrange(
            n as int,
            old(buf)@.len() as int,
        ),
        r is None ==> final(buf)@ == old(buf)@,
{
    let n = int_count_exec(x, signed);
    if buf.len() < n + 1 {
        return None;
    }
    let flag: u8 = if signed { 0 } else { 8 };
    buf[0] = 0x10 + flag + (n - 1) as u8;
    let mut t: u64 = u;
    let mut i: usize = 0;
    proof {
        vstd::arithmetic::power2::lemma2_to64();
        vstd::arithmetic::div_mod::lemma_div_basics(u as int);
    }
    while i < n
        invariant
            i <= n <= 8,
            n + 1 <= buf@.len(),
            buf@.len() == old(buf)@.len(),
            n == int_count(x as int, signed),
            u == twos(x as int),
            t == u as nat / pow2((8 * i) as nat),
            buf@[0] == int_fleece(x as int, signed)[0],
            forall|j: int| 0 <= j < i ==> buf@[1 + j] == #[trigger] le_digit(u as nat, j),
            forall|j: int| n + 1 <= j < buf@.len() ==> buf@[j] == old(buf)@[j],
        decreases n - i,
    {
        buf[1 + i] = (t % 256) as u8;
        proof {
            vstd::arithmetic::power2::lemma2_to64();
            vstd::arithmetic::power2::lemma_pow2_adds((8 * i) as nat, 8);
            vstd::arithmetic::power2::lemma_pow2_pos((8 * i) as nat);
            vstd::arithmetic::div_mod::lemma_div_denominator(u as int, pow2((8 * i) as nat) as int, 256);
            assert((8 * (i + 1)) as nat == (8 * i) as nat + 8);
        }
        t = t / 256;
        i = i + 1;
    }
    proof {
        assert(buf@.subrange(0, n + 1) =~= int_fleece(x as int, signed));
        assert(buf@.subrange(n + 1, buf@.len() as int) =~= old(buf)@.subrange(n + 1, old(buf)@.len() as int));
    }
    Some(n + 1)
}

/// The 64-bit two's complement bits of an `i64` are its `twos`.
proof fn lemma_twos_i64(v: i64)
    ensures
        (v as u64) as int == twos(v as int),
{
    vstd::arithmetic::power2::lemma2_to64_rest();
    assert((v < 0 ==> (v as u64) as int == v + 0x1_0000_0000_0000_0000) && (v >= 0 ==> (v as u64) as int
        == v)) by (bit_vector);
}

/// The number of bytes of the Int for `x`.
fn int_fleece_size(x: i128, signed: bool) -> (n: usize)
    ensures
        n == int_fleece(x as int, signed).len(),
{
    int_count_exec(x, signed) + 1
}

impl Encodable for i64 {
    /// Values in `[-2048, 2047]` are Shorts; others are Ints.
    open spec fn spec_fleece(&self, is_wide: bool) -> Seq<u8> {
        if -2048 <= *self <= 2047 {
            sized_fleece(short_sized(*self as int), is_wide)
        } else {
            int_fleece(*self as int, true)
        }
    }

    open spec fn spec_sized(&self) -> Option<SizedValue> {
        if -2048 <= *self <= 2047 {
            Some(short_sized(*self as int))
        } else {
            None
        }
    }

    fn write_fleece_to(&self, buf: &mut [u8], is_wide: bool) -> (r: Option<usize>) {
        if -2048 <= *self && *self <= 2047 {
            short_value(*self as i16).write_fleece_to(buf, is_wide)
        } else {
            proof {
                lemma_twos_i64(*self);
            }
            write_int(buf, *self as i128, *self as u64, true)
        }
    }

    fn fleece_size(&self) -> (n: usize) {
        if -2048 <= *self && *self <= 2047 {
            2
        } else {
            int_fleece_size(*self as i128, true)
        }
    }

    fn to_sized_value(&self) -> (r: Option<SizedValue>) {
        if -2048 <= *self && *self <= 2047 {
            Some(short_value(*self as i16))
        } else {
            None
        }
    }
}

impl Encodable for u64 {
    /// Values up to 2047 are Shorts; others are UnsignedInts.
    open spec fn spec_fleece(&self, is_wide: bool) -> Seq<u8> {
        if *self <= 2047 {
            sized_fleece(short_sized(*self as int), is_wide)
        } else {
            int_fleece(*self as int, false)
        }
    }

    open spec fn spec_sized(&self) -> Option<SizedValue> {
        if *self <= 2047 {
            Some(short_sized(*self as int))
        } else {
            None
        }
    }

    fn write_fleece_to(&self, buf: &mut [u8], is_wide: bool) -> (r: Option<usize>) {
        if *self <= 2047 {
            short_value(*self as i16).write_fleece_to(buf, is_wide)
        } else {
            write_int(buf, *self as i128, *self, false)
        }
    }

    fn fleece_size(&self) -> (n: usize) {
        if *self <= 2047 {
            2
        } else {
            int_fleece_size(*self as i128, false)
        }
    }

    fn to_sized_value(&self) -> (r: Option<SizedValue>) {
        if *self <= 2047 {
            Some(short_value(*self as i16))
        } else {
            None
        }
    }
}

impl Encodable for i16 {
    open spec fn spec_fleece(&self, is_wide: bool) -> Seq<u8> {
        (*self as i64).spec_fleece(is_wide)
    }

    open spec fn spec_sized(&self) -> Option<SizedValue> {
        (*self as i64).spec_sized()
    }

    fn write_fleece_to(&self, buf: &mut [u8], is_wide: bool) -> (r: Option<usize>) {
        if *self > 2047 || *self < -2048 {
            return (*self as i64).write_fleece_to(buf, is_wide);
        }
        let val = short_value(*self);
        val.write_fleece_to(buf, is_wide)
    }

    fn fleece_size(&self) -> (n: usize) {
        if *self > 2047 || *self < -2048 {
            (*self as i64).fleece_size()
        } else {
            2
        }
    }

    fn to_sized_value(&self) -> (r: Option<SizedValue>) {
        if *self > 2047 || *self < -2048 {
            return None;
        }
        Some(short_value(*self))
    }
}

impl Encodable for u16 {
    open spec fn spec_fleece(&self, is_wide: bool) -> Seq<u8> {
        (*self as u64).spec_fleece(is_wide)
    }

    open spec fn spec_sized(&self) -> Option<SizedValue> {
        (*self as u64).spec_sized()
    }

    fn write_fleece_to(&self, buf: &mut [u8], is_wide: bool) -> (r: Option<usize>) {
        if *self > 2047 {
            return (*self as u64).write_fleece_to(buf, is_wide);
        }
        let val = short_value(*self as i16);
        val.write_fleece_to(buf, is_wide)
    }

    fn fleece_size(&self) -> (n: usize) {
        if *self > 2047 {
            (*self as u64).fleece_size()
        } else {
            2
        }
    }

    fn to_sized_value(&self) -> (r: Option<SizedValue>) {
        if *self > 2047 {
            return None;
        }
        Some(short_value(*self as i16))
    }
}

/// The inline Short for a small `v`: its 12 low bits, big-endian, under the Short tag (0).
fn short_value(v: i16) -> (s: SizedValue)
    requires
        -2048 <= v <= 2047,
    ensures
        s == short_sized(v as int),
        s.spec_type() == ValueType::Short,
{
    let u = v as u16;
    let b0 = (u / 256 % 16) as u8;
    proof {
        lemma_inline_type(b0);
    }
    SizedValue::new_narrow([b0, (u % 256) as u8])
}

/// The Fleece String (`tag` 0x40) or Data (`tag` 0x50) of the bytes `s`: up to one byte is
/// inline, with the count in the low nibble; up to 14 bytes follow a one-byte header; longer
/// ones follow the header 0x?F and their count as a varint.
pub open spec fn string_fleece(tag: u8, s: Seq<u8>, is_wide: bool) -> Seq<u8> {
    if s.len() == 0 {
        if is_wide {
            seq![tag, 0, 0, 0]
        } else {
            seq![tag, 0]
        }
    } else if s.len() == 1 {
        if is_wide {
            seq![(tag + 1) as u8, s[0], 0, 0]
        } else {
            seq![(tag + 1) as u8, s[0]]
        }
    } else if s.len() <= 0x0E {
        seq![(tag + s.len()) as u8] + s
    } else {
        seq![(tag + 0x0F) as u8] + varint_encoding(s.len() as u64) + s
    }
}

/// The inline value of a String or Data of at most one byte.
pub open spec fn string_sized(tag: u8, s: Seq<u8>) -> Option<SizedValue> {
    if s.len() == 0 {
        Some(SizedValue::spec_narrow([tag, 0]))
    } else if s.len() == 1 {
        Some(SizedValue::spec_narrow([(tag + 1) as u8, s[0]]))
    } else {
        None
    }
}

/// Write the String or Data of `string` to the start of `buf`, which is long enough for it.
fn write_fleece_string(tag: u8, string: &[u8], buf: &mut [u8], is_wide: bool) -> (n: usize)
    requires
        tag == 0x40 || tag == 0x50,
        old(buf)@.len() >= string_fleece(tag, string@, is_wide).len(),
    ensures
        n == string_fleece(tag, string@, is_wide).len(),
        final(buf)@.len() == old(buf)@.len(),
        final(buf)@.subrange(0, n as int) == string_fleece(tag, string@, is_wide),
        final(buf)@.subrange(n as int, final(buf)@.len() as int) == old(buf)@.subrange(
            n as int,
            old(buf)@.len() as int,
        ),
{
    let len = string.len();
    if len == 0 {
        if is_wide {
            write_bytes_to(buf, [tag, 0, 0, 0].as_slice());
            proof {
                assert([tag, 0u8, 0u8, 0u8]@ =~= string_fleece(tag, string@, is_wide));
            }
            4
        } else {
            write_bytes_to(buf, [tag, 0].as_slice());
            proof {
                assert([tag, 0u8]@ =~= string_fleece(tag, string@, is_wide));
            }
            2
        }
    } else if len == 1 {
        let b = string[0];
        if is_wide {
            write_bytes_to(buf, [tag + 1, b, 0, 0].as_slice());
            proof {
                assert([(tag + 1) as u8, b, 0u8, 0u8]@ =~= string_fleece(tag, string@, is_wide));
            }
            4
        } else {
            write_bytes_to(buf, [tag + 1, b].as_slice());
            proof {
                assert([(tag + 1) as u8, b]@ =~= string_fleece(tag, string@, is_wide));
            }
            2
        }
    } else if len <= 0x0E {
        buf[0] = tag + len as u8;
        let ghost b1 = buf@;
        let mut i: usize = 0;
        while i < len
            invariant
                2 <= len <= 0x0E,
                len == string@.len(),
                i <= len,
                buf@.len() == old(buf)@.len(),
                buf@.len() >= len + 1,
                buf@[0] == (tag + len) as u8,
                forall|j: int| 0 <= j < i ==> buf@[1 + j] == string@[j],
                forall|j: int| len + 1 <= j < buf@.len() ==> buf@[j] == old(buf)@[j],
            decreases len - i,
        {
            buf[1 + i] = string[i];
            i = i + 1;
        }
        proof {
            assert(buf@.subrange(0, len + 1) =~= string_fleece(tag, string@, is_wide));
            assert(buf@.subrange(len + 1, buf@.len() as int) =~= old(buf)@.subrange(
                len + 1,
                old(buf)@.len() as int,
            ));
        }
        len + 1
    } else {
        let mut varint_buf = vec![0u8; varint::MAX_LEN];
        proof {
            varint::lemma_varint_size_bounds(len as u64);
        }
        let vs = varint::write(varint_buf.as_mut_slice(), len as u64);
        let ghost enc = varint_encoding(len as u64);
        buf[0] = tag + 0x0F;
        let blen = buf.len();
        let mut i: usize = 0;
        while i < vs
            invariant
                varint_buf@.len() == varint::MAX_LEN,
                blen == buf@.len(),
                tag == 0x40 || tag == 0x50,
                vs == enc.len(),
                1 <= vs <= 10,
                enc == varint_encoding(len as u64),
                varint_buf@.subrange(0, vs as int) == enc,
                i <= vs,
                buf@.len() == old(buf)@.len(),
                buf@.len() >= 1 + vs + len,
                len == string@.len(),
                buf@[0] == (tag + 0x0F) as u8,
                forall|j: int| 0 <= j < i ==> buf@[1 + j] == enc[j],
                forall|j: int| 1 + vs <= j < buf@.len() ==> buf@[j] == old(buf)@[j],
            decreases vs - i,
        {
            assert(varint_buf@[i as int] == varint_buf@.subrange(0, vs as int)[i as int]);
            buf[1 + i] = varint_buf[i];
            i = i + 1;
        }
        let mut k: usize = 0;
        while k < len
            invariant
                blen == buf@.len(),
                tag == 0x40 || tag == 0x50,
                vs == enc.len(),
                1 <= vs <= 10,
                k <= len,
                len == string@.len(),
                buf@.len() == old(buf)@.len(),
                buf@.len() >= 1 + vs + len,
                buf@[0] == (tag + 0x0F) as u8,
                forall|j: int| 0 <= j < vs ==> buf@[1 + j] == enc[j],
                forall|j: int| 0 <= j < k ==> buf@[1 + vs + j] == string@[j],
                forall|j: int| 1 + vs + len <= j < buf@.len() ==> buf@[j] == old(buf)@[j],
            decreases len - k,
        {
            buf[1 + vs + k] = string[k];
            k = k + 1;
        }
        let n = 1 + vs + len;
        proof {
            assert(buf@.subrange(0, n as int) =~= string_fleece(tag, string@, is_wide));
            assert(buf@.subrange(n as int, buf@.len() as int) =~= old(buf)@.subrange(
                n as int,
                old(buf)@.len() as int,
            ));
        }
        n
    }
}

/// The length of the String or Data of `len` bytes, if it fits in a `usize`.
fn string_fleece_size(len: usize) -> (n: Option<usize>)
    ensures
        forall|s: Seq<u8>, tag: u8|
            s.len() == len ==> (n is Some <==> string_fleece(tag, s, false).len() <= usize::MAX),
        forall|s: Seq<u8>, tag: u8|
            s.len() == len && n is Some ==> n->0 == string_fleece(tag, s, false).len(),
        forall|s: Seq<u8>, tag: u8|
            s.len() == len ==> string_fleece(tag, s, true).len() <= string_fleece(tag, s, false).len() + 2,
{
    proof {
        varint::lemma_varint_size_bounds(len as u64);
    }
    if len <= 1 {
        Some(2)
    } else if len <= 0x0E {
        Some(1 + len)
    } else {
        let vs = varint::size_required(len as u64);
        if len > usize::MAX - 1 - vs {
            None
        } else {
            Some(1 + vs + len)
        }
    }
}

impl Encodable for [u8] {
    /// Data.
    open spec fn spec_fleece(&self, is_wide: bool) -> Seq<u8> {
        string_fleece(tag::DATA, self@, is_wide)
    }

    open spec fn spec_sized(&self) -> Option<SizedValue> {
        string_sized(tag::DATA, self@)
    }

    fn write_fleece_to(&self, buf: &mut [u8], is_wide: bool) -> (r: Option<usize>) {
        write_string_checked(tag::DATA, self, buf, is_wide)
    }

    fn fleece_size(&self) -> (n: usize) {
        string_fleece_size(self.len()).unwrap()
    }

    fn to_sized_value(&self) -> (r: Option<SizedValue>) {
        string_to_sized(tag::DATA, self)
    }
}

impl Encodable for str {
    /// A String, of the UTF-8 bytes of the text.
    open spec fn spec_fleece(&self, is_wide: bool) -> Seq<u8> {
        string_fleece(tag::STRING, self.spec_bytes(), is_wide)
    }

    open spec fn spec_sized(&self) -> Option<SizedValue> {
        string_sized(tag::STRING, self.spec_bytes())
    }

    fn write_fleece_to(&self, buf: &mut [u8], is_wide: bool) -> (r: Option<usize>) {
        write_string_checked(tag::STRING, self.as_bytes(), buf, is_wide)
    }

    fn fleece_size(&self) -> (n: usize) {
        string_fleece_size(self.as_bytes().len()).unwrap()
    }

    fn to_sized_value(&self) -> (r: Option<SizedValue>) {
        string_to_sized(tag::STRING, self.as_bytes())
    }
}

/// Write the String or Data of `string` if `buf` is long enough for it.
fn write_string_checked(tag: u8, string: &[u8], buf: &mut [u8], is_wide: bool) -> (r: Option<usize>)
    requires
        tag == 0x40 || tag == 0x50,
    ensures
        final(buf)@.len() == old(buf)@.len(),
        r is Some <==> old(buf)@.len() >= string_fleece(tag, string@, is_wide).len(),
        r matches Some(n) ==> n == string_fleece(tag, string@, is_wide).len() && n > 0
            && final(buf)@.subrange(0, n as int) == string_fleece(tag, string@, is_wide)
            && final(buf)@.subrange(n as int, final(buf)@.len() as int) == old(buf)@.subrange(
            n as int,
            old(buf)@.len() as int,
        ),
        r is None ==> final(buf)@ == old(buf)@,
{
    let blen = buf.len();
    let needed = match string_fleece_size(string.len()) {
        None => {
            assert(blen < string_fleece(tag, string@, is_wide).len());
            return None;
        },
        Some(n) => if is_wide && string.len() <= 1 {
            4
        } else {
            n
        },
    };
    if blen < needed {
        None
    } else {
        Some(write_fleece_string(tag, string, buf, is_wide))
    }
}

/// The inline value of a String or Data of at most one byte.
fn string_to_sized(tag: u8, string: &[u8]) -> (r: Option<SizedValue>)
    requires
        tag == 0x40 || tag == 0x50,
    ensures
        r == string_sized(tag, string@),
        r matches Some(s) ==> s.spec_type() != ValueType::Pointer,
{
    proof {
        lemma_inline_type(tag);
        lemma_inline_type((tag + 1) as u8);
    }
    if string.len() == 0 {
        Some(SizedValue::new_narrow([tag, 0]))
    } else if string.len() == 1 {
        Some(SizedValue::new_narrow([tag + 1, string[0]]))
    } else {
        None
    }
}

impl<T: Encodable> Encodable for Option<T> {
    /// `None` is null.
    open spec fn spec_fleece(&self, is_wide: bool) -> Seq<u8> {
        match self {
            Some(v) => v.spec_fleece(is_wide),
            None => NullValue.spec_fleece(is_wide),
        }
    }

    open spec fn spec_sized(&self) -> Option<SizedValue> {
        match self {
            Some(v) => v.spec_sized(),
            None => NullValue.spec_sized(),
        }
    }

    fn write_fleece_to(&self, buf: &mut [u8], is_wide: bool) -> (r: Option<usize>) {
        match self {
            Some(value) => value.write_fleece_to(buf, is_wide),
            None => NullValue.write_fleece_to(buf, is_wide),
        }
    }

    fn fleece_size(&self) -> (n: usize) {
        match self {
            Some(value) => value.fleece_size(),
            None => 2,
        }
    }

    fn to_sized_value(&self) -> (r: Option<SizedValue>) {
        match self {
            Some(v) => v.to_sized_value(),
            None => NullValue.to_sized_value(),
        }
    }
}

impl<T: Encodable + ?Sized> Encodable for &T {
    open spec fn spec_fleece(&self, is_wide: bool) -> Seq<u8> {
        (**self).spec_fleece(is_wide)
    }

    open spec fn spec_sized(&self) -> Option<SizedValue> {
        (**self).spec_sized()
    }

    fn write_fleece_to(&self, buf: &mut [u8], is_wide: bool) -> (r: Option<usize>) {
        (**self).write_fleece_to(buf, is_wide)
    }

    fn fleece_size(&self) -> (n: usize) {
        (**self).fleece_size()
    }

    fn to_sized_value(&self) -> (r: Option<SizedValue>) {
        (**self).to_sized_value()
    }
}

impl Encodable for i32 {
    open spec fn spec_fleece(&self, is_wide: bool) -> Seq<u8> {
        (*self as i64).spec_fleece(is_wide)
    }

    open spec fn spec_sized(&self) -> Option<SizedValue> {
        (*self as i64).spec_sized()
    }

    fn write_fleece_to(&self, buf: &mut [u8], is_wide: bool) -> (r: Option<usize>) {
        (*self as i64).write_fleece_to(buf, is_wide)
    }

    fn fleece_size(&self) -> (n: usize) {
        (*self as i64).fleece_size()
    }

    fn to_sized_value(&self) -> (r: Option<SizedValue>) {
        (*self as i64).to_sized_value()
    }
}

impl Encodable for u32 {
    open spec fn spec_fleece(&self, is_wide: bool) -> Seq<u8> {
        (*self as u64).spec_fleece(is_wide)
    }

    open spec fn spec_sized(&self) -> Option<SizedValue> {
        (*self as u64).spec_sized()
    }

    fn write_fleece_to(&self, buf: &mut [u8], is_wide: bool) -> (r: Option<usize>) {
        (*self as u64).write_fleece_to(buf, is_wide)
    }

    fn fleece_size(&self) -> (n: usize) {
        (*self as u64).fleece_size()
    }

    fn to_sized_value(&self) -> (r: Option<SizedValue>) {
        (*self as u64).to_sized_value()
    }
}

impl Encodable for u8 {
    open spec fn spec_fleece(&self, is_wide: bool) -> Seq<u8> {
        (*self as u16).spec_fleece(is_wide)
    }

    open spec fn spec_sized(&self) -> Option<SizedValue> {
        (*self as u16).spec_sized()
    }

    fn write_fleece_to(&self, buf: &mut [u8], is_wide: bool) -> (r: Option<usize>) {
        (*self as u16).write_fleece_to(buf, is_wide)
    }

    fn fleece_size(&self) -> (n: usize) {
        (*self as u16).fleece_size()
    }

    fn to_sized_value(&self) -> (r: Option<SizedValue>) {
        (*self as u16).to_sized_value()
    }
}

impl Encodable for i8 {
    open spec fn spec_fleece(&self, is_wide: bool) -> Seq<u8> {
        (*self as i16).spec_fleece(is_wide)
    }

    open spec fn spec_sized(&self) -> Option<SizedValue> {
        (*self as i16).spec_sized()
    }

    fn write_fleece_to(&self, buf: &mut [u8], is_wide: bool) -> (r: Option<usize>) {
        (*self as i16).write_fleece_to(buf, is_wide)
    }

    fn fleece_size(&self) -> (n: usize) {
        (*self as i16).fleece_size()
    }

    fn to_sized_value(&self) -> (r: Option<SizedValue>) {
        (*self as i16).to_sized_value()
    }
}

/// A 32-bit float, by its IEEE 754 bits.
#[derive(Clone, Copy)]
pub struct Float32Bits(pub u32);

/// A 64-bit float, by its IEEE 754 bits.
#[derive(Clone, Copy)]
pub struct Float64Bits(pub u64);

/// The `n` little-endian bytes of `u`.
pub open spec fn le_seq(u: nat, n: nat) -> Seq<u8> {
    Seq::new(n, |i: int| le_digit(u, i))
}

/// The first `n` little-endian bytes of `u`.
fn le_vec(u: u64, n: usize) -> (v: Vec<u8>)
    requires
        n <= 8,
    ensures
        v@ == le_seq(u as nat, n as nat),
{
    let mut v: Vec<u8> = Vec::new();
    let mut t: u64 = u;
    let mut i: usize = 0;
    proof {
        vstd::arithmetic::power2::lemma2_to64();
        vstd::arithmetic::div_mod::lemma_div_basics(u as int);
    }
    while i < n
        invariant
            i <= n <= 8,
            v@.len() == i,
            t == u as nat / pow2((8 * i) as nat),
            forall|j: int| 0 <= j < i ==> v@[j] == #[trigger] le_digit(u as nat, j),
        decreases n - i,
    {
        v.push((t % 256) as u8);
        proof {
            vstd::arithmetic::power2::lemma2_to64();
            vstd::arithmetic::power2::lemma_pow2_adds((8 * i) as nat, 8);
            vstd::arithmetic::power2::lemma_pow2_pos((8 * i) as nat);
            vstd::arithmetic::div_mod::lemma_div_denominator(u as int, pow2((8 * i) as nat) as int, 256);
            assert((8 * (i + 1)) as nat == (8 * i) as nat + 8);
        }
        t = t / 256;
        i = i + 1;
    }
    proof {
        assert(v@ =~= le_seq(u as nat, n as nat));
    }
    v
}

/// Write a Float: its header (`tag` byte, 0), then `n` little-endian bytes of `bits`.
fn write_float(buf: &mut [u8], header: u8, bits: u64, n: usize) -> (r: Option<usize>)
    requires
        n == 4 || n == 8,
    ensures
        final(buf)@.len() == old(buf)@.len(),
        r is Some <==> old(buf)@.len() >= 2 + n,
        r matches Some(k) ==> k == 2 + n && final(buf)@.subrange(0, k as int) == seq![header, 0u8]
            + le_seq(bits as nat, n as nat) && final(buf)@.subrange(k as int, final(buf)@.len() as int)
            == old(buf)@.subrange(k as int, old(buf)@.len() as int),
        r is None ==> final(buf)@ == old(buf)@,
{
    let mut bytes: Vec<u8> = Vec::new();
    bytes.push(header);
    bytes.push(0);
    let mut digits = le_vec(bits, n);
    bytes.append(&mut digits);
    proof {
        assert(bytes@ =~= seq![header, 0u8] + le_seq(bits as nat, n as nat));
    }
    write_bytes_to(buf, bytes.as_slice())
}

impl Encodable for Float32Bits {
    /// A Float: the header 0x20, 0, then the four little-endian bytes.
    open spec fn spec_fleece(&self, is_wide: bool) -> Seq<u8> {
        seq![tag::FLOAT, 0u8] + le_seq(self.0 as nat, 4)
    }

    open spec fn spec_sized(&self) -> Option<SizedValue> {
        None
    }

    fn write_fleece_to(&self, buf: &mut [u8], is_wide: bool) -> (r: Option<usize>) {
        write_float(buf, tag::FLOAT, self.0 as u64, 4)
    }

    fn fleece_size(&self) -> (n: usize) {
        6
    }

    fn to_sized_value(&self) -> (r: Option<SizedValue>) {
        None
    }
}

/// A 64-bit float that a 32-bit one holds exactly, by the 32-bit float's bits: written in
/// four bytes, marked to be read as 64-bit.
#[derive(Clone, Copy)]
pub struct Double32Bits(pub u32);

impl Encodable for Double32Bits {
    /// A Float marked double-decoded: the header 0x24, 0, then the four little-endian bytes.
    open spec fn spec_fleece(&self, is_wide: bool) -> Seq<u8> {
        seq![(tag::FLOAT | 0x04) as u8, 0u8] + le_seq(self.0 as nat, 4)
    }

    open spec fn spec_sized(&self) -> Option<SizedValue> {
        None
    }

    fn write_fleece_to(&self, buf: &mut [u8], is_wide: bool) -> (r: Option<usize>) {
        write_float(buf, tag::FLOAT | 0x04, self.0 as u64, 4)
    }

    fn fleece_size(&self) -> (n: usize) {
        6
    }

    fn to_sized_value(&self) -> (r: Option<SizedValue>) {
        None
    }
}

impl Encodable for Float64Bits {
    /// A Float marked double: the header 0x28, 0, then the eight little-endian bytes.
    open spec fn spec_fleece(&self, is_wide: bool) -> Seq<u8> {
        seq![(tag::FLOAT | 0x08) as u8, 0u8] + le_seq(self.0 as nat, 8)
    }

    open spec fn spec_sized(&self) -> Option<SizedValue> {
        None
    }

    fn write_fleece_to(&self, buf: &mut [u8], is_wide: bool) -> (r: Option<usize>) {
        write_float(buf, tag::FLOAT | 0x08, self.0, 8)
    }

    fn fleece_size(&self) -> (n: usize) {
        10
    }

    fn to_sized_value(&self) -> (r: Option<SizedValue>) {
        None
    }
}

/// The header of an Array (`tag` 0x60) or Dict (`tag` 0x70) of `len` elements or entries:
/// the wide flag, the count (at most 0x7FF) in 11 bits, and the full count as a varint where
/// it does not fit.
pub open spec fn collection_fleece(tag: u8, len: usize, is_wide: bool) -> Seq<u8> {
    let inline = if len < 0x7FF {
        len as int
    } else {
        0x7FF
    };
    seq![(tag + (if is_wide { 8int } else { 0int }) + inline / 256) as u8, (inline % 256) as u8]
        + if len >= 0x7FF {
        varint_encoding(len as u64)
    } else {
        Seq::empty()
    }
}

/// Write the header of a collection of `len` elements if `buf` is long enough for it.
fn write_valuestack_collection(buf: &mut [u8], tag: u8, len: usize, is_wide: bool) -> (r: Option<usize>)
    requires
        tag == 0x60 || tag == 0x70,
    ensures
        final(buf)@.len() == old(buf)@.len(),
        r is Some <==> old(buf)@.len() >= collection_fleece(tag, len, is_wide).len(),
        r matches Some(n) ==> n == collection_fleece(tag, len, is_wide).len() && n > 0
            && final(buf)@.subrange(0, n as int) == collection_fleece(tag, len, is_wide)
            && final(buf)@.subrange(n as int, final(buf)@.len() as int) == old(buf)@.subrange(
            n as int,
            old(buf)@.len() as int,
        ),
        r is None ==> final(buf)@ == old(buf)@,
{
    let inline_size: usize = if len < VARINT_COUNT as usize {
        len
    } else {
        VARINT_COUNT as usize
    };
    let wide_flag: u8 = if is_wide { 8 } else { 0 };
    let mut bytes: Vec<u8> = Vec::new();
    bytes.push(tag + wide_flag + (inline_size / 256) as u8);
    bytes.push((inline_size % 256) as u8);
    if len >= VARINT_COUNT as usize {
        let mut varint_buf = vec![0u8; varint::MAX_LEN];
        proof {
            varint::lemma_varint_size_bounds(len as u64);
        }
        let vs = varint::write(varint_buf.as_mut_slice(), len as u64);
        varint_buf.truncate(vs);
        proof {
            assert(varint_buf@ =~= varint_encoding(len as u64));
        }
        bytes.append(&mut varint_buf);
    }
    proof {
        assert(bytes@ =~= collection_fleece(tag, len, is_wide));
    }
    write_bytes_to(buf, bytes.as_slice())
}

/// The length of a collection header of `len` elements.
fn collection_fleece_size(len: usize) -> (n: usize)
    ensures
        forall|tag: u8, w: bool| n == #[trigger] collection_fleece(tag, len, w).len(),
{
    if len >= VARINT_COUNT as usize {
        proof {
            varint::lemma_varint_size_bounds(len as u64);
        }
        2 + varint::size_required(len as u64)
    } else {
        2
    }
}

impl Encodable for value_stack::Array {
    /// Just the Array's header, not its values.
    open spec fn spec_fleece(&self, is_wide: bool) -> Seq<u8> {
        collection_fleece(tag::ARRAY, self.values@.len() as usize, is_wide)
    }

    open spec fn spec_sized(&self) -> Option<SizedValue> {
        None
    }

    fn write_fleece_to(&self, buf: &mut [u8], is_wide: bool) -> (r: Option<usize>) {
        write_valuestack_collection(buf, tag::ARRAY, self.values.len(), is_wide)
    }

    fn fleece_size(&self) -> (n: usize) {
        collection_fleece_size(self.values.len())
    }

    fn to_sized_value(&self) -> (r: Option<SizedValue>) {
        None
    }
}

impl Encodable for value_stack::Dict {
    /// Just the Dict's header, not its entries.
    open spec fn spec_fleece(&self, is_wide: bool) -> Seq<u8> {
        collection_fleece(tag::DICT, self.values@.len() as usize, is_wide)
    }

    open spec fn spec_sized(&self) -> Option<SizedValue> {
        None
    }

    fn write_fleece_to(&self, buf: &mut [u8], is_wide: bool) -> (r: Option<usize>) {
        write_valuestack_collection(buf, tag::DICT, self.values.len(), is_wide)
    }

    fn fleece_size(&self) -> (n: usize) {
        collection_fleece_size(self.values.len())
    }

    fn to_sized_value(&self) -> (r: Option<SizedValue>) {
        None
    }
}

} // verus!
