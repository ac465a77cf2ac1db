use crate::value::error::DecodeError;
use crate::value::value_type::type_of_byte;
use crate::value::{byte_at, Value, ValueType};
use vstd::prelude::*;

verus! {

/// The largest offset that a narrow (2-byte) pointer holds.
pub const MAX_NARROW: u16 = 0x3fff;
/// The largest offset that a wide (4-byte) pointer holds.
pub const MAX_WIDE: u32 = 0x3fff_ffff;

/// The distance back, in bytes, that the pointer at `p` (2 or 4 bytes wide) gives.
pub open spec fn pointer_offset(d: Seq<u8>, e: int, p: int, wide: bool) -> int {
    if wide {
        ((byte_at(d, e, p) & 0x3F) as int * 0x100_0000 + byte_at(d, e, p + 1) as int * 0x1_0000
            + byte_at(d, e, p + 2) as int * 0x100 + byte_at(d, e, p + 3) as int) * 2
    } else {
        ((byte_at(d, e, p) & 0x3F) as int * 0x100 + byte_at(d, e, p + 1) as int) * 2
    }
}

/// Follow the pointer that spans `d[p..e]` (and the pointers it leads to, which are wide),
/// to the `[start, end)` of the value it refers to, which ends where the pointer starts.
pub open spec fn spec_deref(d: Seq<u8>, p: int, e: int, wide: bool) -> Result<(int, int), DecodeError>
    decreases p,
{
    let len = e - p;
    if (wide && len < 4) || len < 2 {
        Err(DecodeError::PointerTooSmall { actual: len as usize, expected: if wide { 4 } else { 2 } })
    } else {
        let off = pointer_offset(d, e, p, wide);
        if off == 0 {
            Err(DecodeError::PointerOffsetZero)
        } else if byte_at(d, e, p) & 0x40 != 0 || off > p {
            Err(DecodeError::PointerTargetOutOfBounds { data_start: 0, target: p as usize, offset: off as u32 })
        } else {
            let t = p - off;
            if type_of_byte(byte_at(d, p, t)) == ValueType::Pointer {
                spec_deref(d, t, p, true)
            } else {
                Ok((t, p))
            }
        }
    }
}

/// A pointer leads back: to a value of at least two bytes that ends by the pointer's start.
pub proof fn lemma_deref_bounds(d: Seq<u8>, p: int, e: int, wide: bool)
    ensures
        spec_deref(d, p, e, wide) matches Ok((s, t)) ==> 0 <= s && s + 2 <= t <= p,
    decreases p,
{
    let len = e - p;
    if !((wide && len < 4) || len < 2) {
        let off = pointer_offset(d, e, p, wide);
        if off != 0 && !(byte_at(d, e, p) & 0x40 != 0 || off > p) {
            let t = p - off;
            if type_of_byte(byte_at(d, p, t)) == ValueType::Pointer {
                lemma_deref_bounds(d, t, p, true);
            }
        }
    }
}

/// What a pointer leads to is no pointer.
pub proof fn lemma_deref_target(d: Seq<u8>, p: int, e: int, wide: bool)
    ensures
        spec_deref(d, p, e, wide) matches Ok((s, t)) ==> type_of_byte(byte_at(d, t, s))
            != ValueType::Pointer,
    decreases p,
{
    let len = e - p;
    if !((wide && len < 4) || len < 2) {
        let off = pointer_offset(d, e, p, wide);
        if off != 0 && !(byte_at(d, e, p) & 0x40 != 0 || off > p) {
            let t = p - off;
            if type_of_byte(byte_at(d, p, t)) == ValueType::Pointer {
                lemma_deref_target(d, t, p, true);
            }
        }
    }
}

/// The offset of the pointer at `data[p..e]`.
pub fn get_offset(data: &[u8], p: usize, e: usize, wide: bool) -> (off: u32)
    requires
        p + (if wide { 4int } else { 2int }) <= e <= data@.len(),
    ensures
        off == pointer_offset(data@, e as int, p as int, wide),
{
    if wide {
        let raw = data[p];
        let b0 = raw & 0x3F;
        proof {
            assert(raw & 0x3F <= 0x3F) by (bit_vector);
        }
        (b0 as u32 * 0x100_0000 + data[p + 1] as u32 * 0x1_0000 + data[p + 2] as u32 * 0x100
            + data[p + 3] as u32) * 2
    } else {
        let raw = data[p];
        let b0 = raw & 0x3F;
        proof {
            assert(raw & 0x3F <= 0x3F) by (bit_vector);
        }
        (b0 as u32 * 0x100 + data[p + 1] as u32) * 2
    }
}

/// Follow the pointer at `data[p..e]` to the value it refers to.
pub fn deref_checked<'a>(data: &'a [u8], from: usize, to: usize, wide_ptr: bool) -> (r: Result<Value<'a>, DecodeError>)
    requires
        from <= to <= data@.len(),
    ensures
        match spec_deref(data@, from as int, to as int, wide_ptr) {
            Ok((s, t)) => r matches Ok(v) && v.data == data && v.start == s && v.end == t && v.wf(),
            Err(err) => r == Err::<Value<'a>, DecodeError>(err),
        },
{
    let mut p = from;
    let mut e = to;
    let mut wide = wide_ptr;
    loop
        invariant
            p <= e <= data@.len(),
            spec_deref(data@, p as int, e as int, wide) == spec_deref(data@, from as int, to as int, wide_ptr),
        decreases p,
    {
        let len = e - p;
        if (wide && len < 4) || len < 2 {
            return Err(DecodeError::PointerTooSmall { actual: len, expected: if wide { 4 } else { 2 } });
        }
        let off = get_offset(data, p, e, wide);
        if off == 0 {
            return Err(DecodeError::PointerOffsetZero);
        }
        if data[p] & 0x40 != 0 || off as usize > p {
            return Err(DecodeError::PointerTargetOutOfBounds { data_start: 0, target: p, offset: off });
        }
        let t = p - off as usize;
        if ValueType::from_byte(data[t]) != ValueType::Pointer {
            return Ok(Value { data, start: t, end: p });
        }
        e = p;
        p = t;
        wide = true;
    }
}

} // verus!
