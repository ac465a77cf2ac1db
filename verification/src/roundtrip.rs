//! What the decoder reads back from what the encoder writes.
use crate::encoder::encodable::{
    collection_fleece, int_count, int_fits, int_fleece, le_digit, pointer_fleece, sized_fleece,
    string_fleece, twos, Encodable,
};
use crate::encoder::{
    elements_fleece, end_pos, entries_sorted, first_pos, header_len, needs_wide, padded, placed,
    placed_all, points_back, reaches_past, root_fleece, slots, too_large, width,
};
use crate::value::dict::{
    lemma_lex_order_antisymmetric, lemma_lex_order_equal, lemma_lex_order_transitive, lex_order, Dict,
};
use crate::value::array::Array;
use crate::value::pointer::{pointer_offset, spec_deref, MAX_NARROW, MAX_WIDE};
use crate::value::sized::SizedValue;
use crate::value::value_type::type_of_byte;
use crate::value::varint::{lemma_varint_roundtrip, varint_encoding, varint_size};
use crate::value::{byte_at, le_bytes, spec_find_root, spec_from_bytes, Value, ValueType};
use crate::value::error::DecodeError;
use crate::shared_keys::{
    keys_ok, keys_written, lemma_keys_written_len, state_fleece, state_keys, state_ok,
    state_texts,
};
use crate::encoder::encodable::string_sized;
use vstd::arithmetic::power2::pow2;
use vstd::utf8::valid_utf8;
use vstd::prelude::*;

verus! {

/// Little-endian bytes that hold the digits of `u` read back as `u` modulo their range.
proof fn lemma_le_bytes_digits(d: Seq<u8>, e: int, off: int, n: nat, u: nat)
    requires
        forall|i: int| 0 <= i < n ==> #[trigger] byte_at(d, e, off + i) == le_digit(u, i),
    ensures
        le_bytes(d, e, off, n) == u % pow2(8 * n),
    decreases n,
{
    vstd::arithmetic::power2::lemma2_to64();
    if n == 0 {
        vstd::arithmetic::div_mod::lemma_mod_self_0(1);
        assert(u % 1 == 0) by (nonlinear_arith);
    } else {
        let u2 = u / 256;
        assert forall|i: int| 0 <= i < n - 1 implies #[trigger] byte_at(d, e, off + 1 + i) == le_digit(
            u2,
            i,
        ) by {
            assert(byte_at(d, e, off + (i + 1)) == le_digit(u, i + 1));
            vstd::arithmetic::power2::lemma_pow2_adds(8, (8 * i) as nat);
            vstd::arithmetic::power2::lemma_pow2_pos((8 * i) as nat);
            vstd::arithmetic::div_mod::lemma_div_denominator(u as int, 256, pow2((8 * i) as nat) as int);
            assert((8 * (i + 1)) as nat == 8 + (8 * i) as nat);
        }
        lemma_le_bytes_digits(d, e, off + 1, (n - 1) as nat, u2);
        assert(byte_at(d, e, off + 0) == le_digit(u, 0));
        vstd::arithmetic::div_mod::lemma_div_basics(u as int);
        vstd::arithmetic::power2::lemma_pow2_adds(8, (8 * (n - 1)) as nat);
        vstd::arithmetic::power2::lemma_pow2_pos((8 * (n - 1)) as nat);
        assert(8 * n == 8 + 8 * (n - 1));
        vstd::arithmetic::div_mod::lemma_mod_breakdown(u as int, 256, pow2((8 * (n - 1)) as nat) as int);
    }
}

/// The two's complement bits of `x`, cut to `n` bytes, give back `x` where it fits in `n`
/// bytes: read unsigned, then made negative where the top bit is set.
proof fn lemma_twos_truncated(x: int, n: nat)
    requires
        1 <= n <= 8,
        int_fits(x, n, true),
    ensures
        ({
            let u = twos(x) % pow2(8 * n);
            &&& u < pow2(8 * n)
            &&& (u >= pow2((8 * n - 1) as nat) ==> u - pow2(8 * n) == x)
            &&& (u < pow2((8 * n - 1) as nat) ==> u == x)
        }),
{
    let m = pow2(8 * n);
    let h = pow2((8 * n - 1) as nat);
    vstd::arithmetic::power2::lemma_pow2_unfold(8 * n);
    vstd::arithmetic::power2::lemma_pow2_pos((8 * n - 1) as nat);
    vstd::arithmetic::power2::lemma_pow2_pos((64 - 8 * n) as nat);
    vstd::arithmetic::power2::lemma_pow2_adds(8 * n, (64 - 8 * n) as nat);
    assert(m == 2 * h);
    if x >= 0 {
        vstd::arithmetic::div_mod::lemma_small_mod(x as nat, m);
    } else {
        let k = pow2((64 - 8 * n) as nat);
        assert(pow2(64) == m * k);
        assert(m * k >= m) by (nonlinear_arith)
            requires
                k >= 1,
                m >= 0,
        ;
        assert(x + pow2(64) >= 0);
        assert(twos(x) == m * k + x);
        vstd::arithmetic::div_mod::lemma_mod_multiples_vanish(k as int, x, m as int);
        vstd::arithmetic::div_mod::lemma_mod_add_multiples_vanish(x, m as int);
        vstd::arithmetic::div_mod::lemma_small_mod((m + x) as nat, m);
    }
}

/// An `i64` written by the Encoder reads back as itself: its encoding, a Short where it
/// fits in 12 bits and an Int else, is a value whose `to_int` is `x`.
pub proof fn law_i64_roundtrip(x: i64, d: &[u8])
    requires
        d@ == x.spec_fleece(false),
    ensures
        ({
            let v = Value { data: d, start: 0, end: d@.len() as usize };
            v.wf() && v.spec_to_int() == x && (v.spec_type() == ValueType::Short || v.spec_type()
                == ValueType::Int)
        }),
{
    let v = Value { data: d, start: 0, end: d@.len() as usize };
    if -2048 <= x <= 2047 {
        let b0 = ((x as u16) / 256 % 16) as u8;
        let b1 = ((x as u16) % 256) as u8;
        assert(d@ =~= seq![b0, b1]);
        assert(v.byte(0) == b0 && v.byte(1) == b1);
        crate::encoder::encodable::lemma_inline_type(b0);
        assert(-2048 <= x <= 2047 ==> ((x as u16) / 256 % 16) as int * 256 + ((x as u16) % 256) as int
            == if x < 0 {
            x + 4096
        } else {
            x as int
        }) by (bit_vector);
    } else {
        let n = int_count(x as int, true);
        crate::encoder::encodable::lemma_int_count_bounds(x as int, true, 1);
        vstd::arithmetic::power2::lemma2_to64();
        vstd::arithmetic::power2::lemma2_to64_rest();
        if n == 8 {
            assert(int_fits(x as int, n, true));
        }
        let b0 = (0x10 + 0int + (n - 1)) as u8;
        assert(d@[0] == b0);
        assert(v.byte(0) == b0);
        assert(b0 < 0x18 && b0 >= 0x10 ==> b0 & 0xF0 == 0x10 && b0 & 0x08 == 0 && (b0 & 0x07) + 1
            == b0 - 0x0F) by (bit_vector);
        assert(v.spec_type() == ValueType::Int);
        assert(v.int_size() == n);
        assert forall|i: int| 0 <= i < n implies #[trigger] byte_at(d@, v.end as int, 1 + i) == le_digit(
            twos(x as int),
            i,
        ) by {
            assert(d@[1 + i] == int_fleece(x as int, true)[1 + i]);
        }
        lemma_le_bytes_digits(d@, v.end as int, 1, n, twos(x as int));
        lemma_twos_truncated(x as int, n);
    }
}

/// An `i64` written by the Encoder reads back, as a boolean, as whether it is nonzero, and,
/// as a 16-bit number, as itself where it fits in 16 bits.
pub proof fn law_i64_reads_as_bool_and_short(x: i64, d: &[u8])
    requires
        d@ == x.spec_fleece(false),
    ensures
        ({
            let v = Value { data: d, start: 0, end: d@.len() as usize };
            &&& v.spec_to_bool() == (x != 0)
            &&& i16::MIN <= x <= i16::MAX ==> v.spec_to_short() == x
        }),
{
    law_i64_roundtrip(x, d);
    let v = Value { data: d, start: 0, end: d@.len() as usize };
    v.law_to_bool_of_number();
    if v.spec_type() == ValueType::Int {
        v.law_to_short_of_int();
    }
}

/// A `u64` written by the Encoder reads back as itself: its encoding, a Short up to 2047
/// and an unsigned Int above, is a value whose `to_unsigned_int` is `x`.
pub proof fn law_u64_roundtrip(x: u64, d: &[u8])
    requires
        d@ == x.spec_fleece(false),
    ensures
        ({
            let v = Value { data: d, start: 0, end: d@.len() as usize };
            v.wf() && v.spec_to_int() as u64 == x
        }),
{
    let v = Value { data: d, start: 0, end: d@.len() as usize };
    if x <= 2047 {
        let b0 = ((x as int as u16) / 256 % 16) as u8;
        let b1 = ((x as int as u16) % 256) as u8;
        assert(d@ =~= seq![b0, b1]);
        assert(v.byte(0) == b0 && v.byte(1) == b1);
        crate::encoder::encodable::lemma_inline_type(b0);
        assert(x <= 2047 ==> ((x as u16) / 256 % 16) as int * 256 + ((x as u16) % 256) as int == x)
            by (bit_vector);
    } else {
        let n = int_count(x as int, false);
        crate::encoder::encodable::lemma_int_count_bounds(x as int, false, 1);
        vstd::arithmetic::power2::lemma2_to64();
        vstd::arithmetic::power2::lemma2_to64_rest();
        if n == 8 {
            assert(int_fits(x as int, n, false));
        }
        let b0 = (0x10 + 8int + (n - 1)) as u8;
        assert(d@[0] == b0);
        assert(v.byte(0) == b0);
        assert(b0 < 0x20 && b0 >= 0x18 ==> b0 & 0xF0 == 0x10 && b0 & 0x08 != 0 && (b0 & 0x07) + 1
            == b0 - 0x17) by (bit_vector);
        assert(v.spec_type() == ValueType::UnsignedInt);
        assert(v.int_size() == n);
        assert forall|i: int| 0 <= i < n implies #[trigger] byte_at(d@, v.end as int, 1 + i) == le_digit(
            twos(x as int),
            i,
        ) by {
            assert(d@[1 + i] == int_fleece(x as int, false)[1 + i]);
        }
        lemma_le_bytes_digits(d@, v.end as int, 1, n, twos(x as int));
        vstd::arithmetic::div_mod::lemma_small_mod(x as nat, pow2(8 * n));
        assert(((x as i64) as u64) == x) by (bit_vector);
    }
}

/// `true` and `false` written by the Encoder read back as themselves.
pub proof fn law_bool_roundtrip(b: bool, d: &[u8])
    requires
        d@ == b.spec_fleece(false),
    ensures
        ({
            let v = Value { data: d, start: 0, end: d@.len() as usize };
            v.wf() && v.spec_to_bool() == b
        }),
{
    let v = Value { data: d, start: 0, end: d@.len() as usize };
    assert(0x38u8 & 0xF0 == 0x30 && 0x38u8 & 0x0F == 0x08 && 0x34u8 & 0xF0 == 0x30 && 0x34u8 & 0x0F
        == 0x04) by (bit_vector);
    if b {
        assert(d@ =~= seq![0x38u8, 0u8]);
        assert(v.byte(0) == 0x38);
    } else {
        assert(d@ =~= seq![0x34u8, 0u8]);
        assert(v.byte(0) == 0x34);
    }
}

/// A String or Data encoded at the start of `t` reads back as its bytes, and needs no more
/// than its encoding.
proof fn lemma_string_value<'a>(t: Value<'a>, tag: u8, s: Seq<u8>, is_wide: bool)
    requires
        tag == 0x40 || tag == 0x50,
        s.len() <= u64::MAX,
        t.start + string_fleece(tag, s, is_wide).len() <= t.end <= t.data@.len(),
        t.data@.subrange(t.start as int, t.start + string_fleece(tag, s, is_wide).len()) == string_fleece(
            tag,
            s,
            is_wide,
        ),
    ensures
        t.wf(),
        t.spec_type() == if tag == 0x40 {
            ValueType::String
        } else {
            ValueType::Data
        },
        t.spec_data() == s,
        0 <= t.spec_required_size() <= string_fleece(tag, s, is_wide).len(),
{
    let d = t.data@;
    let st = t.start as int;
    let f = string_fleece(tag, s, is_wide);
    assert forall|j: int| 0 <= j < f.len() implies d[st + j] == #[trigger] f[j] by {
        assert(d.subrange(st, st + f.len())[j] == f[j]);
    }
    let k: u8 = if s.len() <= 0x0E {
        s.len() as u8
    } else {
        0x0F
    };
    assert(f[0] == (tag + k) as u8);
    assert(t.byte(0) == (tag + k) as u8);
    assert((tag == 0x40 || tag == 0x50) && k <= 0x0F ==> ((tag + k) as u8) & 0x0F == k && ((tag
        + k) as u8) & 0xF0 == tag) by (bit_vector);
    if s.len() <= 0x0E {
        assert forall|j: int| 0 <= j < s.len() implies f[1 + j] == #[trigger] s[j] by {
            if s.len() >= 2 {
                assert(f == seq![(tag + s.len()) as u8] + s);
            }
        }
        assert forall|j: int| 0 <= j < s.len() implies d[st + 1 + j] == #[trigger] s[j] by {
            assert(d[st + (1 + j)] == f[1 + j]);
        }
        assert(d.subrange(st + 1, st + 1 + s.len() as int) =~= s);
    } else {
        let enc = varint_encoding(s.len() as u64);
        let rest = d.subrange(st + 1 + enc.len(), t.end as int);
        assert(f == seq![(tag + 0x0F) as u8] + enc + s);
        assert forall|j: int| 0 <= j < enc.len() implies d[st + 1 + j] == #[trigger] enc[j] by {
            assert(d[st + (1 + j)] == f[1 + j]);
        }
        assert forall|j: int| 0 <= j < s.len() implies d[st + 1 + enc.len() + j] == #[trigger] s[j] by {
            assert(d[st + (1 + enc.len() + j)] == f[1 + enc.len() + j]);
        }
        assert(d.subrange(st + 1, t.end as int) =~= enc + rest);
        lemma_varint_roundtrip(s.len() as u64, rest);
        assert(d.subrange(st + 1 + enc.len() as int, st + 1 + enc.len() as int + s.len() as int) =~= s);
    }
}

/// Bytes written by the Encoder as Data (`tag` 0x50) or as a String (`tag` 0x40) read back
/// as themselves, narrow or wide.
pub proof fn law_string_roundtrip(tag: u8, s: Seq<u8>, is_wide: bool, d: &[u8])
    requires
        tag == 0x40 || tag == 0x50,
        s.len() <= u64::MAX,
        d@.len() <= usize::MAX,
        d@ == string_fleece(tag, s, is_wide),
    ensures
        ({
            let v = Value { data: d, start: 0, end: d@.len() as usize };
            &&& v.wf()
            &&& v.spec_type() == if tag == 0x40 {
                ValueType::String
            } else {
                ValueType::Data
            }
            &&& v.spec_data() == s
        }),
{
    let v = Value { data: d, start: 0, end: d@.len() as usize };
    assert(d@.subrange(0, d@.len() as int) =~= d@);
    lemma_string_value(v, tag, s, is_wide);
}

/// A Fleece pointer written for an even distance `x` reads back as `x`: it is a pointer,
/// not an external one.
pub proof fn lemma_pointer_reads_back(x: u32, is_wide: bool, d: Seq<u8>, p: int, e: int)
    requires
        x % 2 == 0,
        x <= MAX_WIDE,
        !is_wide ==> x <= MAX_NARROW,
        0 <= p,
        p + pointer_fleece(x, is_wide).len() <= e <= d.len(),
        d.subrange(p, p + pointer_fleece(x, is_wide).len()) == pointer_fleece(x, is_wide),
    ensures
        pointer_fleece(x, is_wide).len() == width(is_wide),
        type_of_byte(d[p]) == ValueType::Pointer,
        byte_at(d, e, p) & 0x40 == 0,
        pointer_offset(d, e, p, is_wide) == x,
{
    reveal(pointer_fleece);
    let h = x / 2;
    let f = pointer_fleece(x, is_wide);
    let b0 = if is_wide {
        (h / 0x100_0000) as u8
    } else {
        (h / 0x100) as u8
    };
    assert(b0 <= 0x1F);
    assert(b0 <= 0x1F ==> (b0 | 0x80) & 0x3F == b0 && (b0 | 0x80) & 0x40 == 0 && (b0 | 0x80) & 0xF0
        >= 0x80) by (bit_vector);
    if is_wide {
        assert(d[p] == f[0] && d[p + 1] == f[1] && d[p + 2] == f[2] && d[p + 3] == f[3]);
    } else {
        assert(d[p] == f[0] && d[p + 1] == f[1]);
    }
}

/// A value that the Encoder writes inline in its slot and that needs no more than it: null,
/// undefined, a boolean, a Short, or a String or Data of at most one byte.
pub open spec fn inline_scalar(v: SizedValue) -> bool {
    inline_byte(v.b(0))
}

/// The first byte of such a value.
pub open spec fn inline_byte(b: u8) -> bool {
    let t = type_of_byte(b);
    ||| t == ValueType::Null
    ||| t == ValueType::Undefined
    ||| t == ValueType::False
    ||| t == ValueType::True
    ||| t == ValueType::Short
    ||| ((t == ValueType::String || t == ValueType::Data) && b & 0x0F <= 1)
}

/// A String (`tag` 0x40) or Data (`tag` 0x50) holding `text` that the Encoder wrote out of
/// line before the collection whose element `v` points to it: `prefix` holds its encoding at
/// the offset `v` holds.
pub open spec fn written_before(prefix: Seq<u8>, v: SizedValue, tag: u8, text: Seq<u8>) -> bool {
    let o = v.spec_pointer_offset() as int;
    let f = string_fleece(tag, text, false);
    &&& v.spec_type() == ValueType::Pointer
    &&& (tag == 0x40 || tag == 0x50)
    &&& text.len() <= u64::MAX
    &&& o % 2 == 0
    &&& o + f.len() <= prefix.len()
    &&& prefix.subrange(o, o + f.len()) == f
}

/// An element of an Array the Encoder wrote: an inline scalar, or a pointer to a String or
/// Data (tag and text `t`) written before the Array.
pub open spec fn element_written(prefix: Seq<u8>, v: SizedValue, t: (u8, Seq<u8>)) -> bool {
    inline_scalar(v) || written_before(prefix, v, t.0, t.1)
}

/// Elements of `width(wide)` bytes each are written one after the other.
proof fn lemma_elements_layout(p: Seq<SizedValue>, wide: bool)
    requires
        forall|i: int| 0 <= i < p.len() ==> (#[trigger] p[i]).spec_fleece(wide).len() == width(wide),
    ensures
        elements_fleece(p, wide).len() == p.len() * width(wide),
        forall|i: int|
            0 <= i < p.len() ==> elements_fleece(p, wide).subrange(i * width(wide), i * width(wide) + width(wide))
                == (#[trigger] p[i]).spec_fleece(wide),
    decreases p.len(),
{
    if p.len() > 0 {
        let t = p.drop_last();
        let w = width(wide);
        assert forall|i: int| 0 <= i < t.len() implies (#[trigger] t[i]).spec_fleece(wide).len() == w by {
            assert(t[i] == p[i]);
        }
        lemma_elements_layout(t, wide);
        let e = elements_fleece(p, wide);
        let et = elements_fleece(t, wide);
        assert(e == et + p.last().spec_fleece(wide));
        assert(p.len() * w == t.len() * w + w) by (nonlinear_arith)
            requires
                p.len() == t.len() + 1,
        ;
        assert forall|i: int| 0 <= i < p.len() implies e.subrange(i * w, i * w + w) == (#[trigger] p[i]).spec_fleece(wide) by {
            if i < t.len() {
                assert(i * w + w <= t.len() * w) by (nonlinear_arith)
                    requires
                        0 <= i < t.len(),
                        w >= 0,
                ;
                assert(i * w >= 0) by (nonlinear_arith)
                    requires
                        i >= 0,
                        w >= 0,
                ;
                assert(t[i] == p[i]);
                assert(e.subrange(i * w, i * w + w) =~= et.subrange(i * w, i * w + w));
            } else {
                assert(i * w == t.len() * w);
                assert(e.subrange(i * w, i * w + w) =~= p.last().spec_fleece(wide));
            }
        }
    }
}

/// The slot of `w` bytes at `q` in `root`'s data needs no more than it, and is valid.
pub open spec fn slot_ok<'a>(root: Value<'a>, q: int, w: int) -> bool {
    let e = Value { data: root.data, start: q as usize, end: (q + w) as usize };
    e.spec_required_size() <= w && e.spec_validate(root.spec_is_wide(), true, q + w) == Ok::<(), DecodeError>(())
}

/// Slots that are each valid make the elements of an Array valid.
proof fn lemma_elems_valid<'a>(root: Value<'a>, first: int, i: int, n: int, w: int, data_end: int)
    requires
        0 <= i <= n,
        w == 2 || w == 4,
        first + n * w <= data_end <= root.data@.len(),
        forall|k: int| i <= k < n ==> #[trigger] slot_ok(root, first + k * w, w),
    ensures
        root.spec_validate_elems(first, i, n, w, data_end) == Ok::<(), DecodeError>(()),
    decreases n - i,
{
    if !(i < 0 || i >= n || first + n * w > data_end || first < root.start + 2 || w < 2 || data_end
        > root.data@.len() || root.start >= data_end || data_end > usize::MAX) {
        assert(slot_ok(root, first + i * w, w));
        lemma_elems_valid(root, first, i + 1, n, w, data_end);
    }
}

/// A slot the Encoder wrote at `q`, after `prefix`: it is valid, and reads back as what was
/// written: an inline scalar as its bytes, a pointer as the String or Data it points to.
proof fn lemma_slot<'a>(root: Value<'a>, q: int, prefix: Seq<u8>, v: SizedValue, t: (u8, Seq<u8>))
    requires
        prefix.len() <= q,
        q % 2 == 0,
        root.data@.len() <= usize::MAX,
        q + width(root.spec_is_wide()) <= root.data@.len(),
        root.data@.subrange(0, prefix.len() as int) == prefix,
        element_written(prefix, v, t),
        placed(v, q).spec_fleece(root.spec_is_wide()).len() == width(root.spec_is_wide()),
        root.data@.subrange(q, q + width(root.spec_is_wide())) == placed(v, q).spec_fleece(
            root.spec_is_wide(),
        ),
        v.spec_type() == ValueType::Pointer ==> q - v.spec_pointer_offset() <= MAX_WIDE && (
        !root.spec_is_wide() ==> q - v.spec_pointer_offset() <= MAX_NARROW),
    ensures
        slot_ok(root, q, width(root.spec_is_wide())),
        inline_scalar(v) ==> type_of_byte(root.data@[q]) != ValueType::Pointer && root.data@.subrange(
            q,
            q + width(root.spec_is_wide()),
        ) == v.spec_fleece(root.spec_is_wide()),
        !inline_scalar(v) ==> type_of_byte(root.data@[q]) == ValueType::Pointer && spec_deref(
            root.data@,
            q,
            q + width(root.spec_is_wide()),
            root.spec_is_wide(),
        ) == Ok::<(int, int), DecodeError>((v.spec_pointer_offset() as int, q)) && ({
            let tv = Value { data: root.data, start: v.spec_pointer_offset() as usize, end: q as usize };
            &&& tv.wf()
            &&& tv.spec_type() == if t.0 == 0x40 {
                ValueType::String
            } else {
                ValueType::Data
            }
            &&& tv.spec_data() == t.1
        }),
{
    let wide = root.spec_is_wide();
    let w = width(wide);
    let dd = root.data@;
    let e = Value { data: root.data, start: q as usize, end: (q + w) as usize };
    assert(dd[q] == placed(v, q).spec_fleece(wide)[0]) by {
        assert(dd.subrange(q, q + w)[0] == dd[q]);
    }
    if inline_scalar(v) {
        crate::encoder::encodable::lemma_inline_type(0x30);
        assert(v.spec_type() != ValueType::Pointer);
        assert(placed(v, q) == v);
        assert(v.bytes@.len() == 4);
        assert(v.spec_fleece(wide) == sized_fleece(v, wide));
        assert(sized_fleece(v, wide)[0] == v.b(0));
        assert(dd[q] == v.b(0));
        assert(e.byte(0) == v.b(0));
        assert(e.spec_required_size() <= 2);
    } else {
        let o = v.spec_pointer_offset() as int;
        let f = string_fleece(t.0, t.1, false);
        let x = q - o;
        assert(f.len() >= 2);
        assert(placed(v, q) == SizedValue::spec_pointer(x as u32));
        crate::encoder::lemma_pointer_fleece(x as u32);
        lemma_pointer_reads_back(x as u32, wide, dd, q, q + w);
        let tv = Value { data: root.data, start: o as usize, end: q as usize };
        assert(dd.subrange(o, o + f.len()) == f) by {
            assert(dd.subrange(o, o + f.len()) =~= prefix.subrange(o, o + f.len())) by {
                assert forall|j: int| 0 <= j < f.len() implies #[trigger] dd[o + j] == prefix[o + j] by {
                    assert(dd.subrange(0, prefix.len() as int)[o + j] == prefix[o + j]);
                }
            }
        }
        lemma_string_value(tv, t.0, t.1, false);
        assert(byte_at(dd, q, o) == tv.byte(0));
        assert(spec_deref(dd, q, q + w, wide) == Ok::<(int, int), DecodeError>((o, q)));
        assert(tv.spec_validate(wide, false, q) == Ok::<(), DecodeError>(()));
        assert(e.spec_validate(wide, true, q + w) == Ok::<(), DecodeError>(()));
    }
}

/// The header the Encoder writes for an Array of `n` elements, narrow or wide, reads back as
/// such: its count is `n`, its width is the one written, and its elements start right after
/// it.
proof fn lemma_array_header<'a>(root: Value<'a>, n: int, wide: bool, tag: u8)
    requires
        tag == 0x60 || tag == 0x70,
        0 <= n,
        2 * n <= usize::MAX,
        root.start + header_len(n) <= root.end <= root.data@.len(),
        root.data@.subrange(root.start as int, root.start + header_len(n)) == padded(
            collection_fleece(tag, n as usize, wide),
        ),
    ensures
        root.wf(),
        root.spec_type() == if tag == 0x60 {
            ValueType::Array
        } else {
            ValueType::Dict
        },
        root.spec_is_wide() == wide,
        root.spec_count() == if tag == 0x60 {
            n
        } else {
            2 * n
        },
        root.spec_first_pos() == header_len(n),
{
    let h = padded(collection_fleece(tag, n as usize, wide));
    let c = collection_fleece(tag, n as usize, wide);
    assert(c.len() == collection_fleece(0x60, n as usize, false).len());
    let d = root.data@;
    let st = root.start as int;
    assert(h.len() >= c.len() >= 2);
    assert(d[st] == h[0] && d[st + 1] == h[1]);
    assert(root.byte(0) == c[0] && root.byte(1) == c[1]);
    let q: u8 = if n < 0x7FF {
        (n / 256) as u8
    } else {
        7
    };
    let b: u8 = if wide {
        (tag + 8) as u8
    } else {
        tag
    };
    assert(c[0] == (b + q) as u8);
    assert(q <= 7 && (tag == 0x60 || tag == 0x70) && (b == tag || b == tag + 8) ==> ((b + q) as u8)
        & 0x07 == q && (((b + q) as u8) & 0x08 == 0) == (b == tag) && ((b + q) as u8) & 0xF0 == tag) by (bit_vector);
    if n < 0x7FF {
        assert(root.count_bits() == n);
    } else {
        vstd::arithmetic::div_mod::lemma_small_mod((n * 2) as nat, (usize::MAX - usize::MIN + 1) as nat);
        assert((n as usize).wrapping_mul(2) == 2 * n);
        assert(c[1] == 0xFFu8);
        assert(root.count_bits() == 0x7FF);
        let enc = varint_encoding(n as u64);
        let rest = d.subrange(st + 2 + enc.len(), root.end as int);
        assert(c == seq![(b + 7) as u8, 0xFFu8] + enc);
        assert forall|k: int| 0 <= k < enc.len() implies d[st + 2 + k] == #[trigger] enc[k] by {
            assert(d[st + 2 + k] == h[2 + k]);
            assert(h[2 + k] == c[2 + k]);
        }
        assert(d.subrange(st + 2, root.end as int) =~= enc + rest);
        lemma_varint_roundtrip(n as u64, rest);
        assert(root.count_varint() == (varint_size(n as u64) as usize, n as u64));
    }
}

/// The root the Encoder writes after a collection that starts at `len` and ends at `end`
/// leads back to that collection.
proof fn lemma_root_reads_back(dd: Seq<u8>, len: int, end: int)
    requires
        0 <= len < end,
        len % 2 == 0,
        end % 2 == 0,
        end - len <= MAX_WIDE,
        dd.len() == end + root_fleece(end - len).len(),
        dd.subrange(end, dd.len() as int) == root_fleece(end - len),
        type_of_byte(dd[len]) != ValueType::Pointer,
    ensures
        spec_find_root(dd) == Ok::<(int, int), DecodeError>((len, end)),
{
    let x = end - len;
    let r = root_fleece(x);
    assert(type_of_byte(byte_at(dd, end, len)) != ValueType::Pointer);
    if x <= MAX_NARROW {
        crate::encoder::encodable::lemma_pointer_fleece_len(x as u32, false);
        assert(dd.subrange(end, end + 2) =~= r);
        lemma_pointer_reads_back(x as u32, false, dd, end, end + 2);
        assert(spec_deref(dd, end, end + 2, false) == Ok::<(int, int), DecodeError>((len, end)));
    } else {
        let r1 = pointer_fleece(x as u32, true);
        let r2 = pointer_fleece(4, false);
        crate::encoder::encodable::lemma_pointer_fleece_len(x as u32, true);
        crate::encoder::encodable::lemma_pointer_fleece_len(4, false);
        assert(r == r1 + r2);
        assert forall|k: int| 0 <= k < 6 implies dd[end + k] == #[trigger] r[k] by {
            assert(dd.subrange(end, dd.len() as int)[k] == r[k]);
        }
        assert(dd.subrange(end, end + 4) =~= r1);
        assert(r1.len() == 4 && r2.len() == 2 && r.len() == 6);
        assert forall|k: int| 0 <= k < 2 implies dd[end + 4 + k] == #[trigger] r2[k] by {
            assert(dd[end + (4 + k)] == r[4 + k]);
            assert(r[4 + k] == r2[k]);
        }
        assert(dd.subrange(end + 4, end + 6) =~= r2);
        lemma_pointer_reads_back(x as u32, true, dd, end, end + 4);
        lemma_pointer_reads_back(4, false, dd, end + 4, end + 6);
        assert(spec_deref(dd, end, end + 4, true) == Ok::<(int, int), DecodeError>((len, end)));
        assert(type_of_byte(byte_at(dd, end + 4, end)) == ValueType::Pointer);
        assert(spec_deref(dd, end + 4, end + 6, false) == Ok::<(int, int), DecodeError>((len, end)));
    }
}

/// Where the parts of a top-level Array or Dict the Encoder wrote lie in its output.
#[verifier::rlimit(40)]
proof fn lemma_array_layout(
    prefix: Seq<u8>,
    values: Seq<SizedValue>,
    texts: Seq<(u8, Seq<u8>)>,
    dd: Seq<u8>,
    tag: u8,
    count: int,
)
    requires
        prefix.len() % 2 == 0,
        0 <= count <= values.len(),
        texts.len() == values.len(),
        forall|i: int| 0 <= i < values.len() ==> element_written(prefix, #[trigger] values[i], texts[i]),
        !too_large(prefix.len() as int, count, values, false),
        dd == ({
            let len = prefix.len() as int;
            let first = first_pos(len, count);
            let wide = needs_wide(values, first);
            prefix + padded(collection_fleece(tag, count as usize, wide)) + elements_fleece(
                placed_all(values, first, wide),
                wide,
            ) + root_fleece(end_pos(len, count, values) - len)
        }),
    ensures
        ({
            let len = prefix.len() as int;
            let n = values.len() as int;
            let first = first_pos(len, count);
            let wide = needs_wide(values, first);
            let w = width(wide);
            let end = first + n * w;
            &&& n <= usize::MAX
            &&& first == len + header_len(count)
            &&& len + 2 <= first
            &&& first % 2 == 0
            &&& end % 2 == 0
            &&& end == end_pos(len, count, values)
            &&& 2 <= end - len <= MAX_WIDE
            &&& end + 16 <= usize::MAX
            &&& dd.subrange(0, len) == prefix
            &&& dd.subrange(len, first) == padded(collection_fleece(tag, count as usize, wide))
            &&& forall|i: int|
                0 <= i < n ==> placed(#[trigger] values[i], first + i * w).spec_fleece(wide).len() == w
                    && dd.subrange(first + i * w, first + i * w + w) == placed(values[i], first + i * w).spec_fleece(wide)
                    && (values[i].spec_type() == ValueType::Pointer ==> first + i * w - values[i].spec_pointer_offset()
                    <= MAX_WIDE && (!wide ==> first + i * w - values[i].spec_pointer_offset() <= MAX_NARROW))
            &&& dd.len() == end + root_fleece(end - len).len()
            &&& dd.subrange(end, dd.len() as int) == root_fleece(end - len)
        }),
{
    let len = prefix.len() as int;
    let n = values.len() as int;
    let first = first_pos(len, count);
    let wide = needs_wide(values, first);
    let w = width(wide);
    let p = placed_all(values, first, wide);
    let h = padded(collection_fleece(tag, count as usize, wide));
    assert(collection_fleece(tag, count as usize, wide).len() == collection_fleece(0x60, count as usize, false).len());
    assert(h.len() == header_len(count));
    assert(h.len() % 2 == 0);
    assert forall|i: int| 0 <= i < n implies placed(#[trigger] values[i], first + i * w).spec_fleece(wide).len() == w
        && (values[i].spec_type() == ValueType::Pointer ==> first + i * w - values[i].spec_pointer_offset()
        <= MAX_WIDE && (!wide ==> first + i * w - values[i].spec_pointer_offset() <= MAX_NARROW)) by {
        let v = values[i];
        let pos = first + i * w;
        assert(i * w >= 0) by (nonlinear_arith)
            requires
                i >= 0,
                w >= 0,
        ;
        if v.spec_type() == ValueType::Pointer {
            assert(element_written(prefix, v, texts[i]));
            assert(!inline_scalar(v));
            assert(string_fleece(texts[i].0, texts[i].1, false).len() >= 2);
        }
        assert(points_back(v, pos));
        if wide {
            assert(!reaches_past(values[i], first + i * width(true), MAX_WIDE as int));
        } else {
            assert(first + 2 * i == pos);
            assert(!reaches_past(values[i], first + 2 * i, MAX_NARROW as int));
            assert(!reaches_past(values[i], first + i * width(false), MAX_WIDE as int));
        }
        crate::encoder::lemma_placed_len(v, pos, wide);
    }
    assert forall|i: int| 0 <= i < p.len() implies (#[trigger] p[i]).spec_fleece(wide).len() == w by {
        assert(p[i] == placed(values[i], first + i * w));
    }
    lemma_elements_layout(p, wide);
    let e = elements_fleece(p, wide);
    let end = first + n * w;
    assert(end == end_pos(len, count, values));
    let r = root_fleece(end - len);
    assert(dd == prefix + h + e + r);
    assert(n * w >= 0) by (nonlinear_arith)
        requires
            n >= 0,
            w >= 0,
    ;
    assert(end % 2 == 0) by {
        assert((n * w) % 2 == 0) by (nonlinear_arith)
            requires
                w == 2 || w == 4,
        ;
    }
    assert(dd.subrange(0, len) =~= prefix);
    assert(dd.subrange(len, first) =~= h);
    assert(dd.subrange(first, end) =~= e);
    assert(dd.subrange(end, dd.len() as int) =~= r);
    assert forall|i: int| 0 <= i < n implies dd.subrange(first + i * w, first + i * w + w) == placed(
        #[trigger] values[i],
        first + i * w,
    ).spec_fleece(wide) by {
        assert(i * w + w <= n * w) by (nonlinear_arith)
            requires
                0 <= i < n,
                w >= 0,
        ;
        assert(i * w >= 0) by (nonlinear_arith)
            requires
                i >= 0,
                w >= 0,
        ;
        assert(p[i] == placed(values[i], first + i * w));
        assert(e.subrange(i * w, i * w + w) == p[i].spec_fleece(wide));
        assert(dd.subrange(first + i * w, first + i * w + w) =~= e.subrange(i * w, i * w + w));
    }
}

/// The slots of an Array the Encoder wrote are valid, and each reads back as the element
/// written.
#[verifier::spinoff_prover]
#[verifier::rlimit(40)]
proof fn lemma_array_elements<'a>(
    root: Value<'a>,
    prefix: Seq<u8>,
    values: Seq<SizedValue>,
    texts: Seq<(u8, Seq<u8>)>,
    first: int,
)
    requires
        root.wf(),
        root.data@.len() <= usize::MAX,
        root.spec_type() == ValueType::Array || root.spec_type() == ValueType::Dict,
        root.spec_count() == values.len(),
        texts.len() == values.len(),
        first == root.start + root.spec_first_pos(),
        first % 2 == 0,
        prefix.len() <= first,
        first + values.len() * width(root.spec_is_wide()) == root.end,
        root.data@.subrange(0, prefix.len() as int) == prefix,
        forall|i: int| 0 <= i < values.len() ==> element_written(prefix, #[trigger] values[i], texts[i]),
        forall|i: int|
            0 <= i < values.len() ==> placed(#[trigger] values[i], first + i * width(root.spec_is_wide())).spec_fleece(
                root.spec_is_wide(),
            ).len() == width(root.spec_is_wide()) && root.data@.subrange(
                first + i * width(root.spec_is_wide()),
                first + i * width(root.spec_is_wide()) + width(root.spec_is_wide()),
            ) == placed(values[i], first + i * width(root.spec_is_wide())).spec_fleece(root.spec_is_wide())
                && (values[i].spec_type() == ValueType::Pointer ==> first + i * width(root.spec_is_wide())
                - values[i].spec_pointer_offset() <= MAX_WIDE && (!root.spec_is_wide() ==> first + i * width(
                root.spec_is_wide(),
            ) - values[i].spec_pointer_offset() <= MAX_NARROW)),
    ensures
        root.spec_validate(false, false, root.data@.len() as int) == Ok::<(), DecodeError>(()),
        forall|i: int|
            0 <= i < values.len() ==> ({
                let w = width(root.spec_is_wide());
                let q = first + i * w;
                let got = (Array { value: root }).spec_get(i);
                &&& inline_scalar(#[trigger] values[i]) ==> got == Some(
                    Value { data: root.data, start: q as usize, end: (q + w) as usize },
                ) && root.data@.subrange(q, q + w) == values[i].spec_fleece(root.spec_is_wide())
                &&& !inline_scalar(values[i]) ==> got == Some(
                    Value { data: root.data, start: values[i].spec_pointer_offset() as usize, end: q as usize },
                ) && got->0.spec_type() == (if texts[i].0 == 0x40 {
                    ValueType::String
                } else {
                    ValueType::Data
                }) && got->0.spec_data() == texts[i].1
            }),
{
    let n = values.len() as int;
    let wide = root.spec_is_wide();
    let w = width(wide);
    assert forall|k: int| 0 <= k < n implies #[trigger] slot_ok(root, first + k * w, w) by {
        assert(k * w >= 0) by (nonlinear_arith)
            requires
                k >= 0,
                w >= 0,
        ;
        assert(k * w + w <= n * w) by (nonlinear_arith)
            requires
                0 <= k < n,
                w >= 0,
        ;
        assert((k * w) % 2 == 0) by (nonlinear_arith)
            requires
                w == 2 || w == 4,
        ;
        assert(element_written(prefix, values[k], texts[k]));
        lemma_slot(root, first + k * w, prefix, values[k], texts[k]);
    }
    lemma_elems_valid(root, first, 0, n, w, root.data@.len() as int);
    assert(root.spec_width() == w);
    assert forall|i: int| 0 <= i < n implies ({
        let q = first + i * w;
        let got = (Array { value: root }).spec_get(i);
        &&& inline_scalar(#[trigger] values[i]) ==> got == Some(
            Value { data: root.data, start: q as usize, end: (q + w) as usize },
        ) && root.data@.subrange(q, q + w) == values[i].spec_fleece(wide)
        &&& !inline_scalar(values[i]) ==> got == Some(
            Value { data: root.data, start: values[i].spec_pointer_offset() as usize, end: q as usize },
        ) && got->0.spec_type() == (if texts[i].0 == 0x40 {
            ValueType::String
        } else {
            ValueType::Data
        }) && got->0.spec_data() == texts[i].1
    }) by {
        assert(i * w >= 0) by (nonlinear_arith)
            requires
                i >= 0,
                w >= 0,
        ;
        assert(i * w + w <= n * w) by (nonlinear_arith)
            requires
                0 <= i < n,
                w >= 0,
        ;
        assert((i * w) % 2 == 0) by (nonlinear_arith)
            requires
                w == 2 || w == 4,
        ;
        assert(element_written(prefix, values[i], texts[i]));
        lemma_slot(root, first + i * w, prefix, values[i], texts[i]);
        assert(root.elem_pos(i) == first + i * w);
    }
}

/// An Array closed by the Encoder as the top-level collection after `prefix`, whose elements
/// are inline scalars or pointers to Strings and Data written before it (`texts` gives their
/// tags and bytes), reads back as that Array: the bytes decode, the root is an Array of as
/// many elements, as wide as written, and element `i` is the bytes written for `values[i]`,
/// or the String or Data it points to.
pub proof fn law_array_roundtrip(prefix: Seq<u8>, values: Seq<SizedValue>, texts: Seq<(u8, Seq<u8>)>, d: &[u8])
    requires
        prefix.len() % 2 == 0,
        texts.len() == values.len(),
        forall|i: int| 0 <= i < values.len() ==> element_written(prefix, #[trigger] values[i], texts[i]),
        !too_large(prefix.len() as int, values.len() as int, values, false),
        d@ == ({
            let len = prefix.len() as int;
            let first = first_pos(len, values.len() as int);
            let wide = needs_wide(values, first);
            prefix + padded(collection_fleece(0x60, values.len() as usize, wide)) + elements_fleece(
                placed_all(values, first, wide),
                wide,
            ) + root_fleece(end_pos(len, values.len() as int, values) - len)
        }),
    ensures
        ({
            let len = prefix.len() as int;
            let n = values.len() as int;
            let first = first_pos(len, n);
            let wide = needs_wide(values, first);
            let w = width(wide);
            let root = Value { data: d, start: len as usize, end: (first + n * w) as usize };
            &&& spec_from_bytes(d) == Ok::<Value, DecodeError>(root)
            &&& root.spec_type() == ValueType::Array
            &&& root.spec_count() == n
            &&& root.spec_is_wide() == wide
            &&& forall|i: int|
                0 <= i < n ==> ({
                    let q = first + i * w;
                    let got = (Array { value: root }).spec_get(i);
                    &&& inline_scalar(#[trigger] values[i]) ==> got == Some(
                        Value { data: d, start: q as usize, end: (q + w) as usize },
                    ) && d@.subrange(q, q + w) == values[i].spec_fleece(wide)
                    &&& !inline_scalar(values[i]) ==> got == Some(
                        Value { data: d, start: values[i].spec_pointer_offset() as usize, end: q as usize },
                    ) && got->0.spec_type() == (if texts[i].0 == 0x40 {
                        ValueType::String
                    } else {
                        ValueType::Data
                    }) && got->0.spec_data() == texts[i].1
                })
        }),
{
    let len = prefix.len() as int;
    let n = values.len() as int;
    let first = first_pos(len, n);
    let wide = needs_wide(values, first);
    let w = width(wide);
    let end = first + n * w;
    let dd = d@;
    lemma_array_layout(prefix, values, texts, dd, 0x60, n);
    let root = Value { data: d, start: len as usize, end: end as usize };
    assert(dd.subrange(len, len + header_len(n)) == padded(collection_fleece(0x60, n as usize, wide)));
    lemma_array_header(root, n, wide, 0x60);
    assert(type_of_byte(dd[len]) == ValueType::Array);
    lemma_root_reads_back(dd, len, end);
    crate::encoder::encodable::lemma_pointer_fleece_len((end - len) as u32, false);
    crate::encoder::encodable::lemma_pointer_fleece_len((end - len) as u32, true);
    crate::encoder::encodable::lemma_pointer_fleece_len(4, false);
    lemma_array_elements(root, prefix, values, texts, first);
    assert(spec_from_bytes(d) == Ok::<Value, DecodeError>(root));
}

/// A Dict key the Encoder wrote: a String of the bytes `text`, inline where it has at most one
/// byte, else written before the Dict and pointed to (`t` gives its tag and bytes).
pub open spec fn key_written(prefix: Seq<u8>, k: SizedValue, text: Seq<u8>, t: (u8, Seq<u8>)) -> bool {
    ||| (inline_scalar(k) && text.len() <= 1 && sized_fleece(k, false) == string_fleece(0x40, text, false))
    ||| (written_before(prefix, k, 0x40, text) && t == (0x40u8, text))
}

/// Keys sorted in order and distinct rise strictly.
proof fn lemma_keys_rise(p: Seq<(Seq<u8>, SizedValue, SizedValue)>, i: int, j: int)
    requires
        entries_sorted(p),
        forall|a: int, b: int| 0 <= a < b < p.len() ==> p[a].0 != p[b].0,
        0 <= i < j < p.len(),
    ensures
        lex_order(p[i].0, p[j].0) < 0,
    decreases j - i,
{
    assert(lex_order(p[j - 1].0, p[j].0) <= 0);
    lemma_lex_order_equal(p[j - 1].0, p[j].0);
    if j > i + 1 {
        lemma_keys_rise(p, i, j - 1);
        lemma_lex_order_transitive(p[i].0, p[j - 1].0, p[j].0);
    }
}

/// The key slots of a Dict the Encoder wrote read back as the Strings written.
proof fn lemma_dict_keys<'a>(
    dict: Dict<'a>,
    prefix: Seq<u8>,
    p: Seq<(Seq<u8>, SizedValue, SizedValue)>,
    texts: Seq<(u8, Seq<u8>)>,
    first: int,
)
    requires
        texts.len() == 2 * p.len(),
        dict.array.value.data@.len() <= usize::MAX,
        first >= 0,
        first + 2 * p.len() * width(dict.array.value.spec_is_wide()) <= dict.array.value.data@.len(),
        forall|i: int| 0 <= i < p.len() ==> key_written(prefix, (#[trigger] p[i]).1, p[i].0, texts[2 * i]),
        forall|i: int|
            0 <= i < slots(p).len() ==> ({
                let w = width(dict.array.value.spec_is_wide());
                let q = first + i * w;
                let got = dict.array.spec_get(i);
                &&& inline_scalar(#[trigger] slots(p)[i]) ==> got == Some(
                    Value { data: dict.array.value.data, start: q as usize, end: (q + w) as usize },
                ) && dict.array.value.data@.subrange(q, q + w) == slots(p)[i].spec_fleece(dict.array.value.spec_is_wide())
                &&& !inline_scalar(slots(p)[i]) ==> got == Some(
                    Value {
                        data: dict.array.value.data,
                        start: slots(p)[i].spec_pointer_offset() as usize,
                        end: q as usize,
                    },
                ) && got->0.spec_type() == (if texts[i].0 == 0x40 {
                    ValueType::String
                } else {
                    ValueType::Data
                }) && got->0.spec_data() == texts[i].1
            }),
    ensures
        forall|i: int|
            0 <= i < p.len() ==> (#[trigger] dict.spec_key(i) matches Some(k) && k.spec_type() == ValueType::String
                && k.spec_data() == p[i].0),
{
    let n = p.len() as int;
    let values = slots(p);
    let wide = dict.array.value.spec_is_wide();
    let w = width(wide);
    let dd = dict.array.value.data@;
    assert forall|i: int| 0 <= i < n implies (#[trigger] dict.spec_key(i) matches Some(k) && k.spec_type()
        == ValueType::String && k.spec_data() == p[i].0) by {
        assert(values[2 * i] == p[i].1);
        assert(key_written(prefix, p[i].1, p[i].0, texts[2 * i]));
        if inline_scalar(p[i].1) {
            let q = first + (2 * i) * w;
            let kv = Value { data: dict.array.value.data, start: q as usize, end: (q + w) as usize };
            let f = string_fleece(0x40, p[i].0, false);
            assert(f.len() == 2);
            assert((2 * i) * w >= 0) by (nonlinear_arith)
                requires
                    i >= 0,
                    w >= 0,
            ;
            assert((2 * i) * w + w <= 2 * n * w) by (nonlinear_arith)
                requires
                    0 <= i < n,
                    w >= 0,
            ;
            assert(p[i].1.bytes@.len() == 4);
            assert(dd.subrange(q, q + 2) =~= f) by {
                assert(dd.subrange(q, q + w) == p[i].1.spec_fleece(wide));
                assert(p[i].1.spec_fleece(wide) == sized_fleece(p[i].1, wide));
                assert(sized_fleece(p[i].1, false) =~= sized_fleece(p[i].1, wide).subrange(0, 2));
                assert(dd.subrange(q, q + 2) =~= dd.subrange(q, q + w).subrange(0, 2));
            }
            lemma_string_value(kv, 0x40, p[i].0, false);
        }
    }
}

/// Keys that read back as distinct Strings in order are in order for every lookup, and each
/// is the key of its entry alone.
proof fn lemma_dict_order<'a>(dict: Dict<'a>, p: Seq<(Seq<u8>, SizedValue, SizedValue)>)
    requires
        dict.spec_len() == p.len(),
        entries_sorted(p),
        forall|i: int, j: int| 0 <= i < j < p.len() ==> p[i].0 != p[j].0,
        forall|i: int|
            0 <= i < p.len() ==> (#[trigger] dict.spec_key(i) matches Some(k) && k.spec_type() == ValueType::String
                && k.spec_data() == p[i].0),
    ensures
        forall|kb: Seq<u8>| #[trigger] dict.sorted_for(kb),
        forall|i: int, j: int|
            0 <= i < p.len() && 0 <= j < p.len() ==> (#[trigger] dict.order_at(p[i].0, j) == 0 <==> i == j),
{
    let n = p.len() as int;
    reveal(Dict::order_at);
    assert forall|kb: Seq<u8>| #[trigger] dict.sorted_for(kb) by {
        assert forall|i: int, j: int| 0 <= i < j < dict.spec_len() implies #[trigger] dict.order_at(kb, j)
            <= #[trigger] dict.order_at(kb, i) && !(dict.order_at(kb, i) == 0 && dict.order_at(kb, j) == 0) by {
            assert(dict.spec_key(i) matches Some(k) && k.spec_type() == ValueType::String && k.spec_data() == p[i].0);
            assert(dict.spec_key(j) matches Some(k) && k.spec_type() == ValueType::String && k.spec_data() == p[j].0);
            assert(dict.order_at(kb, i) == lex_order(kb, p[i].0));
            assert(dict.order_at(kb, j) == lex_order(kb, p[j].0));
            lemma_keys_rise(p, i, j);
            lemma_lex_order_antisymmetric(kb, p[i].0);
            lemma_lex_order_antisymmetric(kb, p[j].0);
            lemma_lex_order_antisymmetric(p[i].0, p[j].0);
            lemma_lex_order_equal(kb, p[i].0);
            lemma_lex_order_equal(kb, p[j].0);
            if lex_order(kb, p[i].0) < 0 {
                lemma_lex_order_transitive(kb, p[i].0, p[j].0);
            }
        }
    }
    assert forall|i: int, j: int| 0 <= i < n && 0 <= j < n implies (#[trigger] dict.order_at(p[i].0, j) == 0
        <==> i == j) by {
        assert(dict.spec_key(j) matches Some(k) && k.spec_type() == ValueType::String && k.spec_data() == p[j].0);
        assert(dict.order_at(p[i].0, j) == lex_order(p[i].0, p[j].0));
        lemma_lex_order_equal(p[i].0, p[j].0);
        if i < j {
            assert(p[i].0 != p[j].0);
        } else if j < i {
            assert(p[j].0 != p[i].0);
        }
    }
}

/// A Dict closed by the Encoder as the top-level collection after `prefix`, with its entries
/// `p` (key text, key slot, value slot) sorted by key and distinct, reads back as that Dict:
/// the bytes decode, the root is a Dict of as many entries, the key of entry `i` is the
/// String `p[i].0` and its value the slot written; the keys are in order for every lookup,
/// and the key `p[i].0` is the key of entry `i` alone, so that a lookup finds it there.
#[verifier::spinoff_prover]
#[verifier::rlimit(50)]
pub proof fn law_dict_roundtrip(
    prefix: Seq<u8>,
    p: Seq<(Seq<u8>, SizedValue, SizedValue)>,
    texts: Seq<(u8, Seq<u8>)>,
    d: &[u8],
)
    requires
        prefix.len() % 2 == 0,
        texts.len() == 2 * p.len(),
        forall|i: int| 0 <= i < p.len() ==> key_written(prefix, (#[trigger] p[i]).1, p[i].0, texts[2 * i]),
        forall|i: int| 0 <= i < p.len() ==> element_written(prefix, (#[trigger] p[i]).2, texts[2 * i + 1]),
        entries_sorted(p),
        forall|i: int, j: int| 0 <= i < j < p.len() ==> p[i].0 != p[j].0,
        !too_large(prefix.len() as int, p.len() as int, slots(p), false),
        d@ == ({
            let len = prefix.len() as int;
            let first = first_pos(len, p.len() as int);
            let wide = needs_wide(slots(p), first);
            prefix + padded(collection_fleece(0x70, p.len() as usize, wide)) + elements_fleece(
                placed_all(slots(p), first, wide),
                wide,
            ) + root_fleece(end_pos(len, p.len() as int, slots(p)) - len)
        }),
    ensures
        ({
            let len = prefix.len() as int;
            let n = p.len() as int;
            let first = first_pos(len, n);
            let wide = needs_wide(slots(p), first);
            let w = width(wide);
            let root = Value { data: d, start: len as usize, end: (first + 2 * n * w) as usize };
            let dict = Dict { array: Array { value: root } };
            &&& spec_from_bytes(d) == Ok::<Value, DecodeError>(root)
            &&& root.spec_type() == ValueType::Dict
            &&& dict.spec_len() == n
            &&& forall|i: int|
                0 <= i < n ==> (#[trigger] dict.spec_key(i) matches Some(k) && k.spec_type() == ValueType::String
                    && k.spec_data() == p[i].0)
            &&& forall|i: int|
                0 <= i < n ==> ({
                    let q = first + (2 * i + 1) * w;
                    let got = #[trigger] dict.spec_value(i);
                    &&& inline_scalar(p[i].2) ==> got == Some(
                        Value { data: d, start: q as usize, end: (q + w) as usize },
                    ) && d@.subrange(q, q + w) == p[i].2.spec_fleece(wide)
                    &&& !inline_scalar(p[i].2) ==> got == Some(
                        Value { data: d, start: p[i].2.spec_pointer_offset() as usize, end: q as usize },
                    ) && got->0.spec_type() == (if texts[2 * i + 1].0 == 0x40 {
                        ValueType::String
                    } else {
                        ValueType::Data
                    }) && got->0.spec_data() == texts[2 * i + 1].1
                })
            &&& forall|kb: Seq<u8>| #[trigger] dict.sorted_for(kb)
            &&& forall|i: int, j: int|
                0 <= i < n && 0 <= j < n ==> (#[trigger] dict.order_at(p[i].0, j) == 0 <==> i == j)
            &&& dict.readable_prefix(n)
            &&& forall|i: int, j: int| 0 <= i < j < n ==> lex_order(#[trigger] p[i].0, #[trigger] p[j].0) < 0
        }),
{
    let len = prefix.len() as int;
    let n = p.len() as int;
    let values = slots(p);
    let first = first_pos(len, n);
    let wide = needs_wide(values, first);
    let w = width(wide);
    let end = first + 2 * n * w;
    let dd = d@;
    assert forall|i: int| 0 <= i < values.len() implies element_written(prefix, #[trigger] values[i], texts[i]) by {
        if i % 2 == 0 {
            assert(key_written(prefix, p[i / 2].1, p[i / 2].0, texts[2 * (i / 2)]));
            assert(2 * (i / 2) == i);
        } else {
            assert(element_written(prefix, p[i / 2].2, texts[2 * (i / 2) + 1]));
            assert(2 * (i / 2) + 1 == i);
        }
    }
    lemma_array_layout(prefix, values, texts, dd, 0x70, n);
    assert(values.len() * w == 2 * n * w);
    let root = Value { data: d, start: len as usize, end: end as usize };
    assert(dd.subrange(len, len + header_len(n)) == padded(collection_fleece(0x70, n as usize, wide)));
    lemma_array_header(root, n, wide, 0x70);
    assert(type_of_byte(dd[len]) == ValueType::Dict);
    lemma_root_reads_back(dd, len, end);
    crate::encoder::encodable::lemma_pointer_fleece_len((end - len) as u32, false);
    crate::encoder::encodable::lemma_pointer_fleece_len((end - len) as u32, true);
    crate::encoder::encodable::lemma_pointer_fleece_len(4, false);
    lemma_array_elements(root, prefix, values, texts, first);
    assert(spec_from_bytes(d) == Ok::<Value, DecodeError>(root));
    let dict = Dict { array: Array { value: root } };
    lemma_dict_keys(dict, prefix, p, texts, first);
    lemma_dict_order(dict, p);
    assert forall|i: int| 0 <= i < n implies ({
        let q = first + (2 * i + 1) * w;
        let got = #[trigger] dict.spec_value(i);
        &&& inline_scalar(p[i].2) ==> got == Some(Value { data: d, start: q as usize, end: (q + w) as usize })
            && d@.subrange(q, q + w) == p[i].2.spec_fleece(wide)
        &&& !inline_scalar(p[i].2) ==> got == Some(
            Value { data: d, start: p[i].2.spec_pointer_offset() as usize, end: q as usize },
        ) && got->0.spec_type() == (if texts[2 * i + 1].0 == 0x40 {
            ValueType::String
        } else {
            ValueType::Data
        }) && got->0.spec_data() == texts[2 * i + 1].1
    }) by {
        assert(values[2 * i + 1] == p[i].2);
    }
    assert forall|i: int| 0 <= i < n implies (#[trigger] dict.spec_key(i)) is Some && dict.spec_value(i) is Some
        && dict.spec_key(i)->0.spec_type() != ValueType::Short by {
        assert(dict.spec_key(i) matches Some(k) && k.spec_type() == ValueType::String);
        assert(values[2 * i + 1] == p[i].2);
    }
    assert forall|i: int, j: int| 0 <= i < j < n implies lex_order(#[trigger] p[i].0, #[trigger] p[j].0) < 0 by {
        lemma_keys_rise(p, i, j);
    }
}


/// The slots the Encoder writes for keys of at most 15 bytes, as Array elements from the
/// start of the data: a key of at most one byte inline, any other as a pointer to its
/// String, written before the Array.
proof fn lemma_keys_elements(keys: Seq<Seq<u8>>)
    requires
        keys.len() <= 2048,
        forall|i: int| 0 <= i < keys.len() ==> (#[trigger] keys[i]).len() <= 15,
    ensures
        forall|i: int|
            0 <= i < keys.len() ==> ({
                let w = keys_written(0, keys);
                &&& (#[trigger] keys[i]).len() <= 1 ==> inline_scalar(w.1[i]) && w.1[i]
                    == string_sized(0x40, keys[i])->0
                &&& keys[i].len() > 1 ==> written_before(w.0, w.1[i], 0x40, keys[i])
            }),
    decreases keys.len(),
{
    if keys.len() > 0 {
        let t = keys.drop_last();
        assert forall|i: int| 0 <= i < t.len() implies (#[trigger] t[i]).len() <= 15 by {
            assert(t[i] == keys[i]);
        }
        lemma_keys_elements(t);
        lemma_keys_written_len(t);
        let k = keys.last();
        let w0 = keys_written(0, t);
        let w = keys_written(0, keys);
        let f = string_fleece(0x40, k, false);
        assert(0x40u8 & 0xF0 == 0x40 && 0x41u8 & 0xF0 == 0x40 && 0x40u8 & 0x0F == 0 && 0x41u8 & 0x0F
            == 1) by (bit_vector);
        if k.len() > 1 {
            assert(w0.0.len() <= MAX_WIDE);
            SizedValue::lemma_spec_pointer(w0.0.len() as u32);
            assert(w.0.subrange(w0.0.len() as int, (w0.0.len() + f.len()) as int) =~= f);
        }
        assert forall|i: int| 0 <= i < keys.len() implies ({
            &&& (#[trigger] keys[i]).len() <= 1 ==> inline_scalar(w.1[i]) && w.1[i] == string_sized(
                0x40,
                keys[i],
            )->0
            &&& keys[i].len() > 1 ==> written_before(w.0, w.1[i], 0x40, keys[i])
        }) by {
            if i < t.len() {
                assert(t[i] == keys[i]);
                assert(w.1[i] == w0.1[i]);
                if keys[i].len() > 1 {
                    let v = w0.1[i];
                    let o = v.spec_pointer_offset() as int;
                    let fi = string_fleece(0x40, keys[i], false);
                    assert(written_before(w0.0, v, 0x40, keys[i]));
                    assert(w.0.subrange(o, o + fi.len()) =~= w0.0.subrange(o, o + fi.len()));
                }
            }
        }
    }
}

/// The top-level Array of the keys of a table does not outgrow what a pointer can reach.
proof fn lemma_state_fits(keys: Seq<Seq<u8>>)
    requires
        keys.len() <= 2048,
        forall|i: int| 0 <= i < keys.len() ==> (#[trigger] keys[i]).len() <= 15,
    ensures
        !too_large(
            keys_written(0, keys).0.len() as int,
            keys.len() as int,
            keys_written(0, keys).1,
            false,
        ),
{
    let n = keys.len() as int;
    lemma_keys_written_len(keys);
    let w = keys_written(0, keys);
    let values = w.1;
    let len = w.0.len() as int;
    let first = first_pos(len, n);
    let wide = needs_wide(values, first);
    let ww = width(wide);
    crate::value::varint::lemma_varint_size_bounds(n as u64);
    assert(first <= len + 13);
    assert(ww * values.len() <= 4 * n) by (nonlinear_arith)
        requires
            values.len() == n,
            ww <= 4,
            n >= 0,
    ;
    assert forall|j: int| 0 <= j < values.len() implies !reaches_past(
        #[trigger] values[j],
        first + j * ww,
        MAX_WIDE as int,
    ) by {
        assert(j * ww <= 4 * n) by (nonlinear_arith)
            requires
                0 <= j < n,
                ww <= 4,
        ;
    }
}

/// An element of the Array of the keys that reads back as written reads back as its key.
proof fn lemma_state_element<'a>(root: Value<'a>, keys: Seq<Seq<u8>>, i: int, first: int, wide: bool)
    requires
        keys.len() <= 2048,
        forall|j: int| 0 <= j < keys.len() ==> (#[trigger] keys[j]).len() <= 15,
        0 <= i < keys.len(),
        valid_utf8(keys[i]),
        first >= 0,
        first + keys.len() * width(wide) <= root.data@.len() <= usize::MAX,
        ({
            let values = keys_written(0, keys).1;
            let q = first + i * width(wide);
            let got = (Array { value: root }).spec_get(i);
            &&& inline_scalar(values[i]) ==> got == Some(
                Value { data: root.data, start: q as usize, end: (q + width(wide)) as usize },
            ) && root.data@.subrange(q, q + width(wide)) == values[i].spec_fleece(wide)
            &&& !inline_scalar(values[i]) ==> got is Some && got->0.spec_type() == ValueType::String
                && got->0.spec_data() == keys[i]
        }),
    ensures
        (Array { value: root }).spec_get(i) is Some,
        (Array { value: root }).spec_get(i)->0.spec_str_bytes() == keys[i],
{
    lemma_keys_elements(keys);
    lemma_keys_written_len(keys);
    let values = keys_written(0, keys).1;
    let ww = width(wide);
    let q = first + i * ww;
    let d = root.data;
    assert(keys[i].len() <= 15);
    if keys[i].len() <= 1 {
        assert(inline_scalar(values[i]));
        let kv = Value { data: d, start: q as usize, end: (q + ww) as usize };
        let f = string_fleece(0x40, keys[i], false);
        assert(i * ww >= 0) by (nonlinear_arith)
            requires
                i >= 0,
                ww >= 0,
        ;
        assert(i * ww + ww <= keys.len() * ww) by (nonlinear_arith)
            requires
                0 <= i < keys.len(),
                ww >= 0,
        ;
        assert(values[i].bytes@.len() == 4);
        assert(d@.subrange(q, q + 2) =~= f) by {
            assert(values[i].spec_fleece(wide) == sized_fleece(values[i], wide));
            assert(d@.subrange(q, q + 2) =~= d@.subrange(q, q + ww).subrange(0, 2));
        }
        lemma_string_value(kv, 0x40, keys[i], false);
    } else {
        assert(!inline_scalar(values[i])) by {
            assert(written_before(keys_written(0, keys).0, values[i], 0x40, keys[i]));
        }
    }
}

/// The state of a table, as `SharedKeys::get_state_bytes` writes it (for keys that are
/// UTF-8), reads back as the same table: the bytes decode to an Array from which
/// `SharedKeys::from_state_value` makes a table, and that table holds the same keys in the
/// same order.
#[verifier::rlimit(50)]
#[verifier::spinoff_prover]
pub proof fn law_state_roundtrip(keys: Seq<Seq<u8>>, d: &[u8])
    requires
        keys_ok(keys),
        forall|i: int| 0 <= i < keys.len() ==> valid_utf8(#[trigger] keys[i]),
        d@ == state_fleece(keys),
    ensures
        spec_from_bytes(d) matches Ok(v) && state_ok(v) && state_keys(v) == keys,
{
    let n = keys.len() as int;
    lemma_keys_written_len(keys);
    lemma_keys_elements(keys);
    lemma_state_fits(keys);
    let w = keys_written(0, keys);
    let prefix = w.0;
    let values = w.1;
    let texts = Seq::new(n as nat, |i: int| (0x40u8, keys[i]));
    let len = prefix.len() as int;
    let first = first_pos(len, n);
    let wide = needs_wide(values, first);
    let ww = width(wide);
    assert forall|i: int| 0 <= i < values.len() implies element_written(prefix, #[trigger] values[i], texts[i]) by {
        assert(keys[i].len() <= 15);
    }
    law_array_roundtrip(prefix, values, texts, d);
    lemma_array_layout(prefix, values, texts, d@, 0x60, n);
    let end = first + n * ww;
    crate::encoder::encodable::lemma_pointer_fleece_len((end - len) as u32, false);
    crate::encoder::encodable::lemma_pointer_fleece_len((end - len) as u32, true);
    crate::encoder::encodable::lemma_pointer_fleece_len(4, false);
    assert(d@.len() <= usize::MAX);
    let root = Value { data: d, start: len as usize, end: (first + n * ww) as usize };
    let arr = Array { value: root };
    assert forall|i: int| 0 <= i < n implies (#[trigger] arr.spec_get(i)) is Some
        && arr.spec_get(i)->0.spec_str_bytes() == keys[i] by {
        lemma_state_element(root, keys, i, first, wide);
    }
    assert(state_texts(root) =~= keys);
    crate::shared_keys::lemma_state_build_keys(keys);
}

} // verus!
