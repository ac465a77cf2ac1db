use vstd::prelude::*;

verus! {

/// The longest varint that `read` accepts, in bytes.
pub const MAX_LEN: usize = 10;

/// The 7-bit group `i` of `v` and all groups above it.
pub open spec fn varint_group(v: u64, i: nat) -> u64 {
    v >> ((7 * i) as u64)
}

/// Index (counted from 0) of the 7-bit group at which the encoding of `v` ends,
/// searching from group `i` on. A `u64` never needs more than 10 groups.
pub open spec fn varint_size_from(v: u64, i: nat) -> nat
    decreases 10 - i,
{
    if i >= 9 || varint_group(v, i) < 0x80 {
        i + 1
    } else {
        varint_size_from(v, i + 1)
    }
}

/// The number of bytes of the varint encoding of `v`.
pub open spec fn varint_size(v: u64) -> nat {
    varint_size_from(v, 0)
}

/// Byte `i` of the varint encoding of `v`: the 7-bit group `i` of `v`, with the
/// high bit set on every byte but the last.
pub open spec fn varint_byte(v: u64, i: nat) -> u8 {
    if i + 1 < varint_size(v) {
        ((varint_group(v, i) & 0x7F) | 0x80) as u8
    } else {
        varint_group(v, i) as u8
    }
}

/// The varint encoding of `v`: little-endian 7-bit groups.
pub open spec fn varint_encoding(v: u64) -> Seq<u8> {
    Seq::new(varint_size(v), |i: int| varint_byte(v, i as nat))
}

/// Length of the varint at the start of `s`, looking from byte `i` on:
/// one past the first byte below 0x80 among the first `MAX_LEN` bytes, or 0 if there is none.
pub open spec fn varint_len_from(s: Seq<u8>, i: nat) -> nat
    decreases 10 - i,
{
    if i >= s.len() || i >= 10 {
        0
    } else if s[i as int] < 0x80 {
        i + 1
    } else {
        varint_len_from(s, i + 1)
    }
}

/// Length of the varint at the start of `s` (0 if `s` holds no complete varint of at most
/// `MAX_LEN` bytes).
pub open spec fn varint_len(s: Seq<u8>) -> nat {
    varint_len_from(s, 0)
}

/// The value of the first `k` 7-bit groups of `s`, bit by bit as a `u64` holds it.
pub open spec fn varint_acc(s: Seq<u8>, k: nat) -> u64
    decreases k,
{
    if k == 0 || k > 10 {
        0
    } else {
        varint_acc(s, (k - 1) as nat) | (((s[k - 1] & 0x7F) as u64) << ((7 * (k - 1)) as u64))
    }
}

/// What `read` returns on `s`: the length and the value of the varint at its start, or
/// `(0, 0)` where there is none.
pub open spec fn varint_read(s: Seq<u8>) -> (usize, u64) {
    let n = varint_len(s);
    if n == 0 {
        (0, 0)
    } else {
        (n as usize, varint_acc(s, n))
    }
}

/// A varint is at most `MAX_LEN` bytes long, and no longer than the data.
pub proof fn lemma_varint_read_len(s: Seq<u8>)
    ensures
        varint_read(s).0 <= 10,
        varint_read(s).0 <= s.len(),
{
    lemma_len_from_bounds(s, 0);
}

proof fn lemma_len_from_bounds(s: Seq<u8>, i: nat)
    ensures
        varint_len_from(s, i) == 0 || (i < varint_len_from(s, i) <= 10 && varint_len_from(s, i)
            <= s.len() && s[varint_len_from(s, i) - 1] < 0x80),
        forall|j: int| i <= j < varint_len_from(s, i) - 1 ==> s[j] >= 0x80,
    decreases 10 - i,
{
    if !(i >= s.len() || i >= 10) && s[i as int] >= 0x80 {
        lemma_len_from_bounds(s, i + 1);
    }
}

proof fn lemma_size_from_bounds(v: u64, i: nat)
    requires
        i <= 9,
    ensures
        i < varint_size_from(v, i) <= 10,
        varint_group(v, (varint_size_from(v, i) - 1) as nat) < 0x80,
        forall|j: nat| i <= j < varint_size_from(v, i) - 1 ==> #[trigger] varint_group(v, j) >= 0x80,
    decreases 10 - i,
{
    if i >= 9 {
        assert((v >> 63u64) < 0x80) by (bit_vector);
    } else if varint_group(v, i) >= 0x80 {
        lemma_size_from_bounds(v, i + 1);
    }
}

/// The length of the varint encoding of a `u64` is between 1 and `MAX_LEN`.
pub proof fn lemma_varint_size_bounds(v: u64)
    ensures
        1 <= varint_size(v) <= MAX_LEN,
{
    lemma_size_from_bounds(v, 0);
}

/// Read a varint from the start of `data`. Returns the number of bytes read and the value,
/// or `(0, 0)` if `data` does not start with a varint of at most `MAX_LEN` bytes.
pub fn read(data: &[u8]) -> (res: (usize, u64))
    ensures
        res == varint_read(data@),
{
    if data.len() == 0 {
        return (0, 0);
    }
    if data[0] < 0x80 {
        proof {
            assert(varint_acc(data@, 0) == 0);
            let b = data@[0];
            assert(b < 0x80 ==> 0u64 | (((b & 0x7F) as u64) << 0u64) == b as u64) by (bit_vector);
        }
        return (1, data[0] as u64);
    }
    let mut shift: u64 = 7;
    let b0 = data[0];
    let mut res: u64 = (b0 & 0x7F) as u64;
    proof {
        assert(0u64 | (((b0 & 0x7F) as u64) << 0u64) == (b0 & 0x7F) as u64) by (bit_vector);
        assert(varint_acc(data@, 0) == 0);
        assert(varint_acc(data@, 1) == res);
    }
    let end: usize = if data.len() < MAX_LEN {
        data.len()
    } else {
        MAX_LEN
    };
    let mut i: usize = 1;
    while i < end
        invariant
            1 <= i <= end,
            end <= data.len(),
            end <= MAX_LEN,
            end == data.len() || end == MAX_LEN,
            shift == 7 * i,
            res == varint_acc(data@, i as nat),
            forall|j: int| 0 <= j < i ==> data@[j] >= 0x80,
            varint_len(data@) == varint_len_from(data@, i as nat),
        decreases end - i,
    {
        let byte = data[i];
        proof {
            assert(varint_len_from(data@, i as nat) == if byte < 0x80 {
                (i + 1) as nat
            } else {
                varint_len_from(data@, (i + 1) as nat)
            });
        }
        res = res | (((byte & 0x7F) as u64) << shift);
        if byte < 0x80 {
            return (i + 1, res);
        }
        shift = shift + 7;
        i = i + 1;
    }
    proof {
        assert(varint_len_from(data@, i as nat) == 0);
    }
    (0, 0)
}

/// Write the varint encoding of `value` to the start of `out`, returning the number of bytes
/// written.
pub fn write(out: &mut [u8], value: u64) -> (written: usize)
    requires
        old(out)@.len() >= varint_size(value),
    ensures
        written == varint_size(value),
        final(out)@.len() == old(out)@.len(),
        final(out)@.subrange(0, written as int) == varint_encoding(value),
        final(out)@.subrange(written as int, final(out)@.len() as int) == old(out)@.subrange(
            written as int,
            old(out)@.len() as int,
        ),
{
    let ghost v = value;
    let mut value = value;
    let mut bytes_written: usize = 0;
    proof {
        lemma_size_from_bounds(v, 0);
        assert(v >> 0u64 == v) by (bit_vector);
    }
    while value >= 0x80
        invariant
            bytes_written <= 9,
            value == v >> ((7 * bytes_written) as u64),
            varint_size(v) == varint_size_from(v, bytes_written as nat),
            varint_size(v) > bytes_written,
            old(out)@.len() >= varint_size(v),
            out@.len() == old(out)@.len(),
            forall|j: int| 0 <= j < bytes_written ==> out@[j] == varint_byte(v, j as nat),
            forall|j: int| varint_size(v) <= j < out@.len() ==> out@[j] == old(out)@[j],
        decreases 10 - bytes_written,
    {
        proof {
            lemma_size_from_bounds(v, bytes_written as nat);
            if bytes_written >= 9 {
                assert((v >> 63u64) < 0x80) by (bit_vector);
            }
        }
        let b = ((value & 0xFF) as u8) | 0x80;
        proof {
            assert(((value & 0xFF) as u8) | 0x80 == (((value & 0x7F) | 0x80) as u8)) by (bit_vector);
        }
        out[bytes_written] = b;
        let ghost s = (7 * bytes_written) as u64;
        value = value >> 7;
        proof {
            assert(s <= 56 ==> (v >> s) >> 7u64 == v >> ((s + 7) as u64)) by (bit_vector);
        }
        bytes_written = bytes_written + 1;
    }
    proof {
        lemma_size_from_bounds(v, bytes_written as nat);
    }
    out[bytes_written] = value as u8;
    proof {
        assert(final(out)@.subrange(0, (bytes_written + 1) as int) =~= varint_encoding(v));
        assert(final(out)@.subrange((bytes_written + 1) as int, final(out)@.len() as int)
            =~= old(out)@.subrange((bytes_written + 1) as int, old(out)@.len() as int));
    }
    bytes_written + 1
}

/// The `s` low bits set.
pub open spec fn low_mask(s: u64) -> u64 {
    ((1u64 << s) - 1) as u64
}

proof fn lemma_group_small_iff(v: u64, s: u64, t: u64)
    requires
        1 <= t <= 64,
        s <= 63,
        v >> t == 0,
        (v >> ((t - 1) as u64)) & 1 != 0,
    ensures
        (v >> s) < 0x80 <==> s + 7 >= t,
{
    assert(1 <= t <= 64 && s <= 63 && v >> t == 0 && (v >> ((t - 1) as u64)) & 1 != 0
        ==> ((v >> s) < 0x80 <==> s + 7 >= t)) by (bit_vector);
}

proof fn lemma_size_from_formula(v: u64, t: nat, i: nat)
    requires
        1 <= t <= 64,
        v >> (t as u64) == 0,
        (v >> ((t - 1) as u64)) & 1 != 0,
        i <= (t - 1) / 7,
    ensures
        varint_size_from(v, i) == (t - 1) / 7 + 1,
    decreases 10 - i,
{
    lemma_group_small_iff(v, (7 * i) as u64, t as u64);
    if i < 9 && 7 * i + 7 < t {
        lemma_size_from_formula(v, t, i + 1);
    }
}

/// The number of bytes required to write a varint with the given value.
pub fn size_required(value: u64) -> (n: usize)
    ensures
        n == varint_size(value),
{
    if value == 0 {
        proof {
            assert((0u64 >> 0u64) == 0) by (bit_vector);
        }
        1
    } else {
        let lz = value.leading_zeros();
        proof {
            vstd::std_specs::bits::axiom_u64_leading_zeros(value);
            let t = (64 - lz) as nat;
            assert(value >> (t as u64) == 0);
            lemma_size_from_formula(value, t, 0);
        }
        (63 - lz) as usize / 7 + 1
    }
}

proof fn lemma_encoding_len(v: u64, rest: Seq<u8>, i: nat)
    requires
        i < varint_size(v),
    ensures
        varint_len_from(varint_encoding(v) + rest, i) == varint_size(v),
    decreases varint_size(v) - i,
{
    lemma_size_from_bounds(v, 0);
    let s = varint_encoding(v) + rest;
    let n = varint_size(v);
    let g = varint_group(v, i);
    if i + 1 < n {
        assert(g >= 0x80);
        assert(((g & 0x7F) | 0x80) as u8 >= 0x80) by (bit_vector);
        assert(s[i as int] == varint_byte(v, i));
        lemma_encoding_len(v, rest, i + 1);
    } else {
        assert(g < 0x80 ==> (g as u8) < 0x80) by (bit_vector);
        assert(s[i as int] == varint_byte(v, i));
    }
}

proof fn lemma_encoding_acc(v: u64, rest: Seq<u8>, k: nat)
    requires
        k < varint_size(v),
    ensures
        varint_acc(varint_encoding(v) + rest, k) == v & low_mask((7 * k) as u64),
    decreases k,
{
    lemma_size_from_bounds(v, 0);
    let s = varint_encoding(v) + rest;
    if k == 0 {
        assert(v & low_mask(0u64) == 0) by (bit_vector);
    } else {
        lemma_encoding_acc(v, rest, (k - 1) as nat);
        let j = (k - 1) as nat;
        let sh = (7 * j) as u64;
        let g = varint_group(v, j);
        let b = s[j as int];
        assert(b == varint_byte(v, j));
        assert(b == ((g & 0x7F) | 0x80) as u8);
        assert((b & 0x7F) as u64 == g & 0x7F) by (bit_vector)
            requires
                b == ((g & 0x7F) | 0x80) as u8,
        ;
        assert((v & low_mask(sh)) | ((g & 0x7F) << sh) == v & low_mask((sh + 7) as u64))
            by (bit_vector)
            requires
                g == v >> sh,
                sh <= 56,
        ;
        assert(varint_acc(s, k) == varint_acc(s, j) | (((s[j as int] & 0x7F) as u64) << sh));
    }
}

/// Reading back what `write` writes gives the same value and length, whatever bytes follow.
pub proof fn lemma_varint_roundtrip(v: u64, rest: Seq<u8>)
    ensures
        varint_read(varint_encoding(v) + rest) == (varint_size(v) as usize, v),
{
    lemma_size_from_bounds(v, 0);
    lemma_encoding_len(v, rest, 0);
    let n = varint_size(v);
    let s = varint_encoding(v) + rest;
    let j = (n - 1) as nat;
    let sh = (7 * j) as u64;
    let g = varint_group(v, j);
    if j > 0 {
        lemma_encoding_acc(v, rest, j);
    } else {
        assert(v & low_mask(0u64) == 0) by (bit_vector);
        assert(varint_acc(s, 0) == 0);
    }
    let b = s[j as int];
    assert(b == varint_byte(v, j));
    assert(b == g as u8);
    assert(g < 0x80);
    assert((b & 0x7F) as u64 == g) by (bit_vector)
        requires
            b == g as u8,
            g < 0x80,
    ;
    assert((v & low_mask(sh)) | (g << sh) == v) by (bit_vector)
        requires
            g == v >> sh,
            g < 0x80,
            sh <= 63,
    ;
    assert(varint_acc(s, n) == varint_acc(s, j) | (((s[j as int] & 0x7F) as u64) << sh));
}

} // verus!
