//! Conversion of IEEE-754 floats, given by their bits, to integers, as Rust's `as` does it:
//! truncation toward zero, saturation at the bounds of the target type, NaN to 0.
use vstd::arithmetic::power2::{lemma2_to64, lemma2_to64_rest, lemma_pow2_adds, lemma_pow2_strictly_increases, pow2};
use vstd::prelude::*;

verus! {

/// The integer part of `m * 2^s`, for `m >= 0`.
pub open spec fn scaled_magnitude(m: nat, s: int) -> nat {
    if s >= 0 {
        m * pow2(s as nat)
    } else {
        m / pow2((-s) as nat)
    }
}

/// `(-1)^neg * mag`, clamped to `[lo, hi]`.
pub open spec fn saturate(neg: bool, mag: nat, lo: int, hi: int) -> int {
    if neg {
        if -mag < lo {
            lo
        } else {
            -mag
        }
    } else {
        if mag > hi {
            hi
        } else {
            mag as int
        }
    }
}

/// The integer in `[lo, hi]` that Rust's `as` gives for the float with sign `neg`, biased
/// exponent `exp` and mantissa `mant`, in a format with `mant_bits` mantissa bits, exponent
/// bias `bias` and all-ones exponent `exp_max` (infinities and NaN).
pub open spec fn float_to_int(
    neg: bool,
    exp: nat,
    mant: nat,
    exp_max: nat,
    mant_bits: nat,
    bias: nat,
    lo: int,
    hi: int,
) -> int {
    if exp == exp_max {
        if mant != 0 {
            0
        } else if neg {
            lo
        } else {
            hi
        }
    } else if exp == 0 {
        // zero and subnormals: |x| < 1
        0
    } else {
        saturate(
            neg,
            scaled_magnitude(mant + pow2(mant_bits), exp - bias - mant_bits),
            lo,
            hi,
        )
    }
}

/// `as` conversion to `[lo, hi]` of the `f32` with the given bits.
pub open spec fn f32_bits_to_int(bits: u32, lo: int, hi: int) -> int {
    float_to_int(
        (bits >> 31u32) == 1,
        ((bits >> 23u32) & 0xFF) as nat,
        (bits & 0x7F_FFFF) as nat,
        255,
        23,
        127,
        lo,
        hi,
    )
}

/// `as` conversion to `[lo, hi]` of the `f64` with the given bits.
pub open spec fn f64_bits_to_int(bits: u64, lo: int, hi: int) -> int {
    float_to_int(
        (bits >> 63u64) == 1,
        ((bits >> 52u64) & 0x7FF) as nat,
        (bits & 0xF_FFFF_FFFF_FFFF) as nat,
        2047,
        52,
        1023,
        lo,
        hi,
    )
}

/// The magnitude `m * 2^s` truncated, or `(true, _)` where it is at least `2^63`.
fn scaled_magnitude_capped(m: u64, mant_bits: u64, s: i64) -> (r: (bool, u64))
    requires
        mant_bits <= 52,
        pow2(mant_bits as nat) <= m < pow2((mant_bits + 1) as nat),
        -4096 <= s <= 4096,
    ensures
        r.0 ==> scaled_magnitude(m as nat, s as int) >= pow2(63),
        !r.0 ==> r.1 == scaled_magnitude(m as nat, s as int) && r.1 < pow2(63),
{
    proof {
        lemma2_to64();
        lemma2_to64_rest();
    }
    if s >= 0 {
        if s as u64 + mant_bits >= 63 {
            proof {
                lemma_pow2_adds(mant_bits as nat, s as nat);
                if s as u64 + mant_bits > 63 {
                    lemma_pow2_strictly_increases(63, (mant_bits + s) as nat);
                }
                assert(m * pow2(s as nat) >= pow2(mant_bits as nat) * pow2(s as nat))
                    by (nonlinear_arith)
                    requires
                        m >= pow2(mant_bits as nat),
                ;
            }
            (true, 0)
        } else {
            let sh = s as u64;
            proof {
                lemma_pow2_adds((mant_bits + 1) as nat, sh as nat);
                assert(m * pow2(sh as nat) < pow2((mant_bits + 1) as nat) * pow2(sh as nat))
                    by (nonlinear_arith)
                    requires
                        m < pow2((mant_bits + 1) as nat),
                        pow2(sh as nat) > 0,
                ;
                if mant_bits + 1 + sh < 63 {
                    lemma_pow2_strictly_increases((mant_bits + 1 + sh) as nat, 63);
                }
                vstd::bits::lemma_u64_shl_is_mul(m, sh);
            }
            (false, m << sh)
        }
    } else {
        let k = (0 - s) as u64;
        if k >= 64 {
            proof {
                lemma_pow2_strictly_increases((mant_bits + 1) as nat, k as nat);
                assert(m as nat / pow2(k as nat) == 0) by (nonlinear_arith)
                    requires
                        m < pow2(k as nat),
                ;
            }
            (false, 0)
        } else {
            proof {
                vstd::bits::lemma_u64_shr_is_div(m, k);
                lemma_pow2_strictly_increases((mant_bits + 1) as nat, 63);
                assert(m as nat / pow2(k as nat) <= m) by (nonlinear_arith)
                    requires
                        pow2(k as nat) > 0,
                ;
            }
            (false, m >> k)
        }
    }
}

/// Rust's `as` conversion to `[lo, hi]` of the float with the given fields.
fn fields_to_int(
    neg: bool,
    exp: u64,
    mant: u64,
    exp_max: u64,
    mant_bits: u64,
    bias: u64,
    lo: i64,
    hi: i64,
) -> (r: i64)
    requires
        mant_bits <= 52,
        mant < pow2(mant_bits as nat),
        exp <= exp_max <= 2047,
        bias <= 1023,
        lo <= 0 <= hi,
    ensures
        r == float_to_int(
            neg,
            exp as nat,
            mant as nat,
            exp_max as nat,
            mant_bits as nat,
            bias as nat,
            lo as int,
            hi as int,
        ),
{
    if exp == exp_max {
        if mant != 0 {
            0
        } else if neg {
            lo
        } else {
            hi
        }
    } else if exp == 0 {
        0
    } else {
        proof {
            lemma2_to64();
            lemma2_to64_rest();
            vstd::bits::lemma_u64_shl_is_mul(1, mant_bits);
            vstd::arithmetic::power2::lemma_pow2_unfold((mant_bits + 1) as nat);
        }
        let m = mant + (1u64 << mant_bits);
        let s = exp as i64 - bias as i64 - mant_bits as i64;
        let (sat, mag) = scaled_magnitude_capped(m, mant_bits, s);
        if sat {
            if neg {
                lo
            } else {
                hi
            }
        } else if neg {
            let v = 0 - (mag as i128);
            if v < lo as i128 {
                lo
            } else {
                v as i64
            }
        } else {
            if mag as i128 > hi as i128 {
                hi
            } else {
                mag as i64
            }
        }
    }
}

/// Rust's `as` conversion to `[lo, hi]` of the `f32` with the given bits.
pub fn f32_to_int(bits: u32, lo: i64, hi: i64) -> (r: i64)
    requires
        lo <= 0 <= hi,
    ensures
        r == f32_bits_to_int(bits, lo as int, hi as int),
{
    let neg = (bits >> 31u32) == 1;
    let exp = ((bits >> 23u32) & 0xFF) as u64;
    let mant = (bits & 0x7F_FFFF) as u64;
    proof {
        lemma2_to64();
        assert(bits & 0x7F_FFFF <= 0x7F_FFFF) by (bit_vector);
        assert((bits >> 23u32) & 0xFF <= 0xFF) by (bit_vector);
    }
    fields_to_int(neg, exp, mant, 255, 23, 127, lo, hi)
}

/// Rust's `as` conversion to `[lo, hi]` of the `f64` with the given bits.
pub fn f64_to_int(bits: u64, lo: i64, hi: i64) -> (r: i64)
    requires
        lo <= 0 <= hi,
    ensures
        r == f64_bits_to_int(bits, lo as int, hi as int),
{
    let neg = (bits >> 63u64) == 1;
    let exp = (bits >> 52u64) & 0x7FF;
    let mant = bits & 0xF_FFFF_FFFF_FFFF;
    proof {
        lemma2_to64();
        lemma2_to64_rest();
        assert(bits & 0xF_FFFF_FFFF_FFFF <= 0xF_FFFF_FFFF_FFFF) by (bit_vector);
        assert((bits >> 52u64) & 0x7FF <= 0x7FF) by (bit_vector);
    }
    fields_to_int(neg, exp, mant, 2047, 52, 1023, lo, hi)
}

} // verus!
