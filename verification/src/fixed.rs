//! Fixed-point scalars: signed two's-complement values in `i64` with 32
//! fractional bits (the raw value `0x1_0000_0000` stands for 1.0).
//!
//! Products and quotients are truncated toward zero at the 32nd fractional
//! bit; results outside the `i64` range saturate. Every operation is total
//! and its exact result is pinned down by the spec functions below.

use vstd::prelude::*;

verus! {

use vstd::arithmetic::power2::pow2;

/// Raw representation of the scalar 1.0.
pub const FX_ONE: i64 = 0x1_0000_0000;

/// Magnitude of a mathematical integer.
pub open spec fn mag(x: int) -> int {
    if x < 0 {
        -x
    } else {
        x
    }
}

/// Clamp a mathematical integer into the `i64` range.
pub open spec fn sat_i64(x: int) -> int {
    if x > i64::MAX as int {
        i64::MAX as int
    } else if x < i64::MIN as int {
        i64::MIN as int
    } else {
        x
    }
}

/// Exact value of a fixed-point product: the integer product rescaled by
/// 2^32, truncated toward zero.
pub open spec fn fx_prod(a: int, b: int) -> int {
    let q = (mag(a) * mag(b)) / 0x1_0000_0000;
    if (a < 0) != (b < 0) {
        -q
    } else {
        q
    }
}

/// A fixed-point product with a zero factor is zero.
pub proof fn lemma_fx_prod_zero(a: int)
    ensures
        fx_prod(a, 0) == 0,
        fx_prod(0, a) == 0,
{
    assert(mag(a) * mag(0) == 0) by (nonlinear_arith);
    assert(mag(0) * mag(a) == 0) by (nonlinear_arith);
    assert(0int / 0x1_0000_0000 == 0) by (nonlinear_arith);
}

/// Exact value of a fixed-point quotient: the dividend rescaled by 2^32 and
/// divided by `d`, truncated toward zero. Meaningful for `d > 0`.
pub open spec fn fx_quot(n: int, d: int) -> int {
    let q = (mag(n) * 0x1_0000_0000) / d;
    if n < 0 {
        -q
    } else {
        q
    }
}

/// Clamp a wide intermediate into `i64`.
pub(crate) fn sat_to_i64(x: i128) -> (r: i64)
    ensures
        r as int == sat_i64(x as int),
{
    if x > i64::MAX as i128 {
        i64::MAX
    } else if x < i64::MIN as i128 {
        i64::MIN
    } else {
        x as i64
    }
}

/// Magnitude of an `i64`, as a `u128`.
fn mag_u128(a: i64) -> (r: u128)
    ensures
        r as int == mag(a as int),
{
    if a < 0 {
        (-(a as i128)) as u128
    } else {
        a as u128
    }
}

/// Fixed-point product of two scalars, kept wide: the result is exact in
/// `i128` (no saturation happens at this stage).
pub(crate) fn fx_mul_wide(a: i64, b: i64) -> (r: i128)
    ensures
        r as int == fx_prod(a as int, b as int),
        mag(r as int) <= 0x4000_0000_0000_0000_0000_0000,
{
    let ma: u128 = mag_u128(a);
    let mb: u128 = mag_u128(b);
    assert(ma * mb <= 0x4000_0000_0000_0000_0000_0000_0000_0000u128) by (nonlinear_arith)
        requires
            ma <= 0x8000_0000_0000_0000u128,
            mb <= 0x8000_0000_0000_0000u128,
    ;
    let p: u128 = ma * mb;
    let q: u128 = p / 0x1_0000_0000u128;
    if (a < 0) != (b < 0) {
        -(q as i128)
    } else {
        q as i128
    }
}

/// Fixed-point quotient of wide intermediates, saturated into `i64`.
/// Meaningful only for a positive divisor.
pub(crate) fn fx_div_sat(n: i128, d: i128) -> (r: i64)
    requires
        0 < d,
        mag(n as int) <= 0x8000_0000_0000_0000_0000_0000,
    ensures
        r as int == sat_i64(fx_quot(n as int, d as int)),
{
    let mn: u128 = if n < 0 {
        (-n) as u128
    } else {
        n as u128
    };
    assert(mn * 0x1_0000_0000 <= u128::MAX) by (nonlinear_arith)
        requires
            mn <= 0x8000_0000_0000_0000_0000_0000u128,
    ;
    let q: u128 = (mn * 0x1_0000_0000u128) / (d as u128);
    assert(q == (mag(n as int) * 0x1_0000_0000) / (d as int));
    if n < 0 {
        if q > 0x8000_0000_0000_0000u128 {
            i64::MIN
        } else {
            sat_to_i64(-(q as i128))
        }
    } else {
        if q > 0x7FFF_FFFF_FFFF_FFFFu128 {
            i64::MAX
        } else {
            q as i64
        }
    }
}

/// `r` is the floor of the square root of `v`.
pub open spec fn is_sqrt_floor(v: int, r: int) -> bool {
    &&& 0 <= r
    &&& r * r <= v
    &&& v < (r + 1) * (r + 1)
}

/// The floor of the square root of a natural number.
pub open spec fn sqrt_floor(v: nat) -> nat {
    choose|r: nat| is_sqrt_floor(v as int, r as int)
}

/// Any integer square-root floor of `v` is `sqrt_floor(v)`: the floor is
/// unique.
pub proof fn lemma_sqrt_floor_unique(v: nat, r: nat)
    requires
        is_sqrt_floor(v as int, r as int),
    ensures
        sqrt_floor(v) == r,
{
    assert(is_sqrt_floor(v as int, sqrt_floor(v) as int)) by {
        assert(exists|x: nat| is_sqrt_floor(v as int, x as int));
    }
    let s = sqrt_floor(v);
    assert(s == r) by (nonlinear_arith)
        requires
            is_sqrt_floor(v as int, s as int),
            is_sqrt_floor(v as int, r as int),
    ;
}


/// Every natural number has a square-root floor.
pub proof fn lemma_sqrt_floor_exists(v: nat)
    ensures
        is_sqrt_floor(v as int, sqrt_floor(v) as int),
    decreases v,
{
    if v == 0 {
        assert(is_sqrt_floor(0, 0));
    } else {
        lemma_sqrt_floor_exists((v - 1) as nat);
        let r = sqrt_floor((v - 1) as nat);
        if (r + 1) * (r + 1) <= v {
            assert(v <= (r + 1) * (r + 1));
            assert(is_sqrt_floor(v as int, (r + 1) as int)) by (nonlinear_arith)
                requires
                    v == (r + 1) * (r + 1),
            ;
        } else {
            assert(is_sqrt_floor(v as int, r as int));
        }
    }
    let w = choose|x: nat| is_sqrt_floor(v as int, x as int);
    assert(is_sqrt_floor(v as int, w as int));
}

/// The square-root floor never exceeds the root of an upper bound's square.
pub proof fn lemma_sqrt_floor_le(v: nat, b: nat)
    requires
        v <= b * b,
    ensures
        sqrt_floor(v) <= b,
{
    lemma_sqrt_floor_exists(v);
    let r = sqrt_floor(v);
    assert(r <= b) by (nonlinear_arith)
        requires
            r * r <= v,
            v <= b * b,
            0 <= r,
            0 <= b,
    ;
}

/// Floor square root of a wide unsigned value, by binary search on the
/// result bits.
pub fn isqrt_u128(v: u128) -> (r: u64)
    ensures
        is_sqrt_floor(v as int, r as int),
        r as nat == sqrt_floor(v as nat),
{
    proof {
        vstd::arithmetic::power2::lemma2_to64();
        vstd::arithmetic::power2::lemma2_to64_rest();
        assert((v as int) < (0 + 2 * pow2(63)) * (0 + 2 * pow2(63))) by (nonlinear_arith)
            requires
                v <= u128::MAX,
                pow2(63) == 0x8000_0000_0000_0000,
        ;
    }
    let mut r: u64 = 0;
    let mut p: u128 = 0x8000_0000_0000_0000u128;
    let mut b: u64 = 63;
    loop
        invariant
            b <= 63,
            p == pow2(b as nat),
            (r as int) * (r as int) <= v as int,
            (v as int) < (r as int + 2 * pow2(b as nat)) * (r as int + 2 * pow2(b as nat)),
        ensures
            is_sqrt_floor(v as int, r as int),
        decreases b,
    {
        let ghost r0: int = r as int;
        let ghost pb: int = pow2(b as nat) as int;
        proof {
            vstd::arithmetic::power2::lemma2_to64();
            vstd::arithmetic::power2::lemma2_to64_rest();
            vstd::arithmetic::power2::lemma_pow2_pos(b as nat);
            if (b as nat) < 63 {
                vstd::arithmetic::power2::lemma_pow2_strictly_increases(b as nat, 63);
            }
            assert(pb <= 0x8000_0000_0000_0000);
        }
        let cand: u128 = r as u128 + p;
        let mut take: bool = false;
        if cand <= 0xFFFF_FFFF_FFFF_FFFFu128 {
            assert((cand as int) * (cand as int) < 0x1_0000_0000_0000_0000_0000_0000_0000_0000)
                by (nonlinear_arith)
                requires
                    cand <= 0xFFFF_FFFF_FFFF_FFFFu128,
            ;
            take = cand * cand <= v;
        } else {
            proof {
                assert((v as int) < (cand as int) * (cand as int)) by (nonlinear_arith)
                    requires
                        cand > 0xFFFF_FFFF_FFFF_FFFFu128,
                        v <= u128::MAX,
                ;
            }
        }
        if take {
            r = cand as u64;
        }
        proof {
            // In either branch the window shrinks to pb around the new r.
            if take {
                assert(r as int == r0 + pb);
                assert((r as int + pb) == r0 + 2 * pb);
                assert((v as int) < (r as int + pb) * (r as int + pb));
                assert((r as int) * (r as int) <= v as int);
            } else {
                assert((v as int) < (cand as int) * (cand as int));
                assert((v as int) < (r as int + pb) * (r as int + pb));
            }
        }
        if b == 0 {
            assert(pb == 1);
            assert((v as int) < (r as int + 2) * (r as int + 2)) by (nonlinear_arith)
                requires
                    (v as int) < (r as int + 1) * (r as int + 1),
                    0 <= r as int,
            ;
            break ;
        }
        b = b - 1;
        proof {
            vstd::arithmetic::power2::lemma_pow2_adds(b as nat, 1);
        }
        p = p / 2;
    }
    proof {
        lemma_sqrt_floor_unique(v as nat, r as nat);
    }
    r
}

} // verus!
