//! Complex amplitudes: a pair (real, imaginary) of fixed-point scalars with
//! exact, total arithmetic. The spec functions `c_add`, `c_sub`, `c_mul`,
//! `c_div` and `c_conj` give each operation's value; every method's contract
//! equates its result with the corresponding spec function.

use vstd::prelude::*;

verus! {

use crate::fixed::{
    fx_prod,
    fx_quot,
    sat_i64,
    sqrt_floor,
    fx_mul_wide,
    fx_div_sat,
    sat_to_i64,
    isqrt_u128,
};

/// One probability amplitude: real and imaginary fixed-point components.
#[allow(non_camel_case_types)]
#[derive(Clone, Copy, PartialEq, Eq, Structural, Debug)]
pub struct c64 {
    pub re: i64,
    pub im: i64,
}

/// Componentwise sum.
pub open spec fn c_add(x: c64, y: c64) -> c64 {
    c64 { re: sat_i64(x.re + y.re) as i64, im: sat_i64(x.im + y.im) as i64 }
}

/// Componentwise difference.
pub open spec fn c_sub(x: c64, y: c64) -> c64 {
    c64 { re: sat_i64(x.re - y.re) as i64, im: sat_i64(x.im - y.im) as i64 }
}

/// Complex product: (a+bi)(c+di) = (ac - bd) + (ad + bc)i, each scalar
/// product truncated at the fixed-point scale.
pub open spec fn c_mul(x: c64, y: c64) -> c64 {
    c64 {
        re: sat_i64(fx_prod(x.re as int, y.re as int) - fx_prod(x.im as int, y.im as int)) as i64,
        im: sat_i64(fx_prod(x.re as int, y.im as int) + fx_prod(x.im as int, y.re as int)) as i64,
    }
}

/// Squared-magnitude denominator of a division by `y`, at the fixed-point
/// scale.
pub open spec fn c_den(y: c64) -> int {
    fx_prod(y.re as int, y.re as int) + fx_prod(y.im as int, y.im as int)
}

/// Complex quotient: (a+bi)/(c+di) = [(ac+bd) + (bc-ad)i] / (c^2+d^2).
/// Meaningful only when `c_den(y)` is positive.
pub open spec fn c_div(x: c64, y: c64) -> c64 {
    let nre = fx_prod(x.re as int, y.re as int) + fx_prod(x.im as int, y.im as int);
    let nim = fx_prod(x.im as int, y.re as int) - fx_prod(x.re as int, y.im as int);
    c64 {
        re: sat_i64(fx_quot(nre, c_den(y))) as i64,
        im: sat_i64(fx_quot(nim, c_den(y))) as i64,
    }
}

/// Conjugate: the imaginary part negated.
pub open spec fn c_conj(x: c64) -> c64 {
    c64 { re: x.re, im: sat_i64(-(x.im as int)) as i64 }
}

/// Euclidean magnitude, rounded down at the fixed-point scale.
pub open spec fn c_abs(x: c64) -> nat {
    sqrt_floor((x.re * x.re + x.im * x.im) as nat)
}

impl c64 {
    /// An amplitude from raw fixed-point components.
    pub fn new(re: i64, im: i64) -> (r: c64)
        ensures
            r == (c64 { re, im }),
    {
        c64 { re, im }
    }

    /// The zero amplitude.
    pub fn zero() -> (r: c64)
        ensures
            r == (c64 { re: 0i64, im: 0i64 }),
    {
        c64 { re: 0, im: 0 }
    }

    /// Conjugate of this amplitude.
    pub fn conjugate(&self) -> (r: c64)
        ensures
            r == c_conj(*self),
    {
        if self.im == i64::MIN {
            c64 { re: self.re, im: i64::MAX }
        } else {
            c64 { re: self.re, im: -self.im }
        }
    }

    /// Euclidean magnitude, at the fixed-point scale.
    pub fn abs(&self) -> (r: u64)
        ensures
            r as nat == c_abs(*self),
    {
        proof {
            assert(0 <= (self.re as int) * (self.re as int)
                <= 0x4000_0000_0000_0000_0000_0000_0000_0000 && 0 <= (self.im as int) * (
            self.im as int) <= 0x4000_0000_0000_0000_0000_0000_0000_0000) by (nonlinear_arith)
                requires
                    -0x8000_0000_0000_0000 <= self.re as int <= 0x7FFF_FFFF_FFFF_FFFF,
                    -0x8000_0000_0000_0000 <= self.im as int <= 0x7FFF_FFFF_FFFF_FFFF,
            ;
        }
        let sr: i128 = (self.re as i128) * (self.re as i128);
        let si: i128 = (self.im as i128) * (self.im as i128);
        let m2: u128 = (sr as u128) + (si as u128);
        isqrt_u128(m2)
    }

    /// Sum of two amplitudes.
    pub fn add(self, other: c64) -> (r: c64)
        ensures
            r == c_add(self, other),
    {
        let re = sat_to_i64(self.re as i128 + other.re as i128);
        let im = sat_to_i64(self.im as i128 + other.im as i128);
        c64 { re, im }
    }

    /// Difference of two amplitudes.
    pub fn sub(self, other: c64) -> (r: c64)
        ensures
            r == c_sub(self, other),
    {
        let re = sat_to_i64(self.re as i128 - other.re as i128);
        let im = sat_to_i64(self.im as i128 - other.im as i128);
        c64 { re, im }
    }

    /// Complex product of two amplitudes.
    pub fn mul(self, other: c64) -> (r: c64)
        ensures
            r == c_mul(self, other),
    {
        let acc = fx_mul_wide(self.re, other.re);
        let bd = fx_mul_wide(self.im, other.im);
        let adp = fx_mul_wide(self.re, other.im);
        let bc = fx_mul_wide(self.im, other.re);
        let re = sat_to_i64(acc - bd);
        let im = sat_to_i64(adp + bc);
        c64 { re, im }
    }

    /// Complex quotient of two amplitudes. The divisor's fixed-point squared
    /// magnitude must be positive: division by a zero-magnitude value has no
    /// meaning here.
    pub fn div(self, other: c64) -> (r: c64)
        requires
            c_den(other) > 0,
        ensures
            r == c_div(self, other),
    {
        let cc = fx_mul_wide(other.re, other.re);
        let dd = fx_mul_wide(other.im, other.im);
        let den: i128 = cc + dd;
        let nre: i128 = fx_mul_wide(self.re, other.re) + fx_mul_wide(self.im, other.im);
        let nim: i128 = fx_mul_wide(self.im, other.re) - fx_mul_wide(self.re, other.im);
        let re = fx_div_sat(nre, den);
        let im = fx_div_sat(nim, den);
        c64 { re, im }
    }

    /// In-place sum.
    pub fn add_assign(&mut self, other: c64)
        ensures
            *final(self) == c_add(*old(self), other),
    {
        *self = (*self).add(other);
    }

    /// In-place difference.
    pub fn sub_assign(&mut self, other: c64)
        ensures
            *final(self) == c_sub(*old(self), other),
    {
        *self = (*self).sub(other);
    }

    /// In-place complex product.
    pub fn mul_assign(&mut self, other: c64)
        ensures
            *final(self) == c_mul(*old(self), other),
    {
        *self = (*self).mul(other);
    }

    /// In-place complex quotient.
    pub fn div_assign(&mut self, other: c64)
        requires
            c_den(other) > 0,
        ensures
            *final(self) == c_div(*old(self), other),
    {
        *self = (*self).div(other);
    }
}

} // verus!
