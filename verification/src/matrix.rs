//! 2x2 complex gate matrices in row-major order, with componentwise sum and
//! difference, the standard matrix product, and the conjugate transpose
//! (Hermitian adjoint). Each operation's exact value is a spec function.

use vstd::prelude::*;

verus! {

use crate::complex::{c64, c_add, c_sub, c_mul, c_conj};

/// A 2x2 complex matrix: [top-left, top-right, bottom-left, bottom-right].
#[allow(non_camel_case_types)]
#[derive(Clone, Copy, PartialEq, Eq, Structural, Debug)]
pub struct c64x4 {
    pub m00: c64,
    pub m01: c64,
    pub m10: c64,
    pub m11: c64,
}

/// Componentwise matrix sum.
pub open spec fn m_add(x: c64x4, y: c64x4) -> c64x4 {
    c64x4 {
        m00: c_add(x.m00, y.m00),
        m01: c_add(x.m01, y.m01),
        m10: c_add(x.m10, y.m10),
        m11: c_add(x.m11, y.m11),
    }
}

/// Componentwise matrix difference.
pub open spec fn m_sub(x: c64x4, y: c64x4) -> c64x4 {
    c64x4 {
        m00: c_sub(x.m00, y.m00),
        m01: c_sub(x.m01, y.m01),
        m10: c_sub(x.m10, y.m10),
        m11: c_sub(x.m11, y.m11),
    }
}

/// Standard 2x2 matrix product.
pub open spec fn m_mul(x: c64x4, y: c64x4) -> c64x4 {
    c64x4 {
        m00: c_add(c_mul(x.m00, y.m00), c_mul(x.m01, y.m10)),
        m01: c_add(c_mul(x.m00, y.m01), c_mul(x.m01, y.m11)),
        m10: c_add(c_mul(x.m10, y.m00), c_mul(x.m11, y.m10)),
        m11: c_add(c_mul(x.m10, y.m01), c_mul(x.m11, y.m11)),
    }
}

/// Hermitian adjoint: off-diagonal entries swapped, every entry conjugated.
pub open spec fn m_adjoint(x: c64x4) -> c64x4 {
    c64x4 { m00: c_conj(x.m00), m01: c_conj(x.m10), m10: c_conj(x.m01), m11: c_conj(x.m11) }
}

impl c64x4 {
    /// A matrix from its four entries in row-major order.
    pub fn new(z11: c64, z12: c64, z21: c64, z22: c64) -> (r: c64x4)
        ensures
            r == (c64x4 { m00: z11, m01: z12, m10: z21, m11: z22 }),
    {
        c64x4 { m00: z11, m01: z12, m10: z21, m11: z22 }
    }

    /// Conjugate transpose of this matrix.
    pub fn conjugate_transpose(&self) -> (r: c64x4)
        ensures
            r == m_adjoint(*self),
    {
        c64x4 {
            m00: self.m00.conjugate(),
            m01: self.m10.conjugate(),
            m10: self.m01.conjugate(),
            m11: self.m11.conjugate(),
        }
    }

    /// Componentwise sum of two matrices.
    pub fn add(self, other: c64x4) -> (r: c64x4)
        ensures
            r == m_add(self, other),
    {
        c64x4 {
            m00: self.m00.add(other.m00),
            m01: self.m01.add(other.m01),
            m10: self.m10.add(other.m10),
            m11: self.m11.add(other.m11),
        }
    }

    /// Componentwise difference of two matrices.
    pub fn sub(self, other: c64x4) -> (r: c64x4)
        ensures
            r == m_sub(self, other),
    {
        c64x4 {
            m00: self.m00.sub(other.m00),
            m01: self.m01.sub(other.m01),
            m10: self.m10.sub(other.m10),
            m11: self.m11.sub(other.m11),
        }
    }

    /// Standard 2x2 matrix product of two matrices.
    pub fn mul(self, other: c64x4) -> (r: c64x4)
        ensures
            r == m_mul(self, other),
    {
        c64x4 {
            m00: self.m00.mul(other.m00).add(self.m01.mul(other.m10)),
            m01: self.m00.mul(other.m01).add(self.m01.mul(other.m11)),
            m10: self.m10.mul(other.m00).add(self.m11.mul(other.m10)),
            m11: self.m10.mul(other.m01).add(self.m11.mul(other.m11)),
        }
    }

    /// In-place componentwise sum.
    pub fn add_assign(&mut self, other: c64x4)
        ensures
            *final(self) == m_add(*old(self), other),
    {
        *self = (*self).add(other);
    }

    /// In-place componentwise difference.
    pub fn sub_assign(&mut self, other: c64x4)
        ensures
            *final(self) == m_sub(*old(self), other),
    {
        *self = (*self).sub(other);
    }

    /// In-place matrix product.
    pub fn mul_assign(&mut self, other: c64x4)
        ensures
            *final(self) == m_mul(*old(self), other),
    {
        *self = (*self).mul(other);
    }
}

} // verus!
