//! Single-precision binary numbers as they travel on the wire: a [`Scalar`]
//! keeps the 32-bit IEEE 754 pattern and is compared exactly, without
//! rounding. Every finite pattern is a whole multiple of `2^-149`; the
//! specifications measure numbers in that unit.

use crate::wide::{lemma_term_bound, Wide};
use vstd::arithmetic::power2::{lemma_pow2_pos, pow2};
use vstd::prelude::*;

verus! {

/// How many units of `2^-149` make up the number one.
pub open spec fn unit() -> nat {
    pow2(149)
}

/// A single-precision number, held by its bit pattern: one sign bit, eight
/// exponent bits, twenty-three fraction bits.
#[derive(Clone, Copy, Debug, PartialEq, Eq, Structural)]
pub struct Scalar {
    pub bits: u32,
}

impl Scalar {
    /// The sign bit is set.
    pub open spec fn sign_negative(self) -> bool {
        self.bits >= 0x8000_0000
    }

    /// The biased exponent field.
    pub open spec fn exponent(self) -> nat {
        ((self.bits as nat) / 0x80_0000) % 0x100
    }

    /// The fraction field.
    pub open spec fn fraction(self) -> nat {
        (self.bits as nat) % 0x80_0000
    }

    /// The pattern is not a number.
    pub open spec fn nan(self) -> bool {
        self.exponent() == 0xff && self.fraction() != 0
    }

    /// The pattern is plus or minus infinity.
    pub open spec fn infinite(self) -> bool {
        self.exponent() == 0xff && self.fraction() == 0
    }

    /// The pattern is zero, subnormal or normal.
    pub open spec fn finite(self) -> bool {
        self.exponent() < 0xff
    }

    /// The integer significand of a finite pattern, with the hidden bit of a
    /// normal number made explicit.
    pub open spec fn significand(self) -> nat {
        if self.exponent() == 0 {
            self.fraction()
        } else {
            0x80_0000 + self.fraction()
        }
    }

    /// The power of two by which the significand of a finite pattern is
    /// scaled, counted from `2^-149`.
    pub open spec fn scale(self) -> nat {
        if self.exponent() == 0 {
            0
        } else {
            (self.exponent() - 1) as nat
        }
    }

    /// The absolute value of a finite pattern, in units of `2^-149`.
    pub open spec fn magnitude(self) -> nat {
        self.significand() * pow2(self.scale())
    }

    /// The value of a finite pattern, in units of `2^-149`.
    pub open spec fn units(self) -> int {
        if self.sign_negative() {
            -(self.magnitude() as int)
        } else {
            self.magnitude() as int
        }
    }

    /// The number is smaller than the integer `k`. Minus infinity is smaller
    /// than every integer; nothing that is not a number is.
    pub open spec fn is_below(self, k: int) -> bool {
        !self.nan() && if self.infinite() {
            self.sign_negative()
        } else {
            self.units() < k * unit()
        }
    }

    /// The number is greater than the integer `k`. Plus infinity is greater
    /// than every integer; nothing that is not a number is.
    pub open spec fn is_above(self, k: int) -> bool {
        !self.nan() && if self.infinite() {
            !self.sign_negative()
        } else {
            self.units() > k * unit()
        }
    }

    /// The number with the given bit pattern.
    pub fn from_bits(bits: u32) -> (r: Scalar)
        ensures
            r.bits == bits,
    {
        Scalar { bits }
    }

    /// The bit pattern.
    pub fn to_bits(&self) -> (r: u32)
        ensures
            r == self.bits,
    {
        self.bits
    }

    /// Positive zero.
    pub fn zero() -> (r: Scalar)
        ensures
            r.bits == 0,
            r.finite(),
            r.units() == 0,
    {
        let r = Scalar { bits: 0 };
        proof {
            assert(r.significand() == 0);
            assert(r.significand() * pow2(r.scale()) == 0) by (nonlinear_arith)
                requires
                    r.significand() == 0,
            ;
        }
        r
    }

    /// Whether the sign bit is set.
    pub fn is_sign_negative(&self) -> (r: bool)
        ensures
            r == self.sign_negative(),
    {
        self.bits >= 0x8000_0000
    }

    /// Whether the pattern is not a number.
    pub fn is_nan(&self) -> (r: bool)
        ensures
            r == self.nan(),
    {
        (self.bits / 0x80_0000) % 0x100 == 0xff && self.bits % 0x80_0000 != 0
    }

    /// Whether the pattern is plus or minus infinity.
    pub fn is_infinite(&self) -> (r: bool)
        ensures
            r == self.infinite(),
    {
        (self.bits / 0x80_0000) % 0x100 == 0xff && self.bits % 0x80_0000 == 0
    }

    /// Whether the pattern is zero, subnormal or normal.
    pub fn is_finite(&self) -> (r: bool)
        ensures
            r == self.finite(),
    {
        (self.bits / 0x80_0000) % 0x100 < 0xff
    }

    /// Significand and scale of a finite pattern.
    pub fn decompose(&self) -> (r: (u64, u32))
        requires
            self.finite(),
        ensures
            r.0 == self.significand(),
            r.1 == self.scale(),
            r.0 < 0x100_0000,
            r.1 <= 253,
    {
        let exponent: u32 = (self.bits / 0x80_0000) % 0x100;
        let fraction: u32 = self.bits % 0x80_0000;
        if exponent == 0 {
            (fraction as u64, 0)
        } else {
            ((0x80_0000 + fraction) as u64, exponent - 1)
        }
    }

    /// The absolute value of a finite pattern as a wide integer, in units of
    /// `2^-149`.
    pub fn wide_magnitude(&self) -> (r: Wide)
        requires
            self.finite(),
        ensures
            r.wf(),
            r.value() == self.magnitude(),
    {
        let (significand, scale) = self.decompose();
        let mut r = Wide::zero();
        proof {
            lemma_term_bound(significand, scale as nat);
        }
        r.add_shifted(significand, scale);
        r
    }

    /// Whether the number is smaller than the integer `bound`.
    pub fn below(&self, bound: u32) -> (r: bool)
        ensures
            r == self.is_below(bound as int),
    {
        if self.is_nan() {
            false
        } else if self.is_sign_negative() {
            proof {
                lemma_pow2_pos(149);
                lemma_pow2_pos(self.scale());
                let s = self.significand();
                let p = pow2(self.scale());
                let b = bound as int;
                let u = unit() as int;
                assert(s > 0 ==> s * p > 0) by (nonlinear_arith)
                    requires
                        p > 0,
                ;
                assert(s == 0 ==> s * p == 0) by (nonlinear_arith);
                assert(b > 0 ==> b * u > 0) by (nonlinear_arith)
                    requires
                        u > 0,
                ;
                assert(b == 0 ==> b * u == 0) by (nonlinear_arith);
            }
            bound > 0 || self.bits % 0x8000_0000 != 0
        } else if self.is_infinite() {
            false
        } else {
            let mine = self.wide_magnitude();
            let mut limit = Wide::zero();
            proof {
                lemma_term_bound(bound as u64, 149);
            }
            limit.add_shifted(bound as u64, 149);
            mine.lt(&limit)
        }
    }

    /// Whether the number is greater than the integer `bound`.
    pub fn above(&self, bound: u32) -> (r: bool)
        ensures
            r == self.is_above(bound as int),
    {
        if self.is_nan() {
            false
        } else if self.is_sign_negative() {
            proof {
                lemma_pow2_pos(149);
                lemma_pow2_pos(self.scale());
                let s = self.significand();
                let p = pow2(self.scale());
                let b = bound as int;
                let u = unit() as int;
                assert(s * p >= 0) by (nonlinear_arith)
                    requires
                        s >= 0,
                        p > 0,
                ;
                assert(b * u >= 0) by (nonlinear_arith)
                    requires
                        b >= 0,
                        u > 0,
                ;
            }
            false
        } else if self.is_infinite() {
            true
        } else {
            let mine = self.wide_magnitude();
            let mut limit = Wide::zero();
            proof {
                lemma_term_bound(bound as u64, 149);
            }
            limit.add_shifted(bound as u64, 149);
            limit.lt(&mine)
        }
    }
}

} // verus!
