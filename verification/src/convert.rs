//! Between binary64 and integers.

use vstd::prelude::*;
use vstd::arithmetic::power2::{pow2, lemma2_to64, lemma2_to64_rest, lemma_pow2_pos};
use vstd::arithmetic::div_mod::{
    lemma_basic_div, lemma_div_is_ordered, lemma_div_is_ordered_by_denominator,
    lemma_multiply_divide_lt,
};
use crate::scalar::{Scalar, HIDDEN_BIT};
use crate::rounding::{pow2_u128, lemma_pow2_monotone, lemma_sig_limit, round_nearest, round_pack};

verus! {

/// The pattern of 255.
pub const BYTE_MAX_BITS: u64 = 0x406F_E000_0000_0000;

impl Scalar {
    /// Twice a finite number that is not negative, rounded down to an
    /// integer: the mantissa times `2^(exponent - 1073)`.
    pub open spec fn floor_of_twice(self) -> nat {
        if self.exponent() >= 1073 {
            self.mantissa() * pow2((self.exponent() - 1073) as nat)
        } else {
            self.mantissa() / pow2((1073 - self.exponent()) as nat)
        }
    }

    /// The number rounded to the nearest integer, a half away from zero, and
    /// then brought into 0 to 255: 0 for a NaN and under a sign bit, 255 for
    /// everything from 255 up.
    #[verifier::opaque]
    pub open spec fn round_to_u8_spec(self) -> u8 {
        if self.nan() || self.negative() {
            0
        } else if self.infinite() || (self.floor_of_twice() + 1) / 2 >= 255 {
            255
        } else {
            ((self.floor_of_twice() + 1) / 2) as u8
        }
    }

    /// The number rounded toward zero to an integer: the mantissa times
    /// `2^(exponent - 1074)`, without what comes after the point. Meant for
    /// a finite number that is not negative.
    pub open spec fn floor(self) -> nat {
        if self.exponent() >= 1074 {
            self.mantissa() * pow2((self.exponent() - 1074) as nat)
        } else {
            self.mantissa() / pow2((1074 - self.exponent()) as nat)
        }
    }

    /// The number as a `u64`, as a cast gives it: rounded toward zero; 0
    /// for a NaN and under a sign bit; the largest `u64` for everything
    /// above it.
    #[verifier::opaque]
    pub open spec fn to_u64_spec(self) -> u64 {
        if self.nan() || self.negative() {
            0
        } else if self.infinite() || self.floor() > u64::MAX {
            u64::MAX
        } else {
            self.floor() as u64
        }
    }

    /// The binary64 number nearest to an integer.
    pub open spec fn from_u64_spec(n: u64) -> Scalar {
        Scalar { bits: round_nearest(n as nat, 1074, false) }
    }

    pub fn from_u64(n: u64) -> (r: Scalar)
        ensures
            r == Scalar::from_u64_spec(n),
    {
        proof {
            lemma_sig_limit();
        }
        Scalar { bits: round_pack(n as u128, 1074, false) }
    }

    pub fn to_u64(self) -> (r: u64)
        ensures
            r == self.to_u64_spec(),
    {
        proof {
            reveal(Scalar::to_u64_spec);
            lemma2_to64();
            lemma2_to64_rest();
        }
        if self.is_nan() || self.is_sign_negative() {
            return 0;
        }
        if self.is_infinite() {
            return u64::MAX;
        }
        let (m, e) = self.decompose();
        if e >= 1074 {
            let up: u64 = e - 1074;
            if up >= 12 {
                proof {
                    lemma_pow2_monotone(12, up as nat);
                    assert(m * pow2(up as nat) >= 0x10_0000_0000_0000 * 0x1000) by (nonlinear_arith)
                        requires
                            m >= 0x10_0000_0000_0000,
                            pow2(up as nat) >= 0x1000,
                    ;
                }
                return u64::MAX;
            }
            let scale: u128 = pow2_u128(up as u32);
            proof {
                lemma_pow2_monotone(up as nat, 11);
                assert(m * scale < 0x20_0000_0000_0000 * 0x800) by (nonlinear_arith)
                    requires
                        m < 0x20_0000_0000_0000,
                        0 < scale <= 0x800,
                ;
            }
            return ((m as u128) * scale) as u64;
        }
        let down: u64 = 1074 - e;
        if down >= 64 {
            proof {
                lemma_pow2_monotone(64, down as nat);
                lemma_basic_div(m as int, pow2(down as nat) as int);
            }
            return 0;
        }
        let scale: u128 = pow2_u128(down as u32);
        proof {
            lemma_pow2_pos(down as nat);
            lemma_div_is_ordered_by_denominator(m as int, 1, pow2(down as nat) as int);
        }
        ((m as u128) / scale) as u64
    }

    pub fn round_to_u8(self) -> (r: u8)
        ensures
            r == self.round_to_u8_spec(),
    {
        proof {
            reveal(Scalar::round_to_u8_spec);
        }
        if self.is_nan() || self.is_sign_negative() {
            return 0;
        }
        if self.is_infinite() {
            return 255;
        }
        let (m, e) = self.decompose();
        proof {
            lemma2_to64();
            lemma2_to64_rest();
        }
        if self.bits >= BYTE_MAX_BITS {
            proof {
                // at least 255: twice the number is at least 510
                if e >= 1073 {
                    lemma_pow2_pos((e - 1073) as nat);
                    assert(m * pow2((e - 1073) as nat) >= m) by (nonlinear_arith)
                        requires
                            pow2((e - 1073) as nat) >= 1,
                    ;
                } else if e == 1029 {
                    assert(m >= 510 * 0x1000_0000_0000);
                    lemma_div_is_ordered(510int * 0x1000_0000_0000int, m as int, pow2(44) as int);
                } else {
                    lemma_pow2_monotone((1073 - e) as nat, 43);
                    lemma_pow2_pos((1073 - e) as nat);
                    lemma_div_is_ordered_by_denominator(
                        m as int,
                        pow2((1073 - e) as nat) as int,
                        pow2(43) as int,
                    );
                    lemma_div_is_ordered(0x10_0000_0000_0000int, m as int, pow2(43) as int);
                }
            }
            return 255;
        }
        let shift: u64 = 1073 - e;
        if shift >= 64 {
            proof {
                lemma_pow2_monotone(64, shift as nat);
                lemma_basic_div(m as int, pow2(shift as nat) as int);
            }
            return 0;
        }
        let scale: u128 = pow2_u128(shift as u32);
        let twice: u128 = (m as u128) / scale;
        proof {
            if e == 1029 {
                assert(m < 510 * 0x1000_0000_0000);
                lemma_multiply_divide_lt(m as int, pow2(44) as int, 510);
            } else {
                lemma_pow2_monotone(45, shift as nat);
                lemma_div_is_ordered_by_denominator(
                    m as int,
                    pow2(45) as int,
                    pow2(shift as nat) as int,
                );
                lemma_multiply_divide_lt(m as int, pow2(45) as int, 256);
            }
            assert(twice <= 509);
            assert(self.floor_of_twice() == twice);
        }
        ((twice + 1) / 2) as u8
    }
}

} // verus!
