//! Binary64 numbers as bit patterns: fields, classes, signs and order.

use vstd::prelude::*;

verus! {

/// The sign bit of a pattern.
pub const SIGN_BIT: u64 = 0x8000_0000_0000_0000;

/// The weight of the exponent field's lowest bit, two to the power 52.
pub const HIDDEN_BIT: u64 = 0x0010_0000_0000_0000;

/// The magnitude of an infinity: exponent field all ones, fraction zero.
pub const INFINITY_BITS: u64 = 0x7FF0_0000_0000_0000;

/// The one NaN that the arithmetic of this crate produces.
pub const NAN_BITS: u64 = 0x7FF8_0000_0000_0000;

/// The pattern of 1.
pub const ONE_BITS: u64 = 0x3FF0_0000_0000_0000;

/// The pattern of 2.
pub const TWO_BITS: u64 = 0x4000_0000_0000_0000;

/// The pattern of one half.
pub const HALF_BITS: u64 = 0x3FE0_0000_0000_0000;

/// A binary64 number, held as its sixty-four bits: one sign bit, eleven
/// exponent bits, fifty-two fraction bits.
///
/// A finite number is `mantissa() * 2^exponent()` units, negated where the
/// sign bit is set; one unit is two to the power -1074, the smallest positive
/// number of the format.
#[derive(Clone, Copy, Debug)]
pub struct Scalar {
    pub bits: u64,
}

/// The number with the given pattern.
pub open spec fn scalar(bits: u64) -> Scalar {
    Scalar { bits }
}

impl Scalar {
    /// The sign bit is set (zeros, infinities and NaNs have a sign too).
    pub open spec fn negative(self) -> bool {
        self.bits >= SIGN_BIT
    }

    /// The pattern without its sign bit.
    pub open spec fn magnitude(self) -> u64 {
        if self.bits >= SIGN_BIT {
            (self.bits - SIGN_BIT) as u64
        } else {
            self.bits
        }
    }

    pub open spec fn nan(self) -> bool {
        self.magnitude() > INFINITY_BITS
    }

    pub open spec fn infinite(self) -> bool {
        self.magnitude() == INFINITY_BITS
    }

    pub open spec fn finite(self) -> bool {
        self.magnitude() < INFINITY_BITS
    }

    pub open spec fn zero(self) -> bool {
        self.magnitude() == 0
    }

    /// The exponent field, 0 to 2047.
    pub open spec fn exponent_field(self) -> nat {
        (self.magnitude() / HIDDEN_BIT) as nat
    }

    /// The fraction field, below two to the power 52.
    pub open spec fn fraction_field(self) -> nat {
        (self.magnitude() % HIDDEN_BIT) as nat
    }

    /// Neither zero, subnormal, infinite nor NaN.
    pub open spec fn normal(self) -> bool {
        1 <= self.exponent_field() <= 2046
    }

    /// The integer significand of a finite number: the fraction, with the
    /// hidden bit on top unless the number is zero or subnormal.
    pub open spec fn mantissa(self) -> nat {
        if self.exponent_field() == 0 {
            self.fraction_field()
        } else {
            (HIDDEN_BIT + self.fraction_field()) as nat
        }
    }

    /// The power of two that scales the mantissa of a finite number, in units.
    pub open spec fn exponent(self) -> int {
        if self.exponent_field() == 0 {
            0
        } else {
            self.exponent_field() - 1
        }
    }

    /// The size of a finite number in units: `mantissa * 2^exponent`.
    pub open spec fn size(self) -> nat {
        self.mantissa() * vstd::arithmetic::power2::pow2(self.exponent() as nat)
    }

    /// The value of a finite number in units: its size, negated under a
    /// sign bit.
    pub open spec fn units(self) -> int {
        if self.negative() {
            -(self.size() as int)
        } else {
            self.size() as int
        }
    }

    /// The place of a number that is not NaN in the order of all such
    /// numbers: the magnitude pattern, negated under a sign bit. Both zeros
    /// have place 0.
    pub open spec fn ordinal(self) -> int {
        if self.negative() {
            -(self.magnitude() as int)
        } else {
            self.magnitude() as int
        }
    }

    /// Numeric `<`: false as soon as one side is NaN.
    pub open spec fn lt_spec(self, other: Scalar) -> bool {
        !self.nan() && !other.nan() && self.ordinal() < other.ordinal()
    }

    /// Numeric `<=`: false as soon as one side is NaN.
    pub open spec fn le_spec(self, other: Scalar) -> bool {
        !self.nan() && !other.nan() && self.ordinal() <= other.ordinal()
    }

    /// Numeric `==`: false as soon as one side is NaN; the two zeros are equal.
    pub open spec fn equal_spec(self, other: Scalar) -> bool {
        !self.nan() && !other.nan() && self.ordinal() == other.ordinal()
    }

    /// The pattern with the sign bit flipped.
    pub open spec fn neg_spec(self) -> Scalar {
        if self.negative() {
            Scalar { bits: self.magnitude() }
        } else {
            Scalar { bits: (self.bits + SIGN_BIT) as u64 }
        }
    }

    /// The pattern with the sign bit cleared.
    pub open spec fn abs_spec(self) -> Scalar {
        Scalar { bits: self.magnitude() }
    }

    /// NaN for a NaN, else 1 under the sign bit of the number.
    pub open spec fn signum_spec(self) -> Scalar {
        if self.nan() {
            Scalar { bits: NAN_BITS }
        } else if self.negative() {
            Scalar { bits: (ONE_BITS + SIGN_BIT) as u64 }
        } else {
            Scalar { bits: ONE_BITS }
        }
    }

    /// A magnitude pattern under a sign.
    pub open spec fn with_sign(negative: bool, magnitude: u64) -> Scalar
        recommends
            magnitude < SIGN_BIT,
    {
        if negative {
            Scalar { bits: (magnitude + SIGN_BIT) as u64 }
        } else {
            Scalar { bits: magnitude }
        }
    }

    pub fn from_bits(bits: u64) -> (r: Scalar)
        ensures
            r == scalar(bits),
    {
        Scalar { bits }
    }

    pub fn to_bits(self) -> (r: u64)
        ensures
            r == self.bits,
    {
        self.bits
    }

    pub fn is_sign_negative(self) -> (r: bool)
        ensures
            r == self.negative(),
    {
        self.bits >= SIGN_BIT
    }

    pub fn is_sign_positive(self) -> (r: bool)
        ensures
            r == !self.negative(),
    {
        self.bits < SIGN_BIT
    }

    pub fn magnitude_bits(self) -> (r: u64)
        ensures
            r == self.magnitude(),
            r < SIGN_BIT,
    {
        if self.bits >= SIGN_BIT {
            self.bits - SIGN_BIT
        } else {
            self.bits
        }
    }

    pub fn is_nan(self) -> (r: bool)
        ensures
            r == self.nan(),
    {
        self.magnitude_bits() > INFINITY_BITS
    }

    pub fn is_infinite(self) -> (r: bool)
        ensures
            r == self.infinite(),
    {
        self.magnitude_bits() == INFINITY_BITS
    }

    pub fn is_finite(self) -> (r: bool)
        ensures
            r == self.finite(),
    {
        self.magnitude_bits() < INFINITY_BITS
    }

    pub fn is_zero(self) -> (r: bool)
        ensures
            r == self.zero(),
    {
        self.magnitude_bits() == 0
    }

    pub fn is_normal(self) -> (r: bool)
        ensures
            r == self.normal(),
    {
        let m: u64 = self.magnitude_bits();
        HIDDEN_BIT <= m && m < INFINITY_BITS
    }

    /// The mantissa and exponent of a finite number.
    pub fn decompose(self) -> (r: (u64, u64))
        requires
            self.finite(),
        ensures
            r.0 == self.mantissa(),
            r.1 == self.exponent(),
            r.0 < 2 * HIDDEN_BIT,
            r.1 <= 2045,
            r.1 > 0 ==> r.0 >= HIDDEN_BIT,
            r.0 == 0 <==> self.zero(),
    {
        let m: u64 = self.magnitude_bits();
        let field: u64 = m / HIDDEN_BIT;
        let fraction: u64 = m % HIDDEN_BIT;
        if field == 0 {
            (fraction, 0)
        } else {
            (HIDDEN_BIT + fraction, field - 1)
        }
    }

    /// A magnitude pattern under a sign.
    pub fn signed(negative: bool, magnitude: u64) -> (r: Scalar)
        requires
            magnitude < SIGN_BIT,
        ensures
            r == Scalar::with_sign(negative, magnitude),
            r.magnitude() == magnitude,
            r.negative() == negative,
    {
        if negative {
            Scalar { bits: magnitude + SIGN_BIT }
        } else {
            Scalar { bits: magnitude }
        }
    }

    pub fn neg(self) -> (r: Scalar)
        ensures
            r == self.neg_spec(),
    {
        if self.bits >= SIGN_BIT {
            Scalar { bits: self.bits - SIGN_BIT }
        } else {
            Scalar { bits: self.bits + SIGN_BIT }
        }
    }

    pub fn abs(self) -> (r: Scalar)
        ensures
            r == self.abs_spec(),
    {
        Scalar { bits: self.magnitude_bits() }
    }

    pub fn signum(self) -> (r: Scalar)
        ensures
            r == self.signum_spec(),
    {
        if self.is_nan() {
            Scalar { bits: NAN_BITS }
        } else if self.bits >= SIGN_BIT {
            Scalar { bits: ONE_BITS + SIGN_BIT }
        } else {
            Scalar { bits: ONE_BITS }
        }
    }

    pub fn lt(self, other: Scalar) -> (r: bool)
        ensures
            r == self.lt_spec(other),
    {
        if self.is_nan() || other.is_nan() {
            false
        } else {
            let a: u64 = self.magnitude_bits();
            let b: u64 = other.magnitude_bits();
            if self.is_sign_negative() {
                if other.is_sign_negative() {
                    b < a
                } else {
                    a != 0 || b != 0
                }
            } else {
                if other.is_sign_negative() {
                    false
                } else {
                    a < b
                }
            }
        }
    }

    pub fn le(self, other: Scalar) -> (r: bool)
        ensures
            r == self.le_spec(other),
    {
        if self.is_nan() || other.is_nan() {
            false
        } else {
            !other.lt(self)
        }
    }

    pub fn gt(self, other: Scalar) -> (r: bool)
        ensures
            r == other.lt_spec(self),
    {
        other.lt(self)
    }

    pub fn ge(self, other: Scalar) -> (r: bool)
        ensures
            r == other.le_spec(self),
    {
        other.le(self)
    }

    /// Numeric equality: the two zeros are equal, a NaN equals nothing.
    pub fn eq_value(self, other: Scalar) -> (r: bool)
        ensures
            r == self.equal_spec(other),
    {
        if self.is_nan() || other.is_nan() {
            false
        } else {
            let a: u64 = self.magnitude_bits();
            let b: u64 = other.magnitude_bits();
            (a == 0 && b == 0) || self.bits == other.bits
        }
    }
}

} // verus!
