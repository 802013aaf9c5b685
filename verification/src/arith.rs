//! Arithmetic on binary64 patterns: each result is the exact result rounded
//! to nearest, ties to even.

use vstd::prelude::*;
use vstd::arithmetic::power2::{
    pow2, lemma2_to64, lemma2_to64_rest, lemma_pow2_adds, lemma_pow2_unfold, lemma_pow2_pos,
};
use vstd::arithmetic::div_mod::{lemma_fundamental_div_mod, lemma_fundamental_div_mod_converse};
use crate::scalar::{scalar, Scalar, HIDDEN_BIT, INFINITY_BITS, NAN_BITS, ONE_BITS};
use crate::rounding::{
    bit_len, bit_len_u128, round_nearest, round_pack, pow2_u128, lemma_sig_limit,
    lemma_pow2_monotone, lemma_bit_len_unique, lemma_pattern_of_finite, lemma_round_not_above,
};

verus! {

/// The number of `sum * 2^e` units, rounded; an exact zero is negative only
/// where both terms were.
pub open spec fn round_signed(sum: int, e: int, both_negative: bool) -> Scalar {
    if sum == 0 {
        Scalar::with_sign(both_negative, 0)
    } else if sum < 0 {
        Scalar::with_sign(true, round_nearest((-sum) as nat, e, false))
    } else {
        Scalar::with_sign(false, round_nearest(sum as nat, e, false))
    }
}

/// A term that lies 64 or more binary places below a normal number does not
/// move it: the sum and the difference round back to the number itself.
proof fn lemma_far_sum(m: nat, d: nat, n: nat, f: int, subtract: bool)
    requires
        HIDDEN_BIT <= m < 2 * HIDDEN_BIT,
        n < 2 * HIDDEN_BIT,
        d >= 64,
        0 <= f,
        f + d <= 2045,
    ensures
        m * pow2(d) > n,
        !subtract ==> round_nearest(m * pow2(d) + n, f, false) == (f + d) * HIDDEN_BIT + m,
        subtract ==> round_nearest((m * pow2(d) - n) as nat, f, false) == (f + d) * HIDDEN_BIT + m,
{
    let p = pow2(d);
    lemma2_to64();
    lemma2_to64_rest();
    lemma_pow2_monotone(64, d);
    lemma_pow2_adds(52, d);
    lemma_pow2_adds(53, d);
    lemma_pow2_unfold(d);
    let half = pow2((d - 1) as nat);
    lemma_pow2_monotone(63, (d - 1) as nat);
    assert(pow2(52) * p <= m * p && (m + 1) * p <= pow2(53) * p) by (nonlinear_arith)
        requires
            pow2(52) <= m,
            m + 1 <= pow2(53),
            p > 0,
    ;
    assert((m + 1) * p == m * p + p && (m - 1) * p == m * p - p) by (nonlinear_arith);
    if !subtract || n == 0 {
        let x: nat = m * p + n;
        lemma_bit_len_unique(x, 53 + d);
        lemma_fundamental_div_mod_converse(x as int, p as int, m as int, n as int);
        assert(round_nearest(x, f, false) == (f + d) * HIDDEN_BIT + m);
    } else if m > HIDDEN_BIT {
        let x: nat = (m * p - n) as nat;
        assert(pow2(52) * p <= (m - 1) * p) by (nonlinear_arith)
            requires
                pow2(52) <= m - 1,
                p > 0,
        ;
        lemma_bit_len_unique(x, 53 + d);
        lemma_fundamental_div_mod_converse(x as int, p as int, m - 1, p - n);
        assert(round_nearest(x, f, false) == (f + d) * HIDDEN_BIT + m);
    } else {
        let x: nat = (m * p - n) as nat;
        let q = half;
        lemma_pow2_adds(51, d);
        lemma_pow2_unfold((d - 1) as nat);
        lemma_pow2_monotone(62, (d - 2) as nat);
        let top: int = 2 * HIDDEN_BIT - 1;
        assert(m * p == top * q + q && pow2(51) * p + pow2(51) * p == m * p) by (nonlinear_arith)
            requires
                p == 2 * q,
                m == HIDDEN_BIT,
                top == 2 * HIDDEN_BIT - 1,
                pow2(51) * 2 == HIDDEN_BIT,
        ;
        assert(pow2(51) * p >= 2 * HIDDEN_BIT) by (nonlinear_arith)
            requires
                pow2(51) >= 1,
                p >= 2 * HIDDEN_BIT,
        ;
        lemma_bit_len_unique(x, 52 + d);
        lemma_fundamental_div_mod_converse(x as int, q as int, top, q - n);
        assert(round_nearest(x, f, false) == (f + d) * HIDDEN_BIT + m);
    }
}

/// `s` is the integer square root of `n`: the largest integer whose square
/// does not exceed `n`.
pub open spec fn is_isqrt(n: nat, s: nat) -> bool {
    s * s <= n < (s + 1) * (s + 1)
}

/// The integer square root of `n`.
pub open spec fn isqrt(n: nat) -> nat {
    choose|s: nat| is_isqrt(n, s)
}

pub proof fn lemma_isqrt_unique(n: nat, s: nat, t: nat)
    requires
        is_isqrt(n, s),
        is_isqrt(n, t),
    ensures
        s == t,
{
    if s < t {
        assert((s + 1) * (s + 1) <= t * t) by (nonlinear_arith)
            requires
                s + 1 <= t,
        ;
    } else if t < s {
        assert((t + 1) * (t + 1) <= s * s) by (nonlinear_arith)
            requires
                t + 1 <= s,
        ;
    }
}

pub proof fn lemma_isqrt_exists(n: nat)
    ensures
        is_isqrt(n, isqrt(n)),
    decreases n,
{
    if n == 0 {
        let z: nat = 0;
        assert(z * z <= 0 < (z + 1) * (z + 1)) by (nonlinear_arith)
            requires
                z == 0,
        ;
        assert(is_isqrt(0, z));
    } else {
        lemma_isqrt_exists((n - 1) as nat);
        let s = isqrt((n - 1) as nat);
        if (s + 1) * (s + 1) <= n {
            assert((s + 2) * (s + 2) > (s + 1) * (s + 1)) by (nonlinear_arith);
            assert(is_isqrt(n, s + 1));
        } else {
            assert(is_isqrt(n, s));
        }
    }
}

/// The integer square root of a number below two to the power 124.
fn isqrt_u128(n: u128) -> (s: u128)
    requires
        n < 0x1000_0000_0000_0000_0000_0000_0000_0000,
    ensures
        s == isqrt(n as nat),
        is_isqrt(n as nat, s as nat),
        s < 0x4000_0000_0000_0000,
{
    let mut lo: u128 = 0;
    let mut hi: u128 = 0x4000_0000_0000_0000;
    while hi - lo > 1
        invariant
            lo < hi <= 0x4000_0000_0000_0000,
            lo * lo <= n < hi * hi,
        decreases hi - lo,
    {
        let mid: u128 = lo + (hi - lo) / 2;
        assert(mid * mid < 0x1000_0000_0000_0000_0000_0000_0000_0000) by (nonlinear_arith)
            requires
                mid < 0x4000_0000_0000_0000,
        ;
        if mid * mid <= n {
            lo = mid;
        } else {
            hi = mid;
        }
    }
    proof {
        assert(is_isqrt(n as nat, lo as nat));
        lemma_isqrt_unique(n as nat, lo as nat, isqrt(n as nat));
    }
    lo
}

/// A nonzero mantissa scaled by a power of two to exactly 53 digits, and
/// the power.
fn normalize(m: u64) -> (r: (u64, u64))
    requires
        0 < m < 2 * HIDDEN_BIT,
    ensures
        r.1 == 53 - bit_len(m as nat),
        r.1 <= 52,
        r.0 == m * pow2(r.1 as nat),
        HIDDEN_BIT <= r.0 < 2 * HIDDEN_BIT,
{
    let len: u32 = bit_len_u128(m as u128);
    proof {
        lemma2_to64_rest();
        if len > 53 {
            lemma_pow2_monotone(53, (len - 1) as nat);
        }
    }
    let z: u32 = 53 - len;
    let scale: u128 = pow2_u128(z);
    proof {
        lemma_pow2_pos(z as nat);
        lemma_pow2_adds(len as nat, z as nat);
        lemma_pow2_adds((len - 1) as nat, z as nat);
        assert(pow2((len - 1) as nat) * scale <= m * scale < pow2(len as nat) * scale)
            by (nonlinear_arith)
            requires
                pow2((len - 1) as nat) <= m < pow2(len as nat),
                scale > 0,
        ;
    }
    let scaled: u128 = (m as u128) * scale;
    (scaled as u64, z as u64)
}

/// The sum of two finite numbers, the first with the larger exponent.
fn add_ordered(hi: Scalar, lo: Scalar) -> (r: Scalar)
    requires
        hi.finite(),
        lo.finite(),
        hi.exponent() >= lo.exponent(),
    ensures
        r == round_signed(
            hi.signed_mantissa() * pow2((hi.exponent() - lo.exponent()) as nat)
                + lo.signed_mantissa(),
            lo.exponent(),
            hi.negative() && lo.negative(),
        ),
{
    let (m, e) = hi.decompose();
    let (n, f) = lo.decompose();
    let d: u64 = e - f;
    let hi_negative: bool = hi.is_sign_negative();
    let lo_negative: bool = lo.is_sign_negative();
    let ghost p = pow2(d as nat);
    proof {
        lemma_pow2_pos(d as nat);
        assert((-(m as int)) * p == -(m * p)) by (nonlinear_arith);
    }
    if d >= 64 {
        proof {
            lemma_far_sum(m as nat, d as nat, n as nat, f as int, hi_negative != lo_negative);
            lemma_fundamental_div_mod(hi.magnitude() as int, HIDDEN_BIT as int);
            assert(hi.magnitude() == e * HIDDEN_BIT + m);
        }
        hi
    } else {
        let scale: u128 = pow2_u128(d as u32);
        proof {
            lemma_sig_limit();
            lemma2_to64_rest();
            lemma_pow2_monotone(d as nat, 63);
            assert((m as int) * (scale as int) < 0x0010_0000_0000_0000_0000_0000_0000_0000int) by (nonlinear_arith)
                requires
                    0 <= m < 0x20_0000_0000_0000,
                    0 < scale <= 0x8000_0000_0000_0000,
            ;
        }
        let x: u128 = (m as u128) * scale;
        if hi_negative == lo_negative {
            Scalar::signed(hi_negative, round_pack(x + n as u128, f as i64, false))
        } else if x > n as u128 {
            Scalar::signed(hi_negative, round_pack(x - n as u128, f as i64, false))
        } else if x < n as u128 {
            Scalar::signed(lo_negative, round_pack(n as u128 - x, f as i64, false))
        } else {
            Scalar::signed(false, 0)
        }
    }
}

impl Scalar {
    /// The mantissa of a finite number under its sign.
    pub open spec fn signed_mantissa(self) -> int {
        if self.negative() {
            -(self.mantissa() as int)
        } else {
            self.mantissa() as int
        }
    }

    /// The sum. NaN for a NaN term and for two infinities of opposite sign;
    /// an infinity plus anything else is that infinity.
    ///
    /// Two finite terms are whole multiples of `2^e` units, `e` the smaller
    /// of their exponents; the integer sum of the two multiples is exact.
    #[verifier::opaque]
    pub open spec fn add_spec(self, rhs: Scalar) -> Scalar {
        if self.nan() || rhs.nan() {
            Scalar { bits: NAN_BITS }
        } else if self.infinite() {
            if rhs.infinite() && self.negative() != rhs.negative() {
                Scalar { bits: NAN_BITS }
            } else {
                self
            }
        } else if rhs.infinite() {
            rhs
        } else {
            let e = if self.exponent() <= rhs.exponent() {
                self.exponent()
            } else {
                rhs.exponent()
            };
            round_signed(
                self.signed_mantissa() * pow2((self.exponent() - e) as nat)
                    + rhs.signed_mantissa() * pow2((rhs.exponent() - e) as nat),
                e,
                self.negative() && rhs.negative(),
            )
        }
    }

    /// The difference: the sum with the second term negated.
    pub open spec fn sub_spec(self, rhs: Scalar) -> Scalar {
        self.add_spec(rhs.neg_spec())
    }

    pub fn add(self, rhs: Scalar) -> (r: Scalar)
        ensures
            r == self.add_spec(rhs),
    {
        proof {
            reveal(Scalar::add_spec);
        }
        if self.is_nan() || rhs.is_nan() {
            Scalar { bits: NAN_BITS }
        } else if self.is_infinite() {
            if rhs.is_infinite() && self.is_sign_negative() != rhs.is_sign_negative() {
                Scalar { bits: NAN_BITS }
            } else {
                self
            }
        } else if rhs.is_infinite() {
            rhs
        } else {
            proof {
                lemma2_to64();
                let a = self.signed_mantissa();
                let b = rhs.signed_mantissa();
                assert(a * pow2(0) == a && b * pow2(0) == b) by (nonlinear_arith)
                    requires
                        pow2(0) == 1,
                ;
            }
            let (_, e) = self.decompose();
            let (_, f) = rhs.decompose();
            if e >= f {
                add_ordered(self, rhs)
            } else {
                add_ordered(rhs, self)
            }
        }
    }

    pub fn sub(self, rhs: Scalar) -> (r: Scalar)
        ensures
            r == self.sub_spec(rhs),
    {
        self.add(rhs.neg())
    }

    /// The power of two that brings the mantissa of a finite number other
    /// than zero to exactly 53 digits.
    pub open spec fn normal_shift(self) -> nat {
        (53 - bit_len(self.mantissa())) as nat
    }

    /// The mantissa of a finite number other than zero, scaled to 53 digits.
    pub open spec fn normal_mantissa(self) -> nat {
        self.mantissa() * pow2(self.normal_shift())
    }

    /// The exponent that goes with `normal_mantissa`.
    pub open spec fn normal_exponent(self) -> int {
        self.exponent() - self.normal_shift()
    }

    /// The quotient. NaN for a NaN operand, for zero by zero and for
    /// infinity by infinity; else the sign is negative where exactly one
    /// operand is, a finite number by zero is an infinity, and anything
    /// finite by an infinity is zero.
    ///
    /// For finite operands other than zero, the quotient of the two
    /// 53-digit mantissas is taken to 64 binary places; what the integer
    /// division leaves over makes the result inexact.
    #[verifier::opaque]
    pub open spec fn div_spec(self, rhs: Scalar) -> Scalar {
        let negative = self.negative() != rhs.negative();
        if self.nan() || rhs.nan() {
            Scalar { bits: NAN_BITS }
        } else if self.infinite() {
            if rhs.infinite() {
                Scalar { bits: NAN_BITS }
            } else {
                Scalar::with_sign(negative, INFINITY_BITS)
            }
        } else if rhs.infinite() {
            Scalar::with_sign(negative, 0)
        } else if rhs.zero() {
            if self.zero() {
                Scalar { bits: NAN_BITS }
            } else {
                Scalar::with_sign(negative, INFINITY_BITS)
            }
        } else if self.zero() {
            Scalar::with_sign(negative, 0)
        } else {
            let num = self.normal_mantissa() * pow2(64);
            let den = rhs.normal_mantissa();
            Scalar::with_sign(
                negative,
                round_nearest(
                    num / den,
                    self.normal_exponent() - rhs.normal_exponent() - 64 + 1074,
                    num % den != 0,
                ),
            )
        }
    }

    /// The square root. NaN for a NaN and for a negative number other than
    /// zero; a zero and the positive infinity are their own roots.
    ///
    /// A positive finite number of `m * 2^t` units squared, `m` of 53 or 54
    /// digits and `t` even, has the root `sqrt(m * 2^70) * 2^((t - 70) / 2)`
    /// units; the integer square root stands for the real one, and a
    /// radicand that is no perfect square makes the result inexact.
    #[verifier::opaque]
    pub open spec fn sqrt_spec(self) -> Scalar {
        if self.nan() {
            Scalar { bits: NAN_BITS }
        } else if self.zero() {
            self
        } else if self.negative() {
            Scalar { bits: NAN_BITS }
        } else if self.infinite() {
            self
        } else {
            let t = self.normal_exponent() + 1074;
            let m = if t % 2 == 0 {
                self.normal_mantissa()
            } else {
                2 * self.normal_mantissa()
            };
            let t_even = if t % 2 == 0 {
                t
            } else {
                t - 1
            };
            let n = m * pow2(70);
            let s = isqrt(n);
            Scalar { bits: round_nearest(s, (t_even - 70) / 2, s * s != n) }
        }
    }

    pub fn div(self, rhs: Scalar) -> (r: Scalar)
        ensures
            r == self.div_spec(rhs),
    {
        proof {
            reveal(Scalar::div_spec);
        }
        let negative: bool = self.is_sign_negative() != rhs.is_sign_negative();
        if self.is_nan() || rhs.is_nan() {
            Scalar { bits: NAN_BITS }
        } else if self.is_infinite() {
            if rhs.is_infinite() {
                Scalar { bits: NAN_BITS }
            } else {
                Scalar::signed(negative, INFINITY_BITS)
            }
        } else if rhs.is_infinite() {
            Scalar::signed(negative, 0)
        } else if rhs.is_zero() {
            if self.is_zero() {
                Scalar { bits: NAN_BITS }
            } else {
                Scalar::signed(negative, INFINITY_BITS)
            }
        } else if self.is_zero() {
            Scalar::signed(negative, 0)
        } else {
            let (m, e) = self.decompose();
            let (n, f) = rhs.decompose();
            let (m, z) = normalize(m);
            let (n, y) = normalize(n);
            proof {
                lemma2_to64();
                lemma_sig_limit();
            }
            let num: u128 = (m as u128) * 0x1_0000_0000_0000_0000u128;
            let q: u128 = num / (n as u128);
            let rem: u128 = num % (n as u128);
            let exponent: i64 = (e as i64 - z as i64) - (f as i64 - y as i64) - 64 + 1074;
            Scalar::signed(negative, round_pack(q, exponent, rem != 0))
        }
    }

    pub fn sqrt(self) -> (r: Scalar)
        ensures
            r == self.sqrt_spec(),
    {
        proof {
            reveal(Scalar::sqrt_spec);
        }
        if self.is_nan() {
            Scalar { bits: NAN_BITS }
        } else if self.is_zero() {
            self
        } else if self.is_sign_negative() {
            Scalar { bits: NAN_BITS }
        } else if self.is_infinite() {
            self
        } else {
            let (m, e) = self.decompose();
            let (m, z) = normalize(m);
            let t: u64 = e + 1074 - z;
            let odd: bool = t % 2 == 1;
            let m2: u64 = if odd { 2 * m } else { m };
            let t_even: u64 = if odd { t - 1 } else { t };
            proof {
                lemma2_to64();
                lemma2_to64_rest();
                lemma_pow2_adds(64, 6);
                lemma_sig_limit();
            }
            let n: u128 = (m2 as u128) * 0x40_0000_0000_0000_0000u128;
            let s: u128 = isqrt_u128(n);
            assert(s * s < 0x1000_0000_0000_0000_0000_0000_0000_0000) by (nonlinear_arith)
                requires
                    s < 0x4000_0000_0000_0000,
            ;
            let inexact: bool = s * s != n;
            let half_exponent: u64 = (t_even - 70) / 2;
            Scalar { bits: round_pack(s, half_exponent as i64, inexact) }
        }
    }

    /// The product. NaN for a NaN factor and for zero times infinity; else
    /// the sign is negative where exactly one factor is.
    ///
    /// Two finite factors of `m * 2^e` and `n * 2^f` units have the exact
    /// product `m * n * 2^(e + f - 1074)` units.
    #[verifier::opaque]
    pub open spec fn mul_spec(self, rhs: Scalar) -> Scalar {
        let negative = self.negative() != rhs.negative();
        if self.nan() || rhs.nan() {
            Scalar { bits: NAN_BITS }
        } else if self.infinite() || rhs.infinite() {
            if self.zero() || rhs.zero() {
                Scalar { bits: NAN_BITS }
            } else {
                Scalar::with_sign(negative, INFINITY_BITS)
            }
        } else if self.zero() || rhs.zero() {
            Scalar::with_sign(negative, 0)
        } else {
            Scalar::with_sign(
                negative,
                round_nearest(
                    self.mantissa() * rhs.mantissa(),
                    self.exponent() + rhs.exponent() - 1074,
                    false,
                ),
            )
        }
    }

    pub fn mul(self, rhs: Scalar) -> (r: Scalar)
        ensures
            r == self.mul_spec(rhs),
    {
        proof {
            reveal(Scalar::mul_spec);
        }
        let negative: bool = self.is_sign_negative() != rhs.is_sign_negative();
        if self.is_nan() || rhs.is_nan() {
            Scalar { bits: NAN_BITS }
        } else if self.is_infinite() || rhs.is_infinite() {
            if self.is_zero() || rhs.is_zero() {
                Scalar { bits: NAN_BITS }
            } else {
                Scalar::signed(negative, INFINITY_BITS)
            }
        } else if self.is_zero() || rhs.is_zero() {
            Scalar::signed(negative, 0)
        } else {
            let (m, e) = self.decompose();
            let (n, f) = rhs.decompose();
            proof {
                lemma_sig_limit();
                assert((m as int) * (n as int) < 0x0400_0000_0000_0000_0000_0000_0000int) by (nonlinear_arith)
                    requires
                        0 <= m < 0x20_0000_0000_0000,
                        0 <= n < 0x20_0000_0000_0000,
                ;
            }
            let product: u128 = (m as u128) * (n as u128);
            let magnitude: u64 = round_pack(product, e as i64 + f as i64 - 1074, false);
            Scalar::signed(negative, magnitude)
        }
    }
}

/// A share of a quantity is no more than the quantity: a finite number that
/// is not negative, times a factor from 0 to 1, is at most the number, and
/// again finite and not negative. Rounding cannot lift the product above the
/// number, which is itself of the format.
pub proof fn lemma_mul_by_share(c: Scalar, a: Scalar)
    requires
        c.finite(),
        scalar(0).le_spec(c),
        scalar(0).le_spec(a),
        a.le_spec(scalar(ONE_BITS)),
    ensures
        c.mul_spec(a).le_spec(c),
        scalar(0).le_spec(c.mul_spec(a)),
        c.mul_spec(a).finite(),
{
    reveal(Scalar::mul_spec);
    if !(c.zero() || a.zero()) {
        lemma2_to64();
        lemma2_to64_rest();
        lemma_pattern_of_finite(c);
        lemma_pattern_of_finite(a);
        lemma_pattern_of_finite(scalar(ONE_BITS));
        let m = c.mantissa();
        let n = a.mantissa();
        let d = (1074 - a.exponent()) as nat;
        if a.exponent() <= 1021 {
            lemma_pow2_monotone(53, d);
        }
        assert(m * n <= m * pow2(d)) by (nonlinear_arith)
            requires
                n <= pow2(d),
        ;
        lemma_round_not_above(m * n, c.exponent() + a.exponent() - 1074, false, m, c.exponent());
    }
}

} // verus!
