//! How far a rounded result lies from the exact one.
//!
//! Sizes are whole numbers of units, so every bound here is a statement
//! about integers: a relative error of `2^-53` between `c` and `x` reads
//! `|c - x| * 2^53 <= x`.

use vstd::prelude::*;
use vstd::arithmetic::power2::{
    pow2, lemma2_to64, lemma2_to64_rest, lemma_pow2_adds, lemma_pow2_pos, lemma_pow2_unfold,
};
use crate::scalar::{Scalar, HIDDEN_BIT};
use crate::arith::{round_signed, isqrt, is_isqrt, lemma_isqrt_exists};
use crate::rounding::{
    assemble, kept, round_nearest, round_shift, lemma_assemble_value, lemma_kept_is_near,
};

verus! {

/// `a` and `b` differ by at most `bound`.
pub open spec fn within(a: nat, b: nat, bound: nat) -> bool {
    a <= b + bound && b <= a + bound
}

/// The size of a rounded value: `kept * 2^(e + shift)` units, where the
/// result is finite.
proof fn lemma_size_of_rounded(sig: nat, e: int, sticky: bool, negative: bool)
    requires
        sig > 0,
        round_nearest(sig, e, sticky) < crate::scalar::INFINITY_BITS,
    ensures
        ({
            let c = Scalar::with_sign(negative, round_nearest(sig, e, sticky));
            &&& c.finite()
            &&& c.negative() == negative
            &&& e + round_shift(sig, e) >= 0
            &&& c.size() == kept(sig, e, sticky) * pow2((e + round_shift(sig, e)) as nat)
        }),
{
    lemma_kept_is_near(sig, e, sticky);
    lemma_assemble_value(kept(sig, e, sticky), e + round_shift(sig, e));
}

/// A value that rounds to infinity is large: the power of two of its last
/// place is at least 2045, and the mantissa kept has all its 53 digits.
proof fn lemma_overflow_is_large(sig: nat, e: int, sticky: bool)
    requires
        sig > 0,
        round_nearest(sig, e, sticky) >= crate::scalar::INFINITY_BITS,
    ensures
        e + round_shift(sig, e) >= 2045,
        kept(sig, e, sticky) >= HIDDEN_BIT,
{
    lemma_kept_is_near(sig, e, sticky);
}

/// The error of a product: a finite product lies within `2^-53` of the
/// exact one, relatively, or within half a unit where it is subnormal. In
/// units times `2^1074`, that is `exact / 2^53 + 2^1073` at most.
pub proof fn lemma_mul_error(a: Scalar, b: Scalar)
    requires
        a.finite(),
        b.finite(),
    ensures
        !a.mul_spec(b).nan(),
        a.mul_spec(b).negative() == (a.negative() != b.negative()),
        a.mul_spec(b).finite() || a.size() * b.size() >= pow2(3170),
        a.mul_spec(b).finite() ==> within(
            a.mul_spec(b).size() * pow2(1074) * pow2(53),
            a.size() * b.size() * pow2(53),
            a.size() * b.size() + pow2(1126),
        ),
{
    reveal(Scalar::mul_spec);
    let c = a.mul_spec(b);
    let negative = a.negative() != b.negative();
    lemma_pow2_pos(1126);
    lemma_pow2_pos(53);
    lemma_pow2_pos(1074);
    if a.zero() || b.zero() {
        assert(c.size() == 0) by (nonlinear_arith)
            requires
                c.mantissa() == 0,
                c.size() == c.mantissa() * pow2(c.exponent() as nat),
        ;
        assert(a.size() * b.size() == 0) by (nonlinear_arith)
            requires
                a.mantissa() == 0 || b.mantissa() == 0,
                a.size() == a.mantissa() * pow2(a.exponent() as nat),
                b.size() == b.mantissa() * pow2(b.exponent() as nat),
        ;
        assert(c.size() * pow2(1074) * pow2(53) == 0) by (nonlinear_arith)
            requires
                c.size() == 0,
        ;
        assert(a.size() * b.size() * pow2(53) == 0) by (nonlinear_arith)
            requires
                a.size() * b.size() == 0,
        ;
    } else {
        let m = a.mantissa();
        let n = b.mantissa();
        let ea = a.exponent() as nat;
        let eb = b.exponent() as nat;
        let sig = m * n;
        let e = ea + eb - 1074;
        assert(sig > 0) by (nonlinear_arith)
            requires
                sig == m * n,
                m > 0,
                n > 0,
        ;
        lemma_kept_is_near(sig, e, false);
        let sh = round_shift(sig, e);
        let k = (e + sh) as nat;
        let kept_m = kept(sig, e, false);
        let g = pow2(ea + eb);
        lemma_pow2_adds(ea, eb);
        lemma_pow2_pos(ea + eb);
        let exact = a.size() * b.size();
        assert(exact == sig * g) by (nonlinear_arith)
            requires
                exact == (m * pow2(ea)) * (n * pow2(eb)),
                sig == m * n,
                g == pow2(ea) * pow2(eb),
        ;
        let w = pow2(1074);
        let t = pow2(53);
        if round_nearest(sig, e, false) >= crate::scalar::INFINITY_BITS {
            lemma_overflow_is_large(sig, e, false);
            lemma2_to64_rest();
            lemma_pow2_adds(51, 2045);
            lemma_pow2_adds(2096, 1074);
            crate::rounding::lemma_pow2_monotone(2045, k);
            lemma_pow2_adds(k, 1074);
            if sh <= 0 {
                let up = (-sh) as nat;
                lemma_pow2_adds(up, k);
                lemma_pow2_adds(up + k, 1074);
                assert(exact >= pow2(3170)) by (nonlinear_arith)
                    requires
                        exact == sig * g,
                        kept_m == sig * pow2(up),
                        pow2(up) * pow2(k) * w == g,
                        kept_m >= 2 * pow2(51),
                        pow2(k) >= pow2(2045),
                        pow2(3170) == pow2(51) * pow2(2045) * w,
                        w > 0,
                        pow2(51) > 0,
                ;
            } else {
                let p = pow2(sh as nat);
                let half = pow2((sh - 1) as nat);
                lemma_pow2_adds(sh as nat, ea + eb);
                lemma_pow2_pos((sh - 1) as nat);
                assert(exact >= pow2(3170)) by (nonlinear_arith)
                    requires
                        exact == sig * g,
                        kept_m * p - half <= sig,
                        p == 2 * half,
                        half > 0,
                        kept_m >= 2 * pow2(51),
                        pow2(k) * w == p * g,
                        pow2(k) >= pow2(2045),
                        pow2(3170) == pow2(51) * pow2(2045) * w,
                        w > 0,
                        g > 0,
                        pow2(51) > 0,
                ;
            }
        } else if sh <= 0 {
            lemma_size_of_rounded(sig, e, false, negative);
            let up = (-sh) as nat;
            lemma_pow2_adds(up, k);
            lemma_pow2_adds(up + k, 1074);
            assert(c.size() * w == exact) by (nonlinear_arith)
                requires
                    c.size() == (sig * pow2(up)) * pow2(k),
                    pow2(up) * pow2(k) * w == g,
                    exact == sig * g,
            ;
            assert(c.size() * w * t == exact * t) by (nonlinear_arith)
                requires
                    c.size() * w == exact,
            ;
        } else {
            lemma_size_of_rounded(sig, e, false, negative);
            let p = pow2(sh as nat);
            let half = pow2((sh - 1) as nat);
            lemma_pow2_adds(sh as nat, ea + eb);
            lemma_pow2_adds(k, 1074);
            let d = kept_m * p - sig;
            assert(c.size() * w - exact == d * g) by (nonlinear_arith)
                requires
                    c.size() == kept_m * pow2(k),
                    pow2(k) * w == p * g,
                    exact == sig * g,
                    d == kept_m * p - sig,
            ;
            if e + sh > 0 {
                lemma2_to64_rest();
                assert(within(c.size() * w * t, exact * t, exact)) by (nonlinear_arith)
                    requires
                        c.size() * w - exact == d * g,
                        -half <= d <= half,
                        half * t <= sig,
                        exact == sig * g,
                        g > 0,
                        t > 0,
                ;
            } else {
                lemma_pow2_adds((sh - 1) as nat, ea + eb);
                lemma_pow2_adds(1073, 53);
                assert(within(c.size() * w * t, exact * t, pow2(1126))) by (nonlinear_arith)
                    requires
                        c.size() * w - exact == d * g,
                        -half <= d <= half,
                        half * g == pow2(1073),
                        pow2(1073) * t == pow2(1126),
                        g > 0,
                        t > 0,
                ;
            }
        }
    }
}

/// The error of a sum of two numbers that are not negative: a finite sum
/// lies within `2^-53` of the exact one, relatively. (A sum is exact where
/// it is subnormal.)
pub proof fn lemma_add_error(a: Scalar, b: Scalar)
    requires
        a.finite(),
        b.finite(),
        !a.negative(),
        !b.negative(),
    ensures
        !a.add_spec(b).nan(),
        !a.add_spec(b).negative(),
        a.add_spec(b).finite() || a.size() + b.size() >= pow2(2096),
        a.add_spec(b).finite() ==> within(
            a.add_spec(b).size() * pow2(53),
            (a.size() + b.size()) * pow2(53),
            a.size() + b.size(),
        ),
{
    reveal(Scalar::add_spec);
    let c = a.add_spec(b);
    let ea = a.exponent();
    let eb = b.exponent();
    let e = if ea <= eb { ea } else { eb };
    let da = (ea - e) as nat;
    let db = (eb - e) as nat;
    let sum = a.mantissa() * pow2(da) + b.mantissa() * pow2(db);
    let total = a.size() + b.size();
    let t = pow2(53);
    lemma_pow2_pos(53);
    lemma_pow2_pos(e as nat);
    lemma_pow2_adds(da, e as nat);
    lemma_pow2_adds(db, e as nat);
    assert(total == sum * pow2(e as nat)) by (nonlinear_arith)
        requires
            total == a.mantissa() * pow2(ea as nat) + b.mantissa() * pow2(eb as nat),
            sum == a.mantissa() * pow2(da) + b.mantissa() * pow2(db),
            pow2(ea as nat) == pow2(da) * pow2(e as nat),
            pow2(eb as nat) == pow2(db) * pow2(e as nat),
    ;
    assert(c == round_signed(sum as int, e, false));
    if sum == 0 {
        assert(c.size() == 0) by (nonlinear_arith)
            requires
                c.mantissa() == 0,
                c.size() == c.mantissa() * pow2(c.exponent() as nat),
        ;
        assert(total == 0) by (nonlinear_arith)
            requires
                total == sum * pow2(e as nat),
                sum == 0,
        ;
        assert(c.size() * t == 0 && total * t == 0) by (nonlinear_arith)
            requires
                c.size() == 0,
                total == 0,
        ;
    } else {
        lemma_kept_is_near(sum, e, false);
        let sh = round_shift(sum, e);
        let k = (e + sh) as nat;
        let kept_m = kept(sum, e, false);
        if round_nearest(sum, e, false) >= crate::scalar::INFINITY_BITS {
            lemma_overflow_is_large(sum, e, false);
            lemma2_to64_rest();
            lemma_pow2_adds(51, 2045);
            crate::rounding::lemma_pow2_monotone(2045, k);
            let g = pow2(e as nat);
            if sh <= 0 {
                let up = (-sh) as nat;
                lemma_pow2_adds(up, k);
                assert(total >= pow2(2096)) by (nonlinear_arith)
                    requires
                        total == sum * g,
                        kept_m == sum * pow2(up),
                        pow2(up) * pow2(k) == g,
                        kept_m >= 2 * pow2(51),
                        pow2(k) >= pow2(2045),
                        pow2(2096) == pow2(51) * pow2(2045),
                        pow2(51) > 0,
                ;
            } else {
                let p = pow2(sh as nat);
                let half = pow2((sh - 1) as nat);
                lemma_pow2_adds(sh as nat, e as nat);
                lemma_pow2_pos((sh - 1) as nat);
                assert(total >= pow2(2096)) by (nonlinear_arith)
                    requires
                        total == sum * g,
                        kept_m * p - half <= sum,
                        p == 2 * half,
                        half > 0,
                        kept_m >= 2 * pow2(51),
                        pow2(k) == p * g,
                        pow2(k) >= pow2(2045),
                        pow2(2096) == pow2(51) * pow2(2045),
                        g > 0,
                        pow2(51) > 0,
                ;
            }
        } else if sh <= 0 {
            lemma_size_of_rounded(sum, e, false, false);
            let up = (-sh) as nat;
            lemma_pow2_adds(up, k);
            assert(c.size() == total) by (nonlinear_arith)
                requires
                    c.size() == (sum * pow2(up)) * pow2(k),
                    pow2(up) * pow2(k) == pow2(e as nat),
                    total == sum * pow2(e as nat),
            ;
            assert(c.size() * t == total * t) by (nonlinear_arith)
                requires
                    c.size() == total,
            ;
        } else {
            lemma_size_of_rounded(sum, e, false, false);
            let p = pow2(sh as nat);
            let half = pow2((sh - 1) as nat);
            let g = pow2(e as nat);
            lemma_pow2_adds(sh as nat, e as nat);
            lemma2_to64_rest();
            let d = kept_m * p - sum;
            assert(within(c.size() * t, total * t, total)) by (nonlinear_arith)
                requires
                    c.size() == kept_m * (p * g),
                    total == sum * g,
                    d == kept_m * p - sum,
                    -half <= d <= half,
                    half * t <= sum,
                    g > 0,
                    t > 0,
            ;
        }
    }
}

/// The 53-digit mantissa of a finite number other than zero, and how it
/// stands for the size of the number.
pub proof fn lemma_normal_mantissa(x: Scalar)
    requires
        x.finite(),
        !x.zero(),
    ensures
        HIDDEN_BIT <= x.normal_mantissa() < 2 * HIDDEN_BIT,
        x.normal_shift() <= 52,
        x.normal_mantissa() == x.mantissa() * pow2(x.normal_shift()),
        x.size() * pow2(x.normal_shift()) == x.normal_mantissa() * pow2(x.exponent() as nat),
{
    let m = x.mantissa();
    let len = crate::rounding::bit_len(m);
    crate::rounding::lemma_bit_len_bounds(m);
    lemma2_to64_rest();
    if len > 53 {
        crate::rounding::lemma_pow2_monotone(53, (len - 1) as nat);
    }
    let z = x.normal_shift();
    lemma_pow2_pos(z);
    lemma_pow2_adds(len, z);
    lemma_pow2_adds((len - 1) as nat, z);
    assert(pow2((len - 1) as nat) * pow2(z) <= m * pow2(z) < pow2(len) * pow2(z)) by (nonlinear_arith)
        requires
            pow2((len - 1) as nat) <= m < pow2(len),
            pow2(z) > 0,
    ;
    assert(x.size() * pow2(z) == m * pow2(z) * pow2(x.exponent() as nat)) by (nonlinear_arith)
        requires
            x.size() == m * pow2(x.exponent() as nat),
    ;
}

/// The error of a quotient: a finite quotient `c` of `a` by `b` lies
/// within `2^-53` of the exact one, relatively, or within half a unit where
/// it is subnormal. With both sides times the size of `b`, that is: `c * b`
/// differs from `a * 2^1074` by `a * 2^1074 / 2^53 + b / 2` at most.
pub proof fn lemma_div_error(a: Scalar, b: Scalar)
    requires
        a.finite(),
        b.finite(),
        !b.zero(),
    ensures
        !a.div_spec(b).nan(),
        a.div_spec(b).negative() == (a.negative() != b.negative()),
        a.div_spec(b).finite() || a.size() * pow2(1074) >= b.size() * pow2(2096),
        a.div_spec(b).finite() ==> within(
            a.div_spec(b).size() * b.size() * pow2(53),
            a.size() * pow2(1074) * pow2(53),
            a.size() * pow2(1074) + b.size() * pow2(52),
        ),
{
    reveal(Scalar::div_spec);
    let c = a.div_spec(b);
    let negative = a.negative() != b.negative();
    let w = pow2(1074);
    let t = pow2(53);
    lemma_pow2_pos(53);
    lemma_pow2_pos(52);
    lemma_pow2_pos(1074);
    if a.zero() {
        assert(c.size() == 0 && a.size() == 0) by (nonlinear_arith)
            requires
                c.mantissa() == 0,
                a.mantissa() == 0,
                c.size() == c.mantissa() * pow2(c.exponent() as nat),
                a.size() == a.mantissa() * pow2(a.exponent() as nat),
        ;
        assert(c.size() * b.size() * t == 0 && a.size() * w * t == 0) by (nonlinear_arith)
            requires
                c.size() == 0,
                a.size() == 0,
        ;
    } else {
        let ea = a.exponent() as nat;
        let eb = b.exponent() as nat;
        let za = a.normal_shift();
        let zb = b.normal_shift();
        let na = a.normal_mantissa();
        let nb = b.normal_mantissa();
        lemma_normal_mantissa(a);
        lemma_normal_mantissa(b);
        lemma2_to64();
        lemma2_to64_rest();
        lemma_pow2_unfold(65);
        let num = na * pow2(64);
        let q = num / nb;
        let rem = num % nb;
        let sticky = rem != 0;
        let e = (ea - za) - (eb - zb) - 64 + 1074;
        vstd::arithmetic::div_mod::lemma_fundamental_div_mod(num as int, nb as int);
        vstd::arithmetic::div_mod::lemma_mod_bound(num as int, nb as int);
        // the quotient has 64 or 65 digits
        assert(num >= nb * pow2(63) && num < nb * pow2(65)) by (nonlinear_arith)
            requires
                num == na * pow2(64),
                pow2(64) == 2 * pow2(63),
                pow2(65) == 2 * pow2(64),
                pow2(63) > 0,
                HIDDEN_BIT <= na < 2 * HIDDEN_BIT,
                HIDDEN_BIT <= nb < 2 * HIDDEN_BIT,
        ;
        vstd::arithmetic::div_mod::lemma_div_is_ordered(
            (nb * pow2(63)) as int,
            num as int,
            nb as int,
        );
        vstd::arithmetic::div_mod::lemma_div_multiples_vanish(pow2(63) as int, nb as int);
        vstd::arithmetic::div_mod::lemma_multiply_divide_lt(num as int, nb as int, pow2(65) as int);
        assert(pow2(63) <= q < pow2(65));
        if q < pow2(64) {
            crate::rounding::lemma_bit_len_unique(q, 64);
        } else {
            crate::rounding::lemma_bit_len_unique(q, 65);
        }
        lemma_kept_is_near(q, e, sticky);
        let sh = round_shift(q, e);
        assert(sh > 0);
        let overflows = round_nearest(q, e, sticky) >= crate::scalar::INFINITY_BITS;
        if overflows {
            lemma_overflow_is_large(q, e, sticky);
        } else {
            lemma_size_of_rounded(q, e, sticky, negative);
        }
        let k = (e + sh) as nat;
        let n = kept(q, e, sticky);
        let p = pow2(sh as nat);
        let half = pow2((sh - 1) as nat);
        let e1 = n * p * nb;
        // the exact quotient times the divisor, against the kept one
        assert(e1 <= num + half * nb && num <= e1 + half * nb) by (nonlinear_arith)
            requires
                e1 == n * p * nb,
                num == nb * q + rem,
                0 <= rem < nb,
                n * p - half <= q,
                q + (if rem != 0 { 1int } else { 0int }) <= n * p + half,
        ;
        // both sides on one scale
        let f = pow2(ea + zb + 1074);
        let z = pow2(za + zb + 64);
        lemma_pow2_pos(ea + zb + 1074);
        lemma_pow2_pos(za + zb + 64);
        lemma_pow2_adds(k, eb);
        lemma_pow2_adds(k + eb, za);
        lemma_pow2_adds(k + eb + za, 64);
        lemma_pow2_adds(sh as nat, ea + zb + 1074);
        lemma_pow2_adds(za, zb);
        lemma_pow2_adds(za + zb, 64);
        lemma_pow2_adds(ea, zb);
        lemma_pow2_adds(ea + zb, 1074);
        let cs = c.size();
        let bs = b.size();
        let asz = a.size();
        assert(asz * w * z == num * f) by {
            assert(asz * pow2(za) == na * pow2(ea));
            assert(asz * w * z == (na * pow2(ea)) * w * (pow2(zb) * pow2(64))) by (nonlinear_arith)
                requires
                    asz * pow2(za) == na * pow2(ea),
                    z == pow2(za) * pow2(zb) * pow2(64),
            ;
            assert((na * pow2(ea)) * w * (pow2(zb) * pow2(64)) == num * f) by (nonlinear_arith)
                requires
                    num == na * pow2(64),
                    f == pow2(ea) * pow2(zb) * w,
            ;
        }
        if overflows {
            lemma_pow2_adds(51, 2045);
            crate::rounding::lemma_pow2_monotone(2045, k);
            lemma_pow2_pos((sh - 1) as nat);
            assert(bs * pow2(zb) == nb * pow2(eb));
            let r = pow2(za) * pow2(64);
            let pk = pow2(k);
            let pe = pow2(eb);
            assert(pk * pe * r == p * f) by (nonlinear_arith)
                requires
                    pk * pe * pow2(za) * pow2(64) == p * f,
                    r == pow2(za) * pow2(64),
            ;
            assert(z == pow2(zb) * r) by (nonlinear_arith)
                requires
                    z == pow2(za) * pow2(zb) * pow2(64),
                    r == pow2(za) * pow2(64),
            ;
            assert(p * nb * f == nb * (p * f)) by (nonlinear_arith);
            assert(nb * (pk * pe * r) == (nb * pe) * (pk * r)) by (nonlinear_arith);
            assert((bs * pow2(zb)) * (pk * r) == bs * (pow2(zb) * r) * pk) by (nonlinear_arith);
            assert(p * nb * f == bs * z * pow2(k));
            let low = pow2(51);
            assert(n * p - half >= low * p) by (nonlinear_arith)
                requires
                    n >= 2 * low,
                    p == 2 * half,
                    half > 0,
                    low > 0,
            ;
            assert(num >= low * p * nb) by (nonlinear_arith)
                requires
                    num + half * nb >= e1,
                    e1 == n * p * nb,
                    n * p - half >= low * p,
                    nb > 0,
            ;
            assert(num * f >= low * (p * nb * f)) by (nonlinear_arith)
                requires
                    num >= low * p * nb,
                    f > 0,
            ;
            assert(asz * w * z >= (low * pow2(k) * bs) * z) by (nonlinear_arith)
                requires
                    asz * w * z == num * f,
                    num * f >= low * (p * nb * f),
                    p * nb * f == bs * z * pow2(k),
            ;
            assert(asz * w >= low * pow2(k) * bs) by (nonlinear_arith)
                requires
                    asz * w * z >= (low * pow2(k) * bs) * z,
                    z > 0,
            ;
            assert(low * pow2(k) * bs >= bs * pow2(2096)) by (nonlinear_arith)
                requires
                    pow2(k) >= pow2(2045),
                    pow2(2096) == low * pow2(2045),
                    low > 0,
                    bs >= 0,
            ;
            return ;
        }
        assert(cs * bs * z == e1 * f) by {
            let x3 = pow2(k) * pow2(eb) * pow2(za) * pow2(64);
            assert(x3 == p * f);
            assert(bs * pow2(zb) == nb * pow2(eb));
            assert(cs * bs * z == n * (nb * pow2(eb)) * (pow2(k) * pow2(za) * pow2(64)))
                by (nonlinear_arith)
                requires
                    cs == n * pow2(k),
                    bs * pow2(zb) == nb * pow2(eb),
                    z == pow2(za) * pow2(zb) * pow2(64),
            ;
            assert(n * (nb * pow2(eb)) * (pow2(k) * pow2(za) * pow2(64)) == e1 * f)
                by (nonlinear_arith)
                requires
                    e1 == n * p * nb,
                    pow2(k) * pow2(eb) * pow2(za) * pow2(64) == p * f,
            ;
        }
        let lhs = cs * bs;
        let rhs = asz * w;
        if e + sh > 0 {
            assert(half * nb * t <= num) by (nonlinear_arith)
                requires
                    half * t <= q,
                    num == nb * q + rem,
                    rem >= 0,
                    nb > 0,
            ;
            let hn = half * nb;
            assert(e1 * f <= num * f + hn * f && num * f <= e1 * f + hn * f) by (nonlinear_arith)
                requires
                    e1 <= num + hn,
                    num <= e1 + hn,
                    f > 0,
            ;
            assert((hn * f) * t <= num * f) by (nonlinear_arith)
                requires
                    hn * t <= num,
                    f > 0,
            ;
            assert((lhs * t) * z <= (rhs * t + rhs) * z && (rhs * t) * z <= (lhs * t + rhs) * z)
                by (nonlinear_arith)
                requires
                    lhs * z <= rhs * z + hn * f,
                    rhs * z <= lhs * z + hn * f,
                    (hn * f) * t <= rhs * z,
                    t > 0,
            ;
            assert(lhs * t <= rhs * t + rhs && rhs * t <= lhs * t + rhs) by (nonlinear_arith)
                requires
                    (lhs * t) * z <= (rhs * t + rhs) * z,
                    (rhs * t) * z <= (lhs * t + rhs) * z,
                    z > 0,
            ;
        } else {
            // a subnormal quotient: half a unit
            lemma_pow2_adds((sh - 1) as nat, ea + zb + 1074);
            lemma_pow2_unfold(za + zb + 64);
            lemma_pow2_unfold(53);
            let unit = pow2(za + 63);
            lemma_pow2_adds(zb, za + 63);
            lemma_pow2_adds(eb, za + 63);
            assert(half * f == pow2(eb) * unit);
            assert(z == 2 * (pow2(zb) * unit));
            assert(2 * (half * nb * f) == bs * z) by (nonlinear_arith)
                requires
                    half * f == pow2(eb) * unit,
                    z == 2 * (pow2(zb) * unit),
                    bs * pow2(zb) == nb * pow2(eb),
            ;
            let hn = half * nb;
            assert(e1 * f <= num * f + hn * f && num * f <= e1 * f + hn * f) by (nonlinear_arith)
                requires
                    e1 <= num + hn,
                    num <= e1 + hn,
                    f > 0,
            ;
            assert(2 * (hn * f) == bs * z);
            assert((2 * lhs) * z <= (2 * rhs + bs) * z && (2 * rhs) * z <= (2 * lhs + bs) * z)
                by (nonlinear_arith)
                requires
                    lhs * z <= rhs * z + hn * f,
                    rhs * z <= lhs * z + hn * f,
                    2 * (hn * f) == bs * z,
            ;
            assert(2 * lhs <= 2 * rhs + bs && 2 * rhs <= 2 * lhs + bs) by (nonlinear_arith)
                requires
                    (2 * lhs) * z <= (2 * rhs + bs) * z,
                    (2 * rhs) * z <= (2 * lhs + bs) * z,
                    z > 0,
            ;
            let h = pow2(52);
            assert(lhs * t <= rhs * t + bs * h && rhs * t <= lhs * t + bs * h) by (nonlinear_arith)
                requires
                    2 * lhs <= 2 * rhs + bs,
                    2 * rhs <= 2 * lhs + bs,
                    t == 2 * h,
                    h > 0,
            ;
        }
    }
}

/// The error of a square root: the root of a positive finite number is
/// finite and positive, and lies within `2^-53` of the exact root,
/// relatively. Squared, to stay among integers: `(c * 2^53)^2` lies between
/// `a * 2^1074 * (2^53 - 1)^2` and `a * 2^1074 * (2^53 + 1)^2`.
pub proof fn lemma_sqrt_error(a: Scalar)
    requires
        a.finite(),
        !a.zero(),
        !a.negative(),
    ensures
        a.sqrt_spec().finite(),
        !a.sqrt_spec().negative(),
        !a.sqrt_spec().zero(),
        (a.sqrt_spec().size() * pow2(53)) * (a.sqrt_spec().size() * pow2(53)) <= a.size() * pow2(
            1074,
        ) * ((pow2(53) + 1) * (pow2(53) + 1)),
        a.size() * pow2(1074) * ((pow2(53) - 1) * (pow2(53) - 1)) <= (a.sqrt_spec().size() * pow2(
            53,
        )) * (a.sqrt_spec().size() * pow2(53)),
{
    reveal(Scalar::sqrt_spec);
    let c = a.sqrt_spec();
    lemma_normal_mantissa(a);
    lemma2_to64();
    lemma2_to64_rest();
    let ea = a.exponent() as nat;
    let za = a.normal_shift();
    let na = a.normal_mantissa();
    let t = a.normal_exponent() + 1074;
    let m2 = if t % 2 == 0 { na } else { 2 * na };
    let t_even = if t % 2 == 0 { t } else { t - 1 };
    let n = m2 * pow2(70);
    let s = isqrt(n);
    let sticky = s * s != n;
    let e = (t_even - 70) / 2;
    lemma_isqrt_exists(n);
    // the radicand has 123 or 124 digits, the root 62
    lemma_pow2_adds(52, 70);
    lemma_pow2_adds(54, 70);
    lemma_pow2_adds(61, 61);
    lemma_pow2_adds(62, 62);
    lemma_pow2_pos(70);
    assert(pow2(122) <= n < pow2(124)) by (nonlinear_arith)
        requires
            n == m2 * pow2(70),
            pow2(52) <= m2 < pow2(54),
            pow2(122) == pow2(52) * pow2(70),
            pow2(124) == pow2(54) * pow2(70),
            pow2(70) > 0,
    ;
    assert(pow2(61) <= s < pow2(62)) by (nonlinear_arith)
        requires
            s * s <= n < (s + 1) * (s + 1),
            pow2(122) <= n < pow2(124),
            pow2(122) == pow2(61) * pow2(61),
            pow2(124) == pow2(62) * pow2(62),
            pow2(61) > 0,
            pow2(62) > 0,
    ;
    crate::rounding::lemma_bit_len_unique(s, 62);
    lemma_kept_is_near(s, e, sticky);
    let sh = round_shift(s, e);
    assert(sh == 9);
    let k = (e + sh) as nat;
    let kept_m = kept(s, e, sticky);
    assert(round_nearest(s, e, sticky) == assemble(kept_m, e + sh));
    lemma_size_of_rounded(s, e, sticky, false);
    assert(c == Scalar::with_sign(false, round_nearest(s, e, sticky)));
    let p = pow2(9);
    let half = pow2(8);
    let tt = pow2(53);
    let big = kept_m * p;
    // the kept root against the integer root
    assert(big * tt <= s * (tt + 1)) by (nonlinear_arith)
        requires
            big - half <= s,
            half * tt <= s,
            tt > 0,
    ;
    assert((big * tt) * (big * tt) <= n * ((tt + 1) * (tt + 1))) by (nonlinear_arith)
        requires
            0 <= big * tt <= s * (tt + 1),
            s * s <= n,
            tt > 0,
    ;
    assert(n * ((tt - 1) * (tt - 1)) <= (big * tt) * (big * tt)) by {
        if sticky {
            assert(big * tt >= (s + 1) * (tt - 1)) by (nonlinear_arith)
                requires
                    s + 1 <= big + half,
                    half * tt <= s,
                    tt > 1,
            ;
            assert(n * ((tt - 1) * (tt - 1)) <= (big * tt) * (big * tt)) by (nonlinear_arith)
                requires
                    big * tt >= (s + 1) * (tt - 1),
                    n < (s + 1) * (s + 1),
                    tt > 1,
                    s >= 0,
            ;
        } else {
            assert(big * tt >= s * (tt - 1)) by (nonlinear_arith)
                requires
                    s <= big + half,
                    half * tt <= s,
                    tt > 1,
            ;
            assert(n * ((tt - 1) * (tt - 1)) <= (big * tt) * (big * tt)) by (nonlinear_arith)
                requires
                    big * tt >= s * (tt - 1),
                    n == s * s,
                    tt > 1,
                    s >= 0,
            ;
        }
    }
    // both sides on one scale
    let g = pow2(t_even as nat);
    let w = pow2(1074);
    let cs = c.size();
    let asz = a.size();
    lemma_pow2_pos(t_even as nat);
    lemma_pow2_pos(za);
    lemma_pow2_adds(k, k);
    lemma_pow2_adds(k + k, 70);
    lemma_pow2_adds(9, 9);
    lemma_pow2_adds(18, t_even as nat);
    assert(cs * cs * pow2(70) == big * big * g) by (nonlinear_arith)
        requires
            cs == kept_m * pow2(k),
            big == kept_m * p,
            pow2(k) * pow2(k) * pow2(70) == p * p * g,
    ;
    lemma_pow2_adds(ea, 1074);
    lemma_pow2_adds(t as nat, za);
    if t % 2 != 0 {
        lemma_pow2_unfold(t as nat);
    }
    assert(m2 * g == na * pow2(t as nat)) by (nonlinear_arith)
        requires
            (m2 == na && g == pow2(t as nat)) || (m2 == 2 * na && pow2(t as nat) == 2 * g),
    ;
    assert(asz * w * pow2(za) == na * pow2(t as nat) * pow2(za)) by (nonlinear_arith)
        requires
            asz * pow2(za) == na * pow2(ea),
            pow2(ea) * w == pow2(t as nat) * pow2(za),
    ;
    assert(asz * w == na * pow2(t as nat)) by (nonlinear_arith)
        requires
            asz * w * pow2(za) == na * pow2(t as nat) * pow2(za),
            pow2(za) > 0,
    ;
    assert(asz * w * pow2(70) == n * g) by (nonlinear_arith)
        requires
            asz * w == m2 * g,
            n == m2 * pow2(70),
    ;
    let hi = (tt + 1) * (tt + 1);
    let lo = (tt - 1) * (tt - 1);
    assert((cs * tt) * (cs * tt) * pow2(70) == (big * tt) * (big * tt) * g) by (nonlinear_arith)
        requires
            cs * cs * pow2(70) == big * big * g,
    ;
    assert((cs * tt) * (cs * tt) <= asz * w * hi) by (nonlinear_arith)
        requires
            (cs * tt) * (cs * tt) * pow2(70) == (big * tt) * (big * tt) * g,
            (big * tt) * (big * tt) <= n * hi,
            asz * w * pow2(70) == n * g,
            g > 0,
            pow2(70) > 0,
    ;
    assert(asz * w * lo <= (cs * tt) * (cs * tt)) by (nonlinear_arith)
        requires
            (cs * tt) * (cs * tt) * pow2(70) == (big * tt) * (big * tt) * g,
            n * lo <= (big * tt) * (big * tt),
            asz * w * pow2(70) == n * g,
            g > 0,
            pow2(70) > 0,
    ;
}

/// Patterns order as sizes do: of two finite numbers, the one with the
/// smaller magnitude pattern is the smaller in size, and equal patterns
/// mean equal sizes.
pub proof fn lemma_order_is_size_order(a: Scalar, b: Scalar)
    requires
        a.finite(),
        b.finite(),
    ensures
        a.magnitude() < b.magnitude() <==> a.size() < b.size(),
        a.magnitude() == b.magnitude() <==> a.size() == b.size(),
{
    if a.magnitude() < b.magnitude() {
        lemma_smaller_pattern_smaller_size(a, b);
    } else if b.magnitude() < a.magnitude() {
        lemma_smaller_pattern_smaller_size(b, a);
    }
}

proof fn lemma_smaller_pattern_smaller_size(a: Scalar, b: Scalar)
    requires
        a.finite(),
        b.finite(),
        a.magnitude() < b.magnitude(),
    ensures
        a.size() < b.size(),
{
    crate::rounding::lemma_pattern_of_finite(a);
    crate::rounding::lemma_pattern_of_finite(b);
    lemma2_to64_rest();
    let ka = a.exponent() as nat;
    let kb = b.exponent() as nat;
    let ma = a.mantissa();
    let mb = b.mantissa();
    lemma_pow2_pos(ka);
    if ka == kb {
        assert(ma * pow2(ka) < mb * pow2(ka)) by (nonlinear_arith)
            requires
                ma < mb,
                pow2(ka) > 0,
        ;
    } else {
        assert(ka < kb);
        crate::rounding::lemma_pow2_monotone(ka + 1, kb);
        lemma_pow2_unfold(ka + 1);
        assert(ma * pow2(ka) < mb * pow2(kb)) by (nonlinear_arith)
            requires
                ma < 2 * HIDDEN_BIT,
                mb >= HIDDEN_BIT,
                pow2(kb) >= 2 * pow2(ka),
                pow2(ka) > 0,
        ;
    }
}

} // verus!
