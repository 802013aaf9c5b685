//! The length of a normalized vector is 1, up to rounding.

use vstd::prelude::*;
use vstd::arithmetic::power2::{pow2, lemma2_to64, lemma2_to64_rest, lemma_pow2_adds, lemma_pow2_pos};
use crate::scalar::{scalar, Scalar};
use crate::vec3::Vec3;
use crate::vec3::unit::in_direction_spec;
use crate::accuracy::{
    lemma_add_error, lemma_div_error, lemma_mul_error, lemma_order_is_size_order,
    lemma_sqrt_error, within,
};
use crate::estimate::{
    close, lemma_close_absorb, lemma_close_cancel, lemma_close_from_root_bounds, lemma_close_refl,
    lemma_close_root, lemma_close_scale, lemma_close_sum, lemma_close_sym, lemma_close_trans,
    lemma_close_weaken, lemma_quotient_squares,
};

verus! {

/// The exact squared length of a vector of finite components, in units
/// squared.
pub open spec fn squares(v: Vec3<Scalar>) -> nat {
    v.x.size() * v.x.size() + v.y.size() * v.y.size() + v.z.size() * v.z.size()
}

/// A vector whose squared length is finite has finite components.
pub proof fn lemma_finite_components(v: Vec3<Scalar>)
    requires
        v.length_squared_spec().finite(),
    ensures
        v.x.finite(),
        v.y.finite(),
        v.z.finite(),
{
    reveal(Scalar::mul_spec);
    reveal(Scalar::add_spec);
}

/// The squared length as computed, against the exact one: it is finite
/// unless the exact one is huge; neither exceeds four times the other by
/// more than `2^1130`; and from an exact value of `2^1130` on, the two are
/// close to one part in `2^49`. Sizes are in units, the computed one times
/// `2^1074` to match the exact one, which is in units squared.
pub proof fn lemma_length_squared_error(v: Vec3<Scalar>)
    requires
        v.x.finite(),
        v.y.finite(),
        v.z.finite(),
        v.length_squared_spec().finite() || squares(v) <= pow2(3000),
    ensures
        v.length_squared_spec().finite(),
        !v.length_squared_spec().negative(),
        v.length_squared_spec().size() * pow2(1074) <= 4 * squares(v) + pow2(1130),
        squares(v) <= 4 * (v.length_squared_spec().size() * pow2(1074)) + pow2(1130),
        squares(v) >= pow2(1130) ==> close(
            (v.length_squared_spec().size() * pow2(1074)) as int,
            squares(v) as int,
            pow2(49) as int,
        ),
{
    let px = v.x.mul_spec(v.x);
    let py = v.y.mul_spec(v.y);
    let pz = v.z.mul_spec(v.z);
    let s1 = px.add_spec(py);
    let q = s1.add_spec(pz);
    assert(q == v.length_squared_spec());
    let w = pow2(1074);
    let t0 = pow2(53);
    let d = pow2(1126);
    let sx = v.x.size() * v.x.size();
    let sy = v.y.size() * v.y.size();
    let sz = v.z.size() * v.z.size();
    let t = squares(v);
    lemma2_to64();
    lemma2_to64_rest();
    lemma_pow2_pos(1074);
    lemma_pow2_pos(1126);
    lemma_pow2_adds(1126, 4);
    lemma_pow2_adds(1074, 53);
    lemma_mul_error(v.x, v.x);
    lemma_mul_error(v.y, v.y);
    lemma_mul_error(v.z, v.z);
    crate::rounding::lemma_pow2_monotone(3000, 3170);
    vstd::arithmetic::power2::lemma_pow2_strictly_increases(3000, 3170);
    assert(sx <= t && sy <= t && sz <= t);
    assert(px.finite() && py.finite() && pz.finite()) by {
        reveal(Scalar::add_spec);
    }
    // each product, times 2^1074, is at most twice the exact square and a bit
    let a = px.size();
    let b = py.size();
    let c = pz.size();
    assert(a * w <= 2 * sx + d && b * w <= 2 * sy + d && c * w <= 2 * sz + d) by (nonlinear_arith)
        requires
            a * w * t0 <= sx * t0 + (sx + d),
            b * w * t0 <= sy * t0 + (sy + d),
            c * w * t0 <= sz * t0 + (sz + d),
            t0 >= 1,
            sx >= 0,
            sy >= 0,
            sz >= 0,
            d >= 0,
    ;
    // so the sums stay far below overflow
    lemma_pow2_adds(1926, 1074);
    lemma_pow2_adds(2095, 1074);
    crate::rounding::lemma_pow2_monotone(1126, 3000);
    crate::rounding::lemma_pow2_monotone(3001, 3169);
    vstd::arithmetic::power2::lemma_pow2_unfold(3001);
    vstd::arithmetic::power2::lemma_pow2_unfold(3002);
    vstd::arithmetic::power2::lemma_pow2_unfold(3003);
    vstd::arithmetic::power2::lemma_pow2_unfold(3004);
    vstd::arithmetic::power2::lemma_pow2_strictly_increases(3002, 3169);
    vstd::arithmetic::power2::lemma_pow2_strictly_increases(3004, 3169);
    lemma_add_error(px, py);
    assert(s1.finite()) by {
        reveal(Scalar::add_spec);
        if !q.finite() {
            assert((a + b) * w < pow2(2095) * w) by (nonlinear_arith)
                requires
                    a * w <= 2 * sx + d,
                    b * w <= 2 * sy + d,
                    sx + sy <= pow2(3000),
                    d <= pow2(3000),
                    pow2(3002) == 4 * pow2(3000),
                    pow2(3002) < pow2(3169),
                    pow2(3169) == pow2(2095) * w,
            ;
            assert(a + b < pow2(2095)) by (nonlinear_arith)
                requires
                    (a + b) * w < pow2(2095) * w,
                    w > 0,
            ;
            crate::rounding::lemma_pow2_monotone(2095, 2096);
        }
    }
    lemma_add_error(s1, pz);
    let s = s1.size();
    assert(q.finite()) by {
        if !v.length_squared_spec().finite() {
            assert(s * t0 <= (a + b) * t0 + (a + b));
            assert(s <= 2 * (a + b)) by (nonlinear_arith)
                requires
                    s * t0 <= (a + b) * t0 + (a + b),
                    t0 >= 1,
            ;
            assert((s + c) * w < pow2(2095) * w) by (nonlinear_arith)
                requires
                    s <= 2 * (a + b),
                    a * w <= 2 * sx + d,
                    b * w <= 2 * sy + d,
                    c * w <= 2 * sz + d,
                    sx + sy + sz <= pow2(3000),
                    d <= pow2(3000),
                    pow2(3004) == 16 * pow2(3000),
                    pow2(3004) < pow2(3169),
                    pow2(3169) == pow2(2095) * w,
                    w > 0,
            ;
            assert(s + c < pow2(2095)) by (nonlinear_arith)
                requires
                    (s + c) * w < pow2(2095) * w,
                    w > 0,
            ;
            crate::rounding::lemma_pow2_monotone(2095, 2096);
        }
    }
    let qs = q.size();
    // the two sums: close to what they add
    assert(close(s as int, (a + b) as int, t0 as int)) by (nonlinear_arith)
        requires
            s * t0 <= (a + b) * t0 + (a + b),
            (a + b) * t0 <= s * t0 + (a + b),
    ;
    assert(close(qs as int, (s + c) as int, t0 as int)) by (nonlinear_arith)
        requires
            qs * t0 <= (s + c) * t0 + (s + c),
            (s + c) * t0 <= qs * t0 + (s + c),
    ;
    lemma_close_refl(c as int, t0 as int);
    lemma_close_sum(s as int, (a + b) as int, c as int, c as int, t0 as int);
    let sum = a + b + c;
    lemma_close_trans(qs as int, (s + c) as int, sum as int, t0 as int, pow2(51) as int);
    lemma_close_scale(qs as int, sum as int, w as int, pow2(51) as int);
    // the three products: near the exact squares
    let sum_w = sum * w;
    assert(sum_w * t0 <= t * (t0 + 1) + 3 * d && t * (t0 - 1) <= sum_w * t0 + 3 * d) by (nonlinear_arith)
        requires
            sum_w == (a + b + c) * w,
            t == sx + sy + sz,
            within(a * w * t0, sx * t0, sx + d),
            within(b * w * t0, sy * t0, sy + d),
            within(c * w * t0, sz * t0, sz + d),
    ;
    let u = pow2(51) as int;
    assert(close((qs * w) as int, sum_w as int, u));
    // the rough bounds
    assert(qs * w <= 4 * t + pow2(1130)) by (nonlinear_arith)
        requires
            (qs * w) * u <= sum_w * (u + 1),
            sum_w * t0 <= t * (t0 + 1) + 3 * d,
            u >= 1,
            t0 >= 1,
            pow2(1130) == 16 * d,
            t >= 0,
            d >= 0,
    ;
    assert(t <= 4 * (qs * w) + pow2(1130)) by (nonlinear_arith)
        requires
            sum_w * (u - 1) <= (qs * w) * u,
            t * (t0 - 1) <= sum_w * t0 + 3 * d,
            u >= 2,
            t0 >= 2,
            pow2(1130) == 16 * d,
            t >= 0,
            d >= 0,
            sum_w >= 0,
    ;
    if t >= pow2(1130) {
        lemma_close_absorb(sum_w as int, t as int, t0 as int, pow2(52) as int, (3 * d) as int);
        lemma_close_weaken(sum_w as int, t as int, pow2(52) as int, u);
        lemma_close_trans((qs * w) as int, sum_w as int, t as int, u, pow2(49) as int);
    }
}

/// The shortest length that normalizing is stated for: 1e-12.
pub const TINY_BITS: u64 = 0x3D71_9799_812D_EA11;

/// The length of a vector, as computed, against the exact one: where the
/// computed length is finite and above 1e-12, the components are finite,
/// the length is at least `2^1034` units, the exact squared length at least
/// `2^1130` units squared, and the square of the computed length is close
/// to the exact squared length, to one part in `2^47`.
pub proof fn lemma_length_error(v: Vec3<Scalar>)
    requires
        scalar(TINY_BITS).lt_spec(v.length_spec()),
        v.length_spec().finite(),
    ensures
        v.x.finite(),
        v.y.finite(),
        v.z.finite(),
        !v.length_spec().negative(),
        v.length_spec().size() >= pow2(1034),
        squares(v) >= pow2(1130),
        close(
            (v.length_spec().size() * v.length_spec().size()) as int,
            squares(v) as int,
            pow2(47) as int,
        ),
{
    let q = v.length_squared_spec();
    let len = v.length_spec();
    assert(len == q.sqrt_spec());
    assert(q.finite() && !q.negative() && !q.zero()) by {
        reveal(Scalar::sqrt_spec);
    }
    lemma_finite_components(v);
    lemma_length_squared_error(v);
    lemma_sqrt_error(q);
    lemma2_to64();
    lemma2_to64_rest();
    let w = pow2(1074);
    let t0 = pow2(53);
    let u = pow2(51);
    let ls = len.size();
    let qw = q.size() * w;
    let t = squares(v);
    lemma_close_from_root_bounds(ls as int, qw as int, t0 as int, u as int);
    // the length is longer than 1e-12, which is at least 2^1034 units
    let tiny = scalar(TINY_BITS);
    lemma_order_is_size_order(tiny, len);
    lemma_pow2_adds(52, 982);
    lemma_pow2_pos(982);
    assert(tiny.size() >= pow2(1034)) by (nonlinear_arith)
        requires
            tiny.size() == tiny.mantissa() * pow2(982),
            tiny.mantissa() >= pow2(52),
            pow2(1034) == pow2(52) * pow2(982),
            pow2(982) > 0,
    ;
    // so the exact squared length is large
    lemma_pow2_adds(1034, 1034);
    lemma_pow2_adds(1130, 938);
    crate::rounding::lemma_pow2_monotone(32, 938);
    lemma_pow2_pos(1130);
    lemma_pow2_pos(1034);
    assert(ls * ls >= pow2(2068)) by (nonlinear_arith)
        requires
            ls >= pow2(1034),
            pow2(2068) == pow2(1034) * pow2(1034),
            pow2(1034) > 0,
    ;
    assert(2 * qw >= ls * ls) by (nonlinear_arith)
        requires
            (ls * ls) * u <= qw * (u + 1),
            u >= 1,
            qw >= 0,
    ;
    assert(t >= pow2(1130)) by (nonlinear_arith)
        requires
            qw <= 4 * t + pow2(1130),
            2 * qw >= ls * ls,
            ls * ls >= pow2(2068),
            pow2(2068) == pow2(1130) * pow2(938),
            pow2(938) >= 0x1_0000_0000,
            pow2(1130) > 0,
    ;
    lemma_close_weaken((ls * ls) as int, qw as int, u as int, pow2(49) as int);
    lemma_close_trans((ls * ls) as int, qw as int, t as int, pow2(49) as int, pow2(47) as int);
}

/// A quotient by a length that the numerator does not much exceed: it is
/// finite, and times the length it lies near the numerator times `2^1074`,
/// up to one part in `2^53` and half a unit times the length.
proof fn lemma_quotient_near(x: Scalar, len: Scalar)
    requires
        x.finite(),
        len.finite(),
        len.size() > 0,
        x.size() <= 2 * len.size(),
    ensures
        x.div_spec(len).finite(),
        (x.div_spec(len).size() * len.size()) * pow2(53) <= (x.size() * pow2(1074)) * (pow2(53)
            + 1) + len.size() * pow2(52),
        (x.size() * pow2(1074)) * (pow2(53) - 1) <= (x.div_spec(len).size() * len.size()) * pow2(
            53,
        ) + len.size() * pow2(52),
        x.size() * pow2(1074) <= 2 * (len.size() * pow2(1074)),
{
    let w = pow2(1074);
    let ls = len.size();
    let xs = x.size();
    assert(!len.zero()) by {
        if len.zero() {
            assert(len.mantissa() * pow2(len.exponent() as nat) == 0) by (nonlinear_arith)
                requires
                    len.mantissa() == 0,
            ;
        }
    }
    lemma_div_error(x, len);
    lemma_pow2_adds(1074, 1022);
    lemma_pow2_pos(1074);
    vstd::arithmetic::power2::lemma_pow2_strictly_increases(1, 1022);
    lemma2_to64();
    assert(xs * w < ls * pow2(2096)) by (nonlinear_arith)
        requires
            xs <= 2 * ls,
            ls > 0,
            pow2(2096) == w * pow2(1022),
            pow2(1022) > 2,
            w > 0,
    ;
    assert(xs * w <= 2 * (ls * w)) by (nonlinear_arith)
        requires
            xs <= 2 * ls,
            w > 0,
    ;
    let qs = x.div_spec(len).size();
    let t0 = pow2(53);
    assert((qs * ls) * t0 <= (xs * w) * (t0 + 1) + ls * pow2(52) && (xs * w) * (t0 - 1) <= (qs
        * ls) * t0 + ls * pow2(52)) by (nonlinear_arith)
        requires
            within(qs * ls * t0, xs * w * t0, xs * w + ls * pow2(52)),
    ;
}

/// The exact squared length of a normalized vector is close to 1: in units
/// squared, to `2^1074 * 2^1074`, to one part in `2^44`.
pub proof fn lemma_normalized_squares(v: Vec3<Scalar>)
    requires
        scalar(TINY_BITS).lt_spec(v.length_spec()),
        v.length_spec().finite(),
    ensures
        in_direction_spec(v).x.finite(),
        in_direction_spec(v).y.finite(),
        in_direction_spec(v).z.finite(),
        close(
            squares(in_direction_spec(v)) as int,
            (pow2(1074) * pow2(1074)) as int,
            pow2(44) as int,
        ),
{
    lemma_length_error(v);
    lemma2_to64();
    lemma2_to64_rest();
    lemma_pow2_pos(1074);
    lemma_pow2_pos(1034);
    crate::rounding::lemma_pow2_monotone(57, 1074);
    let len = v.length_spec();
    let n = in_direction_spec(v);
    assert(n == v.div_spec(len));
    let ls = len.size() as int;
    let w = pow2(1074) as int;
    let t0 = pow2(53) as int;
    let k47 = pow2(47) as int;
    let t = squares(v) as int;
    let l2 = ls * ls;
    let x = v.x.size() as int;
    let y = v.y.size() as int;
    let z = v.z.size() as int;
    assert(t <= 2 * l2 && l2 <= 2 * t) by (nonlinear_arith)
        requires
            l2 * k47 <= t * (k47 + 1),
            t * (k47 - 1) <= l2 * k47,
            k47 >= 2,
            t >= 0,
            l2 >= 0,
    ;
    assert(x <= 2 * ls && y <= 2 * ls && z <= 2 * ls) by (nonlinear_arith)
        requires
            t == x * x + y * y + z * z,
            t <= 2 * l2,
            l2 == ls * ls,
            x >= 0,
            y >= 0,
            z >= 0,
            ls >= 0,
    ;
    lemma_quotient_near(v.x, len);
    lemma_quotient_near(v.y, len);
    lemma_quotient_near(v.z, len);
    let nx = n.x.size() as int;
    let ny = n.y.size() as int;
    let nz = n.z.size() as int;
    let a1 = nx * ls;
    let a2 = ny * ls;
    let a3 = nz * ls;
    let b1 = x * w;
    let b2 = y * w;
    let b3 = z * w;
    let u = pow2(50) as int;
    let sa = a1 * a1 + a2 * a2 + a3 * a3;
    let sb = b1 * b1 + b2 * b2 + b3 * b3;
    let tp = squares(n) as int;
    let ww = w * w;
    assert(sb == ww * t) by (nonlinear_arith)
        requires
            sb == b1 * b1 + b2 * b2 + b3 * b3,
            b1 == x * w,
            b2 == y * w,
            b3 == z * w,
            t == x * x + y * y + z * z,
            ww == w * w,
    ;
    assert(sa == l2 * tp) by (nonlinear_arith)
        requires
            sa == a1 * a1 + a2 * a2 + a3 * a3,
            a1 == nx * ls,
            a2 == ny * ls,
            a3 == nz * ls,
            tp == nx * nx + ny * ny + nz * nz,
            l2 == ls * ls,
    ;
    assert((ls * w) * (ls * w) == l2 * ww) by (nonlinear_arith)
        requires
            l2 == ls * ls,
            ww == w * w,
    ;
    assert(l2 * ww <= 2 * (ww * t)) by (nonlinear_arith)
        requires
            l2 <= 2 * t,
            ww >= 0,
    ;
    assert(a1 >= 0 && a2 >= 0 && a3 >= 0 && b1 >= 0 && b2 >= 0 && b3 >= 0) by (nonlinear_arith)
        requires
            a1 == nx * ls,
            a2 == ny * ls,
            a3 == nz * ls,
            b1 == x * w,
            b2 == y * w,
            b3 == z * w,
            nx >= 0,
            ny >= 0,
            nz >= 0,
            x >= 0,
            y >= 0,
            z >= 0,
            ls >= 0,
            w >= 0,
    ;
    lemma_quotient_squares(a1, a2, a3, b1, b2, b3, ls, w, t0, u);
    // from the sums of squares to the squared length of the quotient
    let k46 = pow2(46) as int;
    let k44 = pow2(44) as int;
    assert(tp >= 0 && l2 * tp >= 0 && t * tp >= 0) by (nonlinear_arith)
        requires
            tp == nx * nx + ny * ny + nz * nz,
            l2 >= 0,
            t >= 0,
    ;
    lemma_close_scale(l2, t, tp, k47);
    lemma_close_sym(l2 * tp, t * tp, k47, k46);
    lemma_close_weaken(sa, sb, u, k46);
    lemma_close_trans(t * tp, l2 * tp, sb, k46, k44);
    assert(t * tp == tp * t && sb == ww * t) by (nonlinear_arith)
        requires
            sb == ww * t,
    ;
    lemma_pow2_pos(1130);
    lemma_close_cancel(tp, ww, t, k44);
}

/// The pattern of 1 - 1e-9.
pub const ONE_MINUS_BITS: u64 = 0x3FEF_FFFF_FF76_8FA1;

/// The pattern of 1 + 1e-9.
pub const ONE_PLUS_BITS: u64 = 0x3FF0_0000_0044_B830;

/// A normalized vector has length 1 to within 1e-9: for every vector whose
/// length, as computed, is finite and above 1e-12, the length of the vector
/// divided by its length, as computed, lies from 1 - 1e-9 to 1 + 1e-9.
///
/// The proof follows the rounding errors through: each of the fifteen
/// operations is off by at most one part in `2^53`, or by half a unit where
/// a tiny component underflows, and together they stay within one part in
/// `2^40`.
pub proof fn lemma_in_direction_has_unit_length(v: Vec3<Scalar>)
    requires
        scalar(TINY_BITS).lt_spec(v.length_spec()),
        v.length_spec().finite(),
    ensures
        scalar(ONE_MINUS_BITS).le_spec(in_direction_spec(v).length_spec()),
        in_direction_spec(v).length_spec().le_spec(scalar(ONE_PLUS_BITS)),
{
    lemma_normalized_squares(v);
    lemma2_to64();
    lemma2_to64_rest();
    let n = in_direction_spec(v);
    let w = pow2(1074) as int;
    let ww = w * w;
    let tp = squares(n) as int;
    let k44 = pow2(44) as int;
    let k42 = pow2(42) as int;
    let k40 = pow2(40) as int;
    lemma_pow2_pos(1074);
    lemma_pow2_adds(1074, 1074);
    lemma_pow2_adds(1130, 1017);
    lemma_pow2_pos(1130);
    crate::rounding::lemma_pow2_monotone(2, 1017);
    crate::rounding::lemma_pow2_monotone(2149, 3000);
    vstd::arithmetic::power2::lemma_pow2_unfold(2149);
    // the exact squared length lies between a half and twice 2^2148
    assert(2 * tp >= ww && tp <= 2 * ww) by (nonlinear_arith)
        requires
            tp * k44 <= ww * (k44 + 1),
            ww * (k44 - 1) <= tp * k44,
            k44 >= 2,
            ww >= 0,
            tp >= 0,
    ;
    assert(ww == pow2(2148));
    vstd::arithmetic::power2::lemma_pow2_unfold(2148);
    assert(tp >= pow2(1130)) by (nonlinear_arith)
        requires
            2 * tp >= ww,
            ww == 2 * pow2(2147),
            pow2(2147) == pow2(1130) * pow2(1017),
            pow2(1017) >= 4,
            pow2(1130) > 0,
    ;
    assert(tp <= pow2(3000));
    lemma_length_squared_error(n);
    let q = n.length_squared_spec();
    let qs = q.size() as int;
    let qw = qs * w;
    let k49 = pow2(49) as int;
    let k51 = pow2(51) as int;
    let t0 = pow2(53) as int;
    lemma_close_weaken(qw, tp, k49, k44);
    lemma_close_trans(qw, tp, ww, k44, k42);
    lemma_close_cancel(qs, w, w, k42);
    assert(qs > 0) by (nonlinear_arith)
        requires
            w * (k42 - 1) <= qs * k42,
            w > 0,
            k42 >= 2,
    ;
    assert(!q.zero()) by {
        if q.zero() {
            assert(q.mantissa() * pow2(q.exponent() as nat) == 0) by (nonlinear_arith)
                requires
                    q.mantissa() == 0,
            ;
        }
    }
    lemma_sqrt_error(q);
    let big = n.length_spec();
    assert(big == q.sqrt_spec());
    let bs = big.size() as int;
    lemma_close_from_root_bounds(bs, qw, t0, k51);
    lemma_close_weaken(bs * bs, qw, k51, k42);
    assert(bs * bs >= 0) by (nonlinear_arith)
        requires
            bs >= 0,
    ;
    lemma_close_trans(bs * bs, qw, ww, k42, k40);
    lemma_close_root(bs, w, k40);
    // the two bounds as numbers of the format
    let hi = scalar(ONE_PLUS_BITS);
    let lo = scalar(ONE_MINUS_BITS);
    lemma_order_is_size_order(big, hi);
    lemma_order_is_size_order(hi, big);
    lemma_order_is_size_order(lo, big);
    lemma_order_is_size_order(big, lo);
    let e22 = pow2(1022) as int;
    let e21 = pow2(1021) as int;
    let e34 = pow2(1034) as int;
    lemma_pow2_adds(52, 1022);
    lemma_pow2_adds(53, 1021);
    lemma_pow2_adds(12, 1022);
    lemma_pow2_adds(13, 1021);
    lemma_pow2_adds(40, 1034);
    lemma_pow2_pos(1021);
    lemma_pow2_pos(1022);
    assert(hi.size() == (0x10_0000_0000_0000 + 4503600) * e22);
    assert(lo.size() == (0x20_0000_0000_0000 - 9007199) * e21);
    assert(bs <= w + e34 && bs >= w - e34) by (nonlinear_arith)
        requires
            bs * k40 <= w * (k40 + 1),
            w * (k40 - 1) <= bs * k40,
            w == k40 * e34,
            k40 >= 1,
    ;
    assert(w + e34 <= hi.size()) by (nonlinear_arith)
        requires
            hi.size() == (0x10_0000_0000_0000 + 4503600) * e22,
            w == 0x10_0000_0000_0000 * e22,
            e34 == 4096 * e22,
            e22 > 0,
    ;
    assert(lo.size() <= w - e34) by (nonlinear_arith)
        requires
            lo.size() == (0x20_0000_0000_0000 - 9007199) * e21,
            w == 0x20_0000_0000_0000 * e21,
            e34 == 8192 * e21,
            e21 > 0,
    ;
}

} // verus!
