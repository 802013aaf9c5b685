//! Relative closeness of whole numbers, for chaining error bounds.
//!
//! `close(a, b, t)` says that `a` lies within `b / t` of `b`. Every lemma
//! here is about numbers that are not negative.

use vstd::prelude::*;

verus! {

/// `a` lies within `b / t` of `b`.
pub open spec fn close(a: int, b: int, t: int) -> bool {
    a * t <= b * (t + 1) && b * (t - 1) <= a * t
}

pub proof fn lemma_close_refl(a: int, t: int)
    requires
        a >= 0,
        t >= 1,
    ensures
        close(a, a, t),
{
    assert(a * t <= a * (t + 1) && a * (t - 1) <= a * t) by (nonlinear_arith)
        requires
            a >= 0,
    ;
}

/// A coarser bound holds too.
pub proof fn lemma_close_weaken(a: int, b: int, t: int, u: int)
    requires
        close(a, b, t),
        a >= 0,
        b >= 0,
        1 <= u <= t,
    ensures
        close(a, b, u),
{
    assert((a * u) * t <= (b * (u + 1)) * t) by (nonlinear_arith)
        requires
            a * t <= b * (t + 1),
            b >= 0,
            1 <= u <= t,
    ;
    assert(a * u <= b * (u + 1)) by (nonlinear_arith)
        requires
            (a * u) * t <= (b * (u + 1)) * t,
            t >= 1,
    ;
    assert((b * (u - 1)) * t <= (a * u) * t) by (nonlinear_arith)
        requires
            b * (t - 1) <= a * t,
            b >= 0,
            a >= 0,
            1 <= u <= t,
    ;
    assert(b * (u - 1) <= a * u) by (nonlinear_arith)
        requires
            (b * (u - 1)) * t <= (a * u) * t,
            t >= 1,
    ;
}

/// Closeness the other way round, at half the sharpness.
pub proof fn lemma_close_sym(a: int, b: int, t: int, u: int)
    requires
        close(a, b, t),
        a >= 0,
        b >= 0,
        t == 2 * u,
        u >= 2,
    ensures
        close(b, a, u),
{
    // b <= a * t / (t - 1), and t / (t - 1) <= (u + 1) / u
    assert(b * u * (t - 1) <= a * (u + 1) * (t - 1)) by (nonlinear_arith)
        requires
            b * (t - 1) <= a * t,
            a >= 0,
            t == 2 * u,
            u >= 2,
    ;
    assert(b * u <= a * (u + 1)) by (nonlinear_arith)
        requires
            (b * u) * (t - 1) <= (a * (u + 1)) * (t - 1),
            t - 1 >= 1,
    ;
    // a <= b * (t + 1) / t, and (t + 1) / t <= u / (u - 1)
    assert((a * (u - 1)) * t <= (b * u) * t) by (nonlinear_arith)
        requires
            a * t <= b * (t + 1),
            b >= 0,
            t == 2 * u,
            u >= 2,
    ;
    assert(a * (u - 1) <= b * u) by (nonlinear_arith)
        requires
            (a * (u - 1)) * t <= (b * u) * t,
            t >= 1,
    ;
}

/// Two steps of closeness make one, at a quarter of the sharpness.
pub proof fn lemma_close_trans(a: int, b: int, c: int, t: int, u: int)
    requires
        close(a, b, t),
        close(b, c, t),
        a >= 0,
        b >= 0,
        c >= 0,
        t == 4 * u,
        u >= 1,
    ensures
        close(a, c, u),
{
    assert(a * t * t <= c * (t + 1) * (t + 1)) by (nonlinear_arith)
        requires
            a * t <= b * (t + 1),
            b * t <= c * (t + 1),
            t >= 1,
    ;
    assert((a * u) * (t * t) <= (c * (u + 1)) * (t * t)) by (nonlinear_arith)
        requires
            a * t * t <= c * (t + 1) * (t + 1),
            t == 4 * u,
            u >= 1,
            c >= 0,
            a >= 0,
    ;
    assert(a * u <= c * (u + 1)) by (nonlinear_arith)
        requires
            (a * u) * (t * t) <= (c * (u + 1)) * (t * t),
            t >= 1,
    ;
    assert(c * (t - 1) * (t - 1) <= a * t * t) by (nonlinear_arith)
        requires
            b * (t - 1) <= a * t,
            c * (t - 1) <= b * t,
            t >= 1,
    ;
    assert((c * (u - 1)) * (t * t) <= (a * u) * (t * t)) by (nonlinear_arith)
        requires
            c * (t - 1) * (t - 1) <= a * t * t,
            t == 4 * u,
            u >= 1,
            c >= 0,
            a >= 0,
    ;
    assert(c * (u - 1) <= a * u) by (nonlinear_arith)
        requires
            (c * (u - 1)) * (t * t) <= (a * u) * (t * t),
            t >= 1,
    ;
}

/// Sums of close numbers are close.
pub proof fn lemma_close_sum(a1: int, b1: int, a2: int, b2: int, t: int)
    requires
        close(a1, b1, t),
        close(a2, b2, t),
    ensures
        close(a1 + a2, b1 + b2, t),
{
    assert((a1 + a2) * t == a1 * t + a2 * t && (b1 + b2) * (t + 1) == b1 * (t + 1) + b2 * (t + 1)
        && (b1 + b2) * (t - 1) == b1 * (t - 1) + b2 * (t - 1)) by (nonlinear_arith);
}

/// Multiples of close numbers are close.
pub proof fn lemma_close_scale(a: int, b: int, k: int, t: int)
    requires
        close(a, b, t),
        k >= 0,
    ensures
        close(a * k, b * k, t),
{
    assert((a * k) * t <= (b * k) * (t + 1) && (b * k) * (t - 1) <= (a * k) * t) by (nonlinear_arith)
        requires
            a * t <= b * (t + 1),
            b * (t - 1) <= a * t,
            k >= 0,
    ;
}

/// A common factor may go.
pub proof fn lemma_close_cancel(a: int, b: int, k: int, t: int)
    requires
        close(a * k, b * k, t),
        k > 0,
    ensures
        close(a, b, t),
{
    assert(a * t <= b * (t + 1) && b * (t - 1) <= a * t) by (nonlinear_arith)
        requires
            (a * k) * t <= (b * k) * (t + 1),
            (b * k) * (t - 1) <= (a * k) * t,
            k > 0,
    ;
}

/// Numbers whose squares are close are close.
pub proof fn lemma_close_root(a: int, b: int, t: int)
    requires
        close(a * a, b * b, t),
        a >= 0,
        b >= 0,
        t >= 1,
    ensures
        close(a, b, t),
{
    if a * t > b * (t + 1) {
        assert((a * a) * t > (b * b) * (t + 1)) by (nonlinear_arith)
            requires
                a * t > b * (t + 1),
                a >= 0,
                b >= 0,
                t >= 1,
        ;
    }
    if b * (t - 1) > a * t {
        assert((b * b) * (t - 1) > (a * a) * t) by (nonlinear_arith)
            requires
                b * (t - 1) > a * t,
                a >= 0,
                b >= 0,
                t >= 1,
        ;
    }
}

/// A small absolute error on top of a relative one is a relative error of
/// half the sharpness.
pub proof fn lemma_close_absorb(a: int, b: int, t: int, u: int, d: int)
    requires
        a * t <= b * (t + 1) + d,
        b * (t - 1) <= a * t + d,
        0 <= d <= b,
        a >= 0,
        t == 2 * u,
        u >= 1,
    ensures
        close(a, b, u),
{
    assert(a * u <= b * (u + 1) && b * (u - 1) <= a * u) by (nonlinear_arith)
        requires
            a * t <= b * (t + 1) + d,
            b * (t - 1) <= a * t + d,
            0 <= d <= b,
            t == 2 * u,
    ;
}

/// From the two-sided bound that a rounded square root obeys to closeness
/// of the squares.
pub proof fn lemma_close_from_root_bounds(c: int, n: int, t: int, u: int)
    requires
        (c * t) * (c * t) <= n * ((t + 1) * (t + 1)),
        n * ((t - 1) * (t - 1)) <= (c * t) * (c * t),
        c >= 0,
        n >= 0,
        t == 4 * u,
        u >= 1,
    ensures
        close(c * c, n, u),
{
    assert(((c * c) * u) * (t * t) <= (n * (u + 1)) * (t * t)) by (nonlinear_arith)
        requires
            (c * t) * (c * t) <= n * ((t + 1) * (t + 1)),
            n >= 0,
            c >= 0,
            t == 4 * u,
            u >= 1,
    ;
    assert((c * c) * u <= n * (u + 1)) by (nonlinear_arith)
        requires
            ((c * c) * u) * (t * t) <= (n * (u + 1)) * (t * t),
            t >= 1,
    ;
    assert((n * (u - 1)) * (t * t) <= ((c * c) * u) * (t * t)) by (nonlinear_arith)
        requires
            n * ((t - 1) * (t - 1)) <= (c * t) * (c * t),
            n >= 0,
            c >= 0,
            t == 4 * u,
            u >= 1,
    ;
    assert(n * (u - 1) <= (c * c) * u) by (nonlinear_arith)
        requires
            (n * (u - 1)) * (t * t) <= ((c * c) * u) * (t * t),
            t >= 1,
    ;
}

/// The squares of two numbers that are near each other, up to a relative
/// and an absolute error `c`, are near each other too; `m` bounds `b`.
pub proof fn lemma_square_near(a: int, b: int, t: int, c: int, m: int)
    requires
        a >= 0,
        b >= 0,
        c >= 0,
        t >= 1,
        b <= m,
        a * t <= b * (t + 1) + c,
        b * (t - 1) <= a * t + c,
    ensures
        (a * a) * (t * t) <= (b * b) * ((t + 1) * (t + 1)) + 2 * ((t + 1) * (c * m)) + c * c,
        (b * b) * ((t - 1) * (t - 1)) <= (a * a) * (t * t) + 2 * (t * (c * m)),
{
    let p = a * t;
    let r = b * (t + 1) + c;
    let s = b * (t - 1);
    assert(p >= 0 && s >= 0) by (nonlinear_arith)
        requires
            p == a * t,
            s == b * (t - 1),
            a >= 0,
            b >= 0,
            t >= 1,
    ;
    assert(p * p == (a * a) * (t * t)) by (nonlinear_arith)
        requires
            p == a * t,
    ;
    assert(s * s == (b * b) * ((t - 1) * (t - 1))) by (nonlinear_arith)
        requires
            s == b * (t - 1),
    ;
    assert(p * p <= r * r) by (nonlinear_arith)
        requires
            0 <= p <= r,
    ;
    let bt = b * (t + 1);
    assert(r * r == bt * bt + 2 * (bt * c) + c * c) by (nonlinear_arith)
        requires
            r == bt + c,
    ;
    assert(bt * bt == (b * b) * ((t + 1) * (t + 1))) by (nonlinear_arith)
        requires
            bt == b * (t + 1),
    ;
    assert(bt * c <= (t + 1) * (c * m)) by (nonlinear_arith)
        requires
            bt == b * (t + 1),
            0 <= b <= m,
            c >= 0,
            t >= 1,
    ;
    assert(s * c <= t * (c * m)) by (nonlinear_arith)
        requires
            s == b * (t - 1),
            0 <= b <= m,
            c >= 0,
            t >= 1,
    ;
    if s >= c {
        assert(s * s <= p * p + 2 * (s * c)) by (nonlinear_arith)
            requires
                p >= s - c,
                s - c >= 0,
                c >= 0,
        ;
    } else {
        assert(s * s <= s * c) by (nonlinear_arith)
            requires
                0 <= s < c,
        ;
        assert(p * p >= 0) by (nonlinear_arith);
    }
}

/// Three quotients by `len`, each near its exact value up to a relative
/// error of one part in `t0` and half a unit: the sum of the squares of
/// `quotient * len` is close to the sum of the squares of the exact
/// numerators, to one part in `t0 / 8`.
pub proof fn lemma_quotient_squares(
    a1: int,
    a2: int,
    a3: int,
    b1: int,
    b2: int,
    b3: int,
    len: int,
    w: int,
    t0: int,
    u: int,
)
    requires
        a1 >= 0,
        a2 >= 0,
        a3 >= 0,
        0 <= b1 <= 2 * (len * w),
        0 <= b2 <= 2 * (len * w),
        0 <= b3 <= 2 * (len * w),
        len > 0,
        t0 == 8 * u,
        u >= 1,
        w >= 128 * u,
        a1 * t0 <= b1 * (t0 + 1) + len * (4 * u),
        b1 * (t0 - 1) <= a1 * t0 + len * (4 * u),
        a2 * t0 <= b2 * (t0 + 1) + len * (4 * u),
        b2 * (t0 - 1) <= a2 * t0 + len * (4 * u),
        a3 * t0 <= b3 * (t0 + 1) + len * (4 * u),
        b3 * (t0 - 1) <= a3 * t0 + len * (4 * u),
        2 * (b1 * b1 + b2 * b2 + b3 * b3) >= (len * w) * (len * w),
    ensures
        close(a1 * a1 + a2 * a2 + a3 * a3, b1 * b1 + b2 * b2 + b3 * b3, u),
{
    let c = len * (4 * u);
    let lw = len * w;
    let m = 2 * lw;
    let v = 2 * u;
    assert(c >= 0 && lw > 0) by (nonlinear_arith)
        requires
            c == len * (4 * u),
            lw == len * w,
            len > 0,
            u >= 1,
            w >= 128 * u,
    ;
    lemma_square_near(a1, b1, t0, c, m);
    lemma_square_near(a2, b2, t0, c, m);
    lemma_square_near(a3, b3, t0, c, m);
    let sa = a1 * a1 + a2 * a2 + a3 * a3;
    let sb = b1 * b1 + b2 * b2 + b3 * b3;
    let tt = t0 * t0;
    let hi = (t0 + 1) * (t0 + 1);
    let lo = (t0 - 1) * (t0 - 1);
    let cm = c * m;
    // the absolute parts, against t0^2 * len^2 * w
    let g = lw * len;
    assert(g > 0) by (nonlinear_arith)
        requires
            g == lw * len,
            lw > 0,
            len > 0,
    ;
    assert(cm == t0 * g) by (nonlinear_arith)
        requires
            cm == c * m,
            c == len * (4 * u),
            m == 2 * lw,
            g == lw * len,
            t0 == 8 * u,
    ;
    assert(4 * (c * c) <= tt * g) by (nonlinear_arith)
        requires
            c == len * (4 * u),
            g == lw * len,
            lw == len * w,
            tt == t0 * t0,
            t0 == 8 * u,
            w >= 1,
            len > 0,
            u >= 1,
    ;
    assert((t0 + 1) * cm <= 2 * (tt * g) && t0 * cm == tt * g) by (nonlinear_arith)
        requires
            cm == t0 * g,
            tt == t0 * t0,
            t0 >= 1,
            g >= 0,
    ;
    assert(sa * tt == (a1 * a1) * tt + (a2 * a2) * tt + (a3 * a3) * tt) by (nonlinear_arith)
        requires
            sa == a1 * a1 + a2 * a2 + a3 * a3,
    ;
    assert(sb * hi == (b1 * b1) * hi + (b2 * b2) * hi + (b3 * b3) * hi) by (nonlinear_arith)
        requires
            sb == b1 * b1 + b2 * b2 + b3 * b3,
    ;
    assert(sb * lo == (b1 * b1) * lo + (b2 * b2) * lo + (b3 * b3) * lo) by (nonlinear_arith)
        requires
            sb == b1 * b1 + b2 * b2 + b3 * b3,
    ;
    assert(tt * g >= 0) by (nonlinear_arith)
        requires
            tt == t0 * t0,
            g > 0,
    ;
    assert(sa * tt <= sb * hi + 15 * (tt * g));
    assert(sb * lo <= sa * tt + 15 * (tt * g));
    // (t0 + 1)^2 / t0^2 <= (v + 1) / v, and (t0 - 1)^2 / t0^2 >= (v - 1) / v
    assert(hi * v <= tt * (v + 1) && tt * (v - 1) <= lo * v) by (nonlinear_arith)
        requires
            hi == (t0 + 1) * (t0 + 1),
            lo == (t0 - 1) * (t0 - 1),
            tt == t0 * t0,
            t0 == 8 * u,
            v == 2 * u,
            u >= 1,
    ;
    assert(sb >= 0 && sa >= 0) by (nonlinear_arith)
        requires
            sa == a1 * a1 + a2 * a2 + a3 * a3,
            sb == b1 * b1 + b2 * b2 + b3 * b3,
    ;
    let d = 15 * g * v;
    assert((sa * v) * tt <= (sb * (v + 1) + d) * tt) by (nonlinear_arith)
        requires
            sa * tt <= sb * hi + 15 * (tt * g),
            hi * v <= tt * (v + 1),
            sb >= 0,
            v >= 1,
            d == 15 * g * v,
    ;
    assert((sb * (v - 1)) * tt <= (sa * v + d) * tt) by (nonlinear_arith)
        requires
            sb * lo <= sa * tt + 15 * (tt * g),
            tt * (v - 1) <= lo * v,
            sb >= 0,
            v >= 1,
            d == 15 * g * v,
    ;
    assert(tt >= 1) by (nonlinear_arith)
        requires
            tt == t0 * t0,
            t0 >= 1,
    ;
    assert(sa * v <= sb * (v + 1) + d && sb * (v - 1) <= sa * v + d) by (nonlinear_arith)
        requires
            (sa * v) * tt <= (sb * (v + 1) + d) * tt,
            (sb * (v - 1)) * tt <= (sa * v + d) * tt,
            tt >= 1,
    ;
    assert(d <= sb) by (nonlinear_arith)
        requires
            d == 15 * g * v,
            g == lw * len,
            lw == len * w,
            2 * sb >= lw * lw,
            v == 2 * u,
            w >= 128 * u,
            len > 0,
            u >= 1,
    ;
    assert(d >= 0) by (nonlinear_arith)
        requires
            d == 15 * g * v,
            g > 0,
            v >= 1,
    ;
    lemma_close_absorb(sa, sb, v, u, d);
}

} // verus!
