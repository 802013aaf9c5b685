//! Rounding to nearest, ties to even: from an exact integer significand and a
//! power of two to the magnitude pattern of the nearest binary64 number.

use vstd::prelude::*;
use vstd::arithmetic::power2::*;
use vstd::arithmetic::div_mod::*;
use vstd::arithmetic::mul::*;
use crate::scalar::{Scalar, HIDDEN_BIT, INFINITY_BITS};

verus! {

/// The number of binary digits of `n`: 0 for 0, else the `l` with
/// `2^(l-1) <= n < 2^l`.
pub open spec fn bit_len(n: nat) -> nat
    decreases n,
{
    if n == 0 {
        0
    } else {
        1 + bit_len(n / 2)
    }
}

/// How many low digits of `sig` fall below the last place that a binary64
/// number near `sig * 2^e` units can hold: 53 digits are kept, and nothing
/// finer than one unit.
pub open spec fn round_shift(sig: nat, e: int) -> int {
    if bit_len(sig) - 53 >= -e {
        bit_len(sig) - 53
    } else {
        -e
    }
}

/// The magnitude pattern of `n * 2^k` units, for `n` of at most 53 digits
/// that fills all 53 unless `k` is 0; infinity where that is out of range.
pub open spec fn assemble(n: nat, k: int) -> u64 {
    if k >= 2046 || k * HIDDEN_BIT + n >= INFINITY_BITS {
        INFINITY_BITS
    } else {
        (k * HIDDEN_BIT + n) as u64
    }
}

/// The mantissa that rounding keeps of a positive real `y`, where `y` is
/// `sig * 2^e` units exactly (`sticky` false), or lies strictly between that
/// and `(sig + 1) * 2^e` units (`sticky` true): `sig` without its digits
/// below the last place, plus 1 if those digits round up.
///
/// The digits below the last place decide the direction: more than half a
/// place rounds up, less rounds down, and exactly half goes up if `y` is
/// above `sig * 2^e` or the kept mantissa is odd. A `y` that is not exact
/// needs at least one digit of `sig` below the last place kept.
pub open spec fn kept(sig: nat, e: int, sticky: bool) -> nat {
    let sh = round_shift(sig, e);
    if sh <= 0 {
        sig * pow2((-sh) as nat)
    } else {
        let n = sig / pow2(sh as nat);
        let rem = sig % pow2(sh as nat);
        let half = pow2((sh - 1) as nat);
        if rem > half || (rem == half && (sticky || n % 2 == 1)) {
            n + 1
        } else {
            n
        }
    }
}

/// The magnitude pattern of the binary64 number nearest to a positive real
/// `y`, ties to the even mantissa, for `y` given as in `kept`: the number
/// `kept(sig, e, sticky) * 2^(e + round_shift(sig, e))` units.
pub open spec fn round_nearest(sig: nat, e: int, sticky: bool) -> u64 {
    if sig == 0 {
        0
    } else {
        assemble(kept(sig, e, sticky), e + round_shift(sig, e))
    }
}

pub proof fn lemma_bit_len_bounds(n: nat)
    ensures
        n < pow2(bit_len(n)),
        n > 0 ==> pow2((bit_len(n) - 1) as nat) <= n,
    decreases n,
{
    if n == 0 {
        lemma2_to64();
    } else {
        lemma_bit_len_bounds(n / 2);
        let l = bit_len(n / 2);
        lemma_pow2_unfold(l + 1);
        if n / 2 > 0 {
            lemma_pow2_unfold(l);
        } else {
            lemma2_to64();
        }
    }
}

pub proof fn lemma_bit_len_unique(n: nat, l: nat)
    requires
        l > 0,
        pow2((l - 1) as nat) <= n < pow2(l),
    ensures
        bit_len(n) == l,
{
    lemma_bit_len_bounds(n);
    lemma_pow2_pos((l - 1) as nat);
    let b = bit_len(n);
    if b < l {
        if b < l - 1 {
            lemma_pow2_strictly_increases(b, (l - 1) as nat);
        }
    } else if b > l {
        if b - 1 > l {
            lemma_pow2_strictly_increases(l, (b - 1) as nat);
        }
    }
}

/// `m * 2^k` units is a number of the format, written as it is stored: a
/// mantissa of at most 53 digits that has all 53 unless `k` is 0, and `k`
/// one of the 2046 powers of a finite number.
pub open spec fn representable(m: nat, k: int) -> bool {
    0 <= k <= 2045 && m < 2 * HIDDEN_BIT && (k > 0 ==> m >= HIDDEN_BIT)
}

/// A finite number is representable, and its magnitude pattern is
/// `exponent * 2^52 + mantissa`: patterns grow as the numbers do.
pub proof fn lemma_pattern_of_finite(x: Scalar)
    requires
        x.finite(),
    ensures
        representable(x.mantissa(), x.exponent()),
        x.magnitude() == x.exponent() * HIDDEN_BIT + x.mantissa(),
{
    lemma_fundamental_div_mod(x.magnitude() as int, HIDDEN_BIT as int);
}

/// Rounding does not cross a number of the format from below: a value that
/// is at most `m * 2^k` units rounds to at most that number.
pub proof fn lemma_round_not_above(sig: nat, e: int, sticky: bool, m: nat, k: int)
    requires
        representable(m, k),
        e <= k,
        sig <= m * pow2((k - e) as nat),
        sticky ==> sig < m * pow2((k - e) as nat),
    ensures
        round_nearest(sig, e, sticky) <= k * HIDDEN_BIT + m,
{
    lemma2_to64();
    lemma2_to64_rest();
    lemma_bit_len_bounds(sig);
    let len = bit_len(sig);
    let sh = round_shift(sig, e);
    let kk = e + sh;
    let d = (k - e) as nat;
    if sig == 0 {
    } else if sh <= 0 {
        let up = (-sh) as nat;
        let n = sig * pow2(up);
        lemma_pow2_adds(len, up);
        lemma_pow2_monotone(len + up, 53);
        lemma_pow2_pos(up);
        assert(n < pow2(len) * pow2(up)) by (nonlinear_arith)
            requires
                n == sig * pow2(up),
                sig < pow2(len),
                pow2(up) > 0,
        ;
        if kk == k {
            assert(sig * pow2(0) == sig && m * pow2(0) == m) by (nonlinear_arith)
                requires
                    pow2(0) == 1,
            ;
        }
    } else {
        let p = pow2(sh as nat);
        let n = sig / p;
        let rem = sig % p;
        lemma_pow2_pos(sh as nat);
        lemma_pow2_pos((sh - 1) as nat);
        lemma_pow2_adds(sh as nat, 53);
        lemma_pow2_monotone(len, (sh + 53) as nat);
        lemma_multiply_divide_lt(sig as int, p as int, pow2(53) as int);
        lemma_fundamental_div_mod(sig as int, p as int);
        lemma_mod_bound(sig as int, p as int);
        if kk == k {
            lemma_div_is_ordered(sig as int, (m * p) as int, p as int);
            lemma_div_by_multiple(m as int, p as int);
            if n == m {
                assert(p * n == m * p) by (nonlinear_arith)
                    requires
                        n == m,
                ;
            }
        } else if kk > k {
            lemma_pow2_adds(d, 53);
            lemma_pow2_monotone(d + 53, (len - 1) as nat);
            lemma_pow2_pos(d);
            assert(m * pow2(d) < pow2(d) * pow2(53)) by (nonlinear_arith)
                requires
                    m < pow2(53),
                    pow2(d) > 0,
            ;
        }
    }
}

/// Rounding does not cross a number of the format from above: a value that
/// is at least `m * 2^k` units rounds to at least that number.
pub proof fn lemma_round_not_below(sig: nat, e: int, sticky: bool, m: nat, k: int)
    requires
        representable(m, k),
        e <= k,
        sig >= m * pow2((k - e) as nat),
    ensures
        round_nearest(sig, e, sticky) >= k * HIDDEN_BIT + m,
{
    lemma2_to64();
    lemma2_to64_rest();
    lemma_bit_len_bounds(sig);
    let len = bit_len(sig);
    let sh = round_shift(sig, e);
    let kk = e + sh;
    let d = (k - e) as nat;
    lemma_pow2_pos(d);
    if sig == 0 {
        assert(m * pow2(d) >= m) by (nonlinear_arith)
            requires
                pow2(d) >= 1,
        ;
    } else {
        if kk < k {
            // the value would have too few digits to reach m * 2^k
            lemma_pow2_adds(52, d);
            assert(pow2(52) * pow2(d) <= m * pow2(d)) by (nonlinear_arith)
                requires
                    pow2(52) <= m,
                    pow2(d) > 0,
            ;
            if len < 53 + d {
                lemma_pow2_monotone(len, 52 + d);
            }
        }
        if sh <= 0 {
            let up = (-sh) as nat;
            let n = sig * pow2(up);
            lemma_pow2_pos(up);
            if kk == k {
                assert(sig * pow2(0) == sig && m * pow2(0) == m) by (nonlinear_arith)
                    requires
                        pow2(0) == 1,
                ;
            } else if kk > k {
                lemma_pow2_adds((len - 1) as nat, up);
                assert(n >= pow2((len - 1) as nat) * pow2(up)) by (nonlinear_arith)
                    requires
                        n == sig * pow2(up),
                        sig >= pow2((len - 1) as nat),
                        pow2(up) > 0,
                ;
            }
        } else {
            let p = pow2(sh as nat);
            let n = sig / p;
            lemma_pow2_pos(sh as nat);
            if kk == k {
                lemma_div_is_ordered((m * p) as int, sig as int, p as int);
                lemma_div_by_multiple(m as int, p as int);
            } else if kk > k {
                lemma_pow2_adds(sh as nat, 52);
                lemma_div_is_ordered((pow2(52) * p) as int, sig as int, p as int);
                lemma_div_by_multiple(pow2(52) as int, p as int);
            }
        }
    }
}

/// What `kept` keeps is a mantissa of the format, and it is near the value:
/// exact where no digit is dropped, else within half of the last place kept,
/// and that half is at most the value over `2^53` unless the result is
/// subnormal, where it is half a unit.
pub proof fn lemma_kept_is_near(sig: nat, e: int, sticky: bool)
    requires
        sig > 0,
    ensures
        ({
            let sh = round_shift(sig, e);
            let n = kept(sig, e, sticky);
            &&& e + sh >= 0
            &&& n <= 2 * HIDDEN_BIT
            &&& e + sh > 0 ==> n >= HIDDEN_BIT
            &&& sh <= 0 ==> n == sig * pow2((-sh) as nat)
            &&& sh > 0 ==> {
                let half = pow2((sh - 1) as nat);
                &&& pow2(sh as nat) == 2 * half
                &&& n * pow2(sh as nat) - half <= sig
                &&& sig + (if sticky { 1int } else { 0int }) <= n * pow2(sh as nat) + half
                &&& e + sh > 0 ==> half * (2 * HIDDEN_BIT) <= sig
                &&& e + sh == 0 ==> sh == -e
            }
        }),
{
    lemma2_to64();
    lemma2_to64_rest();
    lemma_bit_len_bounds(sig);
    let len = bit_len(sig);
    let sh = round_shift(sig, e);
    if sh <= 0 {
        let up = (-sh) as nat;
        let n = sig * pow2(up);
        lemma_pow2_adds(len, up);
        lemma_pow2_adds((len - 1) as nat, up);
        lemma_pow2_monotone(len + up, 53);
        lemma_pow2_pos(up);
        assert(pow2((len - 1) as nat) * pow2(up) <= n < pow2(len) * pow2(up)) by (nonlinear_arith)
            requires
                n == sig * pow2(up),
                pow2((len - 1) as nat) <= sig < pow2(len),
                pow2(up) > 0,
        ;
        if e + sh > 0 {
            lemma_pow2_monotone(52, (len - 1 + up) as nat);
        }
    } else {
        let p = pow2(sh as nat);
        let n = sig / p;
        let rem = sig % p;
        let half = pow2((sh - 1) as nat);
        lemma_pow2_pos(sh as nat);
        lemma_pow2_pos((sh - 1) as nat);
        lemma_pow2_unfold(sh as nat);
        lemma_pow2_adds(sh as nat, 53);
        lemma_pow2_monotone(len, (sh + 53) as nat);
        lemma_multiply_divide_lt(sig as int, p as int, pow2(53) as int);
        lemma_fundamental_div_mod(sig as int, p as int);
        lemma_mod_bound(sig as int, p as int);
        assert(p * n == n * p && (n + 1) * p == n * p + p) by (nonlinear_arith);
        if e + sh > 0 {
            lemma_pow2_adds((sh - 1) as nat, 53);
            assert(sh == len - 53);
            lemma_pow2_adds(sh as nat, 52);
            lemma_div_is_ordered((pow2(52) * p) as int, sig as int, p as int);
            lemma_div_by_multiple(pow2(52) as int, p as int);
        }
    }
}

/// The number that `assemble` packs: short of infinity, the pattern is that
/// of a finite number of `n * 2^k` units.
pub proof fn lemma_assemble_value(n: nat, k: int)
    requires
        0 <= k,
        n <= 2 * HIDDEN_BIT,
        k > 0 ==> n >= HIDDEN_BIT,
        assemble(n, k) < INFINITY_BITS,
    ensures
        ({
            let r = Scalar { bits: assemble(n, k) };
            &&& r.finite()
            &&& !r.negative()
            &&& r.mantissa() * pow2(r.exponent() as nat) == n * pow2(k as nat)
        }),
{
    lemma2_to64();
    lemma2_to64_rest();
    let b = assemble(n, k);
    if n < HIDDEN_BIT {
        lemma_fundamental_div_mod_converse(b as int, HIDDEN_BIT as int, 0, n as int);
    } else if n < 2 * HIDDEN_BIT {
        lemma_fundamental_div_mod_converse(b as int, HIDDEN_BIT as int, k + 1, n - HIDDEN_BIT);
    } else {
        lemma_fundamental_div_mod_converse(b as int, HIDDEN_BIT as int, k + 2, 0);
        lemma_pow2_unfold((k + 1) as nat);
        assert(HIDDEN_BIT * pow2((k + 1) as nat) == n * pow2(k as nat)) by (nonlinear_arith)
            requires
                n == 2 * HIDDEN_BIT,
                pow2((k + 1) as nat) == 2 * pow2(k as nat),
        ;
    }
}

/// Rounding keeps a value whose digits below the last place are all zero,
/// as long as it is not too large: the result is finite and has the size
/// `sig * 2^e` exactly.
pub proof fn lemma_round_exact_multiple(sig: nat, e: int)
    requires
        sig > 0,
        e >= 0,
        round_shift(sig, e) > 0 ==> sig % pow2(round_shift(sig, e) as nat) == 0,
        e + round_shift(sig, e) <= 2044,
    ensures
        round_nearest(sig, e, false) < INFINITY_BITS,
        (Scalar { bits: round_nearest(sig, e, false) }).finite(),
        !(Scalar { bits: round_nearest(sig, e, false) }).negative(),
        (Scalar { bits: round_nearest(sig, e, false) }).size() == sig * pow2(e as nat),
{
    lemma2_to64();
    lemma2_to64_rest();
    lemma_kept_is_near(sig, e, false);
    let sh = round_shift(sig, e);
    let k = (e + sh) as nat;
    let n = kept(sig, e, false);
    assert(assemble(n, e + sh) < INFINITY_BITS);
    lemma_assemble_value(n, e + sh);
    let r = Scalar { bits: round_nearest(sig, e, false) };
    if sh <= 0 {
        let up = (-sh) as nat;
        lemma_pow2_adds(up, k);
        assert(r.size() == sig * pow2(e as nat)) by (nonlinear_arith)
            requires
                r.size() == n * pow2(k),
                n == sig * pow2(up),
                pow2(up) * pow2(k) == pow2(e as nat),
        ;
    } else {
        let p = pow2(sh as nat);
        lemma_pow2_pos(sh as nat);
        lemma_pow2_pos((sh - 1) as nat);
        lemma_fundamental_div_mod(sig as int, p as int);
        lemma_pow2_adds(sh as nat, e as nat);
        assert(n == sig / p);
        assert(r.size() == sig * pow2(e as nat)) by (nonlinear_arith)
            requires
                r.size() == n * pow2(k),
                sig == p * n,
                pow2(k) == p * pow2(e as nat),
        ;
    }
}

/// Appending `n` zero digits to a positive number adds `n` to its length.
pub proof fn lemma_bit_len_shifted(j: nat, n: nat)
    requires
        j > 0,
    ensures
        bit_len(j * pow2(n)) == bit_len(j) + n,
{
    lemma_bit_len_bounds(j);
    let len = bit_len(j);
    lemma_pow2_adds(len, n);
    lemma_pow2_adds((len - 1) as nat, n);
    lemma_pow2_pos(n);
    assert(pow2((len - 1) as nat) * pow2(n) <= j * pow2(n) < pow2(len) * pow2(n)) by (nonlinear_arith)
        requires
            pow2((len - 1) as nat) <= j < pow2(len),
            pow2(n) > 0,
    ;
    lemma_bit_len_unique(j * pow2(n), len + n);
}

/// A number of the format rounds to itself.
pub proof fn lemma_round_exact(m: nat, k: int)
    requires
        representable(m, k),
    ensures
        round_nearest(m, k, false) == k * HIDDEN_BIT + m,
{
    lemma2_to64();
    assert(m * pow2(0) == m) by (nonlinear_arith)
        requires
            pow2(0) == 1,
    ;
    lemma_round_not_above(m, k, false, m, k);
    lemma_round_not_below(m, k, false, m, k);
}

proof fn lemma_shl_one(k: u32)
    requires
        k < 128,
    ensures
        (1u128 << k) == pow2(k as nat),
    decreases k,
{
    if k == 0 {
        assert(1u128 << 0u32 == 1u128) by (bit_vector);
        lemma2_to64();
    } else {
        let j: u32 = (k - 1) as u32;
        lemma_shl_one(j);
        assert((1u128 << k) == 2 * (1u128 << j)) by (bit_vector)
            requires
                0 < k < 128,
                j == k - 1,
        ;
        lemma_pow2_unfold(k as nat);
    }
}

/// Two to the power `k`.
pub fn pow2_u128(k: u32) -> (r: u128)
    requires
        k < 128,
    ensures
        r == pow2(k as nat),
{
    proof {
        lemma_shl_one(k);
    }
    1u128 << k
}

/// The number of binary digits of `x`.
pub fn bit_len_u128(x: u128) -> (r: u32)
    ensures
        r == bit_len(x as nat),
        r <= 128,
        x < pow2(r as nat),
        x > 0 ==> r >= 1 && pow2((r - 1) as nat) <= x,
{
    let mut y: u128 = x;
    let mut n: u32 = 0;
    proof {
        lemma2_to64();
    }
    while y > 0
        invariant
            n <= 128,
            bit_len(x as nat) == n + bit_len(y as nat),
            y as nat * pow2(n as nat) <= x,
        decreases y,
    {
        proof {
            lemma_pow2_unfold((n + 1) as nat);
            assert((y / 2) as nat * pow2((n + 1) as nat) <= y as nat * pow2(n as nat)) by (nonlinear_arith)
                requires
                    pow2((n + 1) as nat) == 2 * pow2(n as nat),
            ;
            if n == 128 {
                lemma_pow2_unfold(128);
                lemma_shl_one(127);
                assert((1u128 << 127u32) == 0x8000_0000_0000_0000_0000_0000_0000_0000u128) by (bit_vector);
                assert(y as nat * pow2(128) >= pow2(128)) by (nonlinear_arith)
                    requires
                        y >= 1,
                ;
            }
        }
        y = y / 2;
        n = n + 1;
    }
    proof {
        lemma_bit_len_bounds(x as nat);
    }
    n
}

pub proof fn lemma_pow2_monotone(a: nat, b: nat)
    requires
        a <= b,
    ensures
        pow2(a) <= pow2(b),
{
    if a < b {
        lemma_pow2_strictly_increases(a, b);
    }
}

/// The largest significand that `round_pack` takes is below this: two to
/// the power 120.
pub const SIG_LIMIT: u128 = 0x0100_0000_0000_0000_0000_0000_0000_0000;

pub proof fn lemma_sig_limit()
    ensures
        pow2(120) == SIG_LIMIT,
{
    lemma_shl_one(120);
    assert((1u128 << 120u32) == 0x0100_0000_0000_0000_0000_0000_0000_0000u128) by (bit_vector);
}

/// `assemble`, computed.
fn assemble_exec(n: u64, k: i64) -> (r: u64)
    requires
        n <= 2 * HIDDEN_BIT,
        0 <= k,
    ensures
        r == assemble(n as nat, k as int),
        r <= INFINITY_BITS,
{
    if k >= 2046 {
        INFINITY_BITS
    } else {
        let b: u64 = (k as u64) * HIDDEN_BIT + n;
        if b >= INFINITY_BITS {
            INFINITY_BITS
        } else {
            b
        }
    }
}

/// `round_nearest`, computed.
pub fn round_pack(sig: u128, e: i64, sticky: bool) -> (r: u64)
    requires
        sig < SIG_LIMIT,
        -8192 <= e <= 8192,
    ensures
        r == round_nearest(sig as nat, e as int, sticky),
        r <= INFINITY_BITS,
{
    if sig == 0 {
        return 0;
    }
    let len: i64 = bit_len_u128(sig) as i64;
    proof {
        lemma_sig_limit();
        lemma2_to64_rest();
        if len > 120 {
            lemma_pow2_monotone(120, (len - 1) as nat);
        }
    }
    let sh: i64 = if len - 53 >= -e { len - 53 } else { -e };
    if sh <= 0 {
        let p: u128 = pow2_u128((-sh) as u32);
        proof {
            lemma_pow2_adds(len as nat, (-sh) as nat);
            lemma_pow2_monotone((len - sh) as nat, 53);
            lemma_pow2_pos((-sh) as nat);
            assert((sig as nat) * (p as nat) < pow2(len as nat) * pow2((-sh) as nat)) by (nonlinear_arith)
                requires
                    (sig as nat) < pow2(len as nat),
                    p as nat == pow2((-sh) as nat),
                    p > 0,
            ;
        }
        let n: u128 = sig * p;
        assemble_exec(n as u64, e + sh)
    } else if sh > 120 {
        proof {
            lemma_pow2_monotone(120, (sh - 1) as nat);
            lemma_pow2_strictly_increases((sh - 1) as nat, sh as nat);
            lemma_basic_div(sig as int, pow2(sh as nat) as int);
            lemma_small_mod(sig as nat, pow2(sh as nat));
        }
        0
    } else {
        let p: u128 = pow2_u128(sh as u32);
        let half: u128 = pow2_u128((sh - 1) as u32);
        proof {
            lemma_pow2_pos(sh as nat);
        }
        let n: u128 = sig / p;
        let rem: u128 = sig % p;
        proof {
            lemma_pow2_adds(sh as nat, 53);
            lemma_pow2_monotone(len as nat, (sh + 53) as nat);
            lemma_multiply_divide_lt(sig as int, p as int, pow2(53) as int);
        }
        let up: bool = rem > half || (rem == half && (sticky || n % 2 == 1));
        let m: u64 = if up { n as u64 + 1 } else { n as u64 };
        assemble_exec(m, e + sh)
    }
}

} // verus!
