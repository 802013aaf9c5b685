//! The source of random numbers: a PCG stream addressed by seed and position.

use vstd::prelude::*;
use rand::RngCore;
use rand_pcg::Pcg64Mcg;
use vstd::arithmetic::power2::{
    pow2, lemma2_to64, lemma2_to64_rest, lemma_pow2_adds, lemma_pow2_pos, lemma_pow2_unfold,
};
use vstd::arithmetic::div_mod::{lemma_fundamental_div_mod_converse, lemma_mod_multiples_basic};
use crate::scalar::{scalar, Scalar, HIDDEN_BIT, ONE_BITS, TWO_BITS, SIGN_BIT};
use crate::arith::round_signed;
use crate::rounding::{
    bit_len, round_nearest, round_shift, lemma_bit_len_bounds, lemma_bit_len_shifted,
    lemma_bit_len_unique, lemma_pattern_of_finite, lemma_pow2_monotone,
    lemma_round_exact_multiple,
};
use crate::accuracy::lemma_order_is_size_order;

verus! {

/// The word at `position` (from 0) of the stream that `Pcg64Mcg` gives for
/// `seed`.
pub uninterp spec fn stream_word(seed: u128, position: u64) -> u64;

/// Makes the generator `rand_pcg::Pcg64Mcg::new(seed)`, moves it on by
/// `position` steps with `advance`, and draws one word with `next_u64`.
/// Trusted: the word depends on the seed and the position alone.
#[verifier::external_body]
fn word_at(seed: u128, position: u64) -> (w: u64)
    ensures
        w == stream_word(seed, position),
{
    let mut generator = Pcg64Mcg::new(seed);
    generator.advance(position as u128);
    generator.next_u64()
}

/// A place in a stream of random words. The same seed gives the same
/// stream, so a computation that starts from an equal generator draws equal
/// numbers.
#[derive(Clone, Copy, Debug)]
pub struct Generator {
    pub seed: u128,
    pub position: u64,
}

/// The number that a word stands for, from -1 up to but not 1: the top 52
/// bits of the word as the fraction of a number from 1 up to 2, less 1, times
/// 2, less 1. No step of this rounds.
pub open spec fn signed_unit_spec(word: u64) -> Scalar {
    scalar((ONE_BITS + word / 4096) as u64).sub_spec(scalar(ONE_BITS)).mul_spec(
        scalar(TWO_BITS),
    ).add_spec(scalar((ONE_BITS + SIGN_BIT) as u64))
}

/// The value of the number that a word stands for, in units: with `k` the
/// top 52 bits of the word, `k / 2^51 - 1`, which is `(k - 2^51) * 2^1023`
/// units.
pub open spec fn signed_unit_units(word: u64) -> int {
    (word / 4096 - 0x8_0000_0000_0000) * pow2(1023)
}

/// A number from 1 up to 2, less 1: the fraction bits `k` as `k * 2^1022`
/// units, exactly.
proof fn lemma_fraction_of(k: nat)
    requires
        0 < k < HIDDEN_BIT,
    ensures
        ({
            let b = scalar((ONE_BITS + k) as u64).sub_spec(scalar(ONE_BITS));
            b.finite() && !b.negative() && b.size() == k * pow2(1022)
        }),
{
    reveal(Scalar::add_spec);
    lemma2_to64();
    lemma2_to64_rest();
    let a = scalar((ONE_BITS + k) as u64);
    let one = scalar(ONE_BITS);
    lemma_fundamental_div_mod_converse((ONE_BITS + k) as int, HIDDEN_BIT as int, 1023, k as int);
    assert(a.mantissa() == HIDDEN_BIT + k && a.exponent() == 1022);
    assert(one.neg_spec().mantissa() == HIDDEN_BIT && one.neg_spec().exponent() == 1022);
    let sum = a.signed_mantissa() * pow2(0) + one.neg_spec().signed_mantissa() * pow2(0);
    assert(sum == k) by (nonlinear_arith)
        requires
            sum == (HIDDEN_BIT + k) * pow2(0) + (-(HIDDEN_BIT as int)) * pow2(0),
            pow2(0) == 1,
    ;
    assert(a.sub_spec(one) == round_signed(k as int, 1022, false));
    lemma_bit_len_bounds(k);
    if bit_len(k) >= 53 {
        lemma_pow2_monotone(52, (bit_len(k) - 1) as nat);
    }
    lemma_round_exact_multiple(k, 1022);
}

/// Twice a number of middling size is exact.
proof fn lemma_double(b: Scalar)
    requires
        b.finite(),
        !b.negative(),
        51 <= b.exponent() <= 2000,
    ensures
        b.mul_spec(scalar(TWO_BITS)).finite(),
        !b.mul_spec(scalar(TWO_BITS)).negative(),
        b.mul_spec(scalar(TWO_BITS)).size() == 2 * b.size(),
{
    reveal(Scalar::mul_spec);
    lemma2_to64();
    lemma2_to64_rest();
    lemma_pattern_of_finite(b);
    let two = scalar(TWO_BITS);
    assert(two.mantissa() == HIDDEN_BIT && two.exponent() == 1023);
    let m = b.mantissa();
    let eb = b.exponent();
    let sig = m * two.mantissa();
    let e = eb + 1023 - 1074;
    lemma_bit_len_unique(m, 53);
    lemma_bit_len_shifted(m, 52);
    assert(sig == m * pow2(52));
    assert(round_shift(sig, e) == 52);
    lemma_mod_multiples_basic(m as int, pow2(52) as int);
    lemma_round_exact_multiple(sig, e);
    lemma_pow2_adds(52, e as nat);
    lemma_pow2_unfold((eb + 1) as nat);
    assert(sig * pow2(e as nat) == 2 * (m * pow2(eb as nat))) by (nonlinear_arith)
        requires
            sig == m * pow2(52),
            pow2(52) * pow2(e as nat) == 2 * pow2(eb as nat),
    ;
    assert(sig > 0) by (nonlinear_arith)
        requires
            sig == m * pow2(52),
            m > 0,
            pow2(52) > 0,
    ;
}

/// A number below 2, less 1: from `k * 2^1023` units to `(k - 2^51) *
/// 2^1023` units, exactly.
proof fn lemma_less_one(c: Scalar, k: nat)
    requires
        c.finite(),
        !c.negative(),
        0 < k < HIDDEN_BIT,
        c.size() == k * pow2(1023),
    ensures
        ({
            let d = c.add_spec(scalar((ONE_BITS + SIGN_BIT) as u64));
            d.finite() && d.units() == (k - 0x8_0000_0000_0000) * pow2(1023)
        }),
{
    reveal(Scalar::add_spec);
    lemma2_to64();
    lemma2_to64_rest();
    let neg_one = scalar((ONE_BITS + SIGN_BIT) as u64);
    let d = c.add_spec(neg_one);
    assert(neg_one.mantissa() == HIDDEN_BIT && neg_one.exponent() == 1022 && neg_one.negative());
    lemma_pattern_of_finite(c);
    let mc = c.mantissa();
    let ec = c.exponent();
    let top = pow2(1023);
    let half: int = 0x8_0000_0000_0000;
    lemma_pow2_pos(1023);
    lemma_pow2_unfold(1023);
    // the exponent of c lies from 1 to 1022
    if ec == 0 {
        lemma_pow2_monotone(53, 1023);
        assert(k * top >= top) by (nonlinear_arith)
            requires
                k >= 1,
                top > 0,
        ;
        assert(false);
    }
    if ec >= 1023 {
        lemma_pow2_monotone(1023, ec as nat);
        assert(mc * pow2(ec as nat) > k * top) by (nonlinear_arith)
            requires
                mc >= HIDDEN_BIT,
                k < HIDDEN_BIT,
                pow2(ec as nat) >= top,
                top > 0,
        ;
        assert(false);
    }
    let g = pow2((1022 - ec) as nat);
    let h = pow2((1023 - ec) as nat);
    let pe = pow2(ec as nat);
    lemma_pow2_adds((1022 - ec) as nat, ec as nat);
    lemma_pow2_adds((1023 - ec) as nat, ec as nat);
    lemma_pow2_unfold((1023 - ec) as nat);
    lemma_pow2_pos(ec as nat);
    lemma_pow2_pos((1022 - ec) as nat);
    let sum = c.signed_mantissa() * pow2(0) + neg_one.signed_mantissa() * g;
    assert(sum == mc - HIDDEN_BIT * g) by (nonlinear_arith)
        requires
            sum == mc * pow2(0) + (-(HIDDEN_BIT as int)) * g,
            pow2(0) == 1,
    ;
    assert(d == round_signed(sum, ec, false));
    assert(sum * pe == (k - half) * h * pe) by (nonlinear_arith)
        requires
            sum == mc - HIDDEN_BIT * g,
            mc * pe == k * top,
            top == h * pe,
            h == 2 * g,
            HIDDEN_BIT == 2 * half,
    ;
    assert(sum == (k - half) * h) by (nonlinear_arith)
        requires
            sum * pe == ((k - half) * h) * pe,
            pe > 0,
    ;
    if k == half {
        assert(sum == 0) by (nonlinear_arith)
            requires
                sum == (k - half) * h,
                k == half,
        ;
        assert(d.size() == 0) by (nonlinear_arith)
            requires
                d.mantissa() == 0,
                d.size() == d.mantissa() * pow2(d.exponent() as nat),
        ;
        assert((k - half) * top == 0) by (nonlinear_arith)
            requires
                k == half,
        ;
    } else {
        let j: nat = if k < half { (half - k) as nat } else { (k - half) as nat };
        let sig: nat = j * h;
        assert(sig > 0) by (nonlinear_arith)
            requires
                sig == j * h,
                j > 0,
                h > 0,
        ;
        assert(if k < half { sum == -(sig as int) } else { sum == sig as int }) by (nonlinear_arith)
            requires
                sum == (k - half) * h,
                sig == j * h,
                j == (if k < half { half - k } else { k - half }),
        ;
        lemma_bit_len_bounds(j);
        if bit_len(j) >= 53 {
            lemma_pow2_monotone(52, (bit_len(j) - 1) as nat);
        }
        lemma_bit_len_shifted(j, (1023 - ec) as nat);
        let sh = round_shift(sig, ec);
        assert(sh == bit_len(j) + 970 - ec);
        if sh > 0 {
            let rest = (1023 - ec - sh) as nat;
            lemma_pow2_adds(rest, sh as nat);
            lemma_pow2_pos(sh as nat);
            assert(sig == (j * pow2(rest)) * pow2(sh as nat)) by (nonlinear_arith)
                requires
                    sig == j * h,
                    h == pow2(rest) * pow2(sh as nat),
            ;
            lemma_mod_multiples_basic((j * pow2(rest)) as int, pow2(sh as nat) as int);
        }
        lemma_round_exact_multiple(sig, ec);
        let r = scalar(round_nearest(sig, ec, false));
        assert(d.size() == r.size());
        assert(r.size() == j * top) by (nonlinear_arith)
            requires
                r.size() == sig * pe,
                sig == j * h,
                top == h * pe,
        ;
        assert(d.units() == (k - half) * top) by (nonlinear_arith)
            requires
                d.size() == j * top,
                d.units() == (if k < half { -(d.size() as int) } else { d.size() as int }),
                j == (if k < half { half - k } else { k - half }),
        ;
    }
}

/// What a word stands for is a number from -1 up to but not 1: exactly
/// `signed_unit_units` units. None of the three operations rounds.
pub proof fn lemma_signed_unit_value(word: u64)
    ensures
        signed_unit_spec(word).finite(),
        signed_unit_spec(word).units() == signed_unit_units(word),
        scalar((ONE_BITS + SIGN_BIT) as u64).le_spec(signed_unit_spec(word)),
        signed_unit_spec(word).lt_spec(scalar(ONE_BITS)),
{
    lemma2_to64();
    lemma2_to64_rest();
    let k = (word / 4096) as nat;
    let one = scalar(ONE_BITS);
    let two = scalar(TWO_BITS);
    let neg_one = scalar((ONE_BITS + SIGN_BIT) as u64);
    let a = scalar((ONE_BITS + word / 4096) as u64);
    let b = a.sub_spec(one);
    let c = b.mul_spec(two);
    let d = c.add_spec(neg_one);
    assert(d == signed_unit_spec(word));
    let top = pow2(1023);
    let half: int = 0x8_0000_0000_0000;
    lemma_pow2_adds(51, 1023);
    lemma_pow2_adds(52, 1022);
    lemma_pow2_pos(1023);
    lemma_pow2_pos(1022);
    lemma_pow2_unfold(1023);
    assert(one.mantissa() == HIDDEN_BIT && one.exponent() == 1022);
    assert(one.size() == pow2(1074));
    if k == 0 {
        reveal(Scalar::add_spec);
        reveal(Scalar::mul_spec);
        assert(one.neg_spec() == neg_one);
        assert(b == round_signed(
            one.signed_mantissa() * pow2(0) + neg_one.signed_mantissa() * pow2(0),
            1022,
            false,
        ));
        assert(one.signed_mantissa() * pow2(0) + neg_one.signed_mantissa() * pow2(0) == 0)
            by (nonlinear_arith)
            requires
                one.signed_mantissa() == -neg_one.signed_mantissa(),
        ;
        assert(b == scalar(0));
        assert(c == scalar(0));
        let sig: nat = (HIDDEN_BIT * pow2(1022)) as nat;
        assert(c.signed_mantissa() * pow2(0) + neg_one.signed_mantissa() * pow2(1022) == -(sig
            as int)) by (nonlinear_arith)
            requires
                c.signed_mantissa() == 0,
                neg_one.signed_mantissa() == -(HIDDEN_BIT as int),
                sig == HIDDEN_BIT * pow2(1022),
        ;
        assert(d == round_signed(-(sig as int), 0, false));
        lemma_bit_len_unique(HIDDEN_BIT as nat, 53);
        lemma_bit_len_shifted(HIDDEN_BIT as nat, 1022);
        assert(round_shift(sig, 0) == 1022);
        lemma_mod_multiples_basic(HIDDEN_BIT as int, pow2(1022) as int);
        lemma_round_exact_multiple(sig, 0);
        let r = scalar(round_nearest(sig, 0, false));
        assert(d.size() == r.size());
        assert(r.size() == sig) by (nonlinear_arith)
            requires
                r.size() == sig * pow2(0),
                pow2(0) == 1,
        ;
        assert((k - half) * top == -(sig as int)) by (nonlinear_arith)
            requires
                k == 0,
                sig == pow2(1074),
                pow2(1074) == pow2(51) * top,
                pow2(51) == half,
        ;
    } else {
        lemma_fraction_of(k);
        lemma_pattern_of_finite(b);
        let mb = b.mantissa();
        let eb = b.exponent();
        // b lies from 2^1022 units to below 2^1074
        assert(k * pow2(1022) >= pow2(1022) && k * pow2(1022) < pow2(1074)) by (nonlinear_arith)
            requires
                1 <= k < HIDDEN_BIT,
                pow2(1074) == HIDDEN_BIT * pow2(1022),
                pow2(1022) > 0,
        ;
        if eb <= 50 {
            lemma_pow2_monotone(eb as nat, 50);
            lemma_pow2_adds(53, 50);
            lemma_pow2_monotone(103, 1022);
            assert(mb * pow2(eb as nat) < pow2(103)) by (nonlinear_arith)
                requires
                    mb < 2 * HIDDEN_BIT,
                    pow2(eb as nat) <= pow2(50),
                    pow2(103) == pow2(53) * pow2(50),
                    pow2(53) == 2 * HIDDEN_BIT,
                    pow2(50) > 0,
            ;
            assert(false);
        }
        if eb >= 2001 {
            lemma_pow2_monotone(1022, eb as nat);
            assert(mb * pow2(eb as nat) >= pow2(1074)) by (nonlinear_arith)
                requires
                    mb >= HIDDEN_BIT,
                    pow2(eb as nat) >= pow2(1022),
                    pow2(1074) == HIDDEN_BIT * pow2(1022),
            ;
            assert(false);
        }
        lemma_double(b);
        assert(c.size() == k * top) by (nonlinear_arith)
            requires
                c.size() == 2 * (k * pow2(1022)),
                top == 2 * pow2(1022),
        ;
        lemma_less_one(c, k);
    }
    // from the value to the order
    lemma_order_is_size_order(d, one);
    lemma_order_is_size_order(one, d);
    assert(d.size() <= pow2(1074) && (!d.negative() ==> d.size() < pow2(1074))) by (nonlinear_arith)
        requires
            d.units() == (k - half) * top,
            d.units() == (if d.negative() { -(d.size() as int) } else { d.size() as int }),
            0 <= k < 2 * half,
            pow2(1074) == half * top,
            top > 0,
    ;
}

/// The number that a word stands for: from -1 up to but not 1.
pub fn signed_unit(word: u64) -> (r: Scalar)
    ensures
        r == signed_unit_spec(word),
        r.finite(),
        r.units() == signed_unit_units(word),
        scalar((ONE_BITS + SIGN_BIT) as u64).le_spec(r),
        r.lt_spec(scalar(ONE_BITS)),
{
    proof {
        lemma_signed_unit_value(word);
    }
    let one = Scalar::from_bits(ONE_BITS);
    let from_one_to_two = Scalar::from_bits(ONE_BITS + word / 4096);
    from_one_to_two.sub(one).mul(Scalar::from_bits(TWO_BITS)).add(
        Scalar::from_bits(ONE_BITS + SIGN_BIT),
    )
}

impl Generator {
    /// The generator `n` words further on.
    pub open spec fn skip(self, n: nat) -> Generator {
        Generator { seed: self.seed, position: (self.position + n) as u64 }
    }

    /// The `k`-th word from here.
    pub open spec fn word(self, k: nat) -> u64 {
        stream_word(self.seed, (self.position + k) as u64)
    }

    /// At least `n` words are left before the position runs out.
    pub open spec fn has(self, n: nat) -> bool {
        self.position + n <= u64::MAX
    }

    pub fn new(seed: u128) -> (g: Generator)
        ensures
            g.seed == seed,
            g.position == 0,
    {
        Generator { seed, position: 0 }
    }

    pub fn has_words(&self, n: u64) -> (r: bool)
        ensures
            r == self.has(n as nat),
    {
        self.position <= u64::MAX - n
    }

    /// Draws the next word.
    pub fn next_word(&mut self) -> (w: u64)
        requires
            old(self).has(1),
        ensures
            w == old(self).word(0),
            *final(self) == old(self).skip(1),
    {
        let w: u64 = word_at(self.seed, self.position);
        self.position = self.position + 1;
        w
    }

    /// Draws the next number from -1 up to but not 1.
    pub fn next_signed_unit(&mut self) -> (r: Scalar)
        requires
            old(self).has(1),
        ensures
            r == signed_unit_spec(old(self).word(0)),
            *final(self) == old(self).skip(1),
    {
        signed_unit(self.next_word())
    }
}

} // verus!
