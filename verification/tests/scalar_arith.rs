use raytracer::scalar::Scalar;

fn s(x: f64) -> Scalar {
    Scalar::from_bits(x.to_bits())
}

fn same(got: Scalar, want: f64) -> bool {
    if want.is_nan() {
        got.is_nan()
    } else {
        got.to_bits() == want.to_bits()
    }
}

fn special_values() -> Vec<f64> {
    vec![
        0.0,
        -0.0,
        1.0,
        -1.0,
        2.0,
        0.5,
        3.0,
        0.1,
        1e-8,
        1e-4,
        255.0,
        1.0 / 3.0,
        f64::MIN_POSITIVE,
        f64::MIN_POSITIVE / 2.0,
        f64::from_bits(1),
        f64::from_bits(2),
        f64::from_bits(3),
        f64::from_bits(0x000F_FFFF_FFFF_FFFF),
        f64::from_bits(0x0010_0000_0000_0001),
        f64::MAX,
        -f64::MAX,
        f64::EPSILON,
        1.0 + f64::EPSILON,
        1.0 - f64::EPSILON / 2.0,
        f64::INFINITY,
        f64::NEG_INFINITY,
        f64::NAN,
        1e300,
        1e-300,
        -1e-310,
        4503599627370496.0,
        9007199254740992.0,
        9007199254740993.0,
        6.02214076e23,
        -2.5,
    ]
}

fn next(state: &mut u64) -> u64 {
    let mut x = *state;
    x ^= x << 13;
    x ^= x >> 7;
    x ^= x << 17;
    *state = x;
    x
}

/// Patterns spread over all exponents, and patterns near 1.
fn sample(state: &mut u64) -> f64 {
    let w = next(state);
    match w % 4 {
        0 => f64::from_bits(next(state)),
        1 => f64::from_bits(0x3FF0_0000_0000_0000 ^ (next(state) >> 10)),
        2 => f64::from_bits((next(state) % 0x0040_0000_0000_0000) | (w & 0x8000_0000_0000_0000)),
        _ => f64::from_bits(0x7FE0_0000_0000_0000 ^ (next(state) >> 9)),
    }
}

#[test]
fn mul_agrees_with_hardware_on_special_values() {
    let v = special_values();
    for &a in &v {
        for &b in &v {
            assert!(same(s(a).mul(s(b)), a * b), "{:e} * {:e}", a, b);
        }
    }
}

#[test]
fn mul_agrees_with_hardware_on_a_sweep() {
    let mut state = 0x9E37_79B9_7F4A_7C15u64;
    for _ in 0..200_000 {
        let a = sample(&mut state);
        let b = sample(&mut state);
        assert!(same(s(a).mul(s(b)), a * b), "{:e} * {:e}", a, b);
    }
}

#[test]
fn order_agrees_with_hardware() {
    let v = special_values();
    for &a in &v {
        for &b in &v {
            assert_eq!(s(a).lt(s(b)), a < b);
            assert_eq!(s(a).le(s(b)), a <= b);
            assert_eq!(s(a).gt(s(b)), a > b);
            assert_eq!(s(a).ge(s(b)), a >= b);
            assert_eq!(s(a).eq_value(s(b)), a == b);
        }
    }
}

#[test]
fn classes_agree_with_hardware() {
    for &a in &special_values() {
        assert_eq!(s(a).is_nan(), a.is_nan());
        assert_eq!(s(a).is_infinite(), a.is_infinite());
        assert_eq!(s(a).is_finite(), a.is_finite());
        assert_eq!(s(a).is_normal(), a.is_normal());
        assert_eq!(s(a).is_sign_negative(), a.is_sign_negative());
        assert_eq!(s(a).is_sign_positive(), a.is_sign_positive());
        assert_eq!(s(a).is_zero(), a == 0.0);
        assert!(same(s(a).neg(), -a));
        assert!(same(s(a).abs(), a.abs()));
        assert!(same(s(a).signum(), a.signum()));
    }
}

#[test]
fn add_and_sub_agree_with_hardware_on_special_values() {
    let v = special_values();
    for &a in &v {
        for &b in &v {
            assert!(same(s(a).add(s(b)), a + b), "{:e} + {:e}", a, b);
            assert!(same(s(a).sub(s(b)), a - b), "{:e} - {:e}", a, b);
        }
    }
}

#[test]
fn add_and_sub_agree_with_hardware_on_a_sweep() {
    let mut state = 0xD1B5_4A32_D192_ED03u64;
    for _ in 0..200_000 {
        let a = sample(&mut state);
        let b = sample(&mut state);
        assert!(same(s(a).add(s(b)), a + b), "{:e} + {:e}", a, b);
        assert!(same(s(a).sub(s(b)), a - b), "{:e} - {:e}", a, b);
    }
}

#[test]
fn add_agrees_with_hardware_on_close_exponents() {
    let mut state = 0x2545_F491_4F6C_DD1Du64;
    for _ in 0..200_000 {
        let a = f64::from_bits(next(&mut state));
        let shift = next(&mut state) % 140;
        let exponent = ((a.to_bits() >> 52) & 0x7FF).saturating_sub(70) + shift;
        let b = f64::from_bits(
            (next(&mut state) & 0x800F_FFFF_FFFF_FFFF) | ((exponent & 0x7FF) << 52),
        );
        assert!(same(s(a).add(s(b)), a + b), "{:e} + {:e}", a, b);
    }
}

#[test]
fn div_agrees_with_hardware_on_special_values() {
    let v = special_values();
    for &a in &v {
        for &b in &v {
            assert!(same(s(a).div(s(b)), a / b), "{:e} / {:e}", a, b);
        }
    }
}

#[test]
fn div_agrees_with_hardware_on_a_sweep() {
    let mut state = 0x8CB9_2BA7_2F3D_8DD7u64;
    for _ in 0..200_000 {
        let a = sample(&mut state);
        let b = sample(&mut state);
        assert!(same(s(a).div(s(b)), a / b), "{:e} / {:e}", a, b);
    }
}

#[test]
fn sqrt_agrees_with_hardware_on_special_values() {
    for &a in &special_values() {
        assert!(same(s(a).sqrt(), a.sqrt()), "sqrt {:e}", a);
    }
    for k in 0..4096u64 {
        let a = k as f64;
        assert!(same(s(a).sqrt(), a.sqrt()), "sqrt {:e}", a);
        let b = f64::from_bits(k);
        assert!(same(s(b).sqrt(), b.sqrt()), "sqrt {:e}", b);
    }
}

#[test]
fn sqrt_agrees_with_hardware_on_a_sweep() {
    let mut state = 0xABCD_EF01_2345_6789u64;
    for _ in 0..100_000 {
        let a = sample(&mut state).abs();
        assert!(same(s(a).sqrt(), a.sqrt()), "sqrt {:e}", a);
        let b = a.sqrt();
        assert!(same(s(b).mul(s(b)).sqrt(), (b * b).sqrt()), "sqrt of square {:e}", b);
    }
}

#[test]
fn ties_round_to_even_as_hardware_does() {
    // sums that fall exactly between two numbers
    for i in 0..3000u64 {
        let a = f64::from_bits(0x4330_0000_0000_0000 + i);
        for &b in &[0.5, -0.5, 0.25, 0.75, 1.5, 2.5, -1.5, 0.499_999_999_999_999_94] {
            assert!(same(s(a).add(s(b)), a + b), "{:e} + {:e}", a, b);
            assert!(same(s(a).sub(s(b)), a - b), "{:e} - {:e}", a, b);
            assert!(same(s(b).sub(s(a)), b - a), "{:e} - {:e}", b, a);
        }
    }
    // products of 27-digit factors have 54 digits: the last one is a tie or nothing
    for i in 0..300u64 {
        for j in 0..300u64 {
            let a = (0x400_0000 + i) as f64;
            let b = (0x400_0000 + j) as f64 * 1.5;
            assert!(same(s(a).mul(s(b)), a * b), "{:e} * {:e}", a, b);
            let c = f64::from_bits(0x3FF0_0000_0000_0000 + (i << 25));
            let d = f64::from_bits(0x3FF0_0000_0000_0000 + (j << 26) + 1);
            assert!(same(s(c).mul(s(d)), c * d), "{:e} * {:e}", c, d);
        }
    }
}

#[test]
fn results_near_the_subnormal_range_agree_with_hardware() {
    let tiny = [
        f64::MIN_POSITIVE,
        f64::MIN_POSITIVE * 1.5,
        f64::MIN_POSITIVE * 3.0,
        f64::from_bits(1),
        f64::from_bits(2),
        f64::from_bits(3),
        f64::from_bits(5),
        f64::from_bits(0x000F_FFFF_FFFF_FFFF),
        f64::from_bits(0x0008_0000_0000_0001),
        f64::from_bits(0x0020_0000_0000_0001),
    ];
    let factors = [0.5, 0.25, 0.75, 1.5, 0.1, 0.3, 1e-3, 3.0, 1.0 / 3.0, 0.499_999_999_999_999_94, 2.0, 1e10];
    for &a in &tiny {
        for &b in &factors {
            assert!(same(s(a).mul(s(b)), a * b), "{:e} * {:e}", a, b);
            assert!(same(s(a).div(s(b)), a / b), "{:e} / {:e}", a, b);
            assert!(same(s(b).div(s(a)), b / a), "{:e} / {:e}", b, a);
            assert!(same(s(a).mul(s(-b)), a * -b), "{:e} * {:e}", a, -b);
        }
        for &b in &tiny {
            assert!(same(s(a).add(s(b)), a + b), "{:e} + {:e}", a, b);
            assert!(same(s(a).sub(s(b)), a - b), "{:e} - {:e}", a, b);
            assert!(same(s(a).mul(s(b)), a * b), "{:e} * {:e}", a, b);
            assert!(same(s(a).div(s(b)), a / b), "{:e} / {:e}", a, b);
        }
        assert!(same(s(a).sqrt(), a.sqrt()), "sqrt {:e}", a);
    }
    // products and quotients that land in the subnormal range
    let mut state = 0x0123_4567_89AB_CDEFu64;
    for _ in 0..100_000 {
        let a = f64::from_bits((next(&mut state) >> 12) | 0x1FF0_0000_0000_0000);
        let b = f64::from_bits((next(&mut state) >> 12) | 0x2000_0000_0000_0000);
        let small = f64::from_bits((next(&mut state) >> 12) | 0x2010_0000_0000_0000);
        assert!(same(s(a).mul(s(b)), a * b), "{:e} * {:e}", a, b);
        assert!(same(s(a).mul(s(small)), a * small), "{:e} * {:e}", a, small);
        assert!(same(s(a).div(s(1.0 / b)), a / (1.0 / b)), "{:e} / {:e}", a, 1.0 / b);
    }
}

#[test]
fn quotients_and_roots_of_small_integers_agree_with_hardware() {
    for i in 0..400u64 {
        for j in 1..400u64 {
            let (a, b) = (i as f64, j as f64);
            assert!(same(s(a).div(s(b)), a / b), "{} / {}", i, j);
        }
        let a = (i * i) as f64;
        assert!(same(s(a).sqrt(), a.sqrt()), "sqrt {}", a);
        assert!(same(s(a + 1.0).sqrt(), (a + 1.0).sqrt()), "sqrt {}", a + 1.0);
        let b = f64::from_bits((i as f64).to_bits() + 1);
        assert!(same(s(b).mul(s(b)).sqrt(), (b * b).sqrt()), "sqrt {}", b * b);
    }
}

#[test]
fn results_near_overflow_agree_with_hardware() {
    let big = [f64::MAX, f64::MAX / 2.0, 1.3407807929942596e154, 1.3407807929942597e154, 8.98846567431158e307, 1e308];
    let factors = [1.0, 2.0, 1.0000000000000002, 0.9999999999999999, 1.5, 0.5, 3.0, 1e-10];
    for &a in &big {
        for &b in &big {
            assert!(same(s(a).add(s(b)), a + b), "{:e} + {:e}", a, b);
            assert!(same(s(a).sub(s(b)), a - b), "{:e} - {:e}", a, b);
            assert!(same(s(a).mul(s(b)), a * b), "{:e} * {:e}", a, b);
            assert!(same(s(a).div(s(b)), a / b), "{:e} / {:e}", a, b);
        }
        for &b in &factors {
            assert!(same(s(a).mul(s(b)), a * b), "{:e} * {:e}", a, b);
            assert!(same(s(a).div(s(b)), a / b), "{:e} / {:e}", a, b);
            assert!(same(s(a).add(s(a).mul(s(b))), a + a * b), "{:e} + {:e}", a, a * b);
        }
        assert!(same(s(a).sqrt(), a.sqrt()), "sqrt {:e}", a);
    }
}
