use rand::distributions::{Distribution, Uniform};
use rand::RngCore;
use rand_pcg::Pcg64Mcg;
use raytracer::camera::{default_camera, Camera};
use raytracer::color::{black, blue, gradient, green, grey_50, red, white, Color};
use raytracer::object::{interact, reflect, refract, scatter, Material, Object, Surface};
use raytracer::plane::Plane;
use raytracer::random::{signed_unit, Generator};
use raytracer::ray::Ray;
use raytracer::scalar::Scalar;
use raytracer::sphere::Sphere;
use raytracer::tracer::{faded, nearest_hit, ray_colour, sky, sky_blue, trace, valid_hit};
use raytracer::vec3::unit;
use raytracer::vec3::{candidate, random_in_unit_sphere, Vec3};

const SEED: u128 = 0xcafef00dd15ea5e5;

fn s(x: f64) -> Scalar {
    Scalar::from_bits(x.to_bits())
}

fn f(x: Scalar) -> f64 {
    f64::from_bits(x.to_bits())
}

fn v(x: f64, y: f64, z: f64) -> Vec3<Scalar> {
    Vec3::new(s(x), s(y), s(z))
}

fn fv(a: Vec3<Scalar>) -> (f64, f64, f64) {
    (f(a.x), f(a.y), f(a.z))
}

fn c(r: f64, g: f64, b: f64) -> Color {
    Color::new(s(r), s(g), s(b))
}

fn fc(a: Color) -> (f64, f64, f64) {
    (f(a.r()), f(a.g()), f(a.b()))
}

fn ray(origin: (f64, f64, f64), direction: (f64, f64, f64)) -> Ray<Scalar> {
    Ray {
        origin: v(origin.0, origin.1, origin.2),
        direction: v(direction.0, direction.1, direction.2),
        color: white(),
    }
}

fn grey_sphere() -> Sphere {
    Sphere {
        radius: s(0.5),
        centre: v(0.0, 0.0, -1.0),
        material: Material::Diffuse { absorb: grey_50() },
    }
}

fn dot(a: (f64, f64, f64), b: (f64, f64, f64)) -> f64 {
    a.0 * b.0 + a.1 * b.1 + a.2 * b.2
}

fn length(a: (f64, f64, f64)) -> f64 {
    dot(a, a).sqrt()
}

#[test]
fn vector_algebra_matches_the_formulas() {
    let a = (1.5, -2.25, 3.0e-3);
    let b = (-0.1, 7.0, 1.0e5);
    let (va, vb) = (v(a.0, a.1, a.2), v(b.0, b.1, b.2));
    assert_eq!(fv(va.add(vb)), (a.0 + b.0, a.1 + b.1, a.2 + b.2));
    assert_eq!(fv(va.sub(vb)), (a.0 - b.0, a.1 - b.1, a.2 - b.2));
    assert_eq!(fv(va.neg()), (-a.0, -a.1, -a.2));
    assert_eq!(fv(va.mul(s(0.3))), (a.0 * 0.3, a.1 * 0.3, a.2 * 0.3));
    assert_eq!(fv(va.div(s(0.3))), (a.0 / 0.3, a.1 / 0.3, a.2 / 0.3));
    assert_eq!(fv(va.inv_scale(s(7.0))), (a.0 / 7.0, a.1 / 7.0, a.2 / 7.0));
    assert_eq!(f(va.dot(&vb)), dot(a, b));
    assert_eq!(f(va.length_squared()), dot(a, a));
    assert_eq!(f(va.length()), length(a));
    let mut m = va;
    m.add_assign(vb);
    m.sub_assign(va);
    m.mul_assign(s(3.0));
    m.div_assign(s(7.0));
    assert_eq!(fv(m), ((a.0 + b.0 - a.0) * 3.0 / 7.0, (a.1 + b.1 - a.1) * 3.0 / 7.0, (a.2 + b.2 - a.2) * 3.0 / 7.0));
    assert_eq!(fv(unit::x()), (1.0, 0.0, 0.0));
    assert_eq!(fv(unit::y()), (0.0, 1.0, 0.0));
    assert_eq!(fv(unit::z()), (0.0, 0.0, 1.0));
}

#[test]
fn near_zero_looks_at_magnitudes() {
    assert!(v(0.0, 0.0, 0.0).near_zero());
    assert!(v(9.9e-9, -9.9e-9, 1e-300).near_zero());
    assert!(!v(1e-8, 0.0, 0.0).near_zero());
    assert!(!v(0.0, -1.0, 0.0).near_zero());
    assert!(!v(0.0, 0.0, f64::NAN).near_zero());
}

#[test]
fn in_direction_has_unit_length() {
    let cases = [
        (3.0, 4.0, 0.0),
        (1e-9, -2e-9, 5e-10),
        (1e100, 1e100, -1e100),
        (0.1, 0.2, 0.3),
        (-7.5, 0.0, 1e-3),
        (2e-12, 0.0, 0.0),
    ];
    for &a in &cases {
        let n = unit::in_direction(v(a.0, a.1, a.2));
        assert!((f(n.length()) - 1.0).abs() < 1e-9, "{:?}", a);
        let l = length(a);
        assert_eq!(fv(n), (a.0 / l, a.1 / l, a.2 / l));
    }
}

#[test]
fn ray_at_is_origin_plus_direction_times_t() {
    let r = ray((1.0, 2.0, 3.0), (0.5, -0.25, 2.0));
    assert_eq!(fv(r.at(s(2.0))), (2.0, 1.5, 7.0));
    assert_eq!(fv(r.at(s(0.0))), (1.0, 2.0, 3.0));
    assert_eq!(fv(r.at(s(0.3))), (1.0 + 0.5 * 0.3, 2.0 + -0.25 * 0.3, 3.0 + 2.0 * 0.3));
}

#[test]
fn write_color_of_known_colors() {
    assert_eq!(c(1.0, 0.0, 0.0).write_color(), "255 0 0\n");
    assert_eq!(c(0.0, 0.0, 0.0).write_color(), "0 0 0\n");
    assert_eq!(red().write_color(), "255 0 0\n");
    assert_eq!(green().write_color(), "0 255 0\n");
    assert_eq!(blue().write_color(), "0 0 255\n");
    assert_eq!(white().write_color(), "255 255 255\n");
    assert_eq!(black().write_color(), "0 0 0\n");
    assert_eq!(grey_50().write_color(), "180 180 180\n");
    assert_eq!(c(0.25, 2.0, 1e-3).write_color(), "128 255 8\n");
    assert_eq!(c(f64::NAN, f64::INFINITY, -0.0).write_color(), "0 255 0\n");
    assert_eq!(c(-1.0, 0.0001, 0.9999).write_color(), "0 3 255\n");
}

#[test]
fn channel_bytes_agree_with_hardware() {
    let mut x = 0.0f64;
    while x < 1.2 {
        let clamped = if x > 1.0 { 1.0 } else { x };
        let want = (clamped.sqrt() * 255.0).round() as u8;
        assert_eq!(raytracer::color::channel_byte(s(x)), want, "{}", x);
        x += 0.000_37;
    }
}

#[test]
fn round_to_u8_agrees_with_hardware() {
    let cases = [
        0.0, -0.0, 0.49999999999999994, 0.5, 0.5000000000000001, 1.0, 1.5, 2.5, 127.5, 254.4999,
        254.5, 254.99999999999997, 255.0, 255.5, 256.0, 1e300, -0.4, -0.5, -3.0, 1e-320,
        f64::INFINITY, f64::NEG_INFINITY, f64::NAN, 4503599627370496.0, 3.4999999999999996,
    ];
    for &x in &cases {
        assert_eq!(s(x).round_to_u8(), x.round() as u8, "{}", x);
    }
    let mut x = 0.0f64;
    while x < 260.0 {
        assert_eq!(s(x).round_to_u8(), x.round() as u8, "{}", x);
        x += 0.0625 / 3.0;
    }
}

#[test]
fn color_arithmetic_matches_the_formulas() {
    let a = c(0.2, 0.4, 0.9);
    let b = c(0.5, 0.7, 1.0);
    assert_eq!(fc(a.absorb(&b)), (0.2 * 0.5, 0.4 * 0.7, 0.9 * 1.0));
    assert_eq!(fc(a.add(b)), (0.2 + 0.5, 0.4 + 0.7, 0.9 + 1.0));
    let mut sum = a;
    sum.add_assign(b);
    assert_eq!(fc(sum), (0.2 + 0.5, 0.4 + 0.7, 0.9 + 1.0));
    let t = 0.3;
    assert_eq!(
        fc(gradient(a, b, s(t))),
        (0.2 * (1.0 - t) + 0.5 * t, 0.4 * (1.0 - t) + 0.7 * t, 0.9 * (1.0 - t) + 1.0 * t)
    );
    assert_eq!(fc(gradient(a, b, s(0.0))), (0.2, 0.4, 0.9));
    assert_eq!(fc(gradient(a, b, s(1.0))), (0.5, 0.7, 1.0));
    assert_eq!(fc(Color::from_absorbtion(s(0.3), s(0.8), s(0.8))), (1.0 - 0.3, 1.0 - 0.8, 1.0 - 0.8));
    assert_eq!(fc(Color::from_unit(v(-1.0, 0.0, 0.5))), (0.0, 0.5, 0.75));
    assert_eq!(fc(a.on_vec(|w| w.mul(s(2.0)))), (0.4, 0.8, 1.8));
    assert_eq!(fc(sky_blue()), (0.5, 0.7, 1.0));
}

#[test]
fn material_absorb_is_its_color() {
    let a = c(0.1, 0.2, 0.3);
    assert_eq!(fc(Material::Diffuse { absorb: a }.absorb()), (0.1, 0.2, 0.3));
    assert_eq!(fc(Material::Reflective { absorb: a, roughness: s(0.5) }.absorb()), (0.1, 0.2, 0.3));
    assert_eq!(
        fc(Material::Dielectric { absorb: a, roughness: s(0.5), refractive_index: s(1.5) }.absorb()),
        (0.1, 0.2, 0.3)
    );
}

#[test]
fn sphere_hit_from_outside_towards_the_centre() {
    let sphere = grey_sphere();
    let cases = [
        ((0.0, 0.0, 0.0), (0.0, 0.0, -1.0), 1.0),
        ((0.0, 0.0, 3.0), (0.0, 0.0, -1.0), 4.0),
        ((2.0, 0.0, -1.0), (-1.0, 0.0, 0.0), 2.0),
        ((3.0, 4.0, -1.0), (-3.0, -4.0, 0.0), 5.0),
        ((1.0, 1.0, 0.0), (-1.0, -1.0, -1.0), 3.0f64.sqrt()),
    ];
    for &(origin, direction, distance) in &cases {
        let r = ray(origin, direction);
        let t = f(sphere.intersection(&r).expect("the ray hits"));
        // the parameter counts in lengths of the direction
        let reached = t * length(direction);
        assert!((reached - (distance - 0.5)).abs() < 1e-9, "{:?}", origin);
        let hit = r.at(s(t));
        let n = sphere.normal(&hit);
        let want = unit::in_direction(hit.sub(sphere.centre));
        assert_eq!(fv(n), fv(want));
        assert!((f(n.length()) - 1.0).abs() < 1e-9);
    }
}

#[test]
fn sphere_hit_follows_the_quadratic() {
    let sphere = Sphere {
        radius: s(0.7),
        centre: v(0.3, -0.2, -2.0),
        material: Material::Diffuse { absorb: grey_50() },
    };
    let (o, d) = ((0.1, 0.2, 0.3), (0.05, -0.1, -1.0));
    let oc = (o.0 - 0.3, o.1 - -0.2, o.2 - -2.0);
    let a = dot(d, d);
    let h = dot(d, oc);
    let cc = dot(oc, oc) - 0.7 * 0.7;
    let disc = h * h - a * cc;
    let t0 = (-h - disc.sqrt()) / a;
    assert!(t0 > 1e-4);
    assert_eq!(f(sphere.intersection(&ray(o, d)).unwrap()), t0);
}

#[test]
fn sphere_miss_returns_nothing() {
    let sphere = grey_sphere();
    assert!(sphere.intersection(&ray((0.0, 0.6, 0.0), (0.0, 0.0, -1.0))).is_none());
    assert!(sphere.intersection(&ray((0.51, 0.0, 0.0), (0.0, 0.0, -1.0))).is_none());
    assert!(sphere.intersection(&ray((0.0, 0.0, 0.0), (1.0, 0.0, 0.0))).is_none());
    // behind the origin
    assert!(sphere.intersection(&ray((0.0, 0.0, 0.0), (0.0, 0.0, 1.0))).is_none());
    // no direction at all
    assert!(sphere.intersection(&ray((0.0, 0.0, 0.0), (0.0, 0.0, 0.0))).is_none());
}

#[test]
fn sphere_hit_from_inside_takes_the_far_root() {
    let sphere = grey_sphere();
    let t = sphere.intersection(&ray((0.0, 0.0, -1.0), (0.0, 0.0, -1.0))).unwrap();
    assert_eq!(f(t), 0.5);
    // on the surface, leaving: the near root is too near, the far one is behind
    let on_surface = ray((0.0, 0.0, -0.5), (0.0, 0.0, 1.0));
    assert!(sphere.intersection(&on_surface).is_none());
    // on the surface, entering: the near root is dropped, the far one taken
    let entering = ray((0.0, 0.0, -0.5), (0.0, 0.0, -1.0));
    assert_eq!(f(sphere.intersection(&entering).unwrap()), 1.0);
}

#[test]
fn plane_hit_lies_in_the_plane() {
    let material = Material::Diffuse { absorb: grey_50() };
    let plane = Plane::new(v(0.0, 2.0, 0.0), v(5.0, -0.5, 3.0), material);
    let r = ray((0.0, 1.0, 0.0), (0.3, -1.0, 0.2));
    let t = plane.intersection(&r).unwrap();
    assert_eq!(f(t), 1.5);
    let hit = r.at(t);
    assert!((f(hit.dot(&unit::y())) - -0.5).abs() < 1e-12);
    assert_eq!(fv(plane.normal(&hit)), (0.0, 1.0, 0.0));
    let tilted = Plane::new(v(1.0, 1.0, 1.0), v(0.0, 0.0, -3.0), material);
    let r = ray((0.1, 0.2, 0.3), (-0.2, -0.3, -1.0));
    let t = tilted.intersection(&r).unwrap();
    let n = unit::in_direction(v(1.0, 1.0, 1.0));
    let d = f(v(0.0, 0.0, -3.0).dot(&n));
    assert!((f(n.dot(&r.at(t))) - d).abs() < 1e-12);
}

#[test]
fn plane_parallel_or_behind_returns_nothing() {
    let material = Material::Diffuse { absorb: grey_50() };
    let plane = Plane::new(v(0.0, 1.0, 0.0), v(0.0, -0.5, 0.0), material);
    assert!(plane.intersection(&ray((0.0, 1.0, 0.0), (1.0, 0.0, 0.0))).is_none());
    assert!(plane.intersection(&ray((0.0, 1.0, 0.0), (1.0, 1.0, 0.0))).is_none());
    assert!(plane.intersection(&ray((0.0, -0.5, 0.0), (1.0, 0.0, 0.0))).is_none());
    assert!(plane.intersection(&ray((0.0, -0.5, 0.0), (0.0, -1.0, 0.0))).is_none());
}

#[test]
fn stream_is_the_one_of_pcg64mcg() {
    let mut reference = Pcg64Mcg::new(SEED);
    let mut g = Generator::new(SEED);
    for _ in 0..2000 {
        assert_eq!(g.next_word(), reference.next_u64());
    }
    assert_eq!(g.position, 2000);
    let mut far = Generator { seed: 7, position: 1 << 40 };
    let mut reference = Pcg64Mcg::new(7);
    reference.advance(1 << 40);
    assert_eq!(far.next_word(), reference.next_u64());
    assert!(far.has_words(3));
    assert!(!Generator { seed: 7, position: u64::MAX - 2 }.has_words(3));
    assert!(Generator { seed: 7, position: u64::MAX - 3 }.has_words(3));
}

#[test]
fn signed_units_are_the_uniform_samples_of_rand() {
    let mut reference = Pcg64Mcg::new(SEED);
    let dist: Uniform<f64> = Uniform::new(-1.0, 1.0);
    let mut g = Generator::new(SEED);
    for _ in 0..5000 {
        let want: f64 = dist.sample(&mut reference);
        let got = g.next_signed_unit();
        assert_eq!(got.to_bits(), want.to_bits());
        assert!(-1.0 <= f(got) && f(got) < 1.0);
    }
    assert_eq!(f(signed_unit(0)), -1.0);
    assert_eq!(f(signed_unit(1 << 63)), 0.0);
    assert_eq!(f(signed_unit(u64::MAX)), 1.0 - 2.0 * f64::EPSILON);
    assert_eq!(f(signed_unit(4095)), -1.0);
}

#[test]
fn random_in_unit_sphere_is_the_first_candidate_inside() {
    let mut g = Generator::new(SEED);
    let mut reference = Generator::new(SEED);
    for _ in 0..500 {
        let got = random_in_unit_sphere(&mut g).unwrap();
        let want = loop {
            let w = candidate(&mut reference);
            if f(w.length_squared()) < 1.0 {
                break w;
            }
        };
        assert_eq!(fv(got), fv(want));
        assert_eq!(g.position, reference.position);
        assert!(f(got.length_squared()) < 1.0);
    }
    // rejections happen: more than three words per vector were drawn
    assert!(g.position > 1500);
}

#[test]
fn random_unit_vectors_have_unit_length() {
    let mut g = Generator::new(SEED);
    let mut reference = Generator::new(SEED);
    for _ in 0..500 {
        let got = unit::random(&mut g).unwrap();
        let inside = random_in_unit_sphere(&mut reference).unwrap();
        assert_eq!(fv(got), fv(unit::in_direction(inside)));
        assert!((f(got.length()) - 1.0).abs() < 1e-9);
    }
}

#[test]
fn sampling_stops_when_the_generator_runs_out() {
    let mut g = Generator { seed: SEED, position: u64::MAX - 2 };
    assert!(random_in_unit_sphere(&mut g).is_none());
    assert_eq!(g.position, u64::MAX - 2);
    assert!(unit::random(&mut g).is_none());
    let sphere = grey_sphere();
    let r = ray((0.0, 0.0, 0.0), (0.0, 0.0, -1.0));
    assert!(interact(&sphere, r, s(0.5), &mut g).is_none());
    let scene = vec![Surface::Sphere(grey_sphere())];
    assert!(ray_colour(r, &scene, 8, &mut g).is_none());
    // three words are enough for one candidate
    let mut g = Generator { seed: SEED, position: u64::MAX - 3 };
    let mut reference = g;
    let first = candidate(&mut reference);
    let got = random_in_unit_sphere(&mut g);
    assert_eq!(got.is_some(), f(first.length_squared()) < 1.0);
}

#[test]
fn diffuse_multiplies_the_carried_color_by_absorb() {
    let absorb = c(0.3, 0.6, 0.9);
    let sphere = Sphere {
        radius: s(0.5),
        centre: v(0.0, 0.0, -1.0),
        material: Material::Diffuse { absorb },
    };
    let mut incoming = ray((0.0, 0.0, 0.0), (0.0, 0.0, -1.0));
    incoming.color = c(0.8, 0.5, 0.25);
    for seed in 0..200u128 {
        let mut g = Generator::new(seed);
        let out = interact(&sphere, incoming, s(0.5), &mut g).unwrap();
        assert_eq!(fc(out.color), (0.8 * 0.3, 0.5 * 0.6, 0.25 * 0.9));
        assert_eq!(fv(out.origin), (0.0, 0.0, -0.5));
        // the ray leaves on the outer side
        assert!(f(out.direction.dot(&v(0.0, 0.0, 1.0))) >= 0.0);
        let mut again = Generator::new(seed);
        let sample = unit::random(&mut again).unwrap();
        assert_eq!(fv(out.direction), fv(v(0.0, 0.0, 1.0).add(sample)));
        assert_eq!(g.position, again.position);
    }
}

#[test]
fn scatter_falls_back_to_the_normal() {
    let incoming = ray((0.0, 0.0, 0.0), (0.0, 0.0, -1.0));
    let n = v(0.0, 0.0, 1.0);
    let p = v(0.0, 0.0, -0.5);
    let out = scatter(grey_50(), &incoming, p, n, v(0.0, 0.0, -1.0));
    assert_eq!(fv(out.direction), (0.0, 0.0, 1.0));
    let out = scatter(grey_50(), &incoming, p, n, v(5e-9, -5e-9, -1.0));
    assert_eq!(fv(out.direction), (0.0, 0.0, 1.0));
    let out = scatter(grey_50(), &incoming, p, n, v(1.0, 0.0, 0.0));
    assert_eq!(fv(out.direction), (1.0, 0.0, 1.0));
    assert_eq!(fc(out.color), (0.5, 0.5, 0.5));
}

#[test]
fn reflect_mirrors_and_clamps() {
    let absorb = c(0.9, 0.8, 0.7);
    let mut incoming = ray((-1.0, 1.0, 0.0), (2.0, -2.0, 0.0));
    incoming.color = c(0.5, 0.5, 0.5);
    let n = v(0.0, 1.0, 0.0);
    let p = v(0.0, 0.0, 0.0);
    // a perfect mirror
    let out = reflect(absorb, s(0.0), &incoming, p, n, v(0.3, -0.9, 0.1));
    let h = 0.5f64.sqrt();
    let d = (2.0 / 8.0f64.sqrt(), -2.0 / 8.0f64.sqrt(), 0.0);
    let dn = dot(d, (0.0, 1.0, 0.0));
    let want = (d.0 - 0.0 * 2.0 * dn + 0.3 * 0.0, d.1 - 1.0 * 2.0 * dn + -0.9 * 0.0, d.2 - 0.0 * 2.0 * dn + 0.1 * 0.0);
    assert_eq!(fv(out.direction), want);
    assert!((want.0 - h).abs() < 1e-12 && (want.1 - h).abs() < 1e-12);
    assert_eq!(fc(out.color), (0.5 * 0.9, 0.5 * 0.8, 0.5 * 0.7));
    // rough enough to push the ray into the surface: out along the normal, with absorb itself
    let out = reflect(absorb, s(1.0), &incoming, p, n, v(0.0, -0.9, 0.0));
    assert_eq!(fv(out.direction), (0.0, 1.0, 0.0));
    assert_eq!(fc(out.color), (0.9, 0.8, 0.7));
    assert_eq!(fv(out.origin), (0.0, 0.0, 0.0));
}

#[test]
fn interact_reflective_uses_a_vector_from_the_sphere() {
    let absorb = c(0.9, 0.8, 0.7);
    let sphere = Sphere {
        radius: s(0.5),
        centre: v(0.0, 0.0, -1.0),
        material: Material::Reflective { absorb, roughness: s(0.25) },
    };
    let incoming = ray((0.0, 0.0, 0.0), (0.0, 0.0, -1.0));
    for seed in 0..50u128 {
        let mut g = Generator::new(seed);
        let mut again = Generator::new(seed);
        let out = interact(&sphere, incoming, s(0.5), &mut g).unwrap();
        let sample = random_in_unit_sphere(&mut again).unwrap();
        let want = reflect(absorb, s(0.25), &incoming, v(0.0, 0.0, -0.5), v(0.0, 0.0, 1.0), sample);
        assert_eq!(fv(out.direction), fv(want.direction));
        assert_eq!(fc(out.color), fc(want.color));
        assert_eq!(g.position, again.position);
    }
}

#[test]
fn refract_bends_by_snell() {
    let mut incoming = ray((-1.0, 1.0, 0.0), (1.0, -1.0, 0.0));
    incoming.color = c(0.4, 0.5, 0.6);
    let n = v(0.0, 1.0, 0.0);
    let p = v(0.0, 0.0, 0.0);
    // from air into glass
    let out = refract(s(1.5), &incoming, p, n).unwrap();
    let (dx, dy, _) = fv(out.direction);
    let sin_in = 0.5f64.sqrt();
    assert!((dx - sin_in / 1.5).abs() < 1e-12);
    assert!(dy < 0.0);
    assert!((dx * dx + dy * dy - 1.0).abs() < 1e-12);
    assert_eq!(fc(out.color), (0.4, 0.5, 0.6));
    assert_eq!(fv(out.origin), (0.0, 0.0, 0.0));
    // from glass into air at a flat angle: reflected as a whole
    let leaving = ray((-1.0, -0.2, 0.0), (1.0, 0.2, 0.0));
    assert!(refract(s(1.5), &leaving, p, n).is_none());
    // from glass into air, steep enough to leave
    let leaving = ray((-0.2, -1.0, 0.0), (0.2, 1.0, 0.0));
    let out = refract(s(1.5), &leaving, p, n).unwrap();
    assert!(f(out.direction.y) > 0.0);
    let sin_in = 0.2 / (0.2f64 * 0.2 + 1.0).sqrt();
    assert!((f(out.direction.x) - 1.5 * sin_in).abs() < 1e-12);
}

#[test]
fn interact_dielectric_refracts_or_reflects() {
    let absorb = c(0.9, 0.9, 0.9);
    let material = Material::Dielectric { absorb, roughness: s(0.0), refractive_index: s(1.5) };
    let plane = Plane::new(v(0.0, 1.0, 0.0), v(0.0, 0.0, 0.0), material);
    let mut g = Generator::new(SEED);
    let entering = ray((-1.0, 1.0, 0.0), (1.0, -1.0, 0.0));
    let out = interact(&plane, entering, s(1.0), &mut g).unwrap();
    assert_eq!(g.position, 0);
    assert_eq!(fc(out.color), (1.0, 1.0, 1.0));
    assert!(f(out.direction.y) < 0.0);
    let leaving = ray((-1.0, -0.2, 0.0), (1.0, 0.2, 0.0));
    let out = interact(&plane, leaving, s(1.0), &mut g).unwrap();
    assert!(g.position >= 3);
    // the mirror image points back into the glass, below the outward normal:
    // the ray leaves along the normal and carries absorb itself
    assert_eq!(fv(out.direction), (0.0, 1.0, 0.0));
    assert_eq!(fc(out.color), (0.9, 0.9, 0.9));
}

#[test]
fn nearest_hit_takes_the_smallest_distance_and_the_first_of_equals() {
    let near = Sphere { radius: s(0.5), centre: v(0.0, 0.0, -2.0), material: Material::Diffuse { absorb: red() } };
    let far = Sphere { radius: s(0.5), centre: v(0.0, 0.0, -5.0), material: Material::Diffuse { absorb: green() } };
    let twin = Sphere { radius: s(0.5), centre: v(0.0, 0.0, -2.0), material: Material::Diffuse { absorb: blue() } };
    let floor = Plane::new(v(0.0, 1.0, 0.0), v(0.0, -1.0, 0.0), Material::Diffuse { absorb: grey_50() });
    let scene = vec![Surface::Sphere(far), Surface::Plane(floor), Surface::Sphere(near), Surface::Sphere(twin)];
    let r = ray((0.0, 0.0, 0.0), (0.0, 0.0, -1.0));
    let (t, i) = nearest_hit(&r, &scene).unwrap();
    assert_eq!((f(t), i), (1.5, 2));
    let down = ray((0.0, 0.0, 0.0), (0.0, -1.0, 0.0));
    let (t, i) = nearest_hit(&down, &scene).unwrap();
    assert_eq!((f(t), i), (1.0, 1));
    let up = ray((0.0, 0.0, 0.0), (0.0, 1.0, 0.0));
    assert!(nearest_hit(&up, &scene).is_none());
    assert!(nearest_hit(&r, &Vec::new()).is_none());
    assert_eq!(f(valid_hit(&scene[0], &r).unwrap()), 4.5);
}

#[test]
fn hits_nearer_than_the_tolerance_are_dropped() {
    let floor = Plane::new(v(0.0, 1.0, 0.0), v(0.0, 0.0, 0.0), Material::Diffuse { absorb: grey_50() });
    let just_above = ray((0.0, 0.00005, 0.0), (0.0, -1.0, 0.0));
    assert!(floor.intersection(&just_above).is_some());
    assert!(valid_hit(&floor, &just_above).is_none());
    let at_tolerance = ray((0.0, 0.0001, 0.0), (0.0, -1.0, 0.0));
    assert_eq!(f(valid_hit(&floor, &at_tolerance).unwrap()), 0.0001);
}

#[test]
fn camera_rays_start_at_the_eye() {
    let camera = default_camera();
    assert_eq!(f(camera.aspect_ratio), 16.0 / 9.0);
    let r = camera.get_ray(s(0.0), s(0.0));
    assert_eq!(fv(r.origin), (0.0, 0.0, 0.0));
    assert_eq!(fv(r.direction), (-(16.0 / 9.0 * 2.0) / 2.0, -1.0, -1.0));
    assert_eq!(fc(r.color), (1.0, 1.0, 1.0));
    let r = camera.get_ray(s(1.0), s(1.0));
    assert_eq!(fv(r.direction), (16.0 / 9.0, 1.0, -1.0));
    let r = camera.get_ray(s(0.5), s(0.5));
    assert_eq!(fv(r.direction), (0.0, 0.0, -1.0));
    let r = camera.get_ray(s(-0.01), s(1.01));
    let w = 16.0 / 9.0 * 2.0;
    assert_eq!(fv(r.direction), (-w / 2.0 + w * -0.01 + 0.0 * 1.01 - 0.0, -1.0 + 0.0 * -0.01 + 2.0 * 1.01 - 0.0, -1.0));
    let square = Camera::new(s(1.0), s(4.0), s(2.0));
    assert_eq!(fv(square.get_ray(s(0.0), s(1.0)).direction), (-2.0, 2.0, -2.0));
}

#[test]
fn trace_ends_at_once_on_a_faded_ray_and_on_depth_zero() {
    let scene = vec![Surface::Sphere(grey_sphere())];
    let mut g = Generator::new(SEED);
    let mut dim = ray((0.0, 0.0, 0.0), (0.0, 0.0, -1.0));
    dim.color = c(0.003, 0.0039, 0.001);
    assert!(faded(&dim.color));
    let (color, bounces) = trace(dim, &scene, 8, &mut g);
    assert_eq!(fc(color.unwrap()), (0.003, 0.0039, 0.001));
    assert_eq!(bounces, 0);
    // the weight is looked at before the depth
    let (color, _) = trace(dim, &scene, 0, &mut g);
    assert_eq!(fc(color.unwrap()), (0.003, 0.0039, 0.001));
    let bright = ray((0.0, 0.0, 0.0), (0.0, 0.0, -1.0));
    assert!(!faded(&bright.color));
    assert!(!faded(&c(0.0, 0.0, 1.0 / 255.0)));
    let (color, bounces) = trace(bright, &scene, 0, &mut g);
    assert_eq!(fc(color.unwrap()), (0.0, 0.0, 0.0));
    assert_eq!(bounces, 0);
    assert_eq!(g.position, 0);
}

#[test]
fn a_miss_returns_the_sky() {
    let scene = vec![Surface::Sphere(grey_sphere())];
    let mut g = Generator::new(SEED);
    let mut up = ray((0.0, 0.0, 0.0), (0.0, 2.0, 0.0));
    assert_eq!(fc(ray_colour(up, &scene, 8, &mut g).unwrap()), (0.5, 0.7, 1.0));
    up.color = c(0.5, 0.5, 0.5);
    assert_eq!(fc(ray_colour(up, &scene, 8, &mut g).unwrap()), (0.25, 0.35, 0.5));
    let down = ray((0.0, 0.0, 0.0), (0.0, -3.0, 0.0));
    assert_eq!(fc(ray_colour(down, &scene, 8, &mut g).unwrap()), (1.0, 1.0, 1.0));
    let level = ray((0.0, 0.0, 0.0), (1.0, 0.0, 0.0));
    assert_eq!(fc(sky(&level)), (1.0 * 0.5 + 0.5 * 0.5, 1.0 * 0.5 + 0.7 * 0.5, 1.0 * 0.5 + 1.0 * 0.5));
    let slanted = ray((0.0, 0.0, 0.0), (1.0, 0.3, -2.0));
    let t = (1.0 + 0.3 / length((1.0, 0.3, -2.0))) / 2.0;
    assert_eq!(fc(sky(&slanted)), (1.0 * (1.0 - t) + 0.5 * t, 1.0 * (1.0 - t) + 0.7 * t, 1.0 * (1.0 - t) + 1.0 * t));
    assert_eq!(g.position, 0);
}

#[test]
fn trace_takes_no_more_bounces_than_the_depth() {
    // two mirrors that face each other: the path never leaves by itself
    let mirror = Material::Reflective { absorb: white(), roughness: s(0.0) };
    let scene = vec![
        Surface::Plane(Plane::new(v(0.0, 1.0, 0.0), v(0.0, -1.0, 0.0), mirror)),
        Surface::Plane(Plane::new(v(0.0, -1.0, 0.0), v(0.0, 1.0, 0.0), mirror)),
    ];
    for depth in [0u64, 1, 2, 7, 50] {
        let mut g = Generator::new(SEED);
        let r = ray((0.0, 0.0, 0.0), (0.0, 1.0, 0.0));
        let (color, bounces) = trace(r, &scene, depth, &mut g);
        assert_eq!(bounces, depth);
        assert_eq!(fc(color.unwrap()), (0.0, 0.0, 0.0));
    }
    // an absorbing corridor fades before the depth is used up
    let dull = Material::Reflective { absorb: c(0.25, 0.25, 0.25), roughness: s(0.0) };
    let scene = vec![
        Surface::Plane(Plane::new(v(0.0, 1.0, 0.0), v(0.0, -1.0, 0.0), dull)),
        Surface::Plane(Plane::new(v(0.0, -1.0, 0.0), v(0.0, 1.0, 0.0), dull)),
    ];
    let mut g = Generator::new(SEED);
    let (color, bounces) = trace(ray((0.0, 0.0, 0.0), (0.0, 1.0, 0.0)), &scene, 50, &mut g);
    assert_eq!(bounces, 4);
    assert_eq!(fc(color.unwrap()), (0.00390625, 0.00390625, 0.00390625));
    // a whole scene
    let scene = vec![
        Surface::Sphere(grey_sphere()),
        Surface::Sphere(Sphere { radius: s(100.0), centre: v(0.0, -100.5, -1.0), material: Material::Diffuse { absorb: grey_50() } }),
    ];
    let camera = default_camera();
    let mut g = Generator::new(SEED);
    for k in 0..200 {
        let u = (k % 20) as f64 / 19.0;
        let w = (k / 20) as f64 / 9.0;
        let (color, bounces) = trace(camera.get_ray(s(u), s(w)), &scene, 6, &mut g);
        assert!(bounces <= 6);
        assert!(color.is_some());
    }
}

#[test]
fn carried_color_never_grows_along_a_path() {
    let absorbs = [c(1.0, 0.5, 0.0), c(0.3, 0.8, 0.8), c(0.999, 1e-3, 0.1)];
    let n = v(0.0, 0.0, 1.0);
    let p = v(0.0, 0.0, -0.5);
    let mut g = Generator::new(SEED);
    for &absorb in &absorbs {
        let mut r = ray((0.0, 0.0, 0.0), (0.1, 0.2, -1.0));
        for _ in 0..40 {
            let before = fc(r.color);
            let sample = random_in_unit_sphere(&mut g).unwrap();
            let diffuse = scatter(absorb, &r, p, n, sample);
            let after = fc(diffuse.color);
            assert!(after.0 <= before.0 && after.1 <= before.1 && after.2 <= before.2);
            let mirrored = reflect(absorb, s(0.3), &r, p, n, sample);
            let after = fc(mirrored.color);
            assert!(after.0 <= before.0 && after.1 <= before.1 && after.2 <= before.2);
            r.color = diffuse.color;
        }
    }
}

#[test]
fn centre_pixel_of_one_sphere_is_darker_than_the_sky() {
    let scene = vec![Surface::Sphere(grey_sphere())];
    let camera = default_camera();
    let centre = camera.get_ray(s(0.5), s(0.5));
    let (t, i) = nearest_hit(&centre, &scene).unwrap();
    assert_eq!((f(t), i), (0.5, 0));
    let mut g = Generator::new(SEED);
    let samples = 64;
    let mut sum = black();
    for _ in 0..samples {
        sum.add_assign(ray_colour(centre, &scene, 16, &mut g).unwrap());
    }
    let pixel = fc(sum.on_vec(|w| w.div(s(samples as f64))));
    for &(u, w) in &[(0.0, 0.5), (1.0, 0.5), (0.5, 0.0), (0.5, 1.0)] {
        let edge = camera.get_ray(s(u), s(w));
        assert!(nearest_hit(&edge, &scene).is_none());
        let background = fc(ray_colour(edge, &scene, 16, &mut g).unwrap());
        assert!(pixel.0 < background.0 && pixel.1 < background.1 && pixel.2 < background.2);
    }
}

#[test]
fn equal_seeds_give_equal_colors() {
    let scene = vec![
        Surface::Sphere(grey_sphere()),
        Surface::Sphere(Sphere { radius: s(0.5), centre: v(1.0, 0.0, -1.0), material: Material::Reflective { absorb: c(0.8, 0.6, 0.2), roughness: s(0.3) } }),
        Surface::Sphere(Sphere { radius: s(0.5), centre: v(-1.0, 0.0, -1.0), material: Material::Dielectric { absorb: white(), roughness: s(0.1), refractive_index: s(1.5) } }),
        Surface::Plane(Plane::new(v(0.0, 1.0, 0.0), v(0.0, -0.5, 0.0), Material::Diffuse { absorb: c(0.8, 0.8, 0.0) })),
    ];
    let camera = default_camera();
    let render = |seed: u128| -> (String, u64) {
        let mut g = Generator::new(seed);
        let mut text = String::new();
        for k in 0..120 {
            let u = (k % 12) as f64 / 11.0;
            let w = (k / 12) as f64 / 9.0;
            let color = ray_colour(camera.get_ray(s(u), s(w)), &scene, 8, &mut g).unwrap();
            text.push_str(&color.write_color());
        }
        (text, g.position)
    };
    let first = render(SEED);
    assert_eq!(first, render(SEED));
    assert_ne!(first.0, render(SEED + 2).0);
    assert!(first.1 > 0);
}

#[test]
fn vectors_and_colors_compare_by_value() {
    assert!(v(1.0, 2.0, 3.0) == v(1.0, 2.0, 3.0));
    assert!(v(1.0, 2.0, 3.0) != v(1.0, 2.0, 3.5));
    assert!(v(0.0, 0.0, 0.0) == v(-0.0, 0.0, -0.0));
    assert!(v(f64::NAN, 0.0, 0.0) != v(f64::NAN, 0.0, 0.0));
    assert!(c(0.5, 0.5, 0.5) == grey_50());
    assert!(white() != black());
    assert!(s(2.0) == s(2.0) && s(2.0) != s(-2.0));
}
