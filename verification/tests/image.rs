use raytracer::camera::{default_camera, Camera};
use raytracer::color::{black, grey_50, Color};
use raytracer::object::{Material, Surface};
use raytracer::random::Generator;
use raytracer::render::{
    coordinate, header, image_height, pixel, render, render_row, sample, Frame, DEFAULT_SEED,
};
use raytracer::scalar::Scalar;
use raytracer::sphere::Sphere;
use raytracer::tracer::ray_colour;
use raytracer::vec3::Vec3;

fn s(x: f64) -> Scalar {
    Scalar::from_bits(x.to_bits())
}

fn f(x: Scalar) -> f64 {
    f64::from_bits(x.to_bits())
}

fn scene() -> Vec<Surface> {
    vec![
        Surface::Sphere(Sphere {
            radius: s(0.5),
            centre: Vec3::new(s(0.0), s(0.0), s(-1.0)),
            material: Material::Diffuse { absorb: grey_50() },
        }),
        Surface::Sphere(Sphere {
            radius: s(100.0),
            centre: Vec3::new(s(0.0), s(-100.5), s(-1.0)),
            material: Material::Reflective {
                absorb: Color::from_absorbtion(s(0.3), s(0.8), s(0.8)),
                roughness: s(0.2),
            },
        }),
    ]
}

#[test]
fn integers_convert_as_casts_do() {
    let ints = [
        0u64, 1, 2, 3, 255, 600, 4503599627370495, 4503599627370496, 9007199254740992,
        9007199254740993, 9007199254740995, 18014398509481985, u64::MAX - 1024, u64::MAX, 1 << 63,
        (1 << 63) + 1025, 123456789012345678,
    ];
    for &n in &ints {
        assert_eq!(Scalar::from_u64(n).to_bits(), (n as f64).to_bits(), "{}", n);
    }
    let floats = [
        0.0, -0.0, 0.5, 0.999, 1.0, 1.5, 337.5, -1.0, -0.3, 1e15, 4503599627370496.5,
        9007199254740993.0, 1.8446744073709552e19, 1.8446744073709550e19, 9.3e18, 1e300, 1e-300,
        f64::INFINITY, f64::NEG_INFINITY, f64::NAN, 2048.0, 4095.999,
    ];
    for &x in &floats {
        assert_eq!(s(x).to_u64(), x as u64, "{}", x);
    }
}

#[test]
fn header_and_height_of_the_default_image() {
    let camera = default_camera();
    assert_eq!(image_height(600, camera.aspect_ratio()), 337);
    assert_eq!(image_height(16, camera.aspect_ratio()), 9);
    assert_eq!(image_height(1, camera.aspect_ratio()), 0);
    assert_eq!(image_height(0, camera.aspect_ratio()), 0);
    assert_eq!(image_height(10, s(0.0)), u64::MAX);
    assert_eq!(header(600, 337), "P3\n600 337\n255\n");
    assert_eq!(header(0, 0), "P3\n0 0\n255\n");
    assert_eq!(header(u64::MAX, 10), "P3\n18446744073709551615 10\n255\n");
}

#[test]
fn coordinates_run_from_zero_to_one() {
    assert_eq!(f(coordinate(0, 600)), 0.0);
    assert_eq!(f(coordinate(599, 600)), 1.0);
    assert_eq!(f(coordinate(7, 600)), 7.0 / 599.0);
    assert!(f(coordinate(0, 1)).is_nan());
}

#[test]
fn sample_jitters_by_less_than_a_pixel() {
    let camera = default_camera();
    let env = scene();
    let frame = Frame { image_width: 16, image_height: 9, samples_per_pixel: 1, max_bounces: 4 };
    let mut g = Generator::new(DEFAULT_SEED);
    let mut reference = Generator::new(DEFAULT_SEED);
    for _ in 0..20 {
        let got = sample(&frame, &camera, &env, s(0.25), s(0.75), &mut g).unwrap();
        let dv = f(reference.next_signed_unit()) / 9.0;
        let du = f(reference.next_signed_unit()) / 16.0;
        assert!(dv.abs() <= 1.0 / 9.0 && du.abs() <= 1.0 / 16.0);
        let r = camera.get_ray(s(0.25 + du), s(0.75 + dv));
        let want = ray_colour(r, &env, 4, &mut reference).unwrap();
        assert_eq!((got.r().to_bits(), got.g().to_bits(), got.b().to_bits()), (want.r().to_bits(), want.g().to_bits(), want.b().to_bits()));
        assert_eq!(g.position, reference.position);
    }
}

#[test]
fn pixel_is_the_mean_of_its_samples() {
    let camera = default_camera();
    let env = scene();
    let frame = Frame { image_width: 16, image_height: 9, samples_per_pixel: 5, max_bounces: 4 };
    let mut g = Generator::new(DEFAULT_SEED);
    let mut reference = Generator::new(DEFAULT_SEED);
    let got = pixel(&frame, &camera, &env, s(0.5), s(0.5), &mut g).unwrap();
    let mut sum = black();
    for _ in 0..5 {
        sum.add_assign(sample(&frame, &camera, &env, s(0.5), s(0.5), &mut reference).unwrap());
    }
    assert_eq!(f(got.r()), f(sum.r()) / 5.0);
    assert_eq!(f(got.g()), f(sum.g()) / 5.0);
    assert_eq!(f(got.b()), f(sum.b()) / 5.0);
    assert_eq!(g.position, reference.position);
}

#[test]
fn render_writes_header_and_rows_from_the_top() {
    let camera = default_camera();
    let env = scene();
    let mut g = Generator::new(DEFAULT_SEED);
    let text = render(16, 3, 4, &camera, &env, &mut g).unwrap();
    let lines: Vec<&str> = text.lines().collect();
    assert_eq!(&lines[..3], &["P3", "16 9", "255"]);
    assert_eq!(lines.len(), 3 + 16 * 9);
    assert!(text.ends_with('\n'));
    for line in &lines[3..] {
        let channels: Vec<u32> = line.split(' ').map(|n| n.parse().unwrap()).collect();
        assert_eq!(channels.len(), 3);
        assert!(channels.iter().all(|&n| n <= 255));
    }
    // the same text, row by row
    let frame = Frame { image_width: 16, image_height: 9, samples_per_pixel: 3, max_bounces: 4 };
    let mut reference = Generator::new(DEFAULT_SEED);
    let mut want = header(16, 9);
    for row in 0..9 {
        want.push_str(&render_row(&frame, &camera, &env, row, &mut reference).unwrap());
    }
    assert_eq!(text, want);
    assert_eq!(g.position, reference.position);
    // the top row shows the sky, bluer than it is red; the bottom row shows the ground
    let top: Vec<u32> = lines[3].split(' ').map(|n| n.parse().unwrap()).collect();
    assert!(top[2] > top[0]);
    let mut first_row = Generator::new(DEFAULT_SEED);
    let row0 = render_row(&frame, &camera, &env, 0, &mut first_row).unwrap();
    assert!(text[header(16, 9).len()..].starts_with(&row0));
}

#[test]
fn render_is_fixed_by_the_seed() {
    let camera = default_camera();
    let env = scene();
    let mut a = Generator::new(DEFAULT_SEED);
    let mut b = Generator::new(DEFAULT_SEED);
    let mut other = Generator::new(DEFAULT_SEED + 2);
    let first = render(12, 2, 6, &camera, &env, &mut a).unwrap();
    let second = render(12, 2, 6, &camera, &env, &mut b).unwrap();
    assert_eq!(first, second);
    assert_eq!(a.position, b.position);
    assert_ne!(first, render(12, 2, 6, &camera, &env, &mut other).unwrap());
}

#[test]
fn render_of_nothing_is_a_header() {
    let camera = default_camera();
    let env = scene();
    let mut g = Generator::new(DEFAULT_SEED);
    assert_eq!(render(0, 3, 4, &camera, &env, &mut g).unwrap(), "P3\n0 0\n255\n");
    assert_eq!(render(1, 3, 4, &camera, &env, &mut g).unwrap(), "P3\n1 0\n255\n");
    assert_eq!(g.position, 0);
    // no samples: every pixel is zero over zero
    let square = Camera::new(s(1.0), s(2.0), s(1.0));
    assert_eq!(render(2, 0, 4, &square, &env, &mut g).unwrap(), "P3\n2 2\n255\n0 0 0\n0 0 0\n0 0 0\n0 0 0\n");
}

#[test]
fn render_stops_when_the_generator_runs_out() {
    let camera = default_camera();
    let env = scene();
    let mut g = Generator { seed: DEFAULT_SEED, position: u64::MAX - 40 };
    assert!(render(16, 3, 4, &camera, &env, &mut g).is_none());
    let mut g = Generator { seed: DEFAULT_SEED, position: u64::MAX - 1 };
    let frame = Frame { image_width: 16, image_height: 9, samples_per_pixel: 3, max_bounces: 4 };
    assert!(sample(&frame, &camera, &env, s(0.5), s(0.5), &mut g).is_none());
    assert_eq!(g.position, u64::MAX - 1);
}
