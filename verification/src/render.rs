//! The image: every pixel sampled, averaged and written as text.

use vstd::prelude::*;
use crate::scalar::Scalar;
use crate::color::{black, black_spec, decimal, write_color_spec, Color};
use crate::camera::Camera;
use crate::random::{signed_unit, signed_unit_spec, Generator};
use crate::object::Surface;
use crate::tracer::{trace, trace_spec};

verus! {

/// The seed of the generator of a render that is given no other.
pub const DEFAULT_SEED: u128 = 0xcafe_f00d_d15e_a5e5;

/// The size of an image and the effort spent on each of its pixels.
#[derive(Clone, Copy, Debug)]
pub struct Frame {
    pub image_width: u64,
    pub image_height: u64,
    pub samples_per_pixel: u64,
    pub max_bounces: u64,
}

/// The head of a plain-text PPM file: the magic number, width and height,
/// and the largest channel value.
pub open spec fn header_spec(image_width: u64, image_height: u64) -> Seq<char> {
    seq!['P', '3', '\n'] + decimal(image_width as nat) + seq![' '] + decimal(image_height as nat)
        + seq!['\n', '2', '5', '5', '\n']
}

/// The height that goes with a width: the width divided by the aspect
/// ratio, without what comes after the point.
pub open spec fn image_height_spec(image_width: u64, aspect_ratio: Scalar) -> u64 {
    Scalar::from_u64_spec(image_width).div_spec(aspect_ratio).to_u64_spec()
}

/// Where pixel `i` of `n` lies across the image, from 0 for the first to 1
/// for the last: `i / (n - 1)`.
pub open spec fn coordinate_spec(i: u64, n: u64) -> Scalar
    recommends
        n >= 1,
{
    Scalar::from_u64_spec(i).div_spec(Scalar::from_u64_spec((n - 1) as u64))
}

/// One sample of the pixel at `u`, `v`: the colour along the ray through a
/// point that is moved off the pixel's place by up to one pixel either way,
/// down or up by the first random number over the height, left or right by
/// the second over the width. Nothing if the generator runs out.
pub open spec fn sample_spec(
    frame: Frame,
    camera: Camera,
    env: Seq<Surface>,
    u: Scalar,
    v: Scalar,
    g: Generator,
) -> (Option<Color>, Generator) {
    if !g.has(2) {
        (None, g)
    } else {
        let v_jitter = signed_unit_spec(g.word(0)).div_spec(
            Scalar::from_u64_spec(frame.image_height),
        );
        let h_jitter = signed_unit_spec(g.word(1)).div_spec(
            Scalar::from_u64_spec(frame.image_width),
        );
        let ray = camera.get_ray_spec(u.add_spec(h_jitter), v.add_spec(v_jitter));
        let traced = trace_spec(ray, env, frame.max_bounces, g.skip(2));
        (traced.0, traced.2)
    }
}

/// `sum` plus `k` more samples of the pixel at `u`, `v`.
pub open spec fn pixel_sum_spec(
    frame: Frame,
    camera: Camera,
    env: Seq<Surface>,
    u: Scalar,
    v: Scalar,
    k: u64,
    sum: Color,
    g: Generator,
) -> (Option<Color>, Generator)
    decreases k,
{
    if k == 0 {
        (Some(sum), g)
    } else {
        let one = sample_spec(frame, camera, env, u, v, g);
        match one.0 {
            None => (None, one.1),
            Some(c) => pixel_sum_spec(
                frame,
                camera,
                env,
                u,
                v,
                (k - 1) as u64,
                sum.add_spec(c),
                one.1,
            ),
        }
    }
}

/// The colour of the pixel at `u`, `v`: the mean of its samples.
pub open spec fn pixel_spec(
    frame: Frame,
    camera: Camera,
    env: Seq<Surface>,
    u: Scalar,
    v: Scalar,
    g: Generator,
) -> (Option<Color>, Generator) {
    let total = pixel_sum_spec(frame, camera, env, u, v, frame.samples_per_pixel, black_spec(), g);
    match total.0 {
        None => (None, total.1),
        Some(sum) => (
            Some(Color(sum.0.div_spec(Scalar::from_u64_spec(frame.samples_per_pixel)))),
            total.1,
        ),
    }
}

/// `text`, and after it the pixels of a row at height `v` from column `i`
/// on, left to right.
pub open spec fn row_from_spec(
    frame: Frame,
    camera: Camera,
    env: Seq<Surface>,
    v: Scalar,
    i: u64,
    text: Seq<char>,
    g: Generator,
) -> (Option<Seq<char>>, Generator)
    decreases frame.image_width - i,
{
    if i >= frame.image_width {
        (Some(text), g)
    } else {
        let pixel = pixel_spec(frame, camera, env, coordinate_spec(i, frame.image_width), v, g);
        match pixel.0 {
            None => (None, pixel.1),
            Some(c) => row_from_spec(
                frame,
                camera,
                env,
                v,
                (i + 1) as u64,
                text + write_color_spec(c),
                pixel.1,
            ),
        }
    }
}

/// The text of row `row`, counted from the top of the image: the top row
/// is the one highest up in the viewport.
pub open spec fn row_spec(
    frame: Frame,
    camera: Camera,
    env: Seq<Surface>,
    row: u64,
    g: Generator,
) -> (Option<Seq<char>>, Generator)
    recommends
        row < frame.image_height,
{
    row_from_spec(
        frame,
        camera,
        env,
        coordinate_spec((frame.image_height - 1 - row) as u64, frame.image_height),
        0,
        Seq::empty(),
        g,
    )
}

/// `text`, and after it the rows from `row` down to the bottom.
pub open spec fn rows_from_spec(
    frame: Frame,
    camera: Camera,
    env: Seq<Surface>,
    row: u64,
    text: Seq<char>,
    g: Generator,
) -> (Option<Seq<char>>, Generator)
    decreases frame.image_height - row,
{
    if row >= frame.image_height {
        (Some(text), g)
    } else {
        let line = row_spec(frame, camera, env, row, g);
        match line.0 {
            None => (None, line.1),
            Some(t) => rows_from_spec(frame, camera, env, (row + 1) as u64, text + t, line.1),
        }
    }
}

/// The frame of an image of the given width for a camera.
pub open spec fn frame_spec(
    image_width: u64,
    samples_per_pixel: u64,
    max_bounces: u64,
    camera: Camera,
) -> Frame {
    Frame {
        image_width,
        image_height: image_height_spec(image_width, camera.aspect_ratio_spec()),
        samples_per_pixel,
        max_bounces,
    }
}

/// The whole file: the header, then every row from the top.
pub open spec fn render_spec(
    image_width: u64,
    samples_per_pixel: u64,
    max_bounces: u64,
    camera: Camera,
    env: Seq<Surface>,
    g: Generator,
) -> (Option<Seq<char>>, Generator) {
    let frame = frame_spec(image_width, samples_per_pixel, max_bounces, camera);
    rows_from_spec(
        frame,
        camera,
        env,
        0,
        header_spec(frame.image_width, frame.image_height),
        g,
    )
}

/// The text is fixed by what goes in: two renders of the same scene through
/// the same camera, with the same settings and from generators of the same
/// seed and position, give the same text and leave the same generator.
pub proof fn lemma_render_is_deterministic(
    image_width: u64,
    samples_per_pixel: u64,
    max_bounces: u64,
    camera: Camera,
    env: Seq<Surface>,
    g1: Generator,
    g2: Generator,
)
    requires
        g1.seed == g2.seed,
        g1.position == g2.position,
    ensures
        render_spec(image_width, samples_per_pixel, max_bounces, camera, env, g1) == render_spec(
            image_width,
            samples_per_pixel,
            max_bounces,
            camera,
            env,
            g2,
        ),
{
}

/// Formats the header with `format!` and `{}`. Trusted: `Display` for `u64`
/// writes the decimal numeral.
#[verifier::external_body]
fn format_header(image_width: u64, image_height: u64) -> (s: String)
    ensures
        s@ == header_spec(image_width, image_height),
{
    format!("P3\n{} {}\n255\n", image_width, image_height)
}

/// Appends with `String::push_str`. Trusted: the text afterwards is the
/// text before, followed by `tail`.
#[verifier::external_body]
fn append(text: &mut String, tail: &str)
    ensures
        final(text)@ == old(text)@ + tail@,
{
    text.push_str(tail)
}

/// The head of a plain-text PPM file.
pub fn header(image_width: u64, image_height: u64) -> (s: String)
    ensures
        s@ == header_spec(image_width, image_height),
{
    format_header(image_width, image_height)
}

/// The height that goes with a width.
pub fn image_height(image_width: u64, aspect_ratio: Scalar) -> (h: u64)
    ensures
        h == image_height_spec(image_width, aspect_ratio),
{
    Scalar::from_u64(image_width).div(aspect_ratio).to_u64()
}

/// Where pixel `i` of `n` lies across the image.
pub fn coordinate(i: u64, n: u64) -> (r: Scalar)
    requires
        n >= 1,
    ensures
        r == coordinate_spec(i, n),
{
    Scalar::from_u64(i).div(Scalar::from_u64(n - 1))
}

/// One sample of the pixel at `u`, `v`; `None` if the generator ran out.
pub fn sample(
    frame: &Frame,
    camera: &Camera,
    environment: &Vec<Surface>,
    u: Scalar,
    v: Scalar,
    rng: &mut Generator,
) -> (r: Option<Color>)
    ensures
        (r, *final(rng)) == sample_spec(*frame, *camera, environment@, u, v, *old(rng)),
{
    if !rng.has_words(2) {
        return None;
    }
    let v_jitter = rng.next_signed_unit().div(Scalar::from_u64(frame.image_height));
    let h_jitter = rng.next_signed_unit().div(Scalar::from_u64(frame.image_width));
    let this_ray = camera.get_ray(u.add(h_jitter), v.add(v_jitter));
    trace(this_ray, environment, frame.max_bounces, rng).0
}

/// The colour of the pixel at `u`, `v`; `None` if the generator ran out.
pub fn pixel(
    frame: &Frame,
    camera: &Camera,
    environment: &Vec<Surface>,
    u: Scalar,
    v: Scalar,
    rng: &mut Generator,
) -> (r: Option<Color>)
    ensures
        (r, *final(rng)) == pixel_spec(*frame, *camera, environment@, u, v, *old(rng)),
{
    let ghost start = *rng;
    let mut pixel_colour = black();
    let mut left: u64 = frame.samples_per_pixel;
    while left > 0
        invariant
            start == *old(rng),
            pixel_sum_spec(*frame, *camera, environment@, u, v, left, pixel_colour, *rng)
                == pixel_sum_spec(
                *frame,
                *camera,
                environment@,
                u,
                v,
                frame.samples_per_pixel,
                black_spec(),
                start,
            ),
        decreases left,
    {
        match sample(frame, camera, environment, u, v, rng) {
            None => {
                return None;
            },
            Some(c) => {
                pixel_colour.add_assign(c);
            },
        }
        left = left - 1;
    }
    Some(Color(pixel_colour.0.div(Scalar::from_u64(frame.samples_per_pixel))))
}

/// The text of one row, counted from the top; `None` if the generator ran
/// out.
pub fn render_row(
    frame: &Frame,
    camera: &Camera,
    environment: &Vec<Surface>,
    row: u64,
    rng: &mut Generator,
) -> (r: Option<String>)
    requires
        row < frame.image_height,
    ensures
        match r {
            Some(s) => row_spec(*frame, *camera, environment@, row, *old(rng)).0 == Some(s@),
            None => row_spec(*frame, *camera, environment@, row, *old(rng)).0.is_none(),
        },
        *final(rng) == row_spec(*frame, *camera, environment@, row, *old(rng)).1,
{
    let ghost start = *rng;
    let v = coordinate(frame.image_height - 1 - row, frame.image_height);
    let mut text = String::new();
    let mut i: u64 = 0;
    while i < frame.image_width
        invariant
            start == *old(rng),
            row < frame.image_height,
            v == coordinate_spec((frame.image_height - 1 - row) as u64, frame.image_height),
            row_from_spec(*frame, *camera, environment@, v, i, text@, *rng) == row_spec(
                *frame,
                *camera,
                environment@,
                row,
                start,
            ),
        decreases frame.image_width - i,
    {
        let u = coordinate(i, frame.image_width);
        match pixel(frame, camera, environment, u, v, rng) {
            None => {
                return None;
            },
            Some(c) => {
                let line = c.write_color();
                append(&mut text, line.as_str());
            },
        }
        i = i + 1;
    }
    Some(text)
}

/// Renders the scene into the text of a plain-text PPM file, `image_width`
/// pixels wide and as high as the aspect ratio of the camera makes it, rows
/// from the top, pixels from the left. `None` if the generator ran out of
/// random numbers.
pub fn render(
    image_width: u64,
    samples_per_pixel: u64,
    max_bounces: u64,
    camera: &Camera,
    environment: &Vec<Surface>,
    rng: &mut Generator,
) -> (r: Option<String>)
    ensures
        match r {
            Some(s) => render_spec(
                image_width,
                samples_per_pixel,
                max_bounces,
                *camera,
                environment@,
                *old(rng),
            ).0 == Some(s@),
            None => render_spec(
                image_width,
                samples_per_pixel,
                max_bounces,
                *camera,
                environment@,
                *old(rng),
            ).0.is_none(),
        },
        *final(rng) == render_spec(
            image_width,
            samples_per_pixel,
            max_bounces,
            *camera,
            environment@,
            *old(rng),
        ).1,
{
    let ghost start = *rng;
    let frame = Frame {
        image_width,
        image_height: image_height(image_width, camera.aspect_ratio()),
        samples_per_pixel,
        max_bounces,
    };
    let mut text = header(frame.image_width, frame.image_height);
    let mut row: u64 = 0;
    while row < frame.image_height
        invariant
            start == *old(rng),
            frame == frame_spec(image_width, samples_per_pixel, max_bounces, *camera),
            rows_from_spec(frame, *camera, environment@, row, text@, *rng) == render_spec(
                image_width,
                samples_per_pixel,
                max_bounces,
                *camera,
                environment@,
                start,
            ),
        decreases frame.image_height - row,
    {
        match render_row(&frame, camera, environment, row, rng) {
            None => {
                return None;
            },
            Some(line) => {
                append(&mut text, line.as_str());
            },
        }
        row = row + 1;
    }
    Some(text)
}

} // verus!
