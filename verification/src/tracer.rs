//! The path integrator: what light comes back along a ray.

use vstd::prelude::*;
use crate::scalar::{scalar, Scalar, ONE_BITS, TWO_BITS, HALF_BITS};
use crate::vec3::unit::in_direction_spec;
use crate::color::{Color, black, black_spec, gradient, gradient_spec, white, white_spec};
use crate::ray::Ray;
use crate::random::Generator;
use crate::object::{interact, interaction_spec, Object, Surface, SHADOW_ACNE_TOLERANCE_BITS};

verus! {

/// A ray whose three channels are all below this carries nothing that a
/// pixel could show: 1 / 255.
pub const KILL_THRESHOLD_BITS: u64 = 0x3F70_1010_1010_1010;

/// The green of the sky at its top, 0.7 (its red is one half, its blue 1).
pub const SKY_GREEN_BITS: u64 = 0x3FE6_6666_6666_6666;

pub open spec fn sky_blue_spec() -> Color {
    Color::rgb(scalar(HALF_BITS), scalar(SKY_GREEN_BITS), scalar(ONE_BITS))
}

/// The hit of a ray on a surface, unless it is nearer than the tolerance.
pub open spec fn valid_hit_spec<O: Object>(obj: O, ray: Ray<Scalar>) -> Option<Scalar> {
    match obj.intersection_spec(&ray) {
        Some(t) => if scalar(SHADOW_ACNE_TOLERANCE_BITS).le_spec(t) {
            Some(t)
        } else {
            None
        },
        None => None,
    }
}

/// The nearest valid hit among the first `n` surfaces, with the index of
/// the surface; of several at the same distance, the first.
pub open spec fn nearest_hit_spec(ray: Ray<Scalar>, env: Seq<Surface>, n: nat) -> Option<
    (Scalar, usize),
>
    decreases n,
{
    if n == 0 {
        None
    } else {
        let before = nearest_hit_spec(ray, env, (n - 1) as nat);
        match valid_hit_spec(env[n - 1], ray) {
            None => before,
            Some(t) => match before {
                None => Some((t, (n - 1) as usize)),
                Some((best, _)) => if t.lt_spec(best) {
                    Some((t, (n - 1) as usize))
                } else {
                    before
                },
            },
        }
    }
}

/// `hit` is the nearest valid hit among the first `n` surfaces: nothing if
/// none of them is hit; else a surface and its distance such that no
/// surface is hit nearer, and none before it as near.
pub open spec fn is_nearest(
    ray: Ray<Scalar>,
    env: Seq<Surface>,
    n: nat,
    hit: Option<(Scalar, usize)>,
) -> bool {
    match hit {
        None => forall|j: int| 0 <= j < n ==> valid_hit_spec(#[trigger] env[j], ray).is_none(),
        Some((t, i)) => {
            &&& i < n
            &&& valid_hit_spec(env[i as int], ray) == Some(t)
            &&& forall|j: int|
                0 <= j < n ==> match valid_hit_spec(#[trigger] env[j], ray) {
                    Some(u) => t.le_spec(u) && (j < i ==> t.lt_spec(u)),
                    None => true,
                }
        },
    }
}

pub proof fn lemma_nearest_hit(ray: Ray<Scalar>, env: Seq<Surface>, n: nat)
    requires
        n <= env.len(),
        n <= usize::MAX,
    ensures
        is_nearest(ray, env, n, nearest_hit_spec(ray, env, n)),
    decreases n,
{
    if n > 0 {
        lemma_nearest_hit(ray, env, (n - 1) as nat);
        let before = nearest_hit_spec(ray, env, (n - 1) as nat);
        let now = nearest_hit_spec(ray, env, n);
        assert(is_nearest(ray, env, (n - 1) as nat, before));
        match now {
            None => {
                assert forall|j: int| 0 <= j < n implies valid_hit_spec(
                    #[trigger] env[j],
                    ray,
                ).is_none() by {
                    if j < n - 1 {
                    }
                }
            },
            Some((t, i)) => {
                assert forall|j: int| 0 <= j < n implies match valid_hit_spec(
                    #[trigger] env[j],
                    ray,
                ) {
                    Some(u) => t.le_spec(u) && (j < i ==> t.lt_spec(u)),
                    None => true,
                } by {
                    if j < n - 1 {
                    }
                }
            },
        }
    }
}

/// No light is left in a ray: every channel is below the threshold.
pub open spec fn faded_spec(c: Color) -> bool {
    let threshold = scalar(KILL_THRESHOLD_BITS);
    c.0.x.lt_spec(threshold) && c.0.y.lt_spec(threshold) && c.0.z.lt_spec(threshold)
}

/// The light of the sky along a ray that hits nothing: white at the
/// horizon below, blue above, blended by the height `(1 + y) / 2` of the
/// unit direction, times what the ray carries.
pub open spec fn sky_spec(ray: Ray<Scalar>) -> Color {
    let direction = in_direction_spec(ray.direction);
    let t = scalar(ONE_BITS).add_spec(direction.y).div_spec(scalar(TWO_BITS));
    ray.color.absorb_spec(gradient_spec(white_spec(), sky_blue_spec(), t))
}

/// The colour that comes back along `ray`, the number of bounces that the
/// path took, and the generator after it.
///
/// A faded ray returns what it carries. A ray with no bounce left returns
/// black. A ray that hits nothing returns the sky. Any other ray goes on
/// from the nearest hit as the material there decides, with one bounce
/// less. The colour is nothing if the generator runs out on the way.
pub open spec fn trace_spec(ray: Ray<Scalar>, env: Seq<Surface>, depth: u64, g: Generator) -> (
    Option<Color>,
    nat,
    Generator,
)
    decreases depth,
{
    if faded_spec(ray.color) {
        (Some(ray.color), 0, g)
    } else if depth == 0 {
        (Some(black_spec()), 0, g)
    } else {
        match nearest_hit_spec(ray, env, env.len()) {
            None => (Some(sky_spec(ray)), 0, g),
            Some((t, i)) => {
                let point = ray.at_spec(t);
                let next = interaction_spec(
                    env[i as int].material_spec(),
                    ray,
                    point,
                    env[i as int].normal_spec(&point),
                    g,
                );
                match next.0 {
                    None => (None, 0, next.1),
                    Some(outgoing) => {
                        let rest = trace_spec(outgoing, env, (depth - 1) as u64, next.1);
                        (rest.0, (rest.1 + 1) as nat, rest.2)
                    },
                }
            },
        }
    }
}

/// A path takes no more bounces than its depth allows.
pub proof fn lemma_bounces_within_depth(
    ray: Ray<Scalar>,
    env: Seq<Surface>,
    depth: u64,
    g: Generator,
)
    ensures
        trace_spec(ray, env, depth, g).1 <= depth,
    decreases depth,
{
    if !faded_spec(ray.color) && depth > 0 {
        match nearest_hit_spec(ray, env, env.len()) {
            None => {},
            Some((t, i)) => {
                let point = ray.at_spec(t);
                let next = interaction_spec(
                    env[i as int].material_spec(),
                    ray,
                    point,
                    env[i as int].normal_spec(&point),
                    g,
                );
                match next.0 {
                    None => {},
                    Some(outgoing) => {
                        lemma_bounces_within_depth(outgoing, env, (depth - 1) as u64, next.1);
                    },
                }
            },
        }
    }
}

pub fn sky_blue() -> (c: Color)
    ensures
        c == sky_blue_spec(),
{
    Color::new(
        Scalar::from_bits(HALF_BITS),
        Scalar::from_bits(SKY_GREEN_BITS),
        Scalar::from_bits(ONE_BITS),
    )
}

/// The hit of a ray on a surface, unless it is nearer than the tolerance.
pub fn valid_hit<O: Object>(obj: &O, ray: &Ray<Scalar>) -> (r: Option<Scalar>)
    ensures
        r == valid_hit_spec(*obj, *ray),
{
    match obj.intersection(ray) {
        Some(t) => if t.ge(Scalar::from_bits(SHADOW_ACNE_TOLERANCE_BITS)) {
            Some(t)
        } else {
            None
        },
        None => None,
    }
}

/// The nearest surface that the ray hits, with the distance: every surface
/// is tried, in order.
pub fn nearest_hit(ray: &Ray<Scalar>, environment: &Vec<Surface>) -> (r: Option<(Scalar, usize)>)
    ensures
        r == nearest_hit_spec(*ray, environment@, environment@.len()),
        is_nearest(*ray, environment@, environment@.len(), r),
{
    let mut best: Option<(Scalar, usize)> = None;
    let mut i: usize = 0;
    while i < environment.len()
        invariant
            i <= environment@.len(),
            best == nearest_hit_spec(*ray, environment@, i as nat),
        decreases environment@.len() - i,
    {
        match valid_hit(&environment[i], ray) {
            None => {},
            Some(t) => {
                match best {
                    None => {
                        best = Some((t, i));
                    },
                    Some((nearest, _)) => {
                        if t.lt(nearest) {
                            best = Some((t, i));
                        }
                    },
                }
            },
        }
        i = i + 1;
    }
    proof {
        lemma_nearest_hit(*ray, environment@, environment@.len());
    }
    best
}

/// No light is left in a ray.
pub fn faded(c: &Color) -> (r: bool)
    ensures
        r == faded_spec(*c),
{
    let threshold = Scalar::from_bits(KILL_THRESHOLD_BITS);
    c.r().lt(threshold) && c.g().lt(threshold) && c.b().lt(threshold)
}

/// The light of the sky along a ray that hits nothing.
pub fn sky(ray: &Ray<Scalar>) -> (c: Color)
    ensures
        c == sky_spec(*ray),
{
    let direction = ray.direction.inv_scale(ray.direction.length());
    let t = Scalar::from_bits(ONE_BITS).add(direction.y).div(Scalar::from_bits(TWO_BITS));
    ray.color.absorb(&gradient(white(), sky_blue(), t))
}

/// Follows a ray through the scene for at most `depth` bounces. Returns the
/// colour that comes back along it and the number of bounces taken; the
/// colour is `None` if the generator ran out of random numbers.
pub fn trace(
    incoming_ray: Ray<Scalar>,
    environment: &Vec<Surface>,
    depth: u64,
    rng: &mut Generator,
) -> (r: (Option<Color>, u64))
    ensures
        (r.0, r.1 as nat, *final(rng)) == trace_spec(incoming_ray, environment@, depth, *old(rng)),
        r.1 <= depth,
{
    let mut ray = incoming_ray;
    let mut left: u64 = depth;
    let mut bounces: u64 = 0;
    let ghost start = *rng;
    loop
        invariant
            start == *old(rng),
            bounces + left == depth,
            ({
                let rest = trace_spec(ray, environment@, left, *rng);
                trace_spec(incoming_ray, environment@, depth, start) == (
                    rest.0,
                    (rest.1 + bounces) as nat,
                    rest.2,
                )
            }),
        decreases left,
    {
        if faded(&ray.color) {
            return (Some(ray.color), bounces);
        }
        if left == 0 {
            return (Some(black()), bounces);
        }
        match nearest_hit(&ray, environment) {
            None => {
                return (Some(sky(&ray)), bounces);
            },
            Some((t, i)) => {
                match interact(&environment[i], ray, t, rng) {
                    None => {
                        return (None, bounces);
                    },
                    Some(outgoing) => {
                        ray = outgoing;
                        left = left - 1;
                        bounces = bounces + 1;
                    },
                }
            },
        }
    }
}

/// The colour of the light that comes back along a ray, after at most
/// `depth` bounces; `None` if the generator ran out of random numbers.
pub fn ray_colour(
    incoming_ray: Ray<Scalar>,
    environment: &Vec<Surface>,
    depth: u64,
    rng: &mut Generator,
) -> (r: Option<Color>)
    ensures
        r == trace_spec(incoming_ray, environment@, depth, *old(rng)).0,
        *final(rng) == trace_spec(incoming_ray, environment@, depth, *old(rng)).2,
{
    trace(incoming_ray, environment, depth, rng).0
}

} // verus!
