//! Surfaces and materials, and what a material does to a ray that hits it.

use vstd::prelude::*;
use crate::scalar::{scalar, Scalar, ONE_BITS, TWO_BITS};
use crate::vec3::{Vec3, random_in_unit_sphere, random_in_unit_sphere_spec};
use crate::vec3::unit::{in_direction_spec, random, random_spec};
use crate::color::Color;
use crate::arith::lemma_mul_by_share;
use crate::ray::Ray;
use crate::random::Generator;
use crate::sphere::Sphere;
use crate::plane::Plane;

verus! {

/// A hit nearer than this along the ray does not count: 1e-4. It keeps a
/// bounced ray from hitting the surface that it has just left.
pub const SHADOW_ACNE_TOLERANCE_BITS: u64 = 0x3F1A_36E2_EB1C_432D;

/// The refractive index of the air around every surface: 1.
pub const AIR_REFRACTIVE_INDEX_BITS: u64 = ONE_BITS;

#[derive(Clone, Copy, Debug)]
pub enum Material {
    /// Matte: scatters around the normal.
    Diffuse { absorb: Color },
    /// Mirror, blurred by `roughness` (0 to 1).
    Reflective { absorb: Color, roughness: Scalar },
    /// Glass: refracts, and reflects where refraction is impossible.
    Dielectric { absorb: Color, roughness: Scalar, refractive_index: Scalar },
}

impl Material {
    pub open spec fn absorb_spec(self) -> Color {
        match self {
            Material::Diffuse { absorb } => absorb,
            Material::Reflective { absorb, roughness: _ } => absorb,
            Material::Dielectric { absorb, roughness: _, refractive_index: _ } => absorb,
        }
    }

    /// The colour that the material leaves of white light.
    pub fn absorb(self) -> (c: Color)
        ensures
            c == self.absorb_spec(),
    {
        match self {
            Material::Diffuse { absorb } => absorb,
            Material::Reflective { absorb, roughness: _ } => absorb,
            Material::Dielectric { absorb, roughness: _, refractive_index: _ } => absorb,
        }
    }
}

/// A surface that a ray can hit.
pub trait Object {
    spec fn intersection_spec(&self, ray: &Ray<Scalar>) -> Option<Scalar>;

    spec fn normal_spec(&self, intersection: &Vec3<Scalar>) -> Vec3<Scalar>;

    spec fn material_spec(&self) -> Material;

    /// The parameter along the ray at which it hits the surface, if it does.
    fn intersection(&self, ray: &Ray<Scalar>) -> (r: Option<Scalar>)
        ensures
            r == self.intersection_spec(ray),
    ;

    /// The unit normal of the surface at a point of it; on a closed surface
    /// it points outward.
    fn normal(&self, intersection: &Vec3<Scalar>) -> (r: Vec3<Scalar>)
        ensures
            r == self.normal_spec(intersection),
    ;

    fn material(&self) -> (r: &Material)
        ensures
            *r == self.material_spec(),
    ;
}

/// The surfaces that a scene is made of.
#[derive(Debug)]
pub enum Surface {
    Sphere(Sphere),
    Plane(Plane),
}

impl Object for Surface {
    open spec fn intersection_spec(&self, ray: &Ray<Scalar>) -> Option<Scalar> {
        match self {
            Surface::Sphere(s) => s.intersection_spec(ray),
            Surface::Plane(p) => p.intersection_spec(ray),
        }
    }

    open spec fn normal_spec(&self, intersection: &Vec3<Scalar>) -> Vec3<Scalar> {
        match self {
            Surface::Sphere(s) => s.normal_spec(intersection),
            Surface::Plane(p) => p.normal_spec(intersection),
        }
    }

    open spec fn material_spec(&self) -> Material {
        match self {
            Surface::Sphere(s) => s.material_spec(),
            Surface::Plane(p) => p.material_spec(),
        }
    }

    fn intersection(&self, ray: &Ray<Scalar>) -> (r: Option<Scalar>) {
        match self {
            Surface::Sphere(s) => s.intersection(ray),
            Surface::Plane(p) => p.intersection(ray),
        }
    }

    fn normal(&self, intersection: &Vec3<Scalar>) -> (r: Vec3<Scalar>) {
        match self {
            Surface::Sphere(s) => s.normal(intersection),
            Surface::Plane(p) => p.normal(intersection),
        }
    }

    fn material(&self) -> (r: &Material) {
        match self {
            Surface::Sphere(s) => s.material(),
            Surface::Plane(p) => p.material(),
        }
    }
}

/// The ray that leaves a matte surface at `point`: along the normal plus the
/// random unit vector `sample`, or along the normal alone where the two
/// nearly cancel. It carries the incoming colour times `absorb`.
pub open spec fn scatter_spec(
    absorb: Color,
    incoming: Ray<Scalar>,
    point: Vec3<Scalar>,
    normal: Vec3<Scalar>,
    sample: Vec3<Scalar>,
) -> Ray<Scalar> {
    let proposed = normal.add_spec(sample);
    Ray {
        origin: point,
        direction: if proposed.near_zero_spec() {
            normal
        } else {
            proposed
        },
        color: incoming.color.absorb_spec(absorb),
    }
}

/// The direction that a mirror proposes: the unit incoming direction `d`
/// mirrored at the normal `n`, `d - 2 (d . n) n`, plus `roughness` times the
/// random vector `sample`.
pub open spec fn reflect_proposal_spec(
    roughness: Scalar,
    incoming: Ray<Scalar>,
    normal: Vec3<Scalar>,
    sample: Vec3<Scalar>,
) -> Vec3<Scalar> {
    let d = in_direction_spec(incoming.direction);
    let reflected = d.sub_spec(normal.mul_spec(scalar(TWO_BITS)).mul_spec(d.dot_spec(normal)));
    reflected.add_spec(sample.mul_spec(roughness))
}

/// The proposed direction points into the surface.
pub open spec fn reflect_sinks_spec(
    roughness: Scalar,
    incoming: Ray<Scalar>,
    normal: Vec3<Scalar>,
    sample: Vec3<Scalar>,
) -> bool {
    reflect_proposal_spec(roughness, incoming, normal, sample).dot_spec(normal).lt_spec(scalar(0))
}

/// The ray that leaves a mirror at `point`: along the proposed direction,
/// with the incoming colour times `absorb`; but where that direction points
/// into the surface, along the normal, with `absorb` itself for its colour.
pub open spec fn reflect_spec(
    absorb: Color,
    roughness: Scalar,
    incoming: Ray<Scalar>,
    point: Vec3<Scalar>,
    normal: Vec3<Scalar>,
    sample: Vec3<Scalar>,
) -> Ray<Scalar> {
    if reflect_sinks_spec(roughness, incoming, normal, sample) {
        Ray { origin: point, direction: normal, color: absorb }
    } else {
        Ray {
            origin: point,
            direction: reflect_proposal_spec(roughness, incoming, normal, sample),
            color: incoming.color.absorb_spec(absorb),
        }
    }
}

/// The square of the sine of the angle between the refracted ray and the
/// normal, by Snell's law: `(n1 / n2)^2 (1 - cos^2)`, with `cos` the cosine
/// of the angle of incidence, `n1` the index of the side that the ray comes
/// from and `n2` that of the side it goes to. The ray is inside the surface
/// where it runs along the outward normal.
pub open spec fn sin_squared_spec(
    refractive_index: Scalar,
    incoming: Ray<Scalar>,
    normal: Vec3<Scalar>,
) -> Scalar {
    let along = incoming.direction.dot_spec(normal);
    let ratio = if scalar(0).lt_spec(along) {
        refractive_index.div_spec(scalar(AIR_REFRACTIVE_INDEX_BITS))
    } else {
        scalar(AIR_REFRACTIVE_INDEX_BITS).div_spec(refractive_index)
    };
    let cos = along.div_spec(incoming.direction.length_spec());
    ratio.mul_spec(ratio).mul_spec(scalar(ONE_BITS).sub_spec(cos.mul_spec(cos)))
}

/// The refracted ray: `cos` of the new angle along the normal on the far
/// side, `sin` of it along the unit tangent of the incoming direction. It
/// carries the incoming colour unchanged. Nothing, where the squared sine
/// is above 1: the ray is reflected as a whole.
pub open spec fn refract_spec(
    refractive_index: Scalar,
    incoming: Ray<Scalar>,
    point: Vec3<Scalar>,
    normal: Vec3<Scalar>,
) -> Option<Ray<Scalar>> {
    let along = incoming.direction.dot_spec(normal);
    let unit_perp = normal.mul_spec(along.signum_spec());
    let unit_parallel = in_direction_spec(
        incoming.direction.sub_spec(unit_perp.mul_spec(along.abs_spec())),
    );
    let sin_squared = sin_squared_spec(refractive_index, incoming, normal);
    if scalar(ONE_BITS).lt_spec(sin_squared) {
        None
    } else {
        Some(
            Ray {
                origin: point,
                direction: unit_perp.mul_spec(
                    scalar(ONE_BITS).sub_spec(sin_squared).sqrt_spec(),
                ).add_spec(unit_parallel.mul_spec(sin_squared.sqrt_spec())),
                color: incoming.color,
            },
        )
    }
}

/// What `material` makes of a ray that hits at `point`, where the normal is
/// `normal`, with the generator `g` for its random numbers: the outgoing
/// ray and the generator after it. Nothing, if the generator runs out.
pub open spec fn interaction_spec(
    material: Material,
    incoming: Ray<Scalar>,
    point: Vec3<Scalar>,
    normal: Vec3<Scalar>,
    g: Generator,
) -> (Option<Ray<Scalar>>, Generator) {
    match material {
        Material::Diffuse { absorb } => match random_spec(g).0 {
            Some(sample) => (
                Some(scatter_spec(absorb, incoming, point, normal, sample)),
                random_spec(g).1,
            ),
            None => (None, random_spec(g).1),
        },
        Material::Reflective { absorb, roughness } => match random_in_unit_sphere_spec(g).0 {
            Some(sample) => (
                Some(reflect_spec(absorb, roughness, incoming, point, normal, sample)),
                random_in_unit_sphere_spec(g).1,
            ),
            None => (None, random_in_unit_sphere_spec(g).1),
        },
        Material::Dielectric { absorb, roughness, refractive_index } => match refract_spec(
            refractive_index,
            incoming,
            point,
            normal,
        ) {
            Some(refracted) => (Some(refracted), g),
            None => match random_in_unit_sphere_spec(g).0 {
                Some(sample) => (
                    Some(reflect_spec(absorb, roughness, incoming, point, normal, sample)),
                    random_in_unit_sphere_spec(g).1,
                ),
                None => (None, random_in_unit_sphere_spec(g).1),
            },
        },
    }
}

/// The ray that leaves a matte surface, for a given random unit vector.
pub fn scatter(
    absorb: Color,
    incoming: &Ray<Scalar>,
    point: Vec3<Scalar>,
    normal: Vec3<Scalar>,
    sample: Vec3<Scalar>,
) -> (r: Ray<Scalar>)
    ensures
        r == scatter_spec(absorb, *incoming, point, normal, sample),
{
    let proposed = normal.add(sample);
    let outgoing_direction = if proposed.near_zero() {
        normal
    } else {
        proposed
    };
    Ray { origin: point, direction: outgoing_direction, color: incoming.color.absorb(&absorb) }
}

/// The ray that leaves a mirror, for a given random vector from inside the
/// unit sphere.
pub fn reflect(
    absorb: Color,
    roughness: Scalar,
    incoming: &Ray<Scalar>,
    point: Vec3<Scalar>,
    normal: Vec3<Scalar>,
    sample: Vec3<Scalar>,
) -> (r: Ray<Scalar>)
    ensures
        r == reflect_spec(absorb, roughness, *incoming, point, normal, sample),
{
    let incoming_direction = incoming.direction.inv_scale(incoming.direction.length());
    let reflected_direction = incoming_direction.sub(
        normal.mul(Scalar::from_bits(TWO_BITS)).mul(incoming_direction.dot(&normal)),
    );
    let fuzz = sample.mul(roughness);
    let proposed = reflected_direction.add(fuzz);
    if proposed.dot(&normal).lt(Scalar::from_bits(0)) {
        Ray { origin: point, direction: normal, color: absorb }
    } else {
        Ray { origin: point, direction: proposed, color: incoming.color.absorb(&absorb) }
    }
}

/// The refracted ray, or nothing where the whole ray is reflected.
pub fn refract(
    refractive_index: Scalar,
    incoming: &Ray<Scalar>,
    point: Vec3<Scalar>,
    normal: Vec3<Scalar>,
) -> (r: Option<Ray<Scalar>>)
    ensures
        r == refract_spec(refractive_index, *incoming, point, normal),
{
    let one = Scalar::from_bits(ONE_BITS);
    let air = Scalar::from_bits(AIR_REFRACTIVE_INDEX_BITS);
    let incoming_dot_normal = incoming.direction.dot(&normal);
    let inside_material = incoming_dot_normal.gt(Scalar::from_bits(0));
    let unit_perp = normal.mul(incoming_dot_normal.signum());
    let incoming_dot_perp = incoming_dot_normal.abs();
    let tangent = incoming.direction.sub(unit_perp.mul(incoming_dot_perp));
    let unit_parallel = tangent.inv_scale(tangent.length());
    let ratio = if inside_material {
        refractive_index.div(air)
    } else {
        air.div(refractive_index)
    };
    let cos_t1 = incoming_dot_normal.div(incoming.direction.length());
    let sin_t1_squared = one.sub(cos_t1.mul(cos_t1));
    let sin_t2_squared = ratio.mul(ratio).mul(sin_t1_squared);
    if sin_t2_squared.gt(one) {
        None
    } else {
        let sin_t2 = sin_t2_squared.sqrt();
        let cos_t2 = one.sub(sin_t2_squared).sqrt();
        let outgoing_direction = unit_perp.mul(cos_t2).add(unit_parallel.mul(sin_t2));
        Some(Ray { origin: point, direction: outgoing_direction, color: incoming.color })
    }
}

/// The ray that leaves `obj` after `incoming_ray` has hit it at parameter
/// `t`. `None` if the generator runs out of random numbers.
pub fn interact<O: Object>(
    obj: &O,
    incoming_ray: Ray<Scalar>,
    t: Scalar,
    rng: &mut Generator,
) -> (r: Option<Ray<Scalar>>)
    ensures
        (r, *final(rng)) == interaction_spec(
            obj.material_spec(),
            incoming_ray,
            incoming_ray.at_spec(t),
            obj.normal_spec(&incoming_ray.at_spec(t)),
            *old(rng),
        ),
{
    let intersection = incoming_ray.at(t);
    let unit_normal = obj.normal(&intersection);
    match *obj.material() {
        Material::Diffuse { absorb } => {
            match random(rng) {
                Some(sample) => Some(
                    scatter(absorb, &incoming_ray, intersection, unit_normal, sample),
                ),
                None => None,
            }
        },
        Material::Reflective { absorb, roughness } => {
            match random_in_unit_sphere(rng) {
                Some(sample) => Some(
                    reflect(absorb, roughness, &incoming_ray, intersection, unit_normal, sample),
                ),
                None => None,
            }
        },
        Material::Dielectric { absorb, roughness, refractive_index } => {
            match refract(refractive_index, &incoming_ray, intersection, unit_normal) {
                Some(refracted) => Some(refracted),
                None => match random_in_unit_sphere(rng) {
                    Some(sample) => Some(
                        reflect(
                            absorb,
                            roughness,
                            &incoming_ray,
                            intersection,
                            unit_normal,
                            sample,
                        ),
                    ),
                    None => None,
                },
            }
        },
    }
}

/// The colour is light: every channel is finite and not negative.
pub open spec fn is_light(c: Color) -> bool {
    &&& c.0.x.finite() && scalar(0).le_spec(c.0.x)
    &&& c.0.y.finite() && scalar(0).le_spec(c.0.y)
    &&& c.0.z.finite() && scalar(0).le_spec(c.0.z)
}

/// The colour is a share: every channel lies from 0 to 1.
pub open spec fn is_share(c: Color) -> bool {
    &&& scalar(0).le_spec(c.0.x) && c.0.x.le_spec(scalar(ONE_BITS))
    &&& scalar(0).le_spec(c.0.y) && c.0.y.le_spec(scalar(ONE_BITS))
    &&& scalar(0).le_spec(c.0.z) && c.0.z.le_spec(scalar(ONE_BITS))
}

/// No channel of `a` is above that of `b`.
pub open spec fn no_brighter(a: Color, b: Color) -> bool {
    a.0.x.le_spec(b.0.x) && a.0.y.le_spec(b.0.y) && a.0.z.le_spec(b.0.z)
}

/// A matte surface passes on the incoming colour times its own, whatever
/// direction is drawn for the scattered ray; and so does every interaction
/// with a matte surface that the generator has numbers for.
pub proof fn lemma_diffuse_color(
    absorb: Color,
    incoming: Ray<Scalar>,
    point: Vec3<Scalar>,
    normal: Vec3<Scalar>,
    sample: Vec3<Scalar>,
    g: Generator,
)
    ensures
        scatter_spec(absorb, incoming, point, normal, sample).color == incoming.color.absorb_spec(
            absorb,
        ),
        match interaction_spec(Material::Diffuse { absorb }, incoming, point, normal, g).0 {
            Some(outgoing) => outgoing.color == incoming.color.absorb_spec(absorb),
            None => true,
        },
{
}

/// Absorption takes light away: light times a share is light again, and no
/// channel of it is brighter than before.
pub proof fn lemma_absorb_does_not_brighten(light: Color, absorb: Color)
    requires
        is_light(light),
        is_share(absorb),
    ensures
        no_brighter(light.absorb_spec(absorb), light),
        is_light(light.absorb_spec(absorb)),
{
    lemma_mul_by_share(light.0.x, absorb.0.x);
    lemma_mul_by_share(light.0.y, absorb.0.y);
    lemma_mul_by_share(light.0.z, absorb.0.z);
}

/// A bounce off a matte surface whose colour is a share does not brighten
/// the light that the ray carries.
pub proof fn lemma_scatter_does_not_brighten(
    absorb: Color,
    incoming: Ray<Scalar>,
    point: Vec3<Scalar>,
    normal: Vec3<Scalar>,
    sample: Vec3<Scalar>,
)
    requires
        is_light(incoming.color),
        is_share(absorb),
    ensures
        no_brighter(scatter_spec(absorb, incoming, point, normal, sample).color, incoming.color),
        is_light(scatter_spec(absorb, incoming, point, normal, sample).color),
{
    lemma_absorb_does_not_brighten(incoming.color, absorb);
}

/// A bounce off a mirror whose colour is a share does not brighten the
/// light that the ray carries, as long as the proposed direction stays
/// outside the surface. Where it sinks in, the ray takes the colour of the
/// mirror whatever it carried, and is no brighter only if the mirror's
/// colour is no brighter.
pub proof fn lemma_reflect_does_not_brighten(
    absorb: Color,
    roughness: Scalar,
    incoming: Ray<Scalar>,
    point: Vec3<Scalar>,
    normal: Vec3<Scalar>,
    sample: Vec3<Scalar>,
)
    requires
        is_light(incoming.color),
        is_share(absorb),
        reflect_sinks_spec(roughness, incoming, normal, sample) ==> no_brighter(
            absorb,
            incoming.color,
        ),
    ensures
        no_brighter(
            reflect_spec(absorb, roughness, incoming, point, normal, sample).color,
            incoming.color,
        ),
        is_light(reflect_spec(absorb, roughness, incoming, point, normal, sample).color),
{
    lemma_absorb_does_not_brighten(incoming.color, absorb);
}

/// The material reflects or scatters without brightening: it is matte or a
/// mirror, and its colour is a share.
pub open spec fn is_dull(material: Material) -> bool {
    match material {
        Material::Diffuse { absorb } => is_share(absorb),
        Material::Reflective { absorb, roughness: _ } => is_share(absorb),
        Material::Dielectric { absorb: _, roughness: _, refractive_index: _ } => false,
    }
}

/// A bounce off a matte surface or a mirror whose colour is a share leaves
/// the ray with light that is no brighter than before, whatever the
/// generator draws; but for a mirror that the proposed direction sinks
/// into, whose own colour the ray then takes.
pub proof fn lemma_interaction_does_not_brighten(
    material: Material,
    incoming: Ray<Scalar>,
    point: Vec3<Scalar>,
    normal: Vec3<Scalar>,
    g: Generator,
)
    requires
        is_light(incoming.color),
        is_dull(material),
        match material {
            Material::Reflective { absorb, roughness } => match random_in_unit_sphere_spec(g).0 {
                Some(sample) => reflect_sinks_spec(roughness, incoming, normal, sample)
                    ==> no_brighter(absorb, incoming.color),
                None => true,
            },
            _ => true,
        },
    ensures
        match interaction_spec(material, incoming, point, normal, g).0 {
            Some(outgoing) => no_brighter(outgoing.color, incoming.color) && is_light(
                outgoing.color,
            ),
            None => true,
        },
{
    match material {
        Material::Diffuse { absorb } => {
            match random_spec(g).0 {
                Some(sample) => {
                    lemma_scatter_does_not_brighten(absorb, incoming, point, normal, sample);
                },
                None => {},
            }
        },
        Material::Reflective { absorb, roughness } => {
            match random_in_unit_sphere_spec(g).0 {
                Some(sample) => {
                    lemma_reflect_does_not_brighten(
                        absorb,
                        roughness,
                        incoming,
                        point,
                        normal,
                        sample,
                    );
                },
                None => {},
            }
        },
        Material::Dielectric { absorb: _, roughness: _, refractive_index: _ } => {},
    }
}

} // verus!
