//! Spheres.

use vstd::prelude::*;
use crate::scalar::{scalar, Scalar};
use crate::vec3::Vec3;
use crate::vec3::unit::{has_sound_length, in_direction_spec, is_unit};
use crate::norm::lemma_in_direction_has_unit_length;
use crate::ray::Ray;
use crate::object::{Material, Object, SHADOW_ACNE_TOLERANCE_BITS};

verus! {

#[derive(Debug)]
pub struct Sphere {
    pub radius: Scalar,
    pub centre: Vec3<Scalar>,
    pub material: Material,
}

/// The discriminant of the quadratic `|origin + t * direction - centre|^2 =
/// radius^2` in `t`: `h^2 - a c`, with `a = |direction|^2`, `h = direction .
/// (origin - centre)` and `c = |origin - centre|^2 - radius^2`.
pub open spec fn discriminant_spec(sphere: Sphere, ray: Ray<Scalar>) -> Scalar {
    let to_origin = ray.origin.sub_spec(sphere.centre);
    let a = ray.direction.length_squared_spec();
    let h = ray.direction.dot_spec(to_origin);
    let c = to_origin.length_squared_spec().sub_spec(sphere.radius.mul_spec(sphere.radius));
    h.mul_spec(h).sub_spec(a.mul_spec(c))
}

/// The two roots of the quadratic, `(-h - sqrt(disc)) / a` first.
pub open spec fn roots_spec(sphere: Sphere, ray: Ray<Scalar>) -> (Scalar, Scalar) {
    let a = ray.direction.length_squared_spec();
    let h = ray.direction.dot_spec(ray.origin.sub_spec(sphere.centre));
    let root = discriminant_spec(sphere, ray).sqrt_spec();
    (h.neg_spec().sub_spec(root).div_spec(a), h.neg_spec().add_spec(root).div_spec(a))
}

/// Where the ray hits the sphere: nowhere under a negative discriminant;
/// else at the first root if that is beyond the tolerance, else at the
/// second if that is, else nowhere.
pub open spec fn sphere_hit_spec(sphere: Sphere, ray: Ray<Scalar>) -> Option<Scalar> {
    let tol = scalar(SHADOW_ACNE_TOLERANCE_BITS);
    let roots = roots_spec(sphere, ray);
    if discriminant_spec(sphere, ray).lt_spec(scalar(0)) {
        None
    } else if tol.lt_spec(roots.0) {
        Some(roots.0)
    } else if tol.lt_spec(roots.1) {
        Some(roots.1)
    } else {
        None
    }
}

impl Sphere {
    /// The normal is a unit vector, to within 1e-9, at every point whose
    /// distance from the centre, as computed, is finite and above 1e-12.
    pub proof fn lemma_normal_is_unit(self, intersection: Vec3<Scalar>)
        ensures
            has_sound_length(intersection.sub_spec(self.centre)) ==> is_unit(
                self.normal_spec(&intersection),
            ),
    {
        if has_sound_length(intersection.sub_spec(self.centre)) {
            lemma_in_direction_has_unit_length(intersection.sub_spec(self.centre));
        }
    }
}

impl Object for Sphere {
    open spec fn intersection_spec(&self, ray: &Ray<Scalar>) -> Option<Scalar> {
        sphere_hit_spec(*self, *ray)
    }

    /// The direction from the centre to the point. At the centre itself the
    /// division yields NaN components.
    open spec fn normal_spec(&self, intersection: &Vec3<Scalar>) -> Vec3<Scalar> {
        in_direction_spec(intersection.sub_spec(self.centre))
    }

    open spec fn material_spec(&self) -> Material {
        self.material
    }

    fn intersection(&self, ray: &Ray<Scalar>) -> (r: Option<Scalar>) {
        let v_origin_centre = ray.origin.sub(self.centre);
        let a = ray.direction.length_squared();
        let h = ray.direction.dot(&v_origin_centre);
        let c = v_origin_centre.length_squared().sub(self.radius.mul(self.radius));
        let discriminant = h.mul(h).sub(a.mul(c));
        if discriminant.lt(Scalar::from_bits(0)) {
            return None;
        }
        let root = discriminant.sqrt();
        let t_0 = h.neg().sub(root).div(a);
        let t_1 = h.neg().add(root).div(a);
        let tol = Scalar::from_bits(SHADOW_ACNE_TOLERANCE_BITS);
        if t_0.gt(tol) {
            Some(t_0)
        } else if t_1.gt(tol) {
            Some(t_1)
        } else {
            None
        }
    }

    fn normal(&self, intersection: &Vec3<Scalar>) -> (r: Vec3<Scalar>) {
        let sphere_center_to_intersection = intersection.sub(self.centre);
        sphere_center_to_intersection.inv_scale(sphere_center_to_intersection.length())
    }

    fn material(&self) -> (r: &Material) {
        &self.material
    }
}

} // verus!
