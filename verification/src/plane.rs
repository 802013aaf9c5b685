//! Planes.

use vstd::prelude::*;
use crate::scalar::Scalar;
use crate::vec3::Vec3;
use crate::vec3::unit::{has_direction, has_sound_length, in_direction, in_direction_spec, is_unit};
use crate::ray::Ray;
use crate::object::{Material, Object};

verus! {

/// The points `p` with `unit_normal . p = origin_distance`.
#[derive(Debug)]
pub struct Plane {
    unit_normal: Vec3<Scalar>,
    origin_distance: Scalar,
    material: Material,
}

/// `(origin_distance - normal . origin) / (normal . direction)`, kept if its
/// sign bit is clear and it is a normal number; a ray along the plane
/// divides by zero and is dropped with the infinity or NaN that this gives.
pub open spec fn plane_hit_spec(
    unit_normal: Vec3<Scalar>,
    origin_distance: Scalar,
    ray: Ray<Scalar>,
) -> Option<Scalar> {
    let t = origin_distance.sub_spec(unit_normal.dot_spec(ray.origin)).div_spec(
        unit_normal.dot_spec(ray.direction),
    );
    if !t.negative() && t.normal() {
        Some(t)
    } else {
        None
    }
}

/// A ray that runs along the plane does not hit it: where the normal times
/// the direction is zero, the division gives an infinity or a NaN, and
/// neither is kept.
pub proof fn lemma_parallel_ray_misses(
    unit_normal: Vec3<Scalar>,
    origin_distance: Scalar,
    ray: Ray<Scalar>,
)
    requires
        unit_normal.dot_spec(ray.direction).zero(),
    ensures
        plane_hit_spec(unit_normal, origin_distance, ray).is_none(),
{
    reveal(Scalar::div_spec);
}

impl Plane {
    pub closed spec fn unit_normal_spec(self) -> Vec3<Scalar> {
        self.unit_normal
    }

    pub closed spec fn origin_distance_spec(self) -> Scalar {
        self.origin_distance
    }

    /// The plane through `point_in_plane` at right angles to `normal`, which
    /// must have a direction.
    pub fn new(normal: Vec3<Scalar>, point_in_plane: Vec3<Scalar>, material: Material) -> (p: Self)
        requires
            has_direction(normal),
        ensures
            p.unit_normal_spec() == in_direction_spec(normal),
            p.origin_distance_spec() == point_in_plane.dot_spec(in_direction_spec(normal)),
            p.material_spec() == material,
            has_sound_length(normal) ==> is_unit(p.unit_normal_spec()),
    {
        let unit_normal = in_direction(normal);
        let origin_distance = point_in_plane.dot(&unit_normal);
        Plane { unit_normal, origin_distance, material }
    }
}

impl Plane {
    /// A ray along the plane does not hit it.
    pub proof fn lemma_parallel_ray_misses(self, ray: Ray<Scalar>)
        requires
            self.unit_normal_spec().dot_spec(ray.direction).zero(),
        ensures
            self.intersection_spec(&ray).is_none(),
    {
        lemma_parallel_ray_misses(self.unit_normal, self.origin_distance, ray);
    }
}

impl Object for Plane {
    closed spec fn intersection_spec(&self, ray: &Ray<Scalar>) -> Option<Scalar> {
        plane_hit_spec(self.unit_normal, self.origin_distance, *ray)
    }

    closed spec fn normal_spec(&self, intersection: &Vec3<Scalar>) -> Vec3<Scalar> {
        self.unit_normal
    }

    closed spec fn material_spec(&self) -> Material {
        self.material
    }

    fn intersection(&self, ray: &Ray<Scalar>) -> (r: Option<Scalar>) {
        let t = self.origin_distance.sub(self.unit_normal.dot(&ray.origin)).div(
            self.unit_normal.dot(&ray.direction),
        );
        if t.is_sign_positive() && t.is_normal() {
            Some(t)
        } else {
            None
        }
    }

    fn normal(&self, _intersection: &Vec3<Scalar>) -> (r: Vec3<Scalar>) {
        self.unit_normal
    }

    fn material(&self) -> (r: &Material) {
        &self.material
    }
}

} // verus!
