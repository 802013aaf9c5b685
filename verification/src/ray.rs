//! Rays: a half-line from an origin along a direction, with the share of
//! light that it still carries.

use vstd::prelude::*;
use crate::scalar::Scalar;
use crate::vec3::Vec3;
use crate::color::Color;

verus! {

/// The direction need not have unit length.
#[derive(Clone, Copy, Debug)]
pub struct Ray<T> {
    pub origin: Vec3<T>,
    pub direction: Vec3<T>,
    pub color: Color,
}

impl Ray<Scalar> {
    /// `origin + direction * t`.
    pub open spec fn at_spec(self, t: Scalar) -> Vec3<Scalar> {
        self.origin.add_spec(self.direction.mul_spec(t))
    }

    /// The point at parameter `t` along the ray.
    pub fn at(&self, t: Scalar) -> (r: Vec3<Scalar>)
        ensures
            r == self.at_spec(t),
    {
        self.origin.add(self.direction.mul(t))
    }
}

} // verus!
