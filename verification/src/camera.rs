//! The camera: from a place on the image to the ray through it.

use vstd::prelude::*;
use crate::scalar::{scalar, Scalar, ONE_BITS, TWO_BITS};
use crate::vec3::Vec3;
use crate::ray::Ray;
use crate::color::{white, white_spec};

verus! {

/// Width over height of the default image, 16 / 9.
pub const DEFAULT_ASPECT_RATIO_BITS: u64 = 0x3FFC_71C7_1C71_C71C;

/// The distance from the eye to the viewport of the default camera, 1.
pub const DEFAULT_FOCAL_LENGTH_BITS: u64 = ONE_BITS;

/// The height of the viewport of the default camera, 2.
pub const DEFAULT_VIEWPORT_HEIGHT_BITS: u64 = TWO_BITS;

/// An eye at `origin` that looks down the negative z axis at a viewport, a
/// rectangle spanned by `horizontal` and `vertical` from `bottom_left`.
#[derive(Debug)]
pub struct Camera {
    origin: Vec3<Scalar>,
    bottom_left: Vec3<Scalar>,
    horizontal: Vec3<Scalar>,
    vertical: Vec3<Scalar>,
    pub aspect_ratio: Scalar,
}

impl Camera {
    pub closed spec fn origin_spec(self) -> Vec3<Scalar> {
        self.origin
    }

    pub closed spec fn bottom_left_spec(self) -> Vec3<Scalar> {
        self.bottom_left
    }

    pub closed spec fn horizontal_spec(self) -> Vec3<Scalar> {
        self.horizontal
    }

    pub closed spec fn vertical_spec(self) -> Vec3<Scalar> {
        self.vertical
    }

    pub closed spec fn aspect_ratio_spec(self) -> Scalar {
        self.aspect_ratio
    }

    /// The camera is the one that `new` builds from the three numbers: the
    /// eye at zero, a viewport `aspect_ratio * viewport_height` wide and
    /// `viewport_height` high, centred `focal_length` in front of the eye.
    pub open spec fn built(
        self,
        aspect_ratio: Scalar,
        viewport_height: Scalar,
        focal_length: Scalar,
    ) -> bool {
        let zero = scalar(0);
        let two = scalar(TWO_BITS);
        let origin = Vec3 { x: zero, y: zero, z: zero };
        let horizontal = Vec3 { x: aspect_ratio.mul_spec(viewport_height), y: zero, z: zero };
        let vertical = Vec3 { x: zero, y: viewport_height, z: zero };
        &&& self.aspect_ratio_spec() == aspect_ratio
        &&& self.origin_spec() == origin
        &&& self.horizontal_spec() == horizontal
        &&& self.vertical_spec() == vertical
        &&& self.bottom_left_spec() == origin.sub_spec(horizontal.div_spec(two)).sub_spec(
            vertical.div_spec(two),
        ).sub_spec(Vec3 { x: zero, y: zero, z: focal_length })
    }

    /// From the eye through the viewport at `u` across and `v` up, white.
    pub open spec fn get_ray_spec(self, u: Scalar, v: Scalar) -> Ray<Scalar> {
        Ray {
            origin: self.origin_spec(),
            direction: self.bottom_left_spec().add_spec(self.horizontal_spec().mul_spec(u)).add_spec(
                self.vertical_spec().mul_spec(v),
            ).sub_spec(self.origin_spec()),
            color: white_spec(),
        }
    }

    pub fn new(aspect_ratio: Scalar, viewport_height: Scalar, focal_length: Scalar) -> (c: Camera)
        ensures
            c.built(aspect_ratio, viewport_height, focal_length),
    {
        let zero = Scalar::from_bits(0);
        let two = Scalar::from_bits(TWO_BITS);
        let origin = Vec3::new(zero, zero, zero);
        let horizontal = Vec3::new(aspect_ratio.mul(viewport_height), zero, zero);
        let vertical = Vec3::new(zero, viewport_height, zero);
        let bottom_left = origin.sub(horizontal.div(two)).sub(vertical.div(two)).sub(
            Vec3::new(zero, zero, focal_length),
        );
        Camera { origin, horizontal, vertical, bottom_left, aspect_ratio }
    }

    pub fn aspect_ratio(&self) -> (r: Scalar)
        ensures
            r == self.aspect_ratio_spec(),
    {
        self.aspect_ratio
    }

    /// The ray from the eye through the viewport at `u` across and `v` up,
    /// both from 0 to 1 over the image; a little outside that range the ray
    /// just passes outside the viewport. It carries white.
    pub fn get_ray(&self, u: Scalar, v: Scalar) -> (r: Ray<Scalar>)
        ensures
            r == self.get_ray_spec(u, v),
    {
        let direction = self.bottom_left.add(self.horizontal.mul(u)).add(self.vertical.mul(v)).sub(
            self.origin,
        );
        Ray { origin: self.origin, direction, color: white() }
    }
}

/// The camera for an image of 16 by 9 with a viewport 2 high at distance 1.
pub fn default_camera() -> (c: Camera)
    ensures
        c.built(
            scalar(DEFAULT_ASPECT_RATIO_BITS),
            scalar(DEFAULT_VIEWPORT_HEIGHT_BITS),
            scalar(DEFAULT_FOCAL_LENGTH_BITS),
        ),
{
    Camera::new(
        Scalar::from_bits(DEFAULT_ASPECT_RATIO_BITS),
        Scalar::from_bits(DEFAULT_VIEWPORT_HEIGHT_BITS),
        Scalar::from_bits(DEFAULT_FOCAL_LENGTH_BITS),
    )
}

} // verus!
