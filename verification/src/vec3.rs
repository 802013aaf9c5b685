//! Three-component vectors and their algebra.

use vstd::prelude::*;
use crate::scalar::{scalar, Scalar, ONE_BITS};
use crate::random::{Generator, signed_unit_spec};

pub mod unit;

verus! {

/// Below this magnitude a component counts as zero: 1e-8.
pub const NEAR_ZERO_BITS: u64 = 0x3E45_798E_E230_8C3A;

#[derive(PartialEq, Debug, Clone, Copy)]
pub struct Vec3<T> {
    pub x: T,
    pub y: T,
    pub z: T,
}

impl<T> Vec3<T> {
    pub fn new(x: T, y: T, z: T) -> (r: Vec3<T>)
        ensures
            r.x == x,
            r.y == y,
            r.z == z,
    {
        Vec3 { x, y, z }
    }
}

/// The vector that the next three words of the generator stand for, each
/// component from -1 up to but not 1.
pub open spec fn candidate_spec(g: Generator) -> Vec3<Scalar> {
    Vec3 {
        x: signed_unit_spec(g.word(0)),
        y: signed_unit_spec(g.word(1)),
        z: signed_unit_spec(g.word(2)),
    }
}

/// Rejection sampling: the first candidate whose squared length is below 1,
/// with the generator behind it; nothing, once fewer than three words are
/// left.
pub open spec fn random_in_unit_sphere_spec(g: Generator) -> (Option<Vec3<Scalar>>, Generator)
    decreases u64::MAX - g.position,
{
    if !g.has(3) {
        (None, g)
    } else if candidate_spec(g).length_squared_spec().lt_spec(scalar(ONE_BITS)) {
        (Some(candidate_spec(g)), g.skip(3))
    } else {
        random_in_unit_sphere_spec(g.skip(3))
    }
}

/// Draws the next candidate.
pub fn candidate(rng: &mut Generator) -> (v: Vec3<Scalar>)
    requires
        old(rng).has(3),
    ensures
        v == candidate_spec(*old(rng)),
        *final(rng) == old(rng).skip(3),
{
    let x: Scalar = rng.next_signed_unit();
    let y: Scalar = rng.next_signed_unit();
    let z: Scalar = rng.next_signed_unit();
    Vec3::new(x, y, z)
}

/// A random vector, uniform over the inside of the unit sphere: candidates
/// are drawn from the cube around it until one falls inside. `None` if the
/// generator runs out first.
pub fn random_in_unit_sphere(rng: &mut Generator) -> (r: Option<Vec3<Scalar>>)
    ensures
        (r, *final(rng)) == random_in_unit_sphere_spec(*old(rng)),
{
    let ghost start = *rng;
    loop
        invariant
            start == *old(rng),
            random_in_unit_sphere_spec(*rng) == random_in_unit_sphere_spec(start),
        decreases u64::MAX - rng.position,
    {
        if !rng.has_words(3) {
            return None;
        }
        let v = candidate(rng);
        if v.length_squared().lt(Scalar::from_bits(ONE_BITS)) {
            return Some(v);
        }
    }
}

impl Vec3<Scalar> {
    /// `x * x' + y * y' + z * z'`, each product and each sum rounded, summed
    /// from the left.
    pub open spec fn dot_spec(self, other: Vec3<Scalar>) -> Scalar {
        self.x.mul_spec(other.x).add_spec(self.y.mul_spec(other.y)).add_spec(
            self.z.mul_spec(other.z),
        )
    }

    pub open spec fn length_squared_spec(self) -> Scalar {
        self.dot_spec(self)
    }

    pub open spec fn length_spec(self) -> Scalar {
        self.length_squared_spec().sqrt_spec()
    }

    pub open spec fn neg_spec(self) -> Vec3<Scalar> {
        Vec3 { x: self.x.neg_spec(), y: self.y.neg_spec(), z: self.z.neg_spec() }
    }

    pub open spec fn add_spec(self, other: Vec3<Scalar>) -> Vec3<Scalar> {
        Vec3 {
            x: self.x.add_spec(other.x),
            y: self.y.add_spec(other.y),
            z: self.z.add_spec(other.z),
        }
    }

    pub open spec fn sub_spec(self, other: Vec3<Scalar>) -> Vec3<Scalar> {
        Vec3 {
            x: self.x.sub_spec(other.x),
            y: self.y.sub_spec(other.y),
            z: self.z.sub_spec(other.z),
        }
    }

    /// Every component times `k`.
    pub open spec fn mul_spec(self, k: Scalar) -> Vec3<Scalar> {
        Vec3 { x: self.x.mul_spec(k), y: self.y.mul_spec(k), z: self.z.mul_spec(k) }
    }

    /// Every component divided by `k`.
    pub open spec fn div_spec(self, k: Scalar) -> Vec3<Scalar> {
        Vec3 { x: self.x.div_spec(k), y: self.y.div_spec(k), z: self.z.div_spec(k) }
    }

    /// Every component is smaller than 1e-8 in magnitude.
    pub open spec fn near_zero_spec(self) -> bool {
        let tol = scalar(NEAR_ZERO_BITS);
        self.x.abs_spec().lt_spec(tol) && self.y.abs_spec().lt_spec(tol)
            && self.z.abs_spec().lt_spec(tol)
    }

    pub fn near_zero(self) -> (r: bool)
        ensures
            r == self.near_zero_spec(),
    {
        let tol = Scalar::from_bits(NEAR_ZERO_BITS);
        self.x.abs().lt(tol) && self.y.abs().lt(tol) && self.z.abs().lt(tol)
    }

    pub fn length_squared(&self) -> (r: Scalar)
        ensures
            r == self.length_squared_spec(),
    {
        self.dot(self)
    }

    pub fn dot(&self, other: &Self) -> (r: Scalar)
        ensures
            r == self.dot_spec(*other),
    {
        self.x.mul(other.x).add(self.y.mul(other.y)).add(self.z.mul(other.z))
    }

    /// Every component divided by `other`.
    pub fn inv_scale(&self, other: Scalar) -> (r: Self)
        ensures
            r == self.div_spec(other),
    {
        let new_x = self.x.div(other);
        let new_y = self.y.div(other);
        let new_z = self.z.div(other);
        Vec3::new(new_x, new_y, new_z)
    }

    pub fn length(&self) -> (r: Scalar)
        ensures
            r == self.length_spec(),
    {
        self.length_squared().sqrt()
    }

    pub fn neg(self) -> (r: Self)
        ensures
            r == self.neg_spec(),
    {
        let new_x = self.x.neg();
        let new_y = self.y.neg();
        let new_z = self.z.neg();
        Vec3::new(new_x, new_y, new_z)
    }

    pub fn add(self, other: Vec3<Scalar>) -> (r: Self)
        ensures
            r == self.add_spec(other),
    {
        let new_x = self.x.add(other.x);
        let new_y = self.y.add(other.y);
        let new_z = self.z.add(other.z);
        Vec3::new(new_x, new_y, new_z)
    }

    pub fn sub(self, other: Vec3<Scalar>) -> (r: Self)
        ensures
            r == self.sub_spec(other),
    {
        let new_x = self.x.sub(other.x);
        let new_y = self.y.sub(other.y);
        let new_z = self.z.sub(other.z);
        Vec3::new(new_x, new_y, new_z)
    }

    pub fn mul(self, other: Scalar) -> (r: Self)
        ensures
            r == self.mul_spec(other),
    {
        let new_x = self.x.mul(other);
        let new_y = self.y.mul(other);
        let new_z = self.z.mul(other);
        Vec3::new(new_x, new_y, new_z)
    }

    pub fn div(self, rhs: Scalar) -> (r: Self)
        ensures
            r == self.div_spec(rhs),
    {
        let new_x = self.x.div(rhs);
        let new_y = self.y.div(rhs);
        let new_z = self.z.div(rhs);
        Vec3::new(new_x, new_y, new_z)
    }

    pub fn mul_assign(&mut self, rhs: Scalar)
        ensures
            *final(self) == old(self).mul_spec(rhs),
    {
        self.x = self.x.mul(rhs);
        self.y = self.y.mul(rhs);
        self.z = self.z.mul(rhs);
    }

    pub fn div_assign(&mut self, rhs: Scalar)
        ensures
            *final(self) == old(self).div_spec(rhs),
    {
        self.x = self.x.div(rhs);
        self.y = self.y.div(rhs);
        self.z = self.z.div(rhs);
    }

    pub fn add_assign(&mut self, other: Self)
        ensures
            *final(self) == old(self).add_spec(other),
    {
        self.x = self.x.add(other.x);
        self.y = self.y.add(other.y);
        self.z = self.z.add(other.z);
    }

    pub fn sub_assign(&mut self, other: Self)
        ensures
            *final(self) == old(self).sub_spec(other),
    {
        self.x = self.x.sub(other.x);
        self.y = self.y.sub(other.y);
        self.z = self.z.sub(other.z);
    }
}

} // verus!
