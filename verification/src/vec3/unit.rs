//! Unit vectors: the three axes, and the direction of a vector.

use vstd::prelude::*;
use crate::scalar::{scalar, Scalar, ONE_BITS};
use crate::vec3::{Vec3, candidate, candidate_spec};
use crate::random::Generator;
use crate::norm::{lemma_in_direction_has_unit_length, ONE_MINUS_BITS, ONE_PLUS_BITS, TINY_BITS};

verus! {

pub open spec fn x_spec() -> Vec3<Scalar> {
    Vec3 { x: scalar(ONE_BITS), y: scalar(0), z: scalar(0) }
}

pub open spec fn y_spec() -> Vec3<Scalar> {
    Vec3 { x: scalar(0), y: scalar(ONE_BITS), z: scalar(0) }
}

pub open spec fn z_spec() -> Vec3<Scalar> {
    Vec3 { x: scalar(0), y: scalar(0), z: scalar(ONE_BITS) }
}

/// The vector divided by its length.
pub open spec fn in_direction_spec(v: Vec3<Scalar>) -> Vec3<Scalar> {
    v.div_spec(v.length_spec())
}

/// The vector has a direction: its length, as computed, is above zero.
pub open spec fn has_direction(v: Vec3<Scalar>) -> bool {
    scalar(0).lt_spec(v.length_spec())
}

/// Rejection sampling for a direction: the first candidate whose squared
/// length is below 1 and whose length is above 0, divided by its length,
/// with the generator behind it; nothing, once fewer than three words are
/// left.
pub open spec fn random_spec(g: Generator) -> (Option<Vec3<Scalar>>, Generator)
    decreases u64::MAX - g.position,
{
    if !g.has(3) {
        (None, g)
    } else if candidate_spec(g).length_squared_spec().lt_spec(scalar(ONE_BITS)) && has_direction(
        candidate_spec(g),
    ) {
        (Some(in_direction_spec(candidate_spec(g))), g.skip(3))
    } else {
        random_spec(g.skip(3))
    }
}

pub fn x() -> (r: Vec3<Scalar>)
    ensures
        r == x_spec(),
{
    Vec3::new(Scalar::from_bits(ONE_BITS), Scalar::from_bits(0), Scalar::from_bits(0))
}

pub fn y() -> (r: Vec3<Scalar>)
    ensures
        r == y_spec(),
{
    Vec3::new(Scalar::from_bits(0), Scalar::from_bits(ONE_BITS), Scalar::from_bits(0))
}

pub fn z() -> (r: Vec3<Scalar>)
    ensures
        r == z_spec(),
{
    Vec3::new(Scalar::from_bits(0), Scalar::from_bits(0), Scalar::from_bits(ONE_BITS))
}

/// The vector is one that normalizing is accurate for: its length, as
/// computed, is finite and above 1e-12.
pub open spec fn has_sound_length(v: Vec3<Scalar>) -> bool {
    scalar(TINY_BITS).lt_spec(v.length_spec()) && v.length_spec().finite()
}

/// The length of the vector, as computed, is 1 to within 1e-9.
pub open spec fn is_unit(v: Vec3<Scalar>) -> bool {
    scalar(ONE_MINUS_BITS).le_spec(v.length_spec()) && v.length_spec().le_spec(
        scalar(ONE_PLUS_BITS),
    )
}

/// The unit vector along `v`: `v` divided by its length. A vector of length
/// zero has no direction: the caller makes sure of the length first. The
/// result has length 1 to within 1e-9 wherever the length of `v` is finite
/// and above 1e-12.
pub fn in_direction(v: Vec3<Scalar>) -> (r: Vec3<Scalar>)
    requires
        has_direction(v),
    ensures
        r == in_direction_spec(v),
        has_sound_length(v) ==> is_unit(r),
{
    proof {
        if has_sound_length(v) {
            lemma_in_direction_has_unit_length(v);
        }
    }
    v.inv_scale(v.length())
}

/// A random unit vector, uniform over the surface of the unit sphere: the
/// direction of a random vector inside the sphere that is not zero. `None`
/// if the generator runs out first.
pub fn random(rng: &mut Generator) -> (r: Option<Vec3<Scalar>>)
    ensures
        (r, *final(rng)) == random_spec(*old(rng)),
{
    let ghost start = *rng;
    loop
        invariant
            start == *old(rng),
            random_spec(*rng) == random_spec(start),
        decreases u64::MAX - rng.position,
    {
        if !rng.has_words(3) {
            return None;
        }
        let v = candidate(rng);
        if v.length_squared().lt(Scalar::from_bits(ONE_BITS)) && Scalar::from_bits(0).lt(
            v.length(),
        ) {
            return Some(in_direction(v));
        }
    }
}

} // verus!
