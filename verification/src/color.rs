//! Colours in linear light: blending, absorption, and the text of a pixel.

use vstd::prelude::*;
use crate::scalar::{scalar, Scalar, ONE_BITS, TWO_BITS, HALF_BITS};
use crate::convert::BYTE_MAX_BITS;
use crate::vec3::Vec3;

verus! {

/// Red, green and blue as the three components of a vector. Nothing here
/// bounds a channel: a sum of samples may exceed 1 until it is averaged.
#[derive(PartialEq, Debug, Clone, Copy)]
pub struct Color(pub Vec3<Scalar>);

/// The decimal digit `d` as a character.
pub open spec fn digit(d: nat) -> char
    recommends
        d < 10,
{
    ((48 + d) as u8) as char
}

/// The decimal numeral of `n`, without leading zeros.
pub open spec fn decimal(n: nat) -> Seq<char>
    decreases n,
{
    if n < 10 {
        seq![digit(n)]
    } else {
        decimal(n / 10).push(digit(n % 10))
    }
}

/// One line of pixel text: the three numerals, a blank between them, and a
/// line feed.
pub open spec fn pixel_text(r: u8, g: u8, b: u8) -> Seq<char> {
    decimal(r as nat) + seq![' '] + decimal(g as nat) + seq![' '] + decimal(b as nat) + seq![
        '\n',
    ]
}

/// Above 1 the channel is 1; everything else, a NaN too, stays.
pub open spec fn clamp_spec(x: Scalar) -> Scalar {
    if scalar(ONE_BITS).lt_spec(x) {
        scalar(ONE_BITS)
    } else {
        x
    }
}

/// The byte of a channel: clamped at 1, square-rooted for display, scaled
/// to 255 and rounded.
pub open spec fn channel_byte_spec(x: Scalar) -> u8 {
    clamp_spec(x).sqrt_spec().mul_spec(scalar(BYTE_MAX_BITS)).round_to_u8_spec()
}

/// The text of a pixel of the given colour.
pub open spec fn write_color_spec(c: Color) -> Seq<char> {
    pixel_text(channel_byte_spec(c.0.x), channel_byte_spec(c.0.y), channel_byte_spec(c.0.z))
}

/// `from * (1 - t) + to * t`, channel by channel.
pub open spec fn gradient_spec(from: Color, to: Color, t: Scalar) -> Color {
    Color(
        from.0.mul_spec(scalar(ONE_BITS).sub_spec(t)).add_spec(to.0.mul_spec(t)),
    )
}

pub open spec fn white_spec() -> Color {
    Color::rgb(scalar(ONE_BITS), scalar(ONE_BITS), scalar(ONE_BITS))
}

pub open spec fn black_spec() -> Color {
    Color::rgb(scalar(0), scalar(0), scalar(0))
}

/// Formats three bytes with `format!` and `{}`. Trusted: the text is the
/// three decimal numerals, separated by one blank each and ended by a line
/// feed, as `Display` for `u8` writes them.
#[verifier::external_body]
fn format_pixel(r: u8, g: u8, b: u8) -> (s: String)
    ensures
        s@ == pixel_text(r, g, b),
{
    format!("{} {} {}\n", r, g, b)
}

fn clamp(x: Scalar) -> (r: Scalar)
    ensures
        r == clamp_spec(x),
{
    if x.gt(Scalar::from_bits(ONE_BITS)) {
        Scalar::from_bits(ONE_BITS)
    } else {
        x
    }
}

/// The byte of one channel.
pub fn channel_byte(x: Scalar) -> (r: u8)
    ensures
        r == channel_byte_spec(x),
{
    clamp(x).sqrt().mul(Scalar::from_bits(BYTE_MAX_BITS)).round_to_u8()
}

impl Color {
    pub open spec fn rgb(r: Scalar, g: Scalar, b: Scalar) -> Color {
        Color(Vec3 { x: r, y: g, z: b })
    }

    /// The product, channel by channel.
    pub open spec fn absorb_spec(self, other: Color) -> Color {
        Color::rgb(
            self.0.x.mul_spec(other.0.x),
            self.0.y.mul_spec(other.0.y),
            self.0.z.mul_spec(other.0.z),
        )
    }

    /// The sum, channel by channel.
    pub open spec fn add_spec(self, other: Color) -> Color {
        Color(self.0.add_spec(other.0))
    }

    pub fn r(&self) -> (v: Scalar)
        ensures
            v == self.0.x,
    {
        self.0.x
    }

    pub fn g(&self) -> (v: Scalar)
        ensures
            v == self.0.y,
    {
        self.0.y
    }

    pub fn b(&self) -> (v: Scalar)
        ensures
            v == self.0.z,
    {
        self.0.z
    }

    pub fn new(r: Scalar, g: Scalar, b: Scalar) -> (c: Self)
        ensures
            c == Color::rgb(r, g, b),
    {
        Color(Vec3::new(r, g, b))
    }

    /// The colour that is left of white after the given shares are absorbed:
    /// `1 - r`, `1 - g`, `1 - b`.
    pub fn from_absorbtion(r: Scalar, g: Scalar, b: Scalar) -> (c: Self)
        ensures
            c == Color::rgb(
                scalar(ONE_BITS).sub_spec(r),
                scalar(ONE_BITS).sub_spec(g),
                scalar(ONE_BITS).sub_spec(b),
            ),
    {
        let one = Scalar::from_bits(ONE_BITS);
        Color(Vec3::new(one.sub(r), one.sub(g), one.sub(b)))
    }

    /// A colour for a unit vector: each component goes from the range -1 to 1
    /// onto 0 to 1, as `(x + 1) / 2`.
    pub fn from_unit(n: Vec3<Scalar>) -> (c: Self)
        ensures
            c == Color(
                Vec3 {
                    x: n.x.add_spec(scalar(ONE_BITS)),
                    y: n.y.add_spec(scalar(ONE_BITS)),
                    z: n.z.add_spec(scalar(ONE_BITS)),
                }.div_spec(scalar(TWO_BITS)),
            ),
    {
        let one = Scalar::from_bits(ONE_BITS);
        let shifted = Vec3::new(n.x.add(one), n.y.add(one), n.z.add(one));
        Color(shifted.div(Scalar::from_bits(TWO_BITS)))
    }

    /// The pixel as text: the bytes of red, green and blue in decimal.
    pub fn write_color(&self) -> (s: String)
        ensures
            s@ == write_color_spec(*self),
    {
        let ir: u8 = channel_byte(self.r());
        let ig: u8 = channel_byte(self.g());
        let ib: u8 = channel_byte(self.b());
        format_pixel(ir, ig, ib)
    }

    /// The colour whose vector is `f` of this one's.
    pub fn on_vec<F>(self, f: F) -> (c: Self) where F: FnOnce(Vec3<Scalar>) -> Vec3<Scalar>
        requires
            f.requires((self.0,)),
        ensures
            f.ensures((self.0,), c.0),
    {
        Color(f(self.0))
    }

    /// What is left of this light after a surface of colour `other` has
    /// taken its share.
    pub fn absorb(self, other: &Color) -> (c: Self)
        ensures
            c == self.absorb_spec(*other),
    {
        let new_r = self.r().mul(other.r());
        let new_g = self.g().mul(other.g());
        let new_b = self.b().mul(other.b());
        Color::new(new_r, new_g, new_b)
    }

    pub fn add(self, other: Color) -> (c: Self)
        ensures
            c == self.add_spec(other),
    {
        Color(self.0.add(other.0))
    }

    pub fn add_assign(&mut self, other: Self)
        ensures
            *final(self) == old(self).add_spec(other),
    {
        self.0 = self.0.add(other.0);
    }
}

/// The linear blend of two colours: `from` at `t` = 0, `to` at `t` = 1.
/// Nothing keeps `t` inside that range.
pub fn gradient(from: Color, to: Color, t: Scalar) -> (c: Color)
    ensures
        c == gradient_spec(from, to, t),
{
    let one = Scalar::from_bits(ONE_BITS);
    Color(from.0.mul(one.sub(t)).add(to.0.mul(t)))
}

pub fn white() -> (c: Color)
    ensures
        c == white_spec(),
{
    let one = Scalar::from_bits(ONE_BITS);
    Color::new(one, one, one)
}

pub fn black() -> (c: Color)
    ensures
        c == black_spec(),
{
    let zero = Scalar::from_bits(0);
    Color::new(zero, zero, zero)
}

pub fn red() -> (c: Color)
    ensures
        c == Color::rgb(scalar(ONE_BITS), scalar(0), scalar(0)),
{
    Color::new(Scalar::from_bits(ONE_BITS), Scalar::from_bits(0), Scalar::from_bits(0))
}

pub fn green() -> (c: Color)
    ensures
        c == Color::rgb(scalar(0), scalar(ONE_BITS), scalar(0)),
{
    Color::new(Scalar::from_bits(0), Scalar::from_bits(ONE_BITS), Scalar::from_bits(0))
}

pub fn blue() -> (c: Color)
    ensures
        c == Color::rgb(scalar(0), scalar(0), scalar(ONE_BITS)),
{
    Color::new(Scalar::from_bits(0), Scalar::from_bits(0), Scalar::from_bits(ONE_BITS))
}

pub fn grey_50() -> (c: Color)
    ensures
        c == Color::rgb(
            scalar(HALF_BITS),
            scalar(HALF_BITS),
            scalar(HALF_BITS),
        ),
{
    let half = Scalar::from_bits(HALF_BITS);
    Color::new(half, half, half)
}

} // verus!
