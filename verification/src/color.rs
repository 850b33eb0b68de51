//! Colors with a red, a green and a blue channel.

use vstd::prelude::*;
use crate::scalar::{Scalar, ONE_BITS};

verus! {

/// An RGB color. A channel is meant to lie between zero and one.
#[derive(Clone, Copy, Debug)]
pub struct Color {
    pub r: Scalar,
    pub g: Scalar,
    pub b: Scalar,
}

/// A channel cut to the range from zero to one: the smaller of the channel
/// and one, or else zero where that is larger.
pub open spec fn clamped(channel: Scalar) -> Scalar {
    channel.spec_min(Scalar { bits: ONE_BITS }).spec_max(Scalar { bits: 0 })
}

impl Color {
    /// True where every channel is a number from zero to one.
    pub open spec fn in_range(self) -> bool {
        &&& (Scalar { bits: 0 }).spec_le(self.r) && self.r.spec_le(Scalar { bits: ONE_BITS })
        &&& (Scalar { bits: 0 }).spec_le(self.g) && self.g.spec_le(Scalar { bits: ONE_BITS })
        &&& (Scalar { bits: 0 }).spec_le(self.b) && self.b.spec_le(Scalar { bits: ONE_BITS })
    }

    pub fn new(r: Scalar, g: Scalar, b: Scalar) -> (color: Color)
        ensures
            color == (Color { r, g, b }),
    {
        Color { r, g, b }
    }

    /// The color with all channels zero.
    pub fn black() -> (color: Color)
        ensures
            color == (Color { r: Scalar { bits: 0 }, g: Scalar { bits: 0 }, b: Scalar { bits: 0 } }),
            color.in_range(),
    {
        Color::new(Scalar::zero(), Scalar::zero(), Scalar::zero())
    }

    /// Cuts every channel to the range from zero to one.
    pub fn clamp(&self) -> (color: Color)
        ensures
            color == (Color { r: clamped(self.r), g: clamped(self.g), b: clamped(self.b) }),
            color.in_range(),
    {
        Color {
            r: self.r.min(Scalar::one()).max(Scalar::zero()),
            g: self.g.min(Scalar::one()).max(Scalar::zero()),
            b: self.b.min(Scalar::one()).max(Scalar::zero()),
        }
    }
}

} // verus!
