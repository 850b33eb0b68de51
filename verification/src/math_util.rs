//! Coordinate axes and the non-negative remainder.

use vstd::prelude::*;
use crate::scalar::Scalar;

verus! {

/// One of the three coordinate axes.
#[derive(Clone, Copy, Debug, PartialEq, Eq, Structural)]
pub enum Axis {
    X,
    Y,
    Z,
}

impl Axis {
    /// Position of the axis in a coordinate triple: 0, 1 or 2.
    pub open spec fn spec_index(self) -> int {
        match self {
            Axis::X => 0,
            Axis::Y => 1,
            Axis::Z => 2,
        }
    }

    /// The axis at position `axis_int` of a coordinate triple.
    pub fn from_u32(axis_int: u32) -> (axis: Axis)
        requires
            axis_int < 3,
        ensures
            axis.spec_index() == axis_int,
    {
        if axis_int == 0 {
            Axis::X
        } else if axis_int == 1 {
            Axis::Y
        } else {
            Axis::Z
        }
    }

    /// Position of the axis in a coordinate triple.
    pub fn index(self) -> (i: u32)
        ensures
            i == self.spec_index(),
            i < 3,
    {
        match self {
            Axis::X => 0,
            Axis::Y => 1,
            Axis::Z => 2,
        }
    }
}

/// Three numbers: a point or a direction in space.
#[derive(Clone, Copy, Debug)]
pub struct Vec3 {
    pub x: Scalar,
    pub y: Scalar,
    pub z: Scalar,
}

impl Vec3 {
    /// The component along `axis`.
    pub open spec fn spec_get(self, axis: Axis) -> Scalar {
        match axis {
            Axis::X => self.x,
            Axis::Y => self.y,
            Axis::Z => self.z,
        }
    }

    /// This triple with the component along `axis` replaced by `value`.
    pub open spec fn spec_with(self, axis: Axis, value: Scalar) -> Vec3 {
        match axis {
            Axis::X => Vec3 { x: value, ..self },
            Axis::Y => Vec3 { y: value, ..self },
            Axis::Z => Vec3 { z: value, ..self },
        }
    }

    /// True where no component is a not-a-number pattern.
    pub open spec fn is_numeric(self) -> bool {
        !self.x.nan() && !self.y.nan() && !self.z.nan()
    }

    pub fn new(x: Scalar, y: Scalar, z: Scalar) -> (v: Vec3)
        ensures
            v == (Vec3 { x, y, z }),
    {
        Vec3 { x, y, z }
    }

    pub fn get(&self, axis: Axis) -> (value: Scalar)
        ensures
            value == self.spec_get(axis),
    {
        match axis {
            Axis::X => self.x,
            Axis::Y => self.y,
            Axis::Z => self.z,
        }
    }

    pub fn with(self, axis: Axis, value: Scalar) -> (v: Vec3)
        ensures
            v == self.spec_with(axis, value),
    {
        match axis {
            Axis::X => Vec3 { x: value, y: self.y, z: self.z },
            Axis::Y => Vec3 { x: self.x, y: value, z: self.z },
            Axis::Z => Vec3 { x: self.x, y: self.y, z: value },
        }
    }
}

/// The mathematically correct modulo operation: the result is never negative.
pub trait Modulo: Sized {
    /// The divisors this value can be reduced by.
    spec fn modulo_defined(&self, rhs: Self) -> bool;

    spec fn spec_modulo(&self, rhs: Self) -> Self;

    /// Calculate `self mod rhs`.
    fn modulo(&self, rhs: Self) -> (r: Self)
        requires
            self.modulo_defined(rhs),
        ensures
            r == self.spec_modulo(rhs),
    ;
}

impl Modulo for i64 {
    open spec fn modulo_defined(&self, rhs: i64) -> bool {
        rhs > 0
    }

    open spec fn spec_modulo(&self, rhs: i64) -> i64 {
        ((*self as int) % (rhs as int)) as i64
    }

    fn modulo(&self, rhs: i64) -> (r: i64) {
        let value: i64 = *self;
        if value >= 0 {
            let r: i64 = ((value as u64) % (rhs as u64)) as i64;
            r
        } else {
            // value = -(below + 1) with below >= 0, so value mod rhs is
            // rhs - 1 - (below mod rhs).
            let below: u64 = (-(value + 1)) as u64;
            let m: u64 = below % (rhs as u64);
            proof {
                lemma_negative_remainder(value as int, rhs as int);
            }
            rhs - 1 - (m as i64)
        }
    }
}

/// For a negative `value`, the non-negative remainder is found from the
/// remainder of `-(value + 1)`.
pub proof fn lemma_negative_remainder(value: int, rhs: int)
    requires
        value < 0,
        rhs > 0,
    ensures
        value % rhs == rhs - 1 - ((-(value + 1)) % rhs),
{
    let below = -(value + 1);
    let q = below / rhs;
    let m = below % rhs;
    assert(below == q * rhs + m && 0 <= m < rhs) by (nonlinear_arith)
        requires
            rhs > 0,
            q == below / rhs,
            m == below % rhs,
    ;
    // value = -below - 1 = (-q - 1) * rhs + (rhs - 1 - m)
    assert(value == (-q - 1) * rhs + (rhs - 1 - m)) by (nonlinear_arith)
        requires
            value == -(below + 1),
            below == q * rhs + m,
    ;
    assert(value % rhs == rhs - 1 - m) by (nonlinear_arith)
        requires
            value == (-q - 1) * rhs + (rhs - 1 - m),
            0 <= rhs - 1 - m < rhs,
    ;
}

} // verus!
