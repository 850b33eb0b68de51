//! Rays and the records of where they hit.

use vstd::prelude::*;
use crate::math_util::Vec3;
use crate::scalar::Scalar;

verus! {

/// Counters a ray gathers on its way, for inspection.
#[derive(Clone, Copy, Debug)]
pub struct RayDebugData {
    /// Number of k-d tree nodes looked up for this ray and its descendants.
    pub kd_tree_lookups: usize,
}

/// A half-line: where it starts and where it points.
#[derive(Clone, Copy, Debug)]
pub struct Ray {
    pub origin: Vec3,
    /// Unit vector giving the ray's direction.
    pub direction: Vec3,
}

impl Ray {
    pub fn new(origin: Vec3, direction: Vec3) -> (ray: Ray)
        ensures
            ray.origin == origin,
            ray.direction == direction,
    {
        Ray { origin, direction }
    }
}

/// The media on the two sides of a surface, as a ray meets it.
#[derive(Clone, Copy, Debug)]
pub struct Interface {
    /// True where the ray enters the body, false where it leaves it.
    pub entering: bool,
    /// Refractive index of the medium the ray comes from.
    pub eta_i: Scalar,
    /// Refractive index of the medium the ray goes to.
    pub eta_t: Scalar,
}

impl Interface {
    /// The interface a ray meets whose direction has the cosine `cosine`
    /// with the outward normal of a body of refractive index
    /// `refractive_index`: the ray enters where the cosine is below zero,
    /// going from index one to the body's index, and leaves otherwise.
    pub open spec fn spec_of(cosine: Scalar, refractive_index: Scalar) -> Interface {
        if cosine.spec_lt(Scalar { bits: 0 }) {
            Interface {
                entering: true,
                eta_i: Scalar { bits: crate::scalar::ONE_BITS },
                eta_t: refractive_index,
            }
        } else {
            Interface {
                entering: false,
                eta_i: refractive_index,
                eta_t: Scalar { bits: crate::scalar::ONE_BITS },
            }
        }
    }

    pub fn of(cosine: Scalar, refractive_index: Scalar) -> (interface: Interface)
        ensures
            interface == Self::spec_of(cosine, refractive_index),
    {
        if cosine.lt(Scalar::zero()) {
            Interface { entering: true, eta_i: Scalar::one(), eta_t: refractive_index }
        } else {
            Interface { entering: false, eta_i: refractive_index, eta_t: Scalar::one() }
        }
    }

    /// Decides whether no ray is transmitted: `k`, which is one minus the
    /// squared sine of the angle of the transmitted ray, lies below zero.
    pub fn blocks_transmission(k: Scalar) -> (r: bool)
        ensures
            r == k.spec_lt(Scalar { bits: 0 }),
    {
        k.lt(Scalar::zero())
    }

    /// Decides whether all light is reflected: the sine of the angle of
    /// the transmitted ray would be one or more.
    pub fn reflects_all(sin_theta_t: Scalar) -> (r: bool)
        ensures
            r == (Scalar { bits: crate::scalar::ONE_BITS }).spec_le(sin_theta_t),
    {
        sin_theta_t.ge(Scalar::one())
    }
}

/// Where a ray met a surface.
#[derive(Clone, Copy, Debug)]
pub struct Hit {
    pub point: Vec3,
    /// Distance from the ray's origin; a number, never negative.
    pub distance: Scalar,
    pub normal: Vec3,
    pub tex_coords: (Scalar, Scalar),
}

impl Hit {
    /// The distance is a number.
    pub open spec fn wf(&self) -> bool {
        !self.distance.nan()
    }

    pub fn new(point: Vec3, distance: Scalar, normal: Vec3, tex_coords: (Scalar, Scalar)) -> (hit:
        Hit)
        ensures
            hit.point == point,
            hit.distance == distance,
            hit.normal == normal,
            hit.tex_coords == tex_coords,
    {
        Hit { point, distance, normal, tex_coords }
    }
}

} // verus!
