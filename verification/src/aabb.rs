//! Axis-aligned bounding boxes.

use vstd::prelude::*;
use crate::math_util::{Axis, Vec3};
use crate::ray::Ray;
use crate::scalar::Scalar;

verus! {

/// A box given by its corner of least and its corner of greatest coordinates.
#[derive(Clone, Copy, Debug)]
pub struct AABB {
    pub min: Vec3,
    pub max: Vec3,
}

/// The axis of greatest extent. Of equal extents the earlier axis wins: x
/// where its extent is no less than both others, else y where its extent
/// is no less than that of z, else z.
pub open spec fn longest_axis(ex: Scalar, ey: Scalar, ez: Scalar) -> Axis {
    if ey.spec_le(ex) && ez.spec_le(ex) {
        Axis::X
    } else if ez.spec_le(ey) {
        Axis::Y
    } else {
        Axis::Z
    }
}

/// Picks the axis of greatest extent from the three extents.
pub fn longest_of(ex: Scalar, ey: Scalar, ez: Scalar) -> (axis: Axis)
    ensures
        axis == longest_axis(ex, ey, ez),
{
    if ex.ge(ey) && ex.ge(ez) {
        Axis::X
    } else if ey.ge(ez) {
        Axis::Y
    } else {
        Axis::Z
    }
}

/// Entry distance of the slab test: the greatest of the three per-axis
/// nearer plane distances.
pub open spec fn slab_entry(t: (Scalar, Scalar, Scalar, Scalar, Scalar, Scalar)) -> Scalar {
    t.0.spec_min(t.1).spec_max(t.2.spec_min(t.3)).spec_max(t.4.spec_min(t.5))
}

/// Exit distance of the slab test: the least of the three per-axis farther
/// plane distances.
pub open spec fn slab_exit(t: (Scalar, Scalar, Scalar, Scalar, Scalar, Scalar)) -> Scalar {
    t.0.spec_max(t.1).spec_min(t.2.spec_max(t.3)).spec_min(t.4.spec_max(t.5))
}

/// What the slab test answers for the six plane distances `t`: no overlap
/// where the exit lies behind the origin or before the entry.
pub open spec fn slab_result(t: (Scalar, Scalar, Scalar, Scalar, Scalar, Scalar)) -> Option<
    (Scalar, Scalar),
> {
    let entry = slab_entry(t);
    let exit = slab_exit(t);
    if exit.spec_lt(Scalar { bits: 0 }) {
        None
    } else if exit.spec_lt(entry) {
        None
    } else {
        Some((entry, exit))
    }
}

/// Decides the slab test from the distances at which a ray meets the six
/// planes of a box (least and greatest x plane, then y, then z).
pub fn slab_interval(t: (Scalar, Scalar, Scalar, Scalar, Scalar, Scalar)) -> (r: Option<
    (Scalar, Scalar),
>)
    ensures
        r == slab_result(t),
        r matches Some((entry, exit)) ==> !exit.spec_lt(entry) && !exit.spec_lt(Scalar { bits: 0 }),
        r matches Some((entry, exit)) ==> (!entry.nan() && !exit.nan() ==> entry.spec_le(exit)),
{
    let entry = t.0.min(t.1).max(t.2.min(t.3)).max(t.4.min(t.5));
    let exit = t.0.max(t.1).min(t.2.max(t.3)).min(t.4.max(t.5));
    if exit.lt(Scalar::zero()) {
        None
    } else if entry.gt(exit) {
        None
    } else {
        Some((entry, exit))
    }
}

impl AABB {
    /// The component-wise least corner of two points.
    pub open spec fn least(a: Vec3, b: Vec3) -> Vec3 {
        Vec3 { x: a.x.spec_min(b.x), y: a.y.spec_min(b.y), z: a.z.spec_min(b.z) }
    }

    /// The component-wise greatest corner of two points.
    pub open spec fn greatest(a: Vec3, b: Vec3) -> Vec3 {
        Vec3 { x: a.x.spec_max(b.x), y: a.y.spec_max(b.y), z: a.z.spec_max(b.z) }
    }

    /// The box that joins with any other box to that other box.
    pub open spec fn spec_empty() -> AABB {
        AABB {
            min: Vec3 {
                x: Scalar { bits: 0x7F80_0000 },
                y: Scalar { bits: 0x7F80_0000 },
                z: Scalar { bits: 0x7F80_0000 },
            },
            max: Vec3 {
                x: Scalar { bits: 0xFF80_0000 },
                y: Scalar { bits: 0xFF80_0000 },
                z: Scalar { bits: 0xFF80_0000 },
            },
        }
    }

    /// The smallest box that holds both points.
    pub open spec fn spec_new(first: Vec3, second: Vec3) -> AABB {
        AABB { min: Self::least(first, second), max: Self::greatest(first, second) }
    }

    /// The smallest box that holds the three points.
    pub open spec fn spec_from_triangle(first: Vec3, second: Vec3, third: Vec3) -> AABB {
        AABB {
            min: Self::least(Self::least(first, second), third),
            max: Self::greatest(Self::greatest(first, second), third),
        }
    }

    /// The smallest box that holds both boxes.
    pub open spec fn spec_union(self, other: AABB) -> AABB {
        AABB { min: Self::least(self.min, other.min), max: Self::greatest(self.max, other.max) }
    }

    /// This box cut off above `position` along `axis`.
    pub open spec fn below(self, axis: Axis, position: Scalar) -> AABB {
        AABB { min: self.min, max: self.max.spec_with(axis, position) }
    }

    /// This box cut off below `position` along `axis`.
    pub open spec fn above(self, axis: Axis, position: Scalar) -> AABB {
        AABB { min: self.min.spec_with(axis, position), max: self.max }
    }

    /// True where all six bounds are numbers.
    pub open spec fn is_numeric(self) -> bool {
        self.min.is_numeric() && self.max.is_numeric()
    }

    /// True where, on every axis, the least bound is a number not above the
    /// greatest bound.
    pub open spec fn ordered(self) -> bool {
        &&& self.min.x.spec_le(self.max.x)
        &&& self.min.y.spec_le(self.max.y)
        &&& self.min.z.spec_le(self.max.z)
    }

    /// True unless `axis` separates the boxes: neither box begins after the
    /// other ends. Bounds that are not numbers separate nothing.
    pub open spec fn overlaps_on(self, other: AABB, axis: Axis) -> bool {
        &&& !other.max.spec_get(axis).spec_lt(self.min.spec_get(axis))
        &&& !self.max.spec_get(axis).spec_lt(other.min.spec_get(axis))
    }

    /// True unless some axis separates the boxes.
    pub open spec fn overlaps(self, other: AABB) -> bool {
        &&& self.overlaps_on(other, Axis::X)
        &&& self.overlaps_on(other, Axis::Y)
        &&& self.overlaps_on(other, Axis::Z)
    }

    /// True where, along `axis`, `other` lies inside this box.
    pub open spec fn contains_on(self, other: AABB, axis: Axis) -> bool {
        &&& self.min.spec_get(axis).spec_le(other.min.spec_get(axis))
        &&& other.max.spec_get(axis).spec_le(self.max.spec_get(axis))
    }

    /// True where `other` lies inside this box on every axis.
    pub open spec fn contains(self, other: AABB) -> bool {
        &&& self.contains_on(other, Axis::X)
        &&& self.contains_on(other, Axis::Y)
        &&& self.contains_on(other, Axis::Z)
    }

    /// True where `e` holds extents of the box along x, y and z that
    /// `difference` can give.
    pub open spec fn extents<D: Fn(Scalar, Scalar) -> Scalar>(
        self,
        difference: &D,
        e: (Scalar, Scalar, Scalar),
    ) -> bool {
        &&& difference.ensures((self.max.x, self.min.x), e.0)
        &&& difference.ensures((self.max.y, self.min.y), e.1)
        &&& difference.ensures((self.max.z, self.min.z), e.2)
    }

    /// True where `axis` is the axis of greatest extent for extents that
    /// `difference` can give.
    pub open spec fn is_longest_axis<D: Fn(Scalar, Scalar) -> Scalar>(
        self,
        difference: &D,
        axis: Axis,
    ) -> bool {
        exists|e: (Scalar, Scalar, Scalar)|
            #[trigger] self.extents(difference, e) && axis == longest_axis(e.0, e.1, e.2)
    }

    /// True where `t` holds distances that `along` can give for the six
    /// planes of the box: least and greatest x plane, then y, then z.
    pub open spec fn plane_distances<K: Fn(Scalar, Scalar, Scalar) -> Scalar>(
        self,
        ray: Ray,
        along: &K,
        t: (Scalar, Scalar, Scalar, Scalar, Scalar, Scalar),
    ) -> bool {
        &&& along.ensures((self.min.x, ray.origin.x, ray.direction.x), t.0)
        &&& along.ensures((self.max.x, ray.origin.x, ray.direction.x), t.1)
        &&& along.ensures((self.min.y, ray.origin.y, ray.direction.y), t.2)
        &&& along.ensures((self.max.y, ray.origin.y, ray.direction.y), t.3)
        &&& along.ensures((self.min.z, ray.origin.z, ray.direction.z), t.4)
        &&& along.ensures((self.max.z, ray.origin.z, ray.direction.z), t.5)
    }

    /// True where `along` can give plane distances for which the slab test
    /// finds an interval.
    pub open spec fn may_meet<K: Fn(Scalar, Scalar, Scalar) -> Scalar>(
        self,
        ray: Ray,
        along: &K,
    ) -> bool {
        exists|t: (Scalar, Scalar, Scalar, Scalar, Scalar, Scalar)|
            #[trigger] self.plane_distances(ray, along, t) && slab_result(t) is Some
    }

    /// The empty box: joined with any box it gives that box.
    pub fn empty() -> (b: AABB)
        ensures
            b == Self::spec_empty(),
    {
        AABB {
            min: Vec3::new(Scalar::infinity(), Scalar::infinity(), Scalar::infinity()),
            max: Vec3::new(
                Scalar::neg_infinity(),
                Scalar::neg_infinity(),
                Scalar::neg_infinity(),
            ),
        }
    }

    /// The smallest box that holds both points.
    pub fn new(first: &Vec3, second: &Vec3) -> (b: AABB)
        ensures
            b == Self::spec_new(*first, *second),
    {
        AABB {
            min: Vec3::new(first.x.min(second.x), first.y.min(second.y), first.z.min(second.z)),
            max: Vec3::new(first.x.max(second.x), first.y.max(second.y), first.z.max(second.z)),
        }
    }

    /// The smallest box that holds a triangle with the given corners.
    pub fn from_triangle(first: &Vec3, second: &Vec3, third: &Vec3) -> (b: AABB)
        ensures
            b == Self::spec_from_triangle(*first, *second, *third),
    {
        AABB {
            min: Vec3::new(
                first.x.min(second.x).min(third.x),
                first.y.min(second.y).min(third.y),
                first.z.min(second.z).min(third.z),
            ),
            max: Vec3::new(
                first.x.max(second.x).max(third.x),
                first.y.max(second.y).max(third.y),
                first.z.max(second.z).max(third.z),
            ),
        }
    }

    /// The smallest box that holds both boxes.
    pub fn union(&self, other: &AABB) -> (b: AABB)
        ensures
            b == self.spec_union(*other),
    {
        AABB {
            min: Vec3::new(
                self.min.x.min(other.min.x),
                self.min.y.min(other.min.y),
                self.min.z.min(other.min.z),
            ),
            max: Vec3::new(
                self.max.x.max(other.max.x),
                self.max.y.max(other.max.y),
                self.max.z.max(other.max.z),
            ),
        }
    }

    /// The axis along which the box is longest. `difference(a, b)` supplies
    /// `a - b`; it is asked for the extent of each axis in turn.
    pub fn maximum_extent<D: Fn(Scalar, Scalar) -> Scalar>(&self, difference: &D) -> (axis: Axis)
        requires
            forall|a: Scalar, b: Scalar| difference.requires((a, b)),
        ensures
            self.is_longest_axis(difference, axis),
    {
        let ex = difference(self.max.x, self.min.x);
        let ey = difference(self.max.y, self.min.y);
        let ez = difference(self.max.z, self.min.z);
        assert(self.extents(difference, (ex, ey, ez)));
        longest_of(ex, ey, ez)
    }

    /// The slab test. `along(bound, origin, direction)` supplies the distance
    /// at which a ray starting at `origin` with slope `direction` on one axis
    /// meets the plane at `bound`; it is asked for the six planes of the box.
    /// Returns the entry and exit distances of the ray, or `None` where the
    /// ray misses the box or the box lies behind it.
    pub fn intersects_p<K: Fn(Scalar, Scalar, Scalar) -> Scalar>(&self, ray: &Ray, along: &K) -> (r:
        Option<(Scalar, Scalar)>)
        requires
            forall|a: Scalar, b: Scalar, c: Scalar| along.requires((a, b, c)),
        ensures
            exists|t: (Scalar, Scalar, Scalar, Scalar, Scalar, Scalar)|
                #[trigger] self.plane_distances(*ray, along, t) && r == slab_result(t),
            r matches Some((entry, exit)) ==> !exit.spec_lt(entry) && !exit.spec_lt(
                Scalar { bits: 0 },
            ),
            r matches Some((entry, exit)) ==> (!entry.nan() && !exit.nan() ==> entry.spec_le(exit)),
    {
        let t1 = along(self.min.x, ray.origin.x, ray.direction.x);
        let t2 = along(self.max.x, ray.origin.x, ray.direction.x);
        let t3 = along(self.min.y, ray.origin.y, ray.direction.y);
        let t4 = along(self.max.y, ray.origin.y, ray.direction.y);
        let t5 = along(self.min.z, ray.origin.z, ray.direction.z);
        let t6 = along(self.max.z, ray.origin.z, ray.direction.z);
        assert(self.plane_distances(*ray, along, (t1, t2, t3, t4, t5, t6)));
        slab_interval((t1, t2, t3, t4, t5, t6))
    }

    /// True where `intersects_p` finds an interval.
    pub fn intersects<K: Fn(Scalar, Scalar, Scalar) -> Scalar>(&self, ray: &Ray, along: &K) -> (r:
        bool)
        requires
            forall|a: Scalar, b: Scalar, c: Scalar| along.requires((a, b, c)),
        ensures
            exists|t: (Scalar, Scalar, Scalar, Scalar, Scalar, Scalar)|
                #[trigger] self.plane_distances(*ray, along, t) && r == (slab_result(t) is Some),
            r ==> self.may_meet(*ray, along),
    {
        self.intersects_p(ray, along).is_some()
    }
}

} // verus!
