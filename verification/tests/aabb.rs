use raytracer::aabb::{longest_of, slab_interval, AABB};
use raytracer::math_util::{Axis, Vec3};
use raytracer::ray::Ray;
use raytracer::scalar::Scalar;

fn sc(x: f32) -> Scalar {
    Scalar::from_bits(x.to_bits())
}

fn fl(x: Scalar) -> f32 {
    f32::from_bits(x.to_bits())
}

fn v3(x: f32, y: f32, z: f32) -> Vec3 {
    Vec3::new(sc(x), sc(y), sc(z))
}

fn arr(v: Vec3) -> [f32; 3] {
    [fl(v.x), fl(v.y), fl(v.z)]
}

fn difference(a: Scalar, b: Scalar) -> Scalar {
    sc(fl(a) - fl(b))
}

fn along(bound: Scalar, origin: Scalar, direction: Scalar) -> Scalar {
    sc((fl(bound) - fl(origin)) * (1.0 / fl(direction)))
}

#[test]
fn new_orders_the_corners() {
    let b = AABB::new(&v3(1.0, -2.0, 3.0), &v3(-1.0, 2.0, 0.5));
    assert_eq!(arr(b.min), [-1.0, -2.0, 0.5]);
    assert_eq!(arr(b.max), [1.0, 2.0, 3.0]);
}

#[test]
fn from_triangle_holds_all_three_corners() {
    let b = AABB::from_triangle(&v3(0.0, 5.0, 1.0), &v3(2.0, -1.0, 1.0), &v3(1.0, 0.0, -4.0));
    assert_eq!(arr(b.min), [0.0, -1.0, -4.0]);
    assert_eq!(arr(b.max), [2.0, 5.0, 1.0]);
}

#[test]
fn union_with_the_empty_box_gives_the_other_box() {
    let b = AABB::new(&v3(1.0, 2.0, 3.0), &v3(4.0, 5.0, 6.0));
    let joined = AABB::empty().union(&b);
    assert_eq!(arr(joined.min), arr(b.min));
    assert_eq!(arr(joined.max), arr(b.max));
    let c = AABB::new(&v3(-1.0, 3.0, 3.0), &v3(2.0, 9.0, 4.0));
    let both = b.union(&c);
    assert_eq!(arr(both.min), [-1.0, 2.0, 3.0]);
    assert_eq!(arr(both.max), [4.0, 9.0, 6.0]);
}

#[test]
fn empty_box_is_infinite_inside_out() {
    let e = AABB::empty();
    assert_eq!(arr(e.min), [f32::INFINITY; 3]);
    assert_eq!(arr(e.max), [f32::NEG_INFINITY; 3]);
}

#[test]
fn maximum_extent_picks_the_longest_axis() {
    let x = AABB::new(&v3(0.0, 0.0, 0.0), &v3(3.0, 2.0, 1.0));
    let y = AABB::new(&v3(0.0, 0.0, 0.0), &v3(1.0, 3.0, 2.0));
    let z = AABB::new(&v3(0.0, 0.0, 0.0), &v3(1.0, 2.0, 3.0));
    assert_eq!(x.maximum_extent(&difference), Axis::X);
    assert_eq!(y.maximum_extent(&difference), Axis::Y);
    assert_eq!(z.maximum_extent(&difference), Axis::Z);
}

#[test]
fn maximum_extent_on_ties_takes_the_earlier_axis() {
    assert_eq!(longest_of(sc(2.0), sc(2.0), sc(1.0)), Axis::X);
    assert_eq!(longest_of(sc(2.0), sc(1.0), sc(2.0)), Axis::X);
    assert_eq!(longest_of(sc(1.0), sc(2.0), sc(2.0)), Axis::Y);
    assert_eq!(longest_of(sc(1.0), sc(1.0), sc(1.0)), Axis::X);
    assert_eq!(longest_of(sc(1.0), sc(1.0), sc(2.0)), Axis::Z);
    assert_eq!(longest_of(sc(f32::NAN), sc(2.0), sc(1.0)), Axis::Y);
    let cube = AABB::new(&v3(0.0, 0.0, 0.0), &v3(1.0, 1.0, 1.0));
    assert_eq!(cube.maximum_extent(&difference), Axis::X);
    let slab = AABB::new(&v3(0.0, 0.0, 0.0), &v3(1.0, 2.0, 2.0));
    assert_eq!(slab.maximum_extent(&difference), Axis::Y);
}

fn reference_slab(b: &AABB, origin: [f32; 3], dir: [f32; 3]) -> Option<(f32, f32)> {
    let (min, max) = (arr(b.min), arr(b.max));
    let frac = [1.0 / dir[0], 1.0 / dir[1], 1.0 / dir[2]];
    let t1 = (min[0] - origin[0]) * frac[0];
    let t2 = (max[0] - origin[0]) * frac[0];
    let t3 = (min[1] - origin[1]) * frac[1];
    let t4 = (max[1] - origin[1]) * frac[1];
    let t5 = (min[2] - origin[2]) * frac[2];
    let t6 = (max[2] - origin[2]) * frac[2];
    let tmin = f32::max(f32::max(f32::min(t1, t2), f32::min(t3, t4)), f32::min(t5, t6));
    let tmax = f32::min(f32::min(f32::max(t1, t2), f32::max(t3, t4)), f32::max(t5, t6));
    if tmax < 0.0 {
        None
    } else if tmin > tmax {
        None
    } else {
        Some((tmin, tmax))
    }
}

#[test]
fn slab_test_agrees_with_floating_point_and_is_symmetric() {
    let b = AABB::new(&v3(-1.0, -2.0, -3.0), &v3(1.0, 2.0, 3.0));
    let origins = [[0.0, 0.0, -10.0], [5.0, 0.0, 0.0], [0.0, 0.0, 0.0], [-4.0, 3.0, 1.0], [1.0, 2.0, 3.0]];
    let dirs = [
        [0.0, 0.0, 1.0],
        [-1.0, 0.0, 0.0],
        [0.57735, 0.57735, 0.57735],
        [0.8, -0.6, 0.0],
        [0.0, 1.0, 0.0],
        [-0.267261, -0.534522, -0.801784],
    ];
    let mut hits = 0;
    for o in origins {
        for d in dirs {
            let ray = Ray::new(v3(o[0], o[1], o[2]), v3(d[0], d[1], d[2]));
            let found = b.intersects_p(&ray, &along).map(|(a, b)| (fl(a), fl(b)));
            let expected = reference_slab(&b, o, d);
            assert_eq!(found, expected, "{:?} {:?}", o, d);
            assert_eq!(b.intersects(&ray, &along), expected.is_some());
            if let Some((t_min, t_max)) = found {
                assert!(t_min <= t_max);
                hits += 1;
            }
        }
    }
    assert!(hits >= 5);
}

#[test]
fn slab_interval_of_a_ray_along_z() {
    let t = (sc(f32::NEG_INFINITY), sc(f32::INFINITY), sc(f32::NEG_INFINITY), sc(f32::INFINITY), sc(7.0), sc(13.0));
    let (entry, exit) = slab_interval(t).unwrap();
    assert_eq!((fl(entry), fl(exit)), (7.0, 13.0));
    let behind = (sc(-5.0), sc(-3.0), sc(-5.0), sc(-3.0), sc(-5.0), sc(-3.0));
    assert!(slab_interval(behind).is_none());
    let apart = (sc(1.0), sc(2.0), sc(3.0), sc(4.0), sc(1.0), sc(2.0));
    assert!(slab_interval(apart).is_none());
}
