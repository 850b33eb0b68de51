use raytracer::math_util::{Axis, Modulo, Vec3};
use raytracer::node::LinearKDTreeNode;
use raytracer::scalar::Scalar;

#[test]
fn leaf_round_trip() {
    let leaf = LinearKDTreeNode::new_leaf(12345, 0xFFFF_FFFF);
    assert!(!leaf.is_inner());
    assert_eq!(leaf.triangle_count(), 12345);
    assert_eq!(leaf.triangles_start_index(), 0xFFFF_FFFF);
    let empty = LinearKDTreeNode::new_leaf(0, 0);
    assert!(!empty.is_inner());
    assert_eq!(empty.triangle_count(), 0);
    let largest = LinearKDTreeNode::new_leaf(0x3FFF_FFFF, 1);
    assert_eq!(largest.triangle_count(), 0x3FFF_FFFF);
}

#[test]
fn leaf_count_keeps_thirty_bits() {
    let leaf = LinearKDTreeNode::new_leaf(0x4000_0005, 7);
    assert!(!leaf.is_inner());
    assert_eq!(leaf.triangle_count(), 5);
}

#[test]
fn inner_round_trip() {
    for (axis, index) in [(Axis::X, 0u32), (Axis::Y, 1), (Axis::Z, 2)] {
        let split = Scalar::from_bits((-2.5f32).to_bits());
        let mut node = LinearKDTreeNode::new_inner(0, axis, split);
        assert!(node.is_inner());
        assert_eq!(node.split_axis(), axis);
        assert_eq!(node.split_axis().index(), index);
        assert_eq!(node.above_child_index(), 0);
        assert_eq!(f32::from_bits(node.split_position().to_bits()), -2.5);
        node.set_above_child_index(0x3FFF_FFFF);
        assert!(node.is_inner());
        assert_eq!(node.above_child_index(), 0x3FFF_FFFF);
        assert_eq!(node.split_axis(), axis);
        assert_eq!(f32::from_bits(node.split_position().to_bits()), -2.5);
        node.set_above_child_index(77);
        assert_eq!(node.above_child_index(), 77);
    }
}

#[test]
fn axis_from_u32() {
    assert_eq!(Axis::from_u32(0), Axis::X);
    assert_eq!(Axis::from_u32(1), Axis::Y);
    assert_eq!(Axis::from_u32(2), Axis::Z);
}

#[test]
fn vec3_components_by_axis() {
    let v = Vec3::new(Scalar::from_bits(1), Scalar::from_bits(2), Scalar::from_bits(3));
    assert_eq!(v.get(Axis::X).to_bits(), 1);
    assert_eq!(v.get(Axis::Y).to_bits(), 2);
    assert_eq!(v.get(Axis::Z).to_bits(), 3);
    let w = v.with(Axis::Y, Scalar::from_bits(9));
    assert_eq!((w.x.to_bits(), w.y.to_bits(), w.z.to_bits()), (1, 9, 3));
}

#[test]
fn modulo_is_never_negative() {
    assert_eq!(7i64.modulo(4), 3);
    assert_eq!((-1i64).modulo(4), 3);
    assert_eq!((-4i64).modulo(4), 0);
    assert_eq!((-5i64).modulo(4), 3);
    assert_eq!(0i64.modulo(4), 0);
    assert_eq!(i64::MIN.modulo(10), i64::MIN.rem_euclid(10));
    assert_eq!(i64::MAX.modulo(i64::MAX), 0);
    for x in -50i64..50 {
        for m in 1i64..9 {
            assert_eq!(x.modulo(m), x.rem_euclid(m));
        }
    }
}
