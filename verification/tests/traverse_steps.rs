use raytracer::scalar::Scalar;
use raytracer::traverse::{below_first, can_stop, descend, nearer, triangle_test, PendingVisit, TriangleHit};

fn sc(x: f32) -> Scalar {
    Scalar::from_bits(x.to_bits())
}

fn fl(x: Scalar) -> f32 {
    f32::from_bits(x.to_bits())
}

fn item(node_index: usize, t_min: f32, t_max: f32) -> PendingVisit {
    PendingVisit { node_index, t_min: sc(t_min), t_max: sc(t_max) }
}

fn show(stack: &Vec<PendingVisit>) -> Vec<(usize, f32, f32)> {
    stack.iter().map(|i| (i.node_index, fl(i.t_min), fl(i.t_max))).collect()
}

fn hit(distance: f32) -> TriangleHit {
    TriangleHit { distance: sc(distance), u: sc(0.25), v: sc(0.5) }
}

#[test]
fn descend_pushes_far_child_first() {
    let mut stack = vec![item(9, 8.0, 9.0)];
    descend(&mut stack, item(3, 1.0, 5.0), 20, sc(2.0), true);
    assert_eq!(show(&stack), vec![(9, 8.0, 9.0), (20, 2.0, 5.0), (4, 1.0, 2.0)]);
    let mut swapped = Vec::new();
    descend(&mut swapped, item(3, 1.0, 5.0), 20, sc(2.0), false);
    assert_eq!(show(&swapped), vec![(4, 2.0, 5.0), (20, 1.0, 2.0)]);
}

#[test]
fn descend_pushes_only_the_near_child() {
    let mut beyond = Vec::new();
    descend(&mut beyond, item(3, 1.0, 5.0), 20, sc(6.0), true);
    assert_eq!(show(&beyond), vec![(4, 1.0, 5.0)]);
    let mut away = Vec::new();
    descend(&mut away, item(3, 1.0, 5.0), 20, sc(-2.0), false);
    assert_eq!(show(&away), vec![(20, 1.0, 5.0)]);
    let mut at_zero = Vec::new();
    descend(&mut at_zero, item(3, 0.0, 5.0), 20, sc(0.0), true);
    assert_eq!(show(&at_zero), vec![(4, 0.0, 5.0)]);
}

#[test]
fn descend_pushes_only_the_far_child() {
    let mut stack = Vec::new();
    descend(&mut stack, item(3, 1.0, 5.0), 20, sc(0.5), true);
    assert_eq!(show(&stack), vec![(20, 1.0, 5.0)]);
}

#[test]
fn descend_at_the_interval_ends_pushes_both() {
    let mut at_min = Vec::new();
    descend(&mut at_min, item(3, 1.0, 5.0), 20, sc(1.0), true);
    assert_eq!(show(&at_min), vec![(20, 1.0, 5.0), (4, 1.0, 1.0)]);
    let mut at_max = Vec::new();
    descend(&mut at_max, item(3, 1.0, 5.0), 20, sc(5.0), true);
    assert_eq!(show(&at_max), vec![(20, 5.0, 5.0), (4, 1.0, 5.0)]);
}

#[test]
fn descend_with_a_crossing_that_is_no_number_pushes_both() {
    let mut stack = Vec::new();
    descend(&mut stack, item(3, 1.0, 5.0), 20, sc(f32::NAN), true);
    assert_eq!(stack.len(), 2);
    assert_eq!((stack[0].node_index, stack[1].node_index), (20, 4));
}

#[test]
fn ordered_stack_stays_ordered_and_prunes_all() {
    let mut stack = vec![item(30, 6.0, 9.0), item(12, 5.0, 6.0)];
    let top = item(3, 1.0, 5.0);
    descend(&mut stack, top, 8, sc(2.0), true);
    for pair in stack.windows(2) {
        assert!(fl(pair[1].t_max) <= fl(pair[0].t_min));
    }
    let nearest = Some((0usize, hit(0.5)));
    assert!(can_stop(&nearest, stack.last().unwrap().t_min));
    for entry in &stack {
        assert!(can_stop(&nearest, entry.t_min));
        assert!(fl(entry.t_min) >= 0.5);
    }
}

#[test]
fn the_near_child_lies_below_when_the_ray_starts_below() {
    assert!(below_first(sc(1.0), sc(1.0), sc(2.0)));
    assert!(!below_first(sc(3.0), sc(-1.0), sc(2.0)));
    assert!(below_first(sc(2.0), sc(-1.0), sc(2.0)));
    assert!(below_first(sc(2.0), sc(0.0), sc(2.0)));
    assert!(!below_first(sc(2.0), sc(1.0), sc(2.0)));
    assert!(below_first(sc(-0.0), sc(-0.0), sc(0.0)));
}

#[test]
fn can_stop_only_behind_a_hit() {
    assert!(!can_stop(&None, sc(1.0)));
    assert!(can_stop(&Some((0, hit(0.5))), sc(1.0)));
    assert!(!can_stop(&Some((0, hit(1.0))), sc(1.0)));
    assert!(!can_stop(&Some((0, hit(2.0))), sc(1.0)));
    assert!(!can_stop(&Some((0, hit(0.5))), sc(f32::NAN)));
}

#[test]
fn nearer_keeps_the_first_of_equal_hits() {
    assert!(nearer(None, 4, None).is_none());
    let first = nearer(None, 4, Some(hit(3.0))).unwrap();
    assert_eq!((first.0, fl(first.1.distance)), (4, 3.0));
    let same = nearer(Some(first), 5, Some(hit(3.0))).unwrap();
    assert_eq!(same.0, 4);
    let closer = nearer(Some(first), 6, Some(hit(2.5))).unwrap();
    assert_eq!((closer.0, fl(closer.1.distance)), (6, 2.5));
    let farther = nearer(Some(first), 7, Some(hit(9.0))).unwrap();
    assert_eq!(farther.0, 4);
    assert_eq!(nearer(Some(first), 8, None).unwrap().0, 4);
}

#[test]
fn triangle_test_accepts_points_in_the_triangle() {
    let accepted = triangle_test(sc(2.0), sc(0.25), sc(0.5), sc(0.75), sc(4.0)).unwrap();
    assert_eq!((fl(accepted.distance), fl(accepted.u), fl(accepted.v)), (4.0, 0.25, 0.5));
    assert!(triangle_test(sc(-2.0), sc(0.0), sc(0.0), sc(0.0), sc(0.0)).is_some());
    assert!(triangle_test(sc(1.0), sc(1.0), sc(0.0), sc(1.0), sc(1.0)).is_some());
    assert!(triangle_test(sc(f32::EPSILON), sc(0.5), sc(0.5), sc(1.0), sc(1.0)).is_some());
}

#[test]
fn triangle_test_rejects() {
    assert!(triangle_test(sc(0.0), sc(0.25), sc(0.5), sc(0.75), sc(4.0)).is_none());
    assert!(triangle_test(sc(-1.0e-8), sc(0.25), sc(0.5), sc(0.75), sc(4.0)).is_none());
    assert!(triangle_test(sc(2.0), sc(-0.1), sc(0.5), sc(0.4), sc(4.0)).is_none());
    assert!(triangle_test(sc(2.0), sc(1.1), sc(0.0), sc(1.1), sc(4.0)).is_none());
    assert!(triangle_test(sc(2.0), sc(0.25), sc(-0.5), sc(-0.25), sc(4.0)).is_none());
    assert!(triangle_test(sc(2.0), sc(0.75), sc(0.5), sc(1.25), sc(4.0)).is_none());
    assert!(triangle_test(sc(2.0), sc(0.25), sc(0.5), sc(0.75), sc(-4.0)).is_none());
}
