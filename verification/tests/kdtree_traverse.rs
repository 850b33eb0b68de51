use raytracer::builder::KDTreeOptions;
use raytracer::kdtree::LinearKDTree;
use raytracer::math_util::Vec3;
use raytracer::mesh::{IndexedTriangle, MeshData};
use raytracer::ray::{Ray, RayDebugData};
use raytracer::scalar::Scalar;
use raytracer::traverse::TriangleHit;

fn sc(x: f32) -> Scalar {
    Scalar::from_bits(x.to_bits())
}

fn fl(x: Scalar) -> f32 {
    f32::from_bits(x.to_bits())
}

fn v3(x: f32, y: f32, z: f32) -> Vec3 {
    Vec3::new(sc(x), sc(y), sc(z))
}

fn arr(v: Vec3) -> [f32; 3] {
    [fl(v.x), fl(v.y), fl(v.z)]
}

fn sub3(a: [f32; 3], b: [f32; 3]) -> [f32; 3] {
    [a[0] - b[0], a[1] - b[1], a[2] - b[2]]
}

fn cross3(a: [f32; 3], b: [f32; 3]) -> [f32; 3] {
    [a[1] * b[2] - a[2] * b[1], a[2] * b[0] - a[0] * b[2], a[0] * b[1] - a[1] * b[0]]
}

fn dot3(a: [f32; 3], b: [f32; 3]) -> f32 {
    a[0] * b[0] + a[1] * b[1] + a[2] * b[2]
}

fn difference(a: Scalar, b: Scalar) -> Scalar {
    sc(fl(a) - fl(b))
}

fn midpoint(a: Scalar, b: Scalar) -> Scalar {
    sc((fl(a) + fl(b)) * 0.5)
}

fn along(bound: Scalar, origin: Scalar, direction: Scalar) -> Scalar {
    sc((fl(bound) - fl(origin)) * (1.0 / fl(direction)))
}

fn triangle(ray: Ray, v0: Vec3, v1: Vec3, v2: Vec3) -> Option<TriangleHit> {
    let (o, d) = (arr(ray.origin), arr(ray.direction));
    let (v0, v1, v2) = (arr(v0), arr(v1), arr(v2));
    let v0v1 = sub3(v1, v0);
    let v0v2 = sub3(v2, v0);
    let pvec = cross3(d, v0v2);
    let det = dot3(v0v1, pvec);
    if det.abs() < f32::EPSILON {
        return None;
    }
    let inv_det = 1.0 / det;
    let tvec = sub3(o, v0);
    let u = dot3(tvec, pvec) * inv_det;
    if u < 0.0 || u > 1.0 {
        return None;
    }
    let qvec = cross3(tvec, v0v1);
    let v = dot3(d, qvec) * inv_det;
    if v < 0.0 || u + v > 1.0 {
        return None;
    }
    let t = dot3(v0v2, qvec) * inv_det;
    if t < 0.0 {
        return None;
    }
    Some(TriangleHit { distance: sc(t), u: sc(u), v: sc(v) })
}

struct Lcg(u64);

impl Lcg {
    fn next(&mut self) -> f32 {
        self.0 = self.0.wrapping_mul(6364136223846793005).wrapping_add(1442695040888963407);
        ((self.0 >> 40) as f32) / ((1u64 << 24) as f32)
    }
}

fn random_mesh(count: usize, seed: u64) -> MeshData {
    let mut rng = Lcg(seed);
    let mut positions = Vec::new();
    let mut triangles = Vec::new();
    for _ in 0..count {
        let base = positions.len();
        let c = [rng.next() * 10.0, rng.next() * 10.0, rng.next() * 10.0];
        for _ in 0..3 {
            positions.push((
                sc(c[0] + rng.next() - 0.5),
                sc(c[1] + rng.next() - 0.5),
                sc(c[2] + rng.next() - 0.5),
            ));
        }
        triangles.push(IndexedTriangle {
            position_indices: (base, base + 1, base + 2),
            normal_indices: None,
            tex_coords_indices: None,
        });
    }
    MeshData {
        vertex_positions: positions,
        vertex_normals: Vec::new(),
        vertex_tex_coords: Vec::new(),
        triangles,
    }
}

fn grid_mesh() -> MeshData {
    let mut positions = Vec::new();
    let mut triangles = Vec::new();
    for x in 0..10 {
        for y in 0..10 {
            for z in 0..10 {
                let base = positions.len();
                let (fx, fy, fz) = (x as f32, y as f32, z as f32);
                positions.push((sc(fx), sc(fy - 0.25), sc(fz - 0.25)));
                positions.push((sc(fx), sc(fy + 0.25), sc(fz - 0.25)));
                positions.push((sc(fx), sc(fy), sc(fz + 0.25)));
                triangles.push(IndexedTriangle {
                    position_indices: (base, base + 1, base + 2),
                    normal_indices: None,
                    tex_coords_indices: None,
                });
            }
        }
    }
    MeshData {
        vertex_positions: positions,
        vertex_normals: Vec::new(),
        vertex_tex_coords: Vec::new(),
        triangles,
    }
}

fn linear_scan(data: &MeshData, ray: &Ray) -> Option<(usize, TriangleHit)> {
    let mut best: Option<(usize, TriangleHit)> = None;
    for (i, t) in data.triangles.iter().enumerate() {
        let p = t.position_indices;
        let hit = triangle(
            *ray,
            data.get_vertex_position(p.0),
            data.get_vertex_position(p.1),
            data.get_vertex_position(p.2),
        );
        if let Some(hit) = hit {
            if best.map_or(true, |(_, b)| fl(hit.distance) < fl(b.distance)) {
                best = Some((i, hit));
            }
        }
    }
    best
}

fn unit(x: f32, y: f32, z: f32) -> Vec3 {
    let m = (x * x + y * y + z * z).sqrt();
    v3(x / m, y / m, z / m)
}

#[test]
fn kd_tree_agrees_with_linear_scan_on_random_rays() {
    let data = random_mesh(600, 7);
    let options = KDTreeOptions { max_depth: Some(20), max_leaf_size: 16, debug: true };
    let tree = LinearKDTree::build(data.clone(), &options, &difference, &midpoint).unwrap();
    let mut rng = Lcg(99);
    let mut hits = 0;
    for _ in 0..100 {
        let origin = v3(rng.next() * 30.0 - 10.0, rng.next() * 30.0 - 10.0, -5.0);
        let target = [rng.next() * 10.0, rng.next() * 10.0, rng.next() * 10.0];
        let o = arr(origin);
        let ray = Ray::new(origin, unit(target[0] - o[0], target[1] - o[1], target[2] - o[2]));
        let mut debug = RayDebugData { kd_tree_lookups: 0 };
        let found = tree.intersect(&ray, &mut debug, &along, &triangle);
        let expected = linear_scan(&data, &ray);
        assert_eq!(found.is_some(), expected.is_some());
        if let (Some((_, a)), Some((_, b))) = (found, expected) {
            assert!((fl(a.distance) - fl(b.distance)).abs() <= 1e-4);
            hits += 1;
        }
    }
    assert!(hits > 10);
}

#[test]
fn ray_down_the_x_axis_needs_few_lookups() {
    let data = grid_mesh();
    let options = KDTreeOptions { max_depth: Some(21), max_leaf_size: 16, debug: true };
    let tree = LinearKDTree::build(data.clone(), &options, &difference, &midpoint).unwrap();
    let ray = Ray::new(v3(-5.0, 4.0, 4.0), v3(1.0, 0.0, 0.0));
    let mut debug = RayDebugData { kd_tree_lookups: 0 };
    let found = tree.intersect(&ray, &mut debug, &along, &triangle).unwrap();
    let expected = linear_scan(&data, &ray).unwrap();
    assert_eq!(found.0, expected.0);
    assert_eq!(fl(found.1.distance), 5.0);
    assert!(debug.kd_tree_lookups >= 2);
    assert!(debug.kd_tree_lookups <= 40, "{} lookups", debug.kd_tree_lookups);
}

#[test]
fn lookups_are_counted_only_in_a_tree_built_for_inspection() {
    let data = grid_mesh();
    let options = KDTreeOptions { max_depth: Some(21), max_leaf_size: 16, debug: false };
    let tree = LinearKDTree::build(data, &options, &difference, &midpoint).unwrap();
    let ray = Ray::new(v3(-5.0, 4.0, 4.0), v3(1.0, 0.0, 0.0));
    let mut debug = RayDebugData { kd_tree_lookups: 3 };
    assert!(tree.intersect(&ray, &mut debug, &along, &triangle).is_some());
    assert_eq!(debug.kd_tree_lookups, 3);
}

#[test]
fn ray_that_misses_the_bounding_box_hits_nothing() {
    let data = grid_mesh();
    let options = KDTreeOptions { max_depth: Some(21), max_leaf_size: 16, debug: true };
    let tree = LinearKDTree::build(data, &options, &difference, &midpoint).unwrap();
    let ray = Ray::new(v3(-5.0, 40.0, 4.0), v3(1.0, 0.0, 0.0));
    let mut debug = RayDebugData { kd_tree_lookups: 0 };
    assert!(tree.intersect(&ray, &mut debug, &along, &triangle).is_none());
    assert_eq!(debug.kd_tree_lookups, 0);
}

#[test]
fn every_inner_node_points_past_its_below_child() {
    let data = random_mesh(600, 3);
    let options = KDTreeOptions { max_depth: Some(20), max_leaf_size: 16, debug: false };
    let tree = LinearKDTree::build(data, &options, &difference, &midpoint).unwrap();
    let nodes = tree.nodes();
    let mut leaves_total = 0;
    for (p, node) in nodes.iter().enumerate() {
        if node.is_inner() {
            let above = node.above_child_index() as usize;
            assert!(above > p + 1);
            assert!(above < nodes.len());
        } else {
            let start = node.triangles_start_index() as usize;
            let count = node.triangle_count() as usize;
            assert_eq!(start, leaves_total);
            leaves_total += count;
        }
    }
    assert_eq!(leaves_total, tree.triangle_indices().len());
    assert_eq!(
        tree.intersect_stack_capacity(),
        ((tree.max_depth() as f32) * 0.65 + 0.5).floor() as usize
    );
}
