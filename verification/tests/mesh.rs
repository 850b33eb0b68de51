use raytracer::math_util::Vec3;
use raytracer::mesh::{IndexedTriangle, MeshData};
use raytracer::obj_parser::{decimal_text, ObjParseError};
use raytracer::primitives::Mesh;
use raytracer::ray::{Ray, RayDebugData};
use raytracer::scalar::Scalar;
use raytracer::traverse::{triangle_test, TriangleHit};

fn sc(x: f32) -> Scalar {
    Scalar::from_bits(x.to_bits())
}

fn fl(x: Scalar) -> f32 {
    f32::from_bits(x.to_bits())
}

fn difference(a: Scalar, b: Scalar) -> Scalar {
    sc(fl(a) - fl(b))
}

fn midpoint(a: Scalar, b: Scalar) -> Scalar {
    sc((fl(a) + fl(b)) * 0.5)
}

fn along(bound: Scalar, origin: Scalar, direction: Scalar) -> Scalar {
    sc((fl(bound) - fl(origin)) * (1.0 / fl(direction)))
}

fn arr(v: Vec3) -> [f32; 3] {
    [fl(v.x), fl(v.y), fl(v.z)]
}

fn sub3(a: [f32; 3], b: [f32; 3]) -> [f32; 3] {
    [a[0] - b[0], a[1] - b[1], a[2] - b[2]]
}

fn cross3(a: [f32; 3], b: [f32; 3]) -> [f32; 3] {
    [a[1] * b[2] - a[2] * b[1], a[2] * b[0] - a[0] * b[2], a[0] * b[1] - a[1] * b[0]]
}

fn dot3(a: [f32; 3], b: [f32; 3]) -> f32 {
    a[0] * b[0] + a[1] * b[1] + a[2] * b[2]
}

fn triangle(ray: Ray, v0: Vec3, v1: Vec3, v2: Vec3) -> Option<TriangleHit> {
    let (o, d) = (arr(ray.origin), arr(ray.direction));
    let (v0, v1, v2) = (arr(v0), arr(v1), arr(v2));
    let v0v1 = sub3(v1, v0);
    let v0v2 = sub3(v2, v0);
    let pvec = cross3(d, v0v2);
    let det = dot3(v0v1, pvec);
    let inv_det = 1.0 / det;
    let tvec = sub3(o, v0);
    let u = dot3(tvec, pvec) * inv_det;
    let qvec = cross3(tvec, v0v1);
    let v = dot3(d, qvec) * inv_det;
    let t = dot3(v0v2, qvec) * inv_det;
    triangle_test(sc(det), sc(u), sc(v), sc(u + v), sc(t))
}

fn strip(count: usize) -> MeshData {
    let mut positions = Vec::new();
    let mut triangles = Vec::new();
    for i in 0..count {
        let x = i as f32;
        let base = positions.len();
        positions.push((sc(x), sc(0.0), sc(0.0)));
        positions.push((sc(x + 1.0), sc(0.0), sc(0.0)));
        positions.push((sc(x), sc(1.0), sc(0.0)));
        triangles.push(IndexedTriangle {
            position_indices: (base, base + 1, base + 2),
            normal_indices: None,
            tex_coords_indices: None,
        });
    }
    MeshData {
        vertex_positions: positions,
        vertex_normals: Vec::new(),
        vertex_tex_coords: Vec::new(),
        triangles,
    }
}

#[test]
fn mesh_finds_the_triangle_under_the_ray() {
    let mesh = Mesh::new(std::path::PathBuf::from("strip.obj"), strip(100), true, &difference, &midpoint)
        .unwrap();
    assert!(mesh.debug());
    assert!(mesh.kdtree().debug());
    assert_eq!(mesh.path().to_str(), Some("strip.obj"));
    assert!(mesh.kdtree().nodes().len() > 1);
    assert!(mesh.kdtree().max_depth() <= 8 + 9 + 1);
    let ray = Ray::new(
        Vec3::new(sc(42.25), sc(0.25), sc(3.0)),
        Vec3::new(sc(0.0), sc(0.0), sc(-1.0)),
    );
    let mut debug = RayDebugData { kd_tree_lookups: 0 };
    let (index, hit) = mesh.intersect(&ray, &mut debug, &along, &triangle).unwrap();
    assert_eq!(index, 42);
    assert_eq!((fl(hit.distance), fl(hit.u), fl(hit.v)), (3.0, 0.25, 0.25));
    assert!(debug.kd_tree_lookups >= 2);
    assert!(debug.kd_tree_lookups <= mesh.kdtree().nodes().len() + 1);
    let miss = Ray::new(
        Vec3::new(sc(42.75), sc(0.75), sc(3.0)),
        Vec3::new(sc(0.0), sc(0.0), sc(-1.0)),
    );
    assert!(mesh.intersect(&miss, &mut debug, &along, &triangle).is_none());
}

#[test]
fn well_formed_meshes() {
    assert!(strip(3).is_well_formed());
    let mut out_of_bounds = strip(3);
    out_of_bounds.triangles[1].position_indices.2 = 9;
    assert!(!out_of_bounds.is_well_formed());
    let mut no_normals = strip(3);
    no_normals.triangles[2].normal_indices = Some((0, 0, 0));
    assert!(!no_normals.is_well_formed());
    let mut no_tex_coords = strip(3);
    no_tex_coords.triangles[0].tex_coords_indices = Some((0, 0, 0));
    assert!(!no_tex_coords.is_well_formed());
    let mut no_number = strip(3);
    no_number.vertex_positions[4].1 = sc(f32::NAN);
    assert!(!no_number.is_well_formed());
    let mut with_normals = strip(3);
    with_normals.vertex_normals.push((sc(0.0), sc(0.0), sc(1.0)));
    with_normals.triangles[2].normal_indices = Some((0, 0, 0));
    assert!(with_normals.is_well_formed());
    assert_eq!(fl(with_normals.get_vertex_normal(0).z), 1.0);
    assert_eq!(fl(with_normals.get_vertex_position(4).x), 2.0);
}

#[test]
fn error_messages() {
    let text = |e: ObjParseError| e.message();
    assert_eq!(
        text(ObjParseError::NotEnoughArguments(12, "v".to_string())),
        "Not enough arguments to 'v' in line 12"
    );
    assert_eq!(
        text(ObjParseError::TooManyArguments(3, "vt".to_string())),
        "Too many arguments to 'vt' in line 3"
    );
    assert_eq!(
        text(ObjParseError::MultipleObjects(7)),
        "More than one object (second object starts in line 7)"
    );
    assert_eq!(text(ObjParseError::InvalidFloat(1000)), "Invalid float in line 1000");
    assert_eq!(
        text(ObjParseError::InvalidKeyword(40, "vp".to_string())),
        "Invalid keyword 'vp' in line 40"
    );
    assert_eq!(
        text(ObjParseError::InvalidVertexReference(9, "too many slashes".to_string())),
        "Invalid vertex reference in line 9: too many slashes"
    );
    assert_eq!(
        text(ObjParseError::IndexOutOfBounds("normal".to_string())),
        "Vertex normal index out of bounds"
    );
}

#[test]
fn decimal_text_writes_as_std_does() {
    for n in [0usize, 1, 9, 10, 11, 99, 100, 101, 1234567890, usize::MAX] {
        assert_eq!(decimal_text(n), n.to_string());
    }
}
