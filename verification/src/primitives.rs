//! The shapes a ray can meet: the plane, the sphere and the triangle mesh.

use vstd::prelude::*;
use crate::builder::KDTreeOptions;
use crate::kdtree::LinearKDTree;
use crate::math_util::Vec3;
use crate::mesh::MeshData;
use crate::ray::{Ray, RayDebugData};
use crate::scalar::Scalar;
use crate::traverse::TriangleHit;

verus! {

/// `std::path::PathBuf`: a file path, carried along and never looked into.
#[verifier::external_type_specification]
#[verifier::external_body]
pub struct ExPathBuf(std::path::PathBuf);

/// `PathBuf::clone`: nothing is claimed of the copy.
pub assume_specification[ <std::path::PathBuf as std::clone::Clone>::clone ](
    path: &std::path::PathBuf,
) -> std::path::PathBuf
;

/// The plane through the origin whose normal is the y axis.
#[derive(Clone, Copy, Debug)]
pub struct Plane {}

/// The sphere of radius one around the origin.
#[derive(Clone, Copy, Debug)]
pub struct Sphere {}

impl Plane {
    /// True where a ray meets the front of the plane: `facing`, the cosine
    /// between the ray and the inward normal, and `distance`, the distance
    /// along the ray to the plane, are both above zero.
    pub open spec fn spec_is_hit(facing: Scalar, distance: Scalar) -> bool {
        (Scalar { bits: 0 }).spec_lt(facing) && (Scalar { bits: 0 }).spec_lt(distance)
    }

    /// Decides whether a ray meets the front of the plane.
    pub fn is_hit(&self, facing: Scalar, distance: Scalar) -> (r: bool)
        ensures
            r == Self::spec_is_hit(facing, distance),
    {
        facing.gt(Scalar::zero()) && distance.gt(Scalar::zero())
    }
}

impl Sphere {
    /// The distance at which a ray meets the sphere, if it does.
    ///
    /// `distance_squared` is the squared distance from the centre of the
    /// point of the ray's line nearest to it, and `t0 <= t1` are the
    /// distances at which the line crosses the sphere. The ray misses where
    /// its line passes the sphere or where both crossings lie behind it;
    /// otherwise it meets the sphere at the nearer crossing that does not
    /// lie behind it, which for a ray that starts inside the sphere is the
    /// crossing ahead.
    pub open spec fn spec_nearer_crossing(
        distance_squared: Scalar,
        t0: Scalar,
        t1: Scalar,
    ) -> Option<Scalar> {
        let zero = Scalar { bits: 0 };
        let one = Scalar { bits: crate::scalar::ONE_BITS };
        if one.spec_lt(distance_squared) {
            None
        } else if t0.spec_lt(zero) && t1.spec_lt(zero) {
            None
        } else if t0.spec_lt(zero) {
            Some(t1)
        } else if t1.spec_lt(zero) {
            Some(t0)
        } else if t0.spec_lt(t1) {
            Some(t0)
        } else {
            Some(t1)
        }
    }

    /// Decides where a ray meets the sphere.
    pub fn nearer_crossing(&self, distance_squared: Scalar, t0: Scalar, t1: Scalar) -> (r: Option<
        Scalar,
    >)
        ensures
            r == Self::spec_nearer_crossing(distance_squared, t0, t1),
            r matches Some(t) ==> (t == t0 || t == t1) && !t.spec_lt(Scalar { bits: 0 }),
    {
        let zero = Scalar::zero();
        if distance_squared.gt(Scalar::one()) {
            return None;
        }
        if t0.lt(zero) && t1.lt(zero) {
            return None;
        }
        if t0.lt(zero) {
            Some(t1)
        } else if t1.lt(zero) {
            Some(t0)
        } else if t0.lt(t1) {
            Some(t0)
        } else {
            Some(t1)
        }
    }
}

/// A triangle mesh with the k-d tree built over it.
#[derive(Clone, Debug)]
pub struct Mesh {
    path: std::path::PathBuf,
    kdtree: LinearKDTree,
    debug: bool,
}

impl Mesh {
    /// The tree built over the mesh.
    pub closed spec fn spec_tree(&self) -> LinearKDTree {
        self.kdtree
    }

    /// True for a mesh whose tree counts node lookups.
    pub closed spec fn spec_debug(&self) -> bool {
        self.debug
    }

    /// The file the mesh was read from, as it was given when the mesh was
    /// made.
    pub closed spec fn spec_path(&self) -> std::path::PathBuf {
        self.path
    }

    /// Builds the tree over `data` with the default options; `debug` asks
    /// for a tree that counts node lookups. Returns `None` only where
    /// `LinearKDTree::build` does.
    pub fn new<D: Fn(Scalar, Scalar) -> Scalar, M: Fn(Scalar, Scalar) -> Scalar>(
        path: std::path::PathBuf,
        data: MeshData,
        debug: bool,
        difference: &D,
        midpoint: &M,
    ) -> (mesh: Option<Mesh>)
        requires
            data.wf(),
            forall|a: Scalar, b: Scalar| difference.requires((a, b)),
            forall|a: Scalar, b: Scalar| midpoint.requires((a, b)),
        ensures
            exists|limit: nat|
                {
                    &&& #[trigger] crate::depth::is_default_depth(data.triangles@.len(), limit)
                    &&& mesh matches Some(mesh) ==> mesh.spec_path() == path && mesh.spec_debug()
                        == debug && crate::builder::is_tree_of(
                        mesh.spec_tree(),
                        data,
                        KDTreeOptions { max_depth: None, max_leaf_size: 16, debug },
                        limit,
                        difference,
                        midpoint,
                    )
                    &&& mesh is None ==> crate::builder::gives_up(
                        data,
                        KDTreeOptions { max_depth: None, max_leaf_size: 16, debug },
                        limit,
                        difference,
                        midpoint,
                    )
                    &&& crate::builder::sure_to_fit(0, 0, data.triangles@.len() as int, limit)
                        ==> mesh is Some
                },
    {
        let options = KDTreeOptions { max_depth: None, max_leaf_size: 16, debug };
        let built = LinearKDTree::build(data, &options, difference, midpoint);
        let ghost limit = choose|limit: nat|
            {
                &&& #[trigger] crate::builder::is_depth_limit(options, data.triangles@.len(), limit)
                &&& built matches Some(tree) ==> crate::builder::is_tree_of(
                    tree,
                    data,
                    options,
                    limit,
                    difference,
                    midpoint,
                )
                &&& built is None ==> crate::builder::gives_up(
                    data,
                    options,
                    limit,
                    difference,
                    midpoint,
                )
                &&& crate::builder::sure_to_fit(0, 0, data.triangles@.len() as int, limit)
                    ==> built is Some
            };
        assert(crate::depth::is_default_depth(data.triangles@.len(), limit));
        match built {
            Some(kdtree) => Some(Mesh { path, kdtree, debug }),
            None => None,
        }
    }

    /// The file the mesh was read from.
    pub fn path(&self) -> (path: &std::path::PathBuf)
        ensures
            *path == self.spec_path(),
    {
        &self.path
    }

    pub fn kdtree(&self) -> (tree: &LinearKDTree)
        ensures
            *tree == self.spec_tree(),
    {
        &self.kdtree
    }

    pub fn debug(&self) -> (debug: bool)
        ensures
            debug == self.spec_debug(),
    {
        self.debug
    }

    /// Finds the triangle of the mesh that the ray hits first; see
    /// `LinearKDTree::intersect`.
    pub fn intersect<
        K: Fn(Scalar, Scalar, Scalar) -> Scalar,
        T: Fn(Ray, Vec3, Vec3, Vec3) -> Option<TriangleHit>,
    >(&self, ray: &Ray, debug_data: &mut RayDebugData, along: &K, triangle: &T) -> (nearest: Option<
        (usize, TriangleHit),
    >)
        requires
            self.spec_tree().wf(),
            forall|a: Scalar, b: Scalar, c: Scalar| along.requires((a, b, c)),
            forall|r: Ray, a: Vec3, b: Vec3, c: Vec3| triangle.requires((r, a, b, c)),
            self.spec_tree().spec_debug() ==> old(debug_data).kd_tree_lookups
                + self.spec_tree().spec_nodes().len() + 1 <= usize::MAX,
        ensures
            exists|lookups: nat|
                {
                    &&& #[trigger] self.spec_tree().walk_outcome(
                        *ray,
                        along,
                        triangle,
                        nearest,
                        lookups,
                    )
                    &&& final(debug_data).kd_tree_lookups == old(debug_data).kd_tree_lookups + if self.spec_tree().spec_debug() {
                        lookups
                    } else {
                        0
                    }
                },
            nearest matches Some(found) ==> self.spec_tree().is_hit_of(*ray, triangle, found),
            nearest is Some ==> self.spec_tree().spec_bounding_box().may_meet(*ray, along),
            !self.spec_tree().spec_debug() ==> *final(debug_data) == *old(debug_data),
            self.spec_tree().spec_debug() ==> old(debug_data).kd_tree_lookups
                <= final(debug_data).kd_tree_lookups <= old(debug_data).kd_tree_lookups
                + self.spec_tree().spec_nodes().len() + 1,
    {
        self.kdtree.intersect(ray, debug_data, along, triangle)
    }
}

} // verus!
