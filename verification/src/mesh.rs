//! Indexed triangle meshes.

use vstd::prelude::*;
use crate::aabb::AABB;
use crate::math_util::Vec3;
use crate::scalar::Scalar;

verus! {

/// A triangle given by indices into the vertex arrays of its mesh.
#[derive(Clone, Copy, Debug)]
pub struct IndexedTriangle {
    pub position_indices: (usize, usize, usize),
    pub normal_indices: Option<(usize, usize, usize)>,
    pub tex_coords_indices: Option<(usize, usize, usize)>,
}

/// Vertex arrays and the triangles that index them.
#[derive(Clone, Debug)]
pub struct MeshData {
    pub vertex_positions: Vec<(Scalar, Scalar, Scalar)>,
    pub vertex_normals: Vec<(Scalar, Scalar, Scalar)>,
    pub vertex_tex_coords: Vec<(Scalar, Scalar)>,
    pub triangles: Vec<IndexedTriangle>,
}

/// True where all three indices address an array of `len` elements.
pub open spec fn indices_exist(indices: (usize, usize, usize), len: int) -> bool {
    indices.0 < len && indices.1 < len && indices.2 < len
}

/// A coordinate triple as a point.
pub open spec fn as_vec3(p: (Scalar, Scalar, Scalar)) -> Vec3 {
    Vec3 { x: p.0, y: p.1, z: p.2 }
}

impl IndexedTriangle {
    /// Every index of the triangle addresses an element of its array.
    pub open spec fn in_bounds(self, positions: int, normals: int, tex_coords: int) -> bool {
        &&& indices_exist(self.position_indices, positions)
        &&& self.normal_indices matches Some(n) ==> indices_exist(n, normals)
        &&& self.tex_coords_indices matches Some(t) ==> indices_exist(t, tex_coords)
    }
}

impl MeshData {
    /// Every index of every triangle addresses an element of its array.
    pub open spec fn indices_valid(&self) -> bool {
        forall|t: int|
            0 <= t < self.triangles@.len() ==> (#[trigger] self.triangles@[t]).in_bounds(
                self.vertex_positions@.len() as int,
                self.vertex_normals@.len() as int,
                self.vertex_tex_coords@.len() as int,
            )
    }

    /// Every vertex position is made of numbers.
    pub open spec fn positions_numeric(&self) -> bool {
        forall|i: int|
            0 <= i < self.vertex_positions@.len() ==> as_vec3(
                #[trigger] self.vertex_positions@[i],
            ).is_numeric()
    }

    /// Indices are in bounds and positions are numbers.
    pub open spec fn wf(&self) -> bool {
        self.indices_valid() && self.positions_numeric()
    }

    /// Position of vertex `index`.
    pub open spec fn position(&self, index: int) -> Vec3 {
        as_vec3(self.vertex_positions@[index])
    }

    /// The bounding box of triangle `t`.
    pub open spec fn triangle_box(&self, t: int) -> AABB {
        let tri = self.triangles@[t];
        AABB::spec_from_triangle(
            self.position(tri.position_indices.0 as int),
            self.position(tri.position_indices.1 as int),
            self.position(tri.position_indices.2 as int),
        )
    }

    /// Decides whether the mesh is well formed.
    pub fn is_well_formed(&self) -> (r: bool)
        ensures
            r == self.wf(),
    {
        let positions: usize = self.vertex_positions.len();
        let normals: usize = self.vertex_normals.len();
        let tex_coords: usize = self.vertex_tex_coords.len();
        let mut t: usize = 0;
        while t < self.triangles.len()
            invariant
                t <= self.triangles@.len(),
                positions == self.vertex_positions@.len(),
                normals == self.vertex_normals@.len(),
                tex_coords == self.vertex_tex_coords@.len(),
                forall|i: int|
                    0 <= i < t ==> (#[trigger] self.triangles@[i]).in_bounds(
                        positions as int,
                        normals as int,
                        tex_coords as int,
                    ),
            decreases self.triangles@.len() - t,
        {
            let triangle = &self.triangles[t];
            let p = triangle.position_indices;
            if !(p.0 < positions && p.1 < positions && p.2 < positions) {
                return false;
            }
            if let Some(n) = triangle.normal_indices {
                if !(n.0 < normals && n.1 < normals && n.2 < normals) {
                    return false;
                }
            }
            if let Some(c) = triangle.tex_coords_indices {
                if !(c.0 < tex_coords && c.1 < tex_coords && c.2 < tex_coords) {
                    return false;
                }
            }
            t += 1;
        }
        let mut i: usize = 0;
        while i < positions
            invariant
                i <= positions,
                positions == self.vertex_positions@.len(),
                self.indices_valid(),
                forall|k: int|
                    0 <= k < i ==> as_vec3(#[trigger] self.vertex_positions@[k]).is_numeric(),
            decreases positions - i,
        {
            let p = self.vertex_positions[i];
            if p.0.is_nan() || p.1.is_nan() || p.2.is_nan() {
                return false;
            }
            i += 1;
        }
        true
    }

    /// Position of vertex `index`.
    pub fn get_vertex_position(&self, index: usize) -> (p: Vec3)
        requires
            index < self.vertex_positions@.len(),
        ensures
            p == self.position(index as int),
    {
        let v = self.vertex_positions[index];
        Vec3::new(v.0, v.1, v.2)
    }

    /// Normal `index`.
    pub fn get_vertex_normal(&self, index: usize) -> (n: Vec3)
        requires
            index < self.vertex_normals@.len(),
        ensures
            n == as_vec3(self.vertex_normals@[index as int]),
    {
        let v = self.vertex_normals[index];
        Vec3::new(v.0, v.1, v.2)
    }

    /// Texture coordinates `index`.
    pub fn get_vertex_tex_coords(&self, index: usize) -> (uv: (Scalar, Scalar))
        requires
            index < self.vertex_tex_coords@.len(),
        ensures
            uv == self.vertex_tex_coords@[index as int],
    {
        self.vertex_tex_coords[index]
    }
}

} // verus!
