//! A ray tracer's integer core, verified.
//!
//! The crate holds what an offline ray tracer decides and lays out: the
//! linear k-d tree over a triangle mesh with its build and its walk, the
//! reader of Wavefront OBJ text, the raster image, and the decisions of the
//! primitive intersection tests and of shading. Numbers are carried as bit
//! patterns and only ever compared; whoever calls the crate supplies the
//! floating-point arithmetic as functions.

pub mod aabb;
pub mod builder;
pub mod color;
pub mod depth;
pub mod image;
pub mod kdtree;
pub mod material;
pub mod math_util;
pub mod mesh;
pub mod node;
pub mod obj_parser;
pub mod obj_text;
pub mod primitives;
pub mod ray;
pub mod renderer;
pub mod scalar;
pub mod scene;
pub mod traverse;

pub use image::RgbImage;
pub use mesh::MeshData;
pub use obj_parser::ObjParser;
pub use renderer::Renderer;
