//! Textures, and what a material does with light.

use vstd::prelude::*;
use crate::image::RgbImage;
use crate::math_util::Modulo;
use crate::scalar::Scalar;

verus! {

/// An image laid over a surface, repeated in both directions.
#[derive(Clone)]
pub struct Texture {
    pub path: std::path::PathBuf,
    pub img: RgbImage,
}

impl Texture {
    /// The image is well formed, not empty, and its sides fit a signed
    /// 64-bit integer.
    pub open spec fn wf(&self) -> bool {
        &&& self.img.wf()
        &&& 0 < self.img.spec_width() <= i64::MAX
        &&& 0 < self.img.spec_height() <= i64::MAX
    }

    /// The texture that lays `img`, read from `path`, over a surface.
    pub fn new(path: std::path::PathBuf, img: RgbImage) -> (texture: Texture)
        ensures
            texture.path == path,
            texture.img == img,
    {
        Texture { path, img }
    }

    /// The texel at column `x` and row `y` of the endlessly repeated image:
    /// the pixel at `x` modulo the width and `y` modulo the height, both
    /// never negative.
    pub fn texel(&self, x: i64, y: i64) -> (color: (u8, u8, u8))
        requires
            self.wf(),
        ensures
            color == self.img.pixel(
                (x as int) % self.img.spec_width(),
                (y as int) % self.img.spec_height(),
            ),
    {
        let w: i64 = self.img.width() as i64;
        let h: i64 = self.img.height() as i64;
        let column: usize = x.modulo(w) as usize;
        let row: usize = y.modulo(h) as usize;
        assert(row * w + column < w * h) by (nonlinear_arith)
            requires
                0 <= row < h,
                0 <= column < w,
        ;
        self.img.get_pixel(column, row)
    }
}

/// How a color is found between the four texels around a point.
#[derive(Clone, Copy, Debug, PartialEq, Eq, Structural)]
pub enum BlendCase {
    /// The point lies on a texel: its color is taken as it is.
    Exact,
    /// The point lies on a row of texels: two texels are blended along the
    /// row.
    AlongRow,
    /// The point lies on a column of texels: two texels are blended along
    /// the column.
    AlongColumn,
    /// The point lies between rows and columns: four texels are blended.
    Between,
}

/// The case that applies to a point between the columns `x1` (the column
/// coordinate rounded down) and `x2` (rounded up) and the rows `y1` and
/// `y2`: where the two columns are the same the point lies on a column,
/// where the two rows are the same it lies on a row.
pub open spec fn spec_blend_case(x1: Scalar, x2: Scalar, y1: Scalar, y2: Scalar) -> BlendCase {
    if x1.spec_same(x2) && y1.spec_same(y2) {
        BlendCase::Exact
    } else if y1.spec_same(y2) {
        BlendCase::AlongRow
    } else if x1.spec_same(x2) {
        BlendCase::AlongColumn
    } else {
        BlendCase::Between
    }
}

/// Decides how the color of a point is found between the texels around it.
pub fn blend_case(x1: Scalar, x2: Scalar, y1: Scalar, y2: Scalar) -> (c: BlendCase)
    ensures
        c == spec_blend_case(x1, x2, y1, y2),
{
    let x_exact = x1.same(x2);
    let y_exact = y1.same(y2);
    if x_exact && y_exact {
        BlendCase::Exact
    } else if y_exact {
        BlendCase::AlongRow
    } else if x_exact {
        BlendCase::AlongColumn
    } else {
        BlendCase::Between
    }
}

/// A material refracts light where its transparency is above zero.
pub open spec fn refracts(transparency: Scalar) -> bool {
    (Scalar { bits: 0 }).spec_lt(transparency)
}

/// A material mirrors light where its reflectivity is above zero, and where
/// it refracts light.
pub open spec fn mirrors(reflectivity: Scalar, transparency: Scalar) -> bool {
    (Scalar { bits: 0 }).spec_lt(reflectivity) || refracts(transparency)
}

/// Decides whether a material of the given transparency refracts light.
pub fn is_refractive(transparency: Scalar) -> (r: bool)
    ensures
        r == refracts(transparency),
{
    transparency.gt(Scalar::zero())
}

/// Decides whether a material of the given reflectivity and transparency
/// mirrors light.
pub fn is_reflective(reflectivity: Scalar, transparency: Scalar) -> (r: bool)
    ensures
        r == mirrors(reflectivity, transparency),
{
    reflectivity.gt(Scalar::zero()) || is_refractive(transparency)
}

} // verus!
