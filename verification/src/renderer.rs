//! Filling an image pixel by pixel.

use vstd::prelude::*;
use crate::image::RgbImage;

verus! {

/// True where the pixels of `img` are colors that `shade` can give for the
/// pixels of the rectangle of its size whose corner is at `(x, y)`.
pub open spec fn shaded_by<S: Fn(usize, usize) -> (u8, u8, u8)>(
    img: RgbImage,
    x: int,
    y: int,
    shade: &S,
) -> bool {
    forall|column: int, row: int|
        0 <= column < img.spec_width() && 0 <= row < img.spec_height() ==> shade.ensures(
            ((x + column) as usize, (y + row) as usize),
            #[trigger] img.pixel(column, row),
        )
}

/// Decides whether a ray is followed no further: it has been mirrored or
/// refracted more often than the scene allows.
pub fn recursion_ends(depth: u32, max_recursion_depth: u32) -> (r: bool)
    ensures
        r == (depth > max_recursion_depth),
{
    depth > max_recursion_depth
}

/// Renders images of `resolution.0` by `resolution.1` pixels.
pub struct Renderer {
    pub resolution: (usize, usize),
}

impl Renderer {
    pub fn new(resolution: (usize, usize)) -> (renderer: Renderer)
        ensures
            renderer.resolution == resolution,
    {
        Renderer { resolution }
    }

    /// Renders the whole image; `shade(x, y)` supplies the color of the
    /// pixel at column `x` and row `y`.
    pub fn render<S: Fn(usize, usize) -> (u8, u8, u8)>(&self, shade: &S) -> (img: RgbImage)
        requires
            self.resolution.0 * self.resolution.1 * 3 <= usize::MAX,
            forall|x: usize, y: usize| shade.requires((x, y)),
        ensures
            img.wf(),
            img.spec_width() == self.resolution.0,
            img.spec_height() == self.resolution.1,
            shaded_by(img, 0, 0, shade),
    {
        self.render_rect(0, 0, self.resolution.0, self.resolution.1, shade)
    }

    /// Renders the rectangle of `w` by `h` pixels whose corner lies at
    /// column `x` and row `y` of the whole image, row by row.
    pub fn render_rect<S: Fn(usize, usize) -> (u8, u8, u8)>(
        &self,
        x: usize,
        y: usize,
        w: usize,
        h: usize,
        shade: &S,
    ) -> (img: RgbImage)
        requires
            w * h * 3 <= usize::MAX,
            x + w <= usize::MAX,
            y + h <= usize::MAX,
            forall|x: usize, y: usize| shade.requires((x, y)),
        ensures
            img.wf(),
            img.spec_width() == w,
            img.spec_height() == h,
            shaded_by(img, x as int, y as int, shade),
    {
        let mut img = RgbImage::new(w, h);
        let mut y_local: usize = 0;
        while y_local < h
            invariant
                y_local <= h,
                x + w <= usize::MAX,
                y + h <= usize::MAX,
                img.wf(),
                img.spec_width() == w,
                img.spec_height() == h,
                forall|x: usize, y: usize| shade.requires((x, y)),
                forall|column: int, row: int|
                    0 <= column < w && 0 <= row < y_local ==> shade.ensures(
                        ((x + column) as usize, (y + row) as usize),
                        #[trigger] img.pixel(column, row),
                    ),
            decreases h - y_local,
        {
            let mut x_local: usize = 0;
            while x_local < w
                invariant
                    x_local <= w,
                    y_local < h,
                    x + w <= usize::MAX,
                    y + h <= usize::MAX,
                    img.wf(),
                    img.spec_width() == w,
                    img.spec_height() == h,
                    forall|x: usize, y: usize| shade.requires((x, y)),
                    forall|column: int, row: int|
                        0 <= column < w && 0 <= row < h && (row < y_local || (row == y_local
                            && column < x_local)) ==> shade.ensures(
                            ((x + column) as usize, (y + row) as usize),
                            #[trigger] img.pixel(column, row),
                        ),
                decreases w - x_local,
            {
                let color = shade(x + x_local, y + y_local);
                let ghost before = img;
                proof {
                    lemma_cell_in_image(w as int, h as int, x_local as int, y_local as int);
                }
                img.put_pixel(x_local, y_local, &color);
                proof {
                    assert forall|column: int, row: int|
                        0 <= column < w && 0 <= row < h && (row < y_local || (row == y_local
                            && column < x_local + 1)) implies shade.ensures(
                        ((x + column) as usize, (y + row) as usize),
                        #[trigger] img.pixel(column, row),
                    ) by {
                        if !(row == y_local && column == x_local) {
                            lemma_cell_in_image(w as int, h as int, column, row);
                            assert(row * w + column != y_local * w + x_local) by (nonlinear_arith)
                                requires
                                    0 <= column < w,
                                    0 <= x_local < w,
                                    0 <= row,
                                    0 <= y_local,
                                    row != y_local || column != x_local,
                            ;
                            crate::image::lemma_put_keeps_other_pixels(
                                before,
                                img,
                                x_local as int,
                                y_local as int,
                                color,
                                column,
                                row,
                            );
                        }
                    }
                }
                x_local += 1;
            }
            y_local += 1;
        }
        img
    }
}

/// Rendering is repeatable: where `shade` gives one color for each pixel,
/// two images rendered for the same rectangle are the same, byte for byte.
pub proof fn lemma_render_deterministic<S: Fn(usize, usize) -> (u8, u8, u8)>(
    first: RgbImage,
    second: RgbImage,
    x: int,
    y: int,
    shade: &S,
)
    requires
        first.wf(),
        second.wf(),
        first.spec_width() == second.spec_width(),
        first.spec_height() == second.spec_height(),
        shaded_by(first, x, y, shade),
        shaded_by(second, x, y, shade),
        forall|pixel: (usize, usize), a: (u8, u8, u8), b: (u8, u8, u8)|
            shade.ensures(pixel, a) && shade.ensures(pixel, b) ==> a == b,
    ensures
        first@ == second@,
{
    let w = first.spec_width();
    let h = first.spec_height();
    assert forall|i: int| 0 <= i < first@.len() implies first@[i] == second@[i] by {
        let q = i / 3;
        let c = i % 3;
        assert(0 <= q < w * h);
        assert(w > 0) by (nonlinear_arith)
            requires
                0 <= q < w * h,
                w >= 0,
                h >= 0,
        ;
        let row = q / w;
        let column = q % w;
        assert(q == row * w + column && 0 <= column < w && 0 <= row) by (nonlinear_arith)
            requires
                w > 0,
                q >= 0,
                row == q / w,
                column == q % w,
        ;
        assert(row < h) by (nonlinear_arith)
            requires
                row * w + column < w * h,
                0 <= column,
                w > 0,
        ;
        let a = first.pixel(column, row);
        let b = second.pixel(column, row);
        assert(shade.ensures(((x + column) as usize, (y + row) as usize), a));
        assert(shade.ensures(((x + column) as usize, (y + row) as usize), b));
        assert(crate::image::pixel_offset(w, column, row) == 3 * q);
    }
    assert(first@ =~= second@);
}

/// A cell inside a raster is addressable.
pub proof fn lemma_cell_in_image(w: int, h: int, column: int, row: int)
    requires
        0 <= column < w,
        0 <= row < h,
    ensures
        row * w + column < w * h,
{
    assert(row * w + column < w * h) by (nonlinear_arith)
        requires
            0 <= column < w,
            0 <= row < h,
    ;
}

} // verus!
