//! A packed 8-bit RGB raster.

use vstd::prelude::*;

verus! {

/// Row-major raster with three bytes (red, green, blue) per pixel.
#[derive(Clone)]
pub struct RgbImage {
    width: usize,
    height: usize,
    data: Vec<u8>,
}

/// Offset of the first byte of pixel `(x, y)` in a raster `width` pixels wide.
pub open spec fn pixel_offset(width: int, x: int, y: int) -> int {
    (y * width + x) * 3
}

/// `data` cut or zero-padded to exactly `len` bytes.
pub open spec fn fitted(data: Seq<u8>, len: int) -> Seq<u8>
    recommends
        0 <= len,
{
    Seq::new(
        len as nat,
        |i: int|
            if i < data.len() {
                data[i]
            } else {
                0u8
            },
    )
}

impl View for RgbImage {
    type V = Seq<u8>;

    /// The raw bytes, row after row.
    closed spec fn view(&self) -> Seq<u8> {
        self.data@
    }
}

impl RgbImage {
    /// Number of pixels in a row.
    pub closed spec fn spec_width(&self) -> int {
        self.width as int
    }

    /// Number of rows.
    pub closed spec fn spec_height(&self) -> int {
        self.height as int
    }

    /// The buffer holds exactly three bytes for each pixel.
    pub open spec fn wf(&self) -> bool {
        &&& 0 <= self.spec_width()
        &&& 0 <= self.spec_height()
        &&& self@.len() == self.spec_width() * self.spec_height() * 3
    }

    /// True where `(x, y)` addresses bytes inside the buffer.
    pub open spec fn addressable(&self, x: int, y: int) -> bool {
        0 <= x && 0 <= y && y * self.spec_width() + x < self.spec_width() * self.spec_height()
    }

    /// The three bytes stored for pixel `(x, y)`.
    pub open spec fn pixel(&self, x: int, y: int) -> (u8, u8, u8) {
        let at = pixel_offset(self.spec_width(), x, y);
        (self@[at], self@[at + 1], self@[at + 2])
    }

    /// An all-black image of `w` by `h` pixels.
    pub fn new(w: usize, h: usize) -> (img: RgbImage)
        requires
            w * h * 3 <= usize::MAX,
        ensures
            img.wf(),
            img.spec_width() == w,
            img.spec_height() == h,
            img@ == Seq::new((w * h * 3) as nat, |i: int| 0u8),
    {
        assert(w * h <= w * h * 3) by (nonlinear_arith)
            requires
                0 <= w,
                0 <= h,
        ;
        let size: usize = w * h * 3;
        let data: Vec<u8> = vec![0u8; size];
        assert(data@ =~= Seq::new((w * h * 3) as nat, |i: int| 0u8));
        RgbImage { width: w, height: h, data }
    }

    /// Wraps an existing buffer, cutting or zero-padding it to `w * h * 3` bytes.
    pub fn from_raw(w: usize, h: usize, data: Vec<u8>) -> (img: RgbImage)
        requires
            w * h * 3 <= usize::MAX,
        ensures
            img.wf(),
            img.spec_width() == w,
            img.spec_height() == h,
            img@ == fitted(data@, w * h * 3),
    {
        assert(w * h <= w * h * 3) by (nonlinear_arith)
            requires
                0 <= w,
                0 <= h,
        ;
        let size: usize = w * h * 3;
        let mut data = data;
        let ghost before = data@;
        data.resize(size, 0u8);
        assert(data@ =~= fitted(before, w * h * 3)) by {
            if size > before.len() {
                assert forall|i: int| 0 <= i < size implies data@[i] == fitted(before, size as int)[i] by {
                    if i < before.len() {
                        assert(data@.subrange(0, before.len() as int)[i] == before[i]);
                    }
                }
            }
        }
        RgbImage { width: w, height: h, data }
    }

    pub fn width(&self) -> (w: usize)
        ensures
            w == self.spec_width(),
    {
        self.width
    }

    pub fn height(&self) -> (h: usize)
        ensures
            h == self.spec_height(),
    {
        self.height
    }

    pub fn data(&self) -> (bytes: &Vec<u8>)
        ensures
            bytes@ == self@,
    {
        &self.data
    }

    pub fn into_raw(self) -> (bytes: Vec<u8>)
        ensures
            bytes@ == self@,
    {
        self.data
    }

    /// Offset of the first of the three bytes of pixel `(x, y)`.
    pub fn pixel_index(&self, x: usize, y: usize) -> (index: usize)
        requires
            self.wf(),
            self.addressable(x as int, y as int),
        ensures
            index == pixel_offset(self.spec_width(), x as int, y as int),
            index + 2 < self@.len(),
            index + 2 <= usize::MAX,
    {
        let len: usize = self.data.len();
        proof {
            lemma_offset_in_bounds(self.width as int, self.height as int, x as int, y as int);
            assert(len == self@.len());
        }
        (y * self.width + x) * 3
    }

    /// Stores `color` at `(x, y)` and leaves every other byte as it was.
    pub fn put_pixel(&mut self, x: usize, y: usize, color: &(u8, u8, u8))
        requires
            old(self).wf(),
            old(self).addressable(x as int, y as int),
        ensures
            final(self).wf(),
            final(self).spec_width() == old(self).spec_width(),
            final(self).spec_height() == old(self).spec_height(),
            final(self).pixel(x as int, y as int) == *color,
            final(self)@ == old(self)@.update(
                pixel_offset(old(self).spec_width(), x as int, y as int),
                color.0,
            ).update(pixel_offset(old(self).spec_width(), x as int, y as int) + 1, color.1).update(
                pixel_offset(old(self).spec_width(), x as int, y as int) + 2,
                color.2,
            ),
    {
        let index: usize = self.pixel_index(x, y);
        self.data[index] = color.0;
        self.data[index + 1] = color.1;
        self.data[index + 2] = color.2;
    }

    /// The color stored at `(x, y)`.
    pub fn get_pixel(&self, x: usize, y: usize) -> (color: (u8, u8, u8))
        requires
            self.wf(),
            self.addressable(x as int, y as int),
        ensures
            color == self.pixel(x as int, y as int),
    {
        let index: usize = self.pixel_index(x, y);
        (self.data[index], self.data[index + 1], self.data[index + 2])
    }
}

/// An addressable pixel lies wholly inside a buffer of `w * h * 3` bytes.
pub proof fn lemma_offset_in_bounds(w: int, h: int, x: int, y: int)
    requires
        0 <= w,
        0 <= h,
        0 <= x,
        0 <= y,
        y * w + x < w * h,
    ensures
        0 <= y * w <= y * w + x < w * h <= w * h * 3,
        0 <= pixel_offset(w, x, y),
        pixel_offset(w, x, y) + 2 < w * h * 3,
{
    assert(0 <= y * w) by (nonlinear_arith)
        requires
            0 <= y,
            0 <= w,
    ;
}

/// Distinct pixels inside a row never share a byte: writing one leaves the
/// other as it was.
pub proof fn lemma_put_keeps_other_pixels(
    before: RgbImage,
    after: RgbImage,
    x: int,
    y: int,
    color: (u8, u8, u8),
    ox: int,
    oy: int,
)
    requires
        before.wf(),
        before.addressable(x, y),
        before.addressable(ox, oy),
        after.spec_width() == before.spec_width(),
        after@ == before@.update(pixel_offset(before.spec_width(), x, y), color.0).update(
            pixel_offset(before.spec_width(), x, y) + 1,
            color.1,
        ).update(pixel_offset(before.spec_width(), x, y) + 2, color.2),
        oy * before.spec_width() + ox != y * before.spec_width() + x,
    ensures
        after.pixel(ox, oy) == before.pixel(ox, oy),
{
    lemma_offset_in_bounds(before.spec_width(), before.spec_height(), x, y);
    lemma_offset_in_bounds(before.spec_width(), before.spec_height(), ox, oy);
}

} // verus!
