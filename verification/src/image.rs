//! Pixels and images in row-major order.

use vstd::prelude::*;

verus! {

/// The largest value a colour sample can take.
pub const MAX_SAMPLE: usize = 255;

/// One picture element: red, green and blue samples on the 8-bit scale, where
/// `255` stands for full intensity.
#[derive(Clone, Copy, Debug, PartialEq, Eq, Structural)]
pub struct Pixel {
    pub r: u8,
    pub g: u8,
    pub b: u8,
}

/// A raster image: `height` rows of `width` pixels each, stored row after row.
#[derive(Clone, Debug)]
pub struct PpmFile {
    pub width: usize,
    pub height: usize,
    pub max_val: usize,
    pub pixels: Vec<Pixel>,
}

/// Position of the pixel in column `x` of row `y` within a row-major buffer of
/// rows that are `w` wide.
pub open spec fn flat_index(x: int, y: int, w: int) -> int {
    y * w + x
}

/// A cell inside a `w` by `h` grid has its row-major position inside the buffer.
pub proof fn lemma_flat_index_in_range(x: int, y: int, w: int, h: int)
    requires
        0 <= x < w,
        0 <= y < h,
    ensures
        0 <= flat_index(x, y, w) < w * h,
        flat_index(x, y, w) < h * w,
        flat_index(x, y, w) < (y + 1) * w,
        y * w <= flat_index(x, y, w),
{
    assert(0 <= y * w) by (nonlinear_arith)
        requires
            0 <= y,
            0 <= w,
    ;
    assert((y + 1) * w <= h * w) by (nonlinear_arith)
        requires
            y + 1 <= h,
            0 <= w,
    ;
    assert((y + 1) * w == y * w + w) by (nonlinear_arith);
    assert(h * w == w * h) by (nonlinear_arith);
}

/// Every position of a `w` by `h` row-major buffer belongs to exactly one cell:
/// column `i % w` of row `i / w`.
pub proof fn lemma_flat_index_split(i: int, w: int, h: int)
    requires
        0 <= i < w * h,
        0 < w,
    ensures
        0 <= i % w < w,
        0 <= i / w < h,
        flat_index(i % w, i / w, w) == i,
{
    assert(i == (i / w) * w + i % w && 0 <= i % w < w) by (nonlinear_arith)
        requires
            0 < w,
    ;
    assert(0 <= i / w) by (nonlinear_arith)
        requires
            0 <= i,
            0 < w,
    ;
    assert(i / w < h) by (nonlinear_arith)
        requires
            i < w * h,
            0 < w,
            i == (i / w) * w + i % w,
            0 <= i % w,
    ;
}

impl PpmFile {
    /// The buffer holds exactly `width * height` pixels and samples are 8-bit.
    pub open spec fn wf(&self) -> bool {
        &&& self.max_val == MAX_SAMPLE
        &&& self.pixels.len() == self.width * self.height
    }

    /// The image as a sequence of rows, each a sequence of pixels.
    pub open spec fn rows(&self) -> Seq<Seq<Pixel>> {
        Seq::new(
            self.height as nat,
            |y: int| Seq::new(self.width as nat, |x: int| self.pixels[flat_index(x, y, self.width as int)]),
        )
    }

    /// Builds an image from its dimensions and its row-major pixels, or returns
    /// `None` when the buffer does not hold `width * height` pixels.
    pub fn new(width: usize, height: usize, pixels: Vec<Pixel>) -> (res: Option<PpmFile>)
        ensures
            res is Some <==> pixels.len() == width * height,
            res matches Some(image) ==> image.wf() && image.width == width && image.height == height
                && image.pixels == pixels,
    {
        match width.checked_mul(height) {
            Some(n) => {
                if pixels.len() == n {
                    Some(PpmFile { width, height, max_val: MAX_SAMPLE, pixels })
                } else {
                    None
                }
            },
            None => None,
        }
    }

    /// Tells whether the image satisfies [`PpmFile::wf`].
    pub fn is_well_formed(&self) -> (ok: bool)
        ensures
            ok == self.wf(),
    {
        match self.width.checked_mul(self.height) {
            Some(n) => self.max_val == MAX_SAMPLE && self.pixels.len() == n,
            None => false,
        }
    }

    /// The pixel in column `x` of row `y`.
    pub fn pixel_at(&self, x: usize, y: usize) -> (p: Pixel)
        requires
            self.wf(),
            x < self.width,
            y < self.height,
        ensures
            p == self.rows()[y as int][x as int],
    {
        proof {
            lemma_flat_index_in_range(x as int, y as int, self.width as int, self.height as int);
        }
        self.pixels[y * self.width + x]
    }
}

/// Two well-formed images of the same size whose rows agree hold the same pixels.
pub proof fn lemma_rows_determine_pixels(a: PpmFile, b: PpmFile)
    requires
        a.wf(),
        b.wf(),
        a.width == b.width,
        a.height == b.height,
        a.rows() == b.rows(),
    ensures
        a.pixels@ == b.pixels@,
{
    let w = a.width as int;
    let h = a.height as int;
    assert forall|i: int| 0 <= i < a.pixels@.len() implies a.pixels@[i] == b.pixels@[i] by {
        if w > 0 {
            lemma_flat_index_split(i, w, h);
            let x = i % w;
            let y = i / w;
            assert(a.rows()[y][x] == a.pixels[flat_index(x, y, w)]);
            assert(b.rows()[y][x] == b.pixels[flat_index(x, y, w)]);
        } else {
            assert(w * h == 0) by (nonlinear_arith)
                requires
                    w == 0,
            ;
        }
    }
    assert(a.pixels@ =~= b.pixels@);
}

} // verus!
