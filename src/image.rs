//! A row-major RGB pixel buffer.

use vstd::prelude::*;

verus! {

/// An 8 bit per channel RGB color.
#[derive(Clone, Copy, Debug, PartialEq, Eq, Structural)]
pub struct Rgb {
    pub r: u8,
    pub g: u8,
    pub b: u8,
}

/// A `width` x `height` image; pixel `(x, y)` is stored at `y * width + x`.
pub struct Image {
    width: u32,
    height: u32,
    pixels: Vec<Rgb>,
}

proof fn lemma_index(x: int, y: int, w: int, h: int)
    requires
        0 <= x < w,
        0 <= y < h,
    ensures
        0 <= y * w,
        0 <= y * w + x < w * h,
{
    assert(0 <= y * w && 0 <= y * w + x < w * h) by (nonlinear_arith)
        requires 0 <= x < w, 0 <= y < h;
}

proof fn lemma_index_distinct(x1: int, y1: int, x2: int, y2: int, w: int)
    requires
        0 <= x1 < w,
        0 <= x2 < w,
        0 <= y1,
        0 <= y2,
        x1 != x2 || y1 != y2,
    ensures
        y1 * w + x1 != y2 * w + x2,
{
    if y1 < y2 {
        assert(y1 * w + x1 < y2 * w + x2) by (nonlinear_arith)
            requires 0 <= x1 < w, 0 <= x2, y1 < y2;
    } else if y2 < y1 {
        assert(y2 * w + x2 < y1 * w + x1) by (nonlinear_arith)
            requires 0 <= x2 < w, 0 <= x1, y2 < y1;
    }
}

impl Image {
    pub closed spec fn spec_width(&self) -> u32 {
        self.width
    }

    pub closed spec fn spec_height(&self) -> u32 {
        self.height
    }

    /// The buffer holds exactly one color per pixel.
    pub closed spec fn well_formed(&self) -> bool {
        self.pixels@.len() == self.width * self.height
    }

    /// The color at `(x, y)`.
    pub closed spec fn pixel_at(&self, x: int, y: int) -> Rgb {
        self.pixels@[y * self.width + x]
    }

    /// A `width` x `height` image with every pixel set to `fill`.
    pub fn new(width: u32, height: u32, fill: Rgb) -> (r: Image)
        requires
            width * height <= usize::MAX,
        ensures
            r.well_formed(),
            r.spec_width() == width,
            r.spec_height() == height,
            forall|x: int, y: int| 0 <= x < width && 0 <= y < height ==> #[trigger] r.pixel_at(x, y) == fill,
    {
        let n: usize = (width as usize) * (height as usize);
        let mut pixels: Vec<Rgb> = Vec::new();
        let mut i: usize = 0;
        while i < n
            invariant
                i <= n,
                pixels@.len() == i,
                forall|j: int| 0 <= j < i ==> pixels@[j] == fill,
            decreases n - i,
        {
            pixels.push(fill);
            i = i + 1;
        }
        let r = Image { width, height, pixels };
        assert forall|x: int, y: int| 0 <= x < width && 0 <= y < height implies #[trigger] r.pixel_at(x, y) == fill by {
            lemma_index(x, y, width as int, height as int);
        }
        r
    }

    pub fn width(&self) -> (r: u32)
        ensures
            r == self.spec_width(),
    {
        self.width
    }

    pub fn height(&self) -> (r: u32)
        ensures
            r == self.spec_height(),
    {
        self.height
    }

    /// The color at `(x, y)`, which must lie in the image.
    pub fn get_pixel(&self, x: u32, y: u32) -> (r: Rgb)
        requires
            self.well_formed(),
            x < self.spec_width(),
            y < self.spec_height(),
        ensures
            r == self.pixel_at(x as int, y as int),
    {
        // The buffer's length bounds the index, which therefore fits in `usize`.
        let _len = self.pixels.len();
        proof {
            lemma_index(x as int, y as int, self.width as int, self.height as int);
        }
        self.pixels[(y as usize) * (self.width as usize) + (x as usize)]
    }

    /// Sets the color at `(x, y)`, which must lie in the image; no other pixel changes.
    pub fn put_pixel(&mut self, x: u32, y: u32, c: Rgb)
        requires
            old(self).well_formed(),
            x < old(self).spec_width(),
            y < old(self).spec_height(),
        ensures
            final(self).well_formed(),
            final(self).spec_width() == old(self).spec_width(),
            final(self).spec_height() == old(self).spec_height(),
            final(self).pixel_at(x as int, y as int) == c,
            forall|x2: int, y2: int|
                0 <= x2 < old(self).spec_width() && 0 <= y2 < old(self).spec_height() && (x2 != x || y2 != y)
                ==> #[trigger] final(self).pixel_at(x2, y2) == old(self).pixel_at(x2, y2),
    {
        // The buffer's length bounds the index, which therefore fits in `usize`.
        let _len = self.pixels.len();
        proof {
            lemma_index(x as int, y as int, self.width as int, self.height as int);
        }
        let i: usize = (y as usize) * (self.width as usize) + (x as usize);
        self.pixels.set(i, c);
        proof {
            assert forall|x2: int, y2: int|
                0 <= x2 < old(self).spec_width() && 0 <= y2 < old(self).spec_height() && (x2 != x || y2 != y)
                implies #[trigger] self.pixel_at(x2, y2) == old(self).pixel_at(x2, y2) by {
                lemma_index_distinct(x2, y2, x as int, y as int, self.width as int);
                lemma_index(x2, y2, self.width as int, self.height as int);
            }
        }
    }
}

} // verus!
