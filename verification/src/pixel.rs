//! The pixel buffer the compositor reads and writes.

use vstd::prelude::*;

verus! {

/// One 4-channel color value: red, green, blue, alpha, each an 8-bit
/// intensity.
#[derive(Clone, Copy, Debug, PartialEq, Eq, Structural)]
pub struct Pixel {
    pub r: u8,
    pub g: u8,
    pub b: u8,
    pub a: u8,
}

/// A rectangular grid of pixels, addressed by `(x, y)` within
/// `[0, width) x [0, height)`, stored row-major.
///
/// The caller owns the buffer; the compositor borrows it mutably for one
/// application call. Coordinates handed to `get` and `put` must lie within
/// bounds: the buffer does no checking of its own beyond its contracts.
pub struct PixelBuffer {
    pub width: usize,
    pub height: usize,
    pub data: Vec<Pixel>,
}

impl PixelBuffer {
    /// The backing vector holds exactly one pixel per coordinate.
    pub open spec fn wf(&self) -> bool {
        self.data@.len() == self.width * self.height
    }

    /// The pixel stored at `(x, y)`.
    pub open spec fn pixel_at(&self, x: int, y: int) -> Pixel {
        self.data@[y * self.width + x]
    }

    /// A buffer of the given dimensions with every pixel set to `fill`.
    pub fn new(width: usize, height: usize, fill: Pixel) -> (r: PixelBuffer)
        requires
            width * height <= usize::MAX,
        ensures
            r.wf(),
            r.width == width,
            r.height == height,
            forall|x: int, y: int|
                0 <= x < width && 0 <= y < height ==> #[trigger] r.pixel_at(x, y) == fill,
    {
        let n: usize = width * height;
        let mut data: Vec<Pixel> = Vec::new();
        let mut k: usize = 0;
        while k < n
            invariant
                k <= n,
                data@.len() == k,
                forall|i: int| 0 <= i < k ==> data@[i] == fill,
            decreases n - k,
        {
            data.push(fill);
            k = k + 1;
        }
        let r = PixelBuffer { width, height, data };
        proof {
            assert forall|x: int, y: int|
                0 <= x < width && 0 <= y < height implies #[trigger] r.pixel_at(x, y) == fill by {
                r.lemma_index_in_range(x, y);
            }
        }
        r
    }

    pub fn width(&self) -> (r: usize)
        ensures
            r == self.width,
    {
        self.width
    }

    pub fn height(&self) -> (r: usize)
        ensures
            r == self.height,
    {
        self.height
    }

    /// Read the pixel at `(x, y)`.
    pub fn get(&self, x: usize, y: usize) -> (p: Pixel)
        requires
            self.wf(),
            x < self.width,
            y < self.height,
        ensures
            p == self.pixel_at(x as int, y as int),
    {
        proof {
            assert(self.data.len() <= usize::MAX);
            self.lemma_index_in_range(x as int, y as int);
        }
        self.data[y * self.width + x]
    }

    /// Overwrite the pixel at `(x, y)`; every other pixel keeps its value.
    pub fn put(&mut self, x: usize, y: usize, p: Pixel)
        requires
            old(self).wf(),
            x < old(self).width,
            y < old(self).height,
        ensures
            final(self).wf(),
            final(self).width == old(self).width,
            final(self).height == old(self).height,
            final(self).pixel_at(x as int, y as int) == p,
            forall|i: int, j: int|
                0 <= i < old(self).width && 0 <= j < old(self).height && !(i == x && j == y)
                    ==> #[trigger] final(self).pixel_at(i, j) == old(self).pixel_at(i, j),
    {
        proof {
            assert(self.data.len() <= usize::MAX);
            self.lemma_index_in_range(x as int, y as int);
        }
        let idx: usize = y * self.width + x;
        self.data.set(idx, p);
        proof {
            assert forall|i: int, j: int|
                0 <= i < self.width && 0 <= j < self.height && !(i == x && j == y)
                    implies #[trigger] self.pixel_at(i, j) == old(self).pixel_at(
                    i,
                    j,
                ) by {
                Self::lemma_flat_index_injective(
                    self.width as int,
                    i,
                    j,
                    x as int,
                    y as int,
                );
                self.lemma_index_in_range(i, j);
            }
        }
    }

    /// A coordinate within bounds maps to a slot of the backing vector.
    proof fn lemma_index_in_range(&self, x: int, y: int)
        requires
            self.wf(),
            0 <= x < self.width,
            0 <= y < self.height,
        ensures
            0 <= y * self.width + x < self.data@.len(),
    {
        assert(0 <= y * self.width + x < self.width * self.height) by (nonlinear_arith)
            requires
                0 <= x < self.width,
                0 <= y < self.height,
        ;
    }

    /// Distinct in-bounds coordinates map to distinct slots of the backing
    /// vector.
    proof fn lemma_flat_index_injective(w: int, x1: int, y1: int, x2: int, y2: int)
        requires
            0 <= x1 < w,
            0 <= x2 < w,
            0 <= y1,
            0 <= y2,
        ensures
            (y1 * w + x1 == y2 * w + x2) <==> (x1 == x2 && y1 == y2),
    {
        assert((y1 * w + x1 == y2 * w + x2) <==> (x1 == x2 && y1 == y2)) by (nonlinear_arith)
            requires
                0 <= x1 < w,
                0 <= x2 < w,
                0 <= y1,
                0 <= y2,
        ;
    }
}

} // verus!
