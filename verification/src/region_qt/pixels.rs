//! The pixel source: a decoded raster image as a plain row-major grid of
//! RGBA values. The build engine reads it; rasterization produces one.

use vstd::prelude::*;
use vstd::arithmetic::mul::lemma_mul_upper_bound;
use vstd::pervasive::VecAdditionalExecFns;

use crate::region_qt::Rgba;

verus! {

/// A `width x height` grid of pixels, stored row-major.
#[derive(Debug)]
pub struct PixelSource {
    width: u32,
    height: u32,
    pixels: Vec<Rgba>,
}

impl PixelSource {
    pub closed spec fn spec_width(self) -> u32 {
        self.width
    }

    pub closed spec fn spec_height(self) -> u32 {
        self.height
    }

    /// The storage invariant: exactly one pixel per grid cell, and a cell
    /// count that fits a machine word.
    pub closed spec fn wf(self) -> bool {
        &&& self.pixels@.len() == self.width * self.height
        &&& self.width * self.height <= usize::MAX
    }

    /// A well-formed grid's cell count fits a machine word, so a grid of
    /// the same dimensions can be allocated.
    pub proof fn lemma_wf_cell_bound(self)
        requires
            self.wf(),
        ensures
            self.spec_width() * self.spec_height() <= usize::MAX,
    {
    }

    /// The color stored at column `x` of row `y`.
    pub closed spec fn color_at(self, x: int, y: int) -> Rgba {
        self.pixels@[y * self.width + x]
    }

    /// In-range grid coordinates.
    pub open spec fn in_range(self, x: int, y: int) -> bool {
        0 <= x < self.spec_width() && 0 <= y < self.spec_height()
    }

    /// Row-major cell indices stay inside the storage.
    proof fn lemma_index_in_storage(self, x: int, y: int)
        requires
            self.wf(),
            self.in_range(x, y),
        ensures
            0 <= y * self.width + x < self.pixels@.len(),
    {
        let w = self.width as int;
        let h = self.height as int;
        assert(0 <= y * w + x < h * w) by (nonlinear_arith)
            requires
                0 <= x < w,
                0 <= y < h,
        ;
        assert(h * w == w * h) by (nonlinear_arith);
    }

    /// Wrap a pixel vector as a grid. Succeeds exactly when the vector holds
    /// one value per cell of a `width x height` grid.
    pub fn new(width: u32, height: u32, pixels: Vec<Rgba>) -> (r: Option<PixelSource>)
        ensures
            match r {
                Some(g) => {
                    &&& pixels@.len() == width * height
                    &&& g.wf()
                    &&& g.spec_width() == width
                    &&& g.spec_height() == height
                    &&& forall|x: int, y: int| g.in_range(x, y) ==>
                        #[trigger] g.color_at(x, y) == pixels@[y * width + x]
                },
                None => pixels@.len() != width * height,
            },
    {
        proof {
            lemma_mul_upper_bound(width as int, u32::MAX as int, height as int, u32::MAX as int);
        }
        let n: usize = pixels.len();
        if (n as u64) == (width as u64) * (height as u64) {
            Some(PixelSource { width, height, pixels })
        } else {
            None
        }
    }

    pub fn width(&self) -> (r: u32)
        ensures
            r == self.spec_width(),
    {
        self.width
    }

    pub fn height(&self) -> (r: u32)
        ensures
            r == self.spec_height(),
    {
        self.height
    }

    /// Read one pixel.
    pub fn pixel(&self, x: u32, y: u32) -> (c: Rgba)
        requires
            self.wf(),
            x < self.spec_width(),
            y < self.spec_height(),
        ensures
            c == self.color_at(x as int, y as int),
    {
        // pins the storage length to a machine word for the index arithmetic
        let _n: usize = self.pixels.len();
        proof {
            self.lemma_index_in_storage(x as int, y as int);
        }
        let idx: usize = (y as usize) * (self.width as usize) + (x as usize);
        self.pixels[idx]
    }

    /// Overwrite one pixel, leaving every other cell as it was.
    pub fn set_pixel(&mut self, x: u32, y: u32, c: Rgba)
        requires
            old(self).wf(),
            x < old(self).spec_width(),
            y < old(self).spec_height(),
        ensures
            final(self).wf(),
            final(self).spec_width() == old(self).spec_width(),
            final(self).spec_height() == old(self).spec_height(),
            final(self).color_at(x as int, y as int) == c,
            forall|i: int, j: int|
                old(self).in_range(i, j) && !(i == x && j == y) ==>
                    #[trigger] final(self).color_at(i, j) == old(self).color_at(i, j),
    {
        // pins the storage length to a machine word for the index arithmetic
        let _n: usize = self.pixels.len();
        proof {
            self.lemma_index_in_storage(x as int, y as int);
        }
        let idx: usize = (y as usize) * (self.width as usize) + (x as usize);
        self.pixels.set(idx, c);
        proof {
            assert forall|i: int, j: int|
                old(self).in_range(i, j) && !(i == x && j == y) implies
                    #[trigger] self.color_at(i, j) == old(self).color_at(i, j) by {
                old(self).lemma_index_in_storage(i, j);
                let w = old(self).spec_width() as int;
                // distinct cells map to distinct row-major indices
                assert(j * w + i != y * w + x) by (nonlinear_arith)
                    requires
                        0 <= i < w,
                        0 <= x < w,
                        0 <= j,
                        0 <= y,
                        !(i == x && j == y),
                ;
            }
        }
    }

    /// A fresh grid with every cell set to `fill`.
    pub fn filled(width: u32, height: u32, fill: Rgba) -> (r: PixelSource)
        requires
            width * height <= usize::MAX,
        ensures
            r.wf(),
            r.spec_width() == width,
            r.spec_height() == height,
            forall|x: int, y: int| r.in_range(x, y) ==> #[trigger] r.color_at(x, y) == fill,
    {
        let total: u64 = (width as u64) * (height as u64);
        let mut pixels: Vec<Rgba> = Vec::new();
        let mut i: u64 = 0;
        while i < total
            invariant
                i <= total,
                total == width * height,
                pixels@.len() == i,
                forall|k: int| 0 <= k < i ==> pixels@[k] == fill,
            decreases total - i,
        {
            pixels.push(fill);
            i = i + 1;
        }
        let g = PixelSource { width, height, pixels };
        proof {
            assert forall|x: int, y: int| g.in_range(x, y) implies
                #[trigger] g.color_at(x, y) == fill by {
                g.lemma_index_in_storage(x, y);
            }
        }
        g
    }

    /// Compare two grids cell by cell.
    pub fn same_image(&self, other: &PixelSource) -> (r: bool)
        requires
            self.wf(),
            other.wf(),
        ensures
            r == (self.spec_width() == other.spec_width()
                && self.spec_height() == other.spec_height()
                && forall|x: int, y: int| self.in_range(x, y) ==>
                    #[trigger] self.color_at(x, y) == other.color_at(x, y)),
    {
        if self.width != other.width || self.height != other.height {
            return false;
        }
        let mut y: u32 = 0;
        while y < self.height
            invariant
                self.wf(),
                other.wf(),
                self.spec_width() == other.spec_width(),
                self.spec_height() == other.spec_height(),
                y <= self.spec_height(),
                forall|i: int, j: int| 0 <= i < self.spec_width() && 0 <= j < y ==>
                    #[trigger] self.color_at(i, j) == other.color_at(i, j),
            decreases self.spec_height() - y,
        {
            let mut x: u32 = 0;
            while x < self.width
                invariant
                    self.wf(),
                    other.wf(),
                    self.spec_width() == other.spec_width(),
                    self.spec_height() == other.spec_height(),
                    y < self.spec_height(),
                    x <= self.spec_width(),
                    forall|i: int, j: int| 0 <= i < self.spec_width() && 0 <= j < y ==>
                        #[trigger] self.color_at(i, j) == other.color_at(i, j),
                    forall|i: int| 0 <= i < x ==>
                        #[trigger] self.color_at(i, y as int) == other.color_at(i, y as int),
                decreases self.spec_width() - x,
            {
                let p = self.pixel(x, y);
                let q = other.pixel(x, y);
                if !(p.r == q.r && p.g == q.g && p.b == q.b && p.a == q.a) {
                    return false;
                }
                x = x + 1;
            }
            y = y + 1;
        }
        true
    }
}

} // verus!
