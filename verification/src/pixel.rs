//! The pixel and image buffer model: fixed-point RGB channels and the
//! shared brightness primitive.

use vstd::prelude::*;

verus! {

/// Fixed-point units that stand for full channel intensity 1.0.
/// A channel holds multiples of 1/4080, so 8-bit samples (multiples of
/// 1/255) and sixteenth-fractions of dithering residuals are exact.
pub const SCALE: i32 = 4080;

/// Fixed-point value standing for intensity 1/2: the quantization and
/// braille dot threshold.
pub const HALF: i32 = 2040;

/// One RGB pixel. `SCALE` units stand for intensity 1.0. Values outside
/// [0, SCALE] occur only transiently inside the dithering pass.
#[derive(Clone, Copy, PartialEq, Eq, Structural, Debug)]
pub struct Px {
    pub r: i32,
    pub g: i32,
    pub b: i32,
}

impl Px {
    /// Perceptual brightness in `SCALE` units: (299 R + 587 G + 114 B) / 1000.
    pub open spec fn spec_brightness(self) -> int {
        (299 * self.r + 587 * self.g + 114 * self.b) / 1000
    }

    /// All channels lie in [0, SCALE]: the pixel stands for an RGB value
    /// with normalized channels in [0, 1].
    pub open spec fn in_range(self) -> bool {
        0 <= self.r <= SCALE && 0 <= self.g <= SCALE && 0 <= self.b <= SCALE
    }

    /// Every channel is either full-off or full-on, as after dithering.
    pub open spec fn is_quantized(self) -> bool {
        (self.r == 0 || self.r == SCALE) && (self.g == 0 || self.g == SCALE) && (self.b == 0
            || self.b == SCALE)
    }

    /// The grey pixel of brightness `v`: all channels equal.
    pub open spec fn spec_grey(v: int) -> Px {
        Px { r: v as i32, g: v as i32, b: v as i32 }
    }
}

/// The brightness of a pixel, the weighted channel sum used by every
/// non-color style and by the dithering pass.
pub fn brightness(p: &Px) -> (b: i32)
    requires
        p.in_range(),
    ensures
        b == p.spec_brightness(),
        0 <= b <= SCALE,
{
    (299 * p.r + 587 * p.g + 114 * p.b) / 1000
}

/// Brightness never decreases when no channel decreases.
pub proof fn lemma_brightness_monotonic(p: Px, q: Px)
    requires
        p.r <= q.r,
        p.g <= q.g,
        p.b <= q.b,
    ensures
        p.spec_brightness() <= q.spec_brightness(),
{
    let np = 299 * p.r + 587 * p.g + 114 * p.b;
    let nq = 299 * q.r + 587 * q.g + 114 * q.b;
    assert(np <= nq);
    vstd::arithmetic::div_mod::lemma_div_is_ordered(np, nq, 1000);
}

/// Row-major RGB image buffer.
#[derive(Debug)]
pub struct Image {
    pub width: usize,
    pub height: usize,
    pub pixels: Vec<Px>,
}

impl Image {
    /// The buffer holds exactly one pixel per grid cell.
    pub open spec fn wf(self) -> bool {
        self.pixels@.len() == self.width * self.height
    }

    /// Every pixel stands for normalized channels in [0, 1].
    pub open spec fn in_range(self) -> bool {
        forall|i: int| 0 <= i < self.pixels@.len() ==> (#[trigger] self.pixels@[i]).in_range()
    }

    /// The pixel at column `x` of row `y`.
    pub open spec fn at(self, x: int, y: int) -> Px {
        self.pixels@[y * self.width + x]
    }

    /// Reads the pixel at column `x` of row `y`.
    pub fn get(&self, x: usize, y: usize) -> (p: Px)
        requires
            self.wf(),
            x < self.width,
            y < self.height,
        ensures
            p == self.at(x as int, y as int),
    {
        proof {
            lemma_row_major_index(self.width as int, self.height as int, x as int, y as int);
        }
        // Reading the length pins the pixel count within the address space.
        let n: usize = self.pixels.len();
        self.pixels[y * self.width + x]
    }

    /// Replaces the pixel at column `x` of row `y`.
    pub fn set(&mut self, x: usize, y: usize, p: Px)
        requires
            old(self).wf(),
            x < old(self).width,
            y < old(self).height,
        ensures
            final(self).width == old(self).width,
            final(self).height == old(self).height,
            final(self).pixels@ == old(self).pixels@.update(y * old(self).width + x, p),
            final(self).wf(),
    {
        proof {
            lemma_row_major_index(self.width as int, self.height as int, x as int, y as int);
        }
        // Reading the length pins the pixel count within the address space.
        let n: usize = self.pixels.len();
        let i = y * self.width + x;
        self.pixels.set(i, p);
    }
}

/// A row-major index lies strictly inside a `w` by `h` grid.
pub proof fn lemma_row_major_index(w: int, h: int, x: int, y: int)
    requires
        0 <= x < w,
        0 <= y < h,
    ensures
        0 <= y * w + x < w * h,
{
    assert(0 <= y * w + x < w * h) by (nonlinear_arith)
        requires
            0 <= x < w,
            0 <= y < h,
    ;
}

} // verus!
