//! The output pixel buffer: a `width x height` grid of RGB pixels held as
//! plain bytes, row-major, three bytes per pixel, ready for upload to a
//! display surface or for image encoding.

use vstd::prelude::*;
use vstd::arithmetic::div_mod::lemma_fundamental_div_mod_converse;
use crate::color::Rgb;

verus! {

/// A row-major RGB byte buffer.
pub struct Framebuffer {
    width: u32,
    height: u32,
    data: Vec<u8>,
}

impl Framebuffer {
    /// The byte length matches the dimensions, and the dimensions are small
    /// enough that every byte index fits a `usize`.
    pub closed spec fn wf(self) -> bool {
        &&& self.data@.len() == 3 * (self.width as int) * (self.height as int)
        &&& self.width <= 0x4000
        &&& self.height <= 0x4000
    }

    /// The pixel stored at `(px, py)`.
    pub closed spec fn pixel_spec(self, px: int, py: int) -> Rgb {
        let base = 3 * (py * (self.width as int) + px);
        Rgb { r: self.data@[base], g: self.data@[base + 1], b: self.data@[base + 2] }
    }

    pub closed spec fn spec_width(self) -> int {
        self.width as int
    }

    pub closed spec fn spec_height(self) -> int {
        self.height as int
    }

    /// The raw bytes of the buffer.
    pub closed spec fn bytes(self) -> Seq<u8> {
        self.data@
    }

    /// A buffer of the given dimensions with every pixel black.
    pub fn new(width: u32, height: u32) -> (result: Self)
        requires
            1 <= width <= 0x4000,
            1 <= height <= 0x4000,
        ensures
            result.wf(),
            result.spec_width() == width,
            result.spec_height() == height,
            forall|i: int| 0 <= i < result.bytes().len() ==> result.bytes()[i] == 0u8,
    {
        proof {
            assert(3 * (width as int) * (height as int) <= 0xC000_0000) by (nonlinear_arith)
                requires
                    width <= 0x4000,
                    height <= 0x4000;
        }
        let n: usize = 3 * (width as usize) * (height as usize);
        let mut data: Vec<u8> = Vec::new();
        while data.len() < n
            invariant
                data@.len() <= n,
                forall|i: int| 0 <= i < data@.len() ==> data@[i] == 0u8,
            decreases n - data@.len(),
        {
            data.push(0);
        }
        Framebuffer { width, height, data }
    }

    /// The width in pixels.
    pub fn width(&self) -> (result: u32)
        ensures
            result as int == self.spec_width(),
    {
        self.width
    }

    /// The height in pixels.
    pub fn height(&self) -> (result: u32)
        ensures
            result as int == self.spec_height(),
    {
        self.height
    }

    /// Hands the raw bytes out, consuming the buffer.
    pub fn into_data(self) -> (result: Vec<u8>)
        ensures
            result@ == self.bytes(),
    {
        self.data
    }

    /// Writes one pixel.  Every other pixel keeps its value.
    pub fn put_pixel(&mut self, px: usize, py: usize, c: Rgb)
        requires
            old(self).wf(),
            px < old(self).spec_width(),
            py < old(self).spec_height(),
        ensures
            final(self).wf(),
            final(self).spec_width() == old(self).spec_width(),
            final(self).spec_height() == old(self).spec_height(),
            final(self).pixel_spec(px as int, py as int) == c,
            forall|qx: int, qy: int|
                0 <= qx < old(self).spec_width() && 0 <= qy < old(self).spec_height() && !(qx == px
                    && qy == py) ==> #[trigger] final(self).pixel_spec(qx, qy) == old(
                self).pixel_spec(qx, qy),
    {
        let w = self.width as usize;
        proof {
            assert(0 <= py * w + px && 3 * (py * w + px) + 2 < 0x3000_0000
                && 3 * (py * w + px) + 2 < 3 * (self.width as int) * (self.height as int))
                by (nonlinear_arith)
                requires
                    0 <= px < self.width as int,
                    0 <= py < self.height as int,
                    w == self.width as int,
                    self.width <= 0x4000,
                    self.height <= 0x4000;
        }
        let base: usize = 3 * (py * w + px);
        self.data[base] = c.r;
        self.data[base + 1] = c.g;
        self.data[base + 2] = c.b;
        proof {
            assert forall|qx: int, qy: int|
                0 <= qx < self.spec_width() && 0 <= qy < self.spec_height() && !(qx == px && qy
                    == py) implies #[trigger] self.pixel_spec(qx, qy) == old(self).pixel_spec(
                qx, qy) by {
                lemma_pixel_base_distinct(self.width as int, self.height as int, px as int,
                    py as int, qx, qy);
            }
        }
    }
}

/// The byte length of a well-formed buffer matches its dimensions.
pub proof fn lemma_bytes_len(fb: Framebuffer)
    requires
        fb.wf(),
    ensures
        fb.bytes().len() == 3 * fb.spec_width() * fb.spec_height(),
{
}

/// The pixel at `(px, py)` is the byte triple at its row-major base, and
/// that triple lies within the buffer.
pub proof fn lemma_pixel_bytes(fb: Framebuffer, px: int, py: int)
    requires
        fb.wf(),
        0 <= px < fb.spec_width(),
        0 <= py < fb.spec_height(),
    ensures
        fb.pixel_spec(px, py).r == fb.bytes()[3 * (py * fb.spec_width() + px)],
        fb.pixel_spec(px, py).g == fb.bytes()[3 * (py * fb.spec_width() + px) + 1],
        fb.pixel_spec(px, py).b == fb.bytes()[3 * (py * fb.spec_width() + px) + 2],
        0 <= 3 * (py * fb.spec_width() + px),
        3 * (py * fb.spec_width() + px) + 2 < fb.bytes().len(),
{
    let w = fb.spec_width();
    let h = fb.spec_height();
    assert(0 <= 3 * (py * w + px) && 3 * (py * w + px) + 2 < 3 * w * h) by (nonlinear_arith)
        requires
            0 <= px < w,
            0 <= py < h;
}

/// Distinct pixels of a row-major buffer occupy disjoint, in-bounds byte
/// triples.
proof fn lemma_pixel_base_distinct(w: int, h: int, px: int, py: int, qx: int, qy: int)
    requires
        1 <= w,
        1 <= h,
        0 <= px < w,
        0 <= qx < w,
        0 <= py < h,
        0 <= qy < h,
        !(qx == px && qy == py),
    ensures
        3 * (qy * w + qx) + 2 < 3 * (py * w + px) || 3 * (py * w + px) + 2 < 3 * (qy * w + qx),
        0 <= 3 * (qy * w + qx) && 3 * (qy * w + qx) + 2 < 3 * w * h,
        0 <= 3 * (py * w + px) && 3 * (py * w + px) + 2 < 3 * w * h,
{
    let p = py * w + px;
    let q = qy * w + qx;
    lemma_fundamental_div_mod_converse(p, w, py, px);
    lemma_fundamental_div_mod_converse(q, w, qy, qx);
    assert(p != q);
    assert(0 <= p && 3 * p + 2 < 3 * w * h && 0 <= q && 3 * q + 2 < 3 * w * h)
        by (nonlinear_arith)
        requires
            0 <= px < w,
            0 <= qx < w,
            0 <= py < h,
            0 <= qy < h,
            p == py * w + px,
            q == qy * w + qx;
}

} // verus!
