//! Pixel buffers and the coverage blend.

use vstd::prelude::*;

verus! {

use vstd::pervasive::VecAdditionalExecFns;

/// One RGBA pixel with 8-bit channels.
#[derive(Clone, Copy, PartialEq, Eq, Structural, Debug)]
pub struct Rgba {
    pub r: u8,
    pub g: u8,
    pub b: u8,
    pub a: u8,
}

/// A coverage value of `COVERAGE_MAX` is full ink; `0` is no ink.
pub const COVERAGE_MAX: u8 = 255;

/// Linear blend of one channel: `(dst * (255 - cov) + color * cov) / 255`.
pub open spec fn blend_channel(dst: int, color: int, cov: int) -> int {
    (dst * (255 - cov) + color * cov) / 255
}

/// Linear blend of a destination pixel with the overlay color at the given
/// coverage, channel by channel.
pub open spec fn blend_spec(dst: Rgba, color: Rgba, cov: int) -> Rgba {
    Rgba {
        r: blend_channel(dst.r as int, color.r as int, cov) as u8,
        g: blend_channel(dst.g as int, color.g as int, cov) as u8,
        b: blend_channel(dst.b as int, color.b as int, cov) as u8,
        a: blend_channel(dst.a as int, color.a as int, cov) as u8,
    }
}

proof fn lemma_blend_channel_bounds(d: int, c: int, cov: int)
    requires
        0 <= d <= 255,
        0 <= c <= 255,
        0 <= cov <= 255,
    ensures
        0 <= blend_channel(d, c, cov) <= 255,
        cov == 0 ==> blend_channel(d, c, cov) == d,
        cov == 255 ==> blend_channel(d, c, cov) == c,
{
    assert(d * (255 - cov) + c * cov <= 255 * 255) by (nonlinear_arith)
        requires
            0 <= d <= 255,
            0 <= c <= 255,
            0 <= cov <= 255,
    ;
    assert(d * (255 - cov) + c * cov >= 0) by (nonlinear_arith)
        requires
            0 <= d,
            0 <= c,
            0 <= cov <= 255,
    ;
    assert((d * 255 + c * 0) / 255 == d) by (nonlinear_arith)
        requires
            0 <= d,
    ;
    assert((d * 0 + c * 255) / 255 == c) by (nonlinear_arith)
        requires
            0 <= c,
    ;
}

fn blend_ch(d: u8, c: u8, cov: u8) -> (x: u8)
    ensures
        x as int == blend_channel(d as int, c as int, cov as int),
{
    proof {
        lemma_blend_channel_bounds(d as int, c as int, cov as int);
    }
    let num: u32 = (d as u32) * (255 - cov as u32) + (c as u32) * (cov as u32);
    (num / 255) as u8
}

/// Blend a destination pixel with the overlay color at coverage `cov`.
/// Zero coverage leaves the pixel unchanged; full coverage replaces it with
/// the overlay color exactly.
pub fn blend(dst: Rgba, color: Rgba, cov: u8) -> (out: Rgba)
    ensures
        out == blend_spec(dst, color, cov as int),
        cov == 0 ==> out == dst,
        cov == COVERAGE_MAX ==> out == color,
{
    proof {
        lemma_blend_channel_bounds(dst.r as int, color.r as int, cov as int);
        lemma_blend_channel_bounds(dst.g as int, color.g as int, cov as int);
        lemma_blend_channel_bounds(dst.b as int, color.b as int, cov as int);
        lemma_blend_channel_bounds(dst.a as int, color.a as int, cov as int);
    }
    Rgba {
        r: blend_ch(dst.r, color.r, cov),
        g: blend_ch(dst.g, color.g, cov),
        b: blend_ch(dst.b, color.b, cov),
        a: blend_ch(dst.a, color.a, cov),
    }
}

/// A rectangular pixel buffer in row-major order: the pixel at column `x`
/// and row `y` sits at index `y * width + x`.
pub struct PixelBuffer {
    pub width: u32,
    pub height: u32,
    pub data: Vec<Rgba>,
}

impl PixelBuffer {
    /// The buffer holds exactly `width * height` pixels, and both dimensions
    /// are small enough that every index fits comfortably in a `usize`.
    pub open spec fn wf(&self) -> bool {
        &&& self.width <= 0x8000
        &&& self.height <= 0x8000
        &&& self.data@.len() == self.width * self.height
    }

    /// The pixel at column `x`, row `y`.
    pub open spec fn pixel(&self, x: int, y: int) -> Rgba {
        self.data@[y * self.width + x]
    }

    /// A buffer of the given dimensions with every pixel set to `fill`.
    pub fn new_filled(width: u32, height: u32, fill: Rgba) -> (out: PixelBuffer)
        requires
            width <= 0x8000,
            height <= 0x8000,
        ensures
            out.wf(),
            out.width == width,
            out.height == height,
            forall|i: int| 0 <= i < out.data@.len() ==> out.data@[i] == fill,
    {
        proof {
            assert(width * height <= 0x4000_0000) by (nonlinear_arith)
                requires
                    0 <= width <= 0x8000,
                    0 <= height <= 0x8000,
            ;
        }
        let n: usize = (width as usize) * (height as usize);
        let mut data: Vec<Rgba> = Vec::new();
        let mut i: usize = 0;
        while i < n
            invariant
                i <= n,
                n == width * height,
                data@.len() == i,
                forall|j: int| 0 <= j < i ==> data@[j] == fill,
            decreases n - i,
        {
            data.push(fill);
            i = i + 1;
        }
        PixelBuffer { width, height, data }
    }

    /// Read the pixel at column `x`, row `y`.
    pub fn get_pixel(&self, x: u32, y: u32) -> (out: Rgba)
        requires
            self.wf(),
            x < self.width,
            y < self.height,
        ensures
            out == self.pixel(x as int, y as int),
    {
        proof {
            lemma_row_major_index_bound(x as int, y as int, self.width as int, self.height as int);
        }
        let i: usize = (y as usize) * (self.width as usize) + (x as usize);
        self.data[i]
    }

    /// Overwrite the pixel at column `x`, row `y`.
    pub fn put_pixel(&mut self, x: u32, y: u32, c: Rgba)
        requires
            old(self).wf(),
            x < old(self).width,
            y < old(self).height,
        ensures
            final(self).wf(),
            final(self).width == old(self).width,
            final(self).height == old(self).height,
            final(self).data@ == old(self).data@.update(
                y * old(self).width + x,
                c,
            ),
    {
        proof {
            lemma_row_major_index_bound(x as int, y as int, self.width as int, self.height as int);
        }
        let i: usize = (y as usize) * (self.width as usize) + (x as usize);
        self.data.set(i, c);
    }

    /// An owned copy with the same dimensions and the same pixels.
    pub fn copy_of(&self) -> (out: PixelBuffer)
        ensures
            out.width == self.width,
            out.height == self.height,
            out.data@ == self.data@,
    {
        let mut data: Vec<Rgba> = Vec::new();
        let mut i: usize = 0;
        while i < self.data.len()
            invariant
                i <= self.data@.len(),
                data@ == self.data@.subrange(0, i as int),
            decreases self.data@.len() - i,
        {
            data.push(self.data[i]);
            proof {
                assert(data@ =~= self.data@.subrange(0, i as int + 1));
            }
            i = i + 1;
        }
        proof {
            assert(data@ =~= self.data@);
        }
        PixelBuffer { width: self.width, height: self.height, data }
    }
}

/// Row-major indexing stays inside a `width * height` buffer, and for the
/// dimensions a well-formed buffer allows, every index fits in a `usize`.
pub proof fn lemma_row_major_index_bound(x: int, y: int, width: int, height: int)
    requires
        0 <= x < width <= 0x8000,
        0 <= y < height <= 0x8000,
    ensures
        0 <= y * width + x < width * height <= 0x4000_0000,
{
    assert(y * width + x < width * height) by (nonlinear_arith)
        requires
            0 <= x < width,
            0 <= y < height,
    ;
    assert(y * width >= 0) by (nonlinear_arith)
        requires
            0 <= y,
            0 < width,
    ;
    assert(width * height <= 0x4000_0000) by (nonlinear_arith)
        requires
            0 < width <= 0x8000,
            0 < height <= 0x8000,
    ;
}

} // verus!
