//! Text compositing: lay a line of glyphs out along a pen, center it, and
//! alpha-blend each glyph's coverage into a pixel buffer, clipping silently
//! at the buffer edges; stack wrapped caption lines above a bottom margin.

use vstd::prelude::*;

use crate::buffer::{blend_spec, blend, PixelBuffer, Rgba};
use crate::font::{FontModel, GlyphRaster};
use crate::wrap::{lines_spec, split_into_lines};

verus! {

use vstd::arithmetic::div_mod::{
    lemma_div_nonincreasing,
    lemma_fundamental_div_mod,
    lemma_fundamental_div_mod_converse,
    lemma_mod_bound,
};

/// Glyph positions handed to the compositor stay well inside `i128`, so the
/// per-pixel coordinate sums cannot overflow.
pub const COORD_LIMIT: i128 = 0x4_0000_0000_0000_0000_0000_0000;

/// The buffer after the first `k` cells (row-major) of a coverage grid of
/// `rw x rh` cells, placed with its top-left cell at `(gx, gy)`, have been
/// blended in. Cells that land outside the buffer are skipped.
pub open spec fn draw_raster_upto(
    data: Seq<Rgba>,
    w: int,
    color: Rgba,
    rw: int,
    rh: int,
    cov: Seq<u8>,
    gx: int,
    gy: int,
    k: int,
) -> Seq<Rgba> {
    Seq::new(
        data.len(),
        |i: int|
            {
                let x = i % w;
                let y = i / w;
                let cc = x - gx;
                let rr = y - gy;
                if 0 <= cc < rw && 0 <= rr < rh && rr * rw + cc < k {
                    blend_spec(data[i], color, cov[rr * rw + cc] as int)
                } else {
                    data[i]
                }
            },
    )
}

/// The buffer after a whole coverage grid has been blended in at `(gx, gy)`.
pub open spec fn draw_raster_spec(
    data: Seq<Rgba>,
    w: int,
    color: Rgba,
    rw: int,
    rh: int,
    cov: Seq<u8>,
    gx: int,
    gy: int,
) -> Seq<Rgba> {
    draw_raster_upto(data, w, color, rw, rh, cov, gx, gy, rw * rh)
}

/// Blend one glyph's coverage grid into the buffer with the grid's top-left
/// cell at `(gx, gy)`. Cells whose destination lies outside the buffer are
/// skipped; every cell inside blends the destination pixel with `color` at
/// the cell's coverage.
pub fn draw_glyph_raster(
    buf: &mut PixelBuffer,
    color: Rgba,
    raster: &GlyphRaster,
    gx: i128,
    gy: i128,
)
    requires
        old(buf).wf(),
        raster.wf(),
        -COORD_LIMIT <= gx <= COORD_LIMIT,
        -COORD_LIMIT <= gy <= COORD_LIMIT,
    ensures
        final(buf).wf(),
        final(buf).width == old(buf).width,
        final(buf).height == old(buf).height,
        final(buf).data@ == draw_raster_spec(
            old(buf).data@,
            old(buf).width as int,
            color,
            raster.width as int,
            raster.height as int,
            raster.coverage@,
            gx as int,
            gy as int,
        ),
{
    let rw = raster.width as usize;
    let rh = raster.height as usize;
    proof {
        assert(rw * rh <= 0x4000_0000) by (nonlinear_arith)
            requires
                0 <= rw <= 0x8000,
                0 <= rh <= 0x8000,
        ;
    }
    let total: usize = rw * rh;
    let ghost data0 = buf.data@;
    let ghost w = buf.width as int;
    let ghost h = buf.height as int;
    let mut k: usize = 0;
    proof {
        assert(buf.data@ =~= draw_raster_upto(
            data0,
            w,
            color,
            rw as int,
            rh as int,
            raster.coverage@,
            gx as int,
            gy as int,
            0,
        ));
    }
    while k < total
        invariant
            k <= total,
            total == rw * rh,
            rw == raster.width,
            rh == raster.height,
            raster.wf(),
            -COORD_LIMIT <= gx <= COORD_LIMIT,
            -COORD_LIMIT <= gy <= COORD_LIMIT,
            buf.wf(),
            buf.width as int == w,
            buf.height as int == h,
            data0.len() == w * h,
            buf.data@ == draw_raster_upto(
                data0,
                w,
                color,
                rw as int,
                rh as int,
                raster.coverage@,
                gx as int,
                gy as int,
                k as int,
            ),
        decreases total - k,
    {
        proof {
            assert(rw > 0) by (nonlinear_arith)
                requires
                    0 <= rw,
                    0 <= rh,
                    k < rw * rh,
            ;
            lemma_fundamental_div_mod(k as int, rw as int);
            lemma_mod_bound(k as int, rw as int);
            assert((k as int) / (rw as int) < rh as int) by (nonlinear_arith)
                requires
                    0 < rw,
                    k as int == (rw as int) * ((k as int) / (rw as int)) + (k as int) % (rw as int),
                    0 <= (k as int) % (rw as int) < rw as int,
                    k < rw * rh,
            ;
        }
        let cc: usize = k % rw;
        let rr: usize = k / rw;
        proof {
            assert((rr as int) * (rw as int) + cc as int == k as int) by (nonlinear_arith)
                requires
                    k as int == (rw as int) * (rr as int) + (cc as int),
            ;
        }
        let dx: i128 = gx + cc as i128;
        let dy: i128 = gy + rr as i128;
        let ghost before = buf.data@;
        if 0 <= dx && dx < buf.width as i128 && 0 <= dy && dy < buf.height as i128 {
            let cov = raster.coverage[k];
            let px = buf.get_pixel(dx as u32, dy as u32);
            let blended = blend(px, color, cov);
            buf.put_pixel(dx as u32, dy as u32, blended);
            proof {
                let idx = dy as int * w + dx as int;
                crate::buffer::lemma_row_major_index_bound(dx as int, dy as int, w, h);
                lemma_draw_raster_upto_step_hit(
                    data0,
                    w,
                    h,
                    color,
                    rw as int,
                    rh as int,
                    raster.coverage@,
                    gx as int,
                    gy as int,
                    k as int,
                );
                assert(buf.data@ =~= draw_raster_upto(
                    data0,
                    w,
                    color,
                    rw as int,
                    rh as int,
                    raster.coverage@,
                    gx as int,
                    gy as int,
                    k as int + 1,
                ));
            }
        } else {
            proof {
                if w > 0 {
                    lemma_draw_raster_upto_step_miss(
                        data0,
                        w,
                        h,
                        color,
                        rw as int,
                        rh as int,
                        raster.coverage@,
                        gx as int,
                        gy as int,
                        k as int,
                    );
                } else {
                    assert(data0.len() == 0) by (nonlinear_arith)
                        requires
                            data0.len() == w * h,
                            w == 0,
                    ;
                }
                assert(buf.data@ =~= draw_raster_upto(
                    data0,
                    w,
                    color,
                    rw as int,
                    rh as int,
                    raster.coverage@,
                    gx as int,
                    gy as int,
                    k as int + 1,
                ));
            }
        }
        k = k + 1;
    }
}

/// Processing cell `k` whose destination pixel lies inside the buffer turns
/// the step-`k` intermediate state into the step-`k + 1` state by one pixel
/// update.
proof fn lemma_draw_raster_upto_step_hit(
    data: Seq<Rgba>,
    w: int,
    h: int,
    color: Rgba,
    rw: int,
    rh: int,
    cov: Seq<u8>,
    gx: int,
    gy: int,
    k: int,
)
    requires
        0 < w,
        data.len() == w * h,
        0 < rw,
        0 <= k < rw * rh,
        k / rw < rh,
        0 <= gx + k % rw < w,
        0 <= gy + k / rw < h,
        0 <= (gy + k / rw) * w + (gx + k % rw) < data.len(),
    ensures
        draw_raster_upto(data, w, color, rw, rh, cov, gx, gy, k + 1) =~= draw_raster_upto(
            data,
            w,
            color,
            rw,
            rh,
            cov,
            gx,
            gy,
            k,
        ).update(
            (gy + k / rw) * w + (gx + k % rw),
            blend_spec(
                draw_raster_upto(data, w, color, rw, rh, cov, gx, gy, k)[(gy + k / rw) * w + (gx + k
                    % rw)],
                color,
                cov[k] as int,
            ),
        ),
{
    let cc = k % rw;
    let rr = k / rw;
    let dx = gx + cc;
    let dy = gy + rr;
    let idx = dy * w + dx;
    lemma_fundamental_div_mod(k, rw);
    lemma_mod_bound(k, rw);
    lemma_fundamental_div_mod_converse(idx, w, dy, dx);
    let lhs = draw_raster_upto(data, w, color, rw, rh, cov, gx, gy, k + 1);
    let prev = draw_raster_upto(data, w, color, rw, rh, cov, gx, gy, k);
    assert forall|i: int| 0 <= i < data.len() implies lhs[i] == prev.update(
        idx,
        blend_spec(prev[idx], color, cov[k] as int),
    )[i] by {
        let x = i % w;
        let y = i / w;
        lemma_fundamental_div_mod(i, w);
        lemma_mod_bound(i, w);
        let cell = (y - gy) * rw + (x - gx);
        if i == idx {
            assert(x == dx && y == dy);
            assert(cell == k) by (nonlinear_arith)
                requires
                    cell == (dy - gy) * rw + (dx - gx),
                    dx - gx == cc,
                    dy - gy == rr,
                    k == rw * rr + cc,
            ;
            assert(prev[idx] == data[idx]);
        } else {
            if 0 <= x - gx < rw && 0 <= y - gy < rh && cell == k {
                assert(y - gy == rr && x - gx == cc) by {
                    lemma_fundamental_div_mod_converse(cell, rw, y - gy, x - gx);
                    lemma_fundamental_div_mod_converse(cell, rw, rr, cc);
                }
                assert(i == idx) by (nonlinear_arith)
                    requires
                        i == w * y + x,
                        idx == dy * w + dx,
                        x == dx,
                        y == dy,
                ;
                assert(false);
            }
        }
    }
}

/// Processing cell `k` whose destination pixel lies outside the buffer
/// leaves the step-`k` intermediate state unchanged.
proof fn lemma_draw_raster_upto_step_miss(
    data: Seq<Rgba>,
    w: int,
    h: int,
    color: Rgba,
    rw: int,
    rh: int,
    cov: Seq<u8>,
    gx: int,
    gy: int,
    k: int,
)
    requires
        0 < w,
        data.len() == w * h,
        0 < rw,
        0 <= k < rw * rh,
        k / rw < rh,
        !(0 <= gx + k % rw < w && 0 <= gy + k / rw < h),
    ensures
        draw_raster_upto(data, w, color, rw, rh, cov, gx, gy, k + 1) =~= draw_raster_upto(
            data,
            w,
            color,
            rw,
            rh,
            cov,
            gx,
            gy,
            k,
        ),
{
    let cc = k % rw;
    let rr = k / rw;
    lemma_fundamental_div_mod(k, rw);
    lemma_mod_bound(k, rw);
    let lhs = draw_raster_upto(data, w, color, rw, rh, cov, gx, gy, k + 1);
    let prev = draw_raster_upto(data, w, color, rw, rh, cov, gx, gy, k);
    assert forall|i: int| 0 <= i < data.len() implies lhs[i] == prev[i] by {
        let x = i % w;
        let y = i / w;
        lemma_fundamental_div_mod(i, w);
        lemma_mod_bound(i, w);
        assert(y < h) by (nonlinear_arith)
            requires
                0 < w,
                i == w * y + x,
                0 <= x < w,
                i < w * h,
        ;
        assert(0 <= y) by (nonlinear_arith)
            requires
                0 < w,
                i == w * y + x,
                0 <= x < w,
                0 <= i,
        ;
        let cell = (y - gy) * rw + (x - gx);
        if 0 <= x - gx < rw && 0 <= y - gy < rh && cell == k {
            assert(y - gy == rr && x - gx == cc) by {
                lemma_fundamental_div_mod_converse(cell, rw, y - gy, x - gx);
                lemma_fundamental_div_mod_converse(cell, rw, rr, cc);
            }
            assert(false);
        }
    }
}

/// A pixel outside a glyph's footprint keeps its value: placing a grid that
/// reaches past the buffer edge never changes pixels the grid does not
/// cover, and pixels beyond the buffer do not exist to be written.
pub proof fn lemma_draw_raster_untouched_outside(
    data: Seq<Rgba>,
    w: int,
    h: int,
    color: Rgba,
    rw: int,
    rh: int,
    cov: Seq<u8>,
    gx: int,
    gy: int,
    x: int,
    y: int,
)
    requires
        0 < w <= 0x8000,
        0 < h <= 0x8000,
        data.len() == w * h,
        0 <= x < w,
        0 <= y < h,
        !(gx <= x < gx + rw && gy <= y < gy + rh),
    ensures
        draw_raster_spec(data, w, color, rw, rh, cov, gx, gy)[y * w + x] == data[y * w + x],
{
    let i = y * w + x;
    crate::buffer::lemma_row_major_index_bound(x, y, w, h);
    lemma_fundamental_div_mod_converse(i, w, y, x);
}

/// The pen position, in units, before the character at index `i` of the
/// text: the sum of the advance widths of the characters before it.
pub open spec fn pen_units(f: &FontModel, text: Seq<char>, i: int) -> int
    decreases i,
{
    if i <= 0 {
        0
    } else {
        pen_units(f, text, i - 1) + f.advance_of(text[i - 1])
    }
}

/// The pen position is never negative.
pub proof fn lemma_pen_units_nonneg(f: &FontModel, text: Seq<char>, i: int)
    ensures
        pen_units(f, text, i) >= 0,
    decreases i,
{
    if i > 0 {
        lemma_pen_units_nonneg(f, text, i - 1);
    }
}

/// The measured width of a laid-out line: the right edge (offset plus grid
/// width, past the pen position in pixels) of the final character's ink, or
/// zero when the final character has none. Deliberately only the rightmost
/// glyph extent; wrapping and centering both use this same measure, so the
/// result is stable even though it can under-read the true width.
pub open spec fn str_width_spec(f: &FontModel, text: Seq<char>) -> int {
    if text.len() == 0 {
        0
    } else {
        let g = f.glyph_of(text[text.len() - 1]);
        match g.raster {
            Some(r) => pen_units(f, text, text.len() - 1) / (f.units_per_px as int) + r.left
                + r.width,
            None => 0,
        }
    }
}

/// Truncating halving, as machine signed division performs it.
pub open spec fn half_trunc(a: int) -> int {
    if a >= 0 {
        a / 2
    } else {
        -((-a) / 2)
    }
}

/// The left edge of a centered run: half the buffer width, less half the
/// run's measured width.
pub open spec fn center_x_spec(width: int, sw: int) -> int {
    width / 2 - half_trunc(sw)
}

fn half_trunc_i128(a: i128) -> (r: i128)
    requires
        -COORD_LIMIT <= a <= COORD_LIMIT,
    ensures
        r as int == half_trunc(a as int),
        a >= 0 ==> 0 <= r <= a,
        a < 0 ==> a <= r <= 0,
{
    if a >= 0 {
        ((a as u128) / 2) as i128
    } else {
        let m = ((-a) as u128) / 2;
        -(m as i128)
    }
}

/// The buffer after the characters of `text` from index `i` on have been
/// drawn, each glyph's ink placed at the pen position (in pixels) plus the
/// glyph's own offset, relative to the line origin `(x0, y)`.
pub open spec fn draw_line_rec(
    data: Seq<Rgba>,
    w: int,
    color: Rgba,
    f: &FontModel,
    text: Seq<char>,
    i: int,
    x0: int,
    y: int,
) -> Seq<Rgba>
    decreases text.len() - i,
{
    if i < 0 || i >= text.len() {
        data
    } else {
        let g = f.glyph_of(text[i]);
        let d2 = match g.raster {
            Some(r) => draw_raster_spec(
                data,
                w,
                color,
                r.width as int,
                r.height as int,
                r.coverage@,
                x0 + pen_units(f, text, i) / (f.units_per_px as int) + r.left,
                y + r.top,
            ),
            None => data,
        };
        draw_line_rec(d2, w, color, f, text, i + 1, x0, y)
    }
}

/// The buffer after one line of text has been drawn horizontally centered
/// with its top at `y`.
pub open spec fn draw_text_spec(
    data: Seq<Rgba>,
    w: int,
    color: Rgba,
    f: &FontModel,
    text: Seq<char>,
    y: int,
) -> Seq<Rgba> {
    draw_line_rec(data, w, color, f, text, 0, center_x_spec(w, str_width_spec(f, text)), y)
}

/// Draw one line of text into the buffer, horizontally centered, with the
/// line's top edge at `y`. Ink that falls outside the buffer is clipped
/// silently.
pub fn draw_text_centered_mut(
    buf: &mut PixelBuffer,
    color: Rgba,
    font: &FontModel,
    text: &str,
    y: i128,
)
    requires
        old(buf).wf(),
        font.wf(),
        -0x1_0000_0000_0000_0000_0000_0000 <= y <= 0x1_0000_0000_0000_0000_0000_0000,
    ensures
        final(buf).wf(),
        final(buf).width == old(buf).width,
        final(buf).height == old(buf).height,
        final(buf).data@ == draw_text_spec(
            old(buf).data@,
            old(buf).width as int,
            color,
            font,
            text@,
            y as int,
        ),
{
    let ghost w = buf.width as int;
    let ghost data0 = buf.data@;
    let n = text.unicode_len();

    // Measure the line: the right edge of the last character's ink.
    let mut sw: i128 = 0;
    if n > 0 {
        let mut pen: u128 = 0;
        let mut i: usize = 0;
        while i + 1 < n
            invariant
                i < n,
                n == text@.len(),
                font.wf(),
                pen == pen_units(font, text@, i as int),
                pen <= i * 0x10_0000,
            decreases n - i,
        {
            proof {
                crate::font::lemma_glyph_of_wf(font, text@[i as int]);
            }
            let c = text.get_char(i);
            let adv = font.advance_width(c);
            pen = pen + adv as u128;
            i = i + 1;
        }
        let last = text.get_char(n - 1);
        let g = font.lookup(last);
        proof {
            crate::font::lemma_glyph_of_wf(font, text@[n - 1]);
        }
        match &g.raster {
            Some(r) => {
                proof {
                    lemma_div_nonincreasing(pen as int, font.units_per_px as int);
                }
                let pen_px = pen / (font.units_per_px as u128);
                sw = pen_px as i128 + r.left as i128 + r.width as i128;
            },
            None => {
                sw = 0;
            },
        }
    }
    proof {
        assert(sw as int == str_width_spec(font, text@));
        assert(-0x1_0000_0000_0000_0000_0000_0000 <= sw <= 0x1_0000_0000_0000_0000_0000_0000);
    }

    let half_width = ((buf.width / 2) as i128);
    let x0: i128 = half_width - half_trunc_i128(sw);
    proof {
        assert(x0 as int == center_x_spec(w, str_width_spec(font, text@)));
    }

    // Draw each character's ink at the advancing pen position.
    let mut pen: u128 = 0;
    let mut i: usize = 0;
    while i < n
        invariant
            i <= n,
            n == text@.len(),
            font.wf(),
            buf.wf(),
            buf.width as int == w,
            buf.height == old(buf).height,
            pen == pen_units(font, text@, i as int),
            pen <= i * 0x10_0000,
            -0x1_0000_0000_0000_0000_0000_0000 <= y <= 0x1_0000_0000_0000_0000_0000_0000,
            -0x2_0000_0000_0000_0000_0000_0000 <= x0 <= 0x2_0000_0000_0000_0000_0000_0000,
            x0 as int == center_x_spec(w, str_width_spec(font, text@)),
            draw_line_rec(data0, w, color, font, text@, 0, x0 as int, y as int) == draw_line_rec(
                buf.data@,
                w,
                color,
                font,
                text@,
                i as int,
                x0 as int,
                y as int,
            ),
        decreases n - i,
    {
        proof {
            crate::font::lemma_glyph_of_wf(font, text@[i as int]);
            lemma_pen_units_nonneg(font, text@, i as int);
        }
        let c = text.get_char(i);
        let g = font.lookup(c);
        match &g.raster {
            Some(r) => {
                proof {
                    lemma_div_nonincreasing(pen as int, font.units_per_px as int);
                }
                let pen_px = pen / (font.units_per_px as u128);
                let gx: i128 = x0 + pen_px as i128 + r.left as i128;
                let gy: i128 = y + r.top as i128;
                draw_glyph_raster(buf, color, r, gx, gy);
            },
            None => {},
        }
        pen = pen + g.advance as u128;
        i = i + 1;
    }
}

/// The buffer after the lines from index `i` on have been drawn, each
/// centered, the first with its top at `y` and each next one `line_height`
/// pixels lower.
pub open spec fn render_lines_rec(
    data: Seq<Rgba>,
    w: int,
    color: Rgba,
    f: &FontModel,
    lines: Seq<Seq<char>>,
    i: int,
    y: int,
) -> Seq<Rgba>
    decreases lines.len() - i,
{
    if i < 0 || i >= lines.len() {
        data
    } else {
        render_lines_rec(
            draw_text_spec(data, w, color, f, lines[i], y),
            w,
            color,
            f,
            lines,
            i + 1,
            y + f.line_height,
        )
    }
}

/// The wrapping budget of a buffer `width` pixels wide with `pad` pixels of
/// padding on either side, in units.
pub open spec fn max_line_units_spec(width: int, pad: int, upx: int) -> int {
    if 2 * pad < width {
        (width - 2 * pad) * upx
    } else {
        0
    }
}

/// The buffer after a caption has been wrapped to the padded width and its
/// lines drawn bottom-anchored: the block of lines ends `bottom` pixels
/// above the buffer's bottom edge.
pub open spec fn render_caption_spec(
    data: Seq<Rgba>,
    w: int,
    h: int,
    color: Rgba,
    f: &FontModel,
    caption: Seq<char>,
    bottom: int,
    pad: int,
) -> Seq<Rgba> {
    let lines = lines_spec(f, caption, max_line_units_spec(w, pad, f.units_per_px as int));
    render_lines_rec(data, w, color, f, lines, 0, h - bottom - f.line_height * lines.len())
}

/// Wrap `caption` to the buffer's padded width and draw it bottom-anchored:
/// each line horizontally centered, lines `line_height` pixels apart, the
/// block sitting `bottom_margin` pixels above the bottom edge. An empty
/// caption draws nothing.
pub fn render_bottom_caption_mut(
    buf: &mut PixelBuffer,
    color: Rgba,
    font: &FontModel,
    caption: &str,
    bottom_margin: u32,
    horiz_padding: u32,
)
    requires
        old(buf).wf(),
        font.wf(),
    ensures
        final(buf).wf(),
        final(buf).width == old(buf).width,
        final(buf).height == old(buf).height,
        final(buf).data@ == render_caption_spec(
            old(buf).data@,
            old(buf).width as int,
            old(buf).height as int,
            color,
            font,
            caption@,
            bottom_margin as int,
            horiz_padding as int,
        ),
{
    let ghost w = buf.width as int;
    let ghost h = buf.height as int;
    let ghost data0 = buf.data@;
    let pad2: u64 = 2 * (horiz_padding as u64);
    let max_px: u64 = if pad2 < buf.width as u64 {
        buf.width as u64 - pad2
    } else {
        0
    };
    proof {
        assert(max_px * (font.units_per_px as int) <= 0x8000 * 0x1_0000) by (nonlinear_arith)
            requires
                0 <= max_px <= 0x8000,
                0 <= font.units_per_px <= 0x1_0000,
        ;
        assert(0 <= max_px * (font.units_per_px as int)) by (nonlinear_arith)
            requires
                0 <= max_px,
                0 <= font.units_per_px,
        ;
    }
    let max_units: u64 = max_px * (font.units_per_px as u64);
    proof {
        assert(max_units as int == max_line_units_spec(
            w,
            horiz_padding as int,
            font.units_per_px as int,
        ));
    }
    let lines = split_into_lines(caption, font, max_units);
    let ghost line_texts = lines.deep_view();
    let nl = lines.len();
    proof {
        assert((nl as int) * (font.line_height as int) <= 0xffff_ffff_ffff_ffff * 0x1_0000)
            by (nonlinear_arith)
            requires
                0 <= nl <= 0xffff_ffff_ffff_ffff,
                0 <= font.line_height <= 0x1_0000,
        ;
        assert(0 <= (nl as int) * (font.line_height as int)) by (nonlinear_arith)
            requires
                0 <= nl,
                0 <= font.line_height,
        ;
        assert((font.line_height as int) * (nl as int) == (nl as int) * (font.line_height as int))
            by (nonlinear_arith);
    }
    let mut line_y: i128 = buf.height as i128 - bottom_margin as i128 - (font.line_height as i128)
        * (nl as i128);
    let ghost y0 = line_y as int;
    let mut li: usize = 0;
    while li < nl
        invariant
            li <= nl,
            nl == lines@.len(),
            line_texts == lines.deep_view(),
            line_texts.len() == nl,
            font.wf(),
            buf.wf(),
            buf.width as int == w,
            buf.height as int == h,
            line_y as int == y0 + li * (font.line_height as int),
            -0x1_0000_0000_0000_0000_0000_0000 <= y0,
            y0 <= 0x1_0000,
            (nl as int) * (font.line_height as int) <= 0xffff_ffff_ffff_ffff * 0x1_0000,
            font.line_height <= 0x1_0000,
            render_lines_rec(data0, w, color, font, line_texts, 0, y0) == render_lines_rec(
                buf.data@,
                w,
                color,
                font,
                line_texts,
                li as int,
                line_y as int,
            ),
        decreases nl - li,
    {
        proof {
            assert((li as int) * (font.line_height as int) <= (nl as int) * (
            font.line_height as int)) by (nonlinear_arith)
                requires
                    0 <= li <= nl,
                    0 <= font.line_height,
            ;
            assert(0 <= (li as int) * (font.line_height as int)) by (nonlinear_arith)
                requires
                    0 <= li,
                    0 <= font.line_height,
            ;
            assert(line_texts[li as int] == lines@[li as int]@);
        }
        draw_text_centered_mut(buf, color, font, lines[li].as_str(), line_y);
        proof {
            assert((li as int + 1) * (font.line_height as int) == (li as int) * (
            font.line_height as int) + (font.line_height as int)) by (nonlinear_arith);
        }
        line_y = line_y + font.line_height as i128;
        li = li + 1;
    }
}

/// Law: an empty caption yields zero lines, and the compositor then mutates
/// no pixel at all.
pub proof fn lemma_empty_caption_renders_nothing(
    data: Seq<Rgba>,
    w: int,
    h: int,
    color: Rgba,
    f: &FontModel,
    bottom: int,
    pad: int,
)
    ensures
        render_caption_spec(data, w, h, color, f, Seq::empty(), bottom, pad) == data,
{
    let max = max_line_units_spec(w, pad, f.units_per_px as int);
    assert(crate::wrap::words(Seq::empty()) =~= Seq::<Seq<char>>::empty());
    assert(crate::wrap::wrap_words_spec(f, Seq::empty(), max) =~= Seq::<Seq<Seq<char>>>::empty());
    assert(lines_spec(f, Seq::empty(), max) =~= Seq::<Seq<char>>::empty());
}

} // verus!
