use gif_caption::buffer::{blend, PixelBuffer, Rgba};
use gif_caption::compose::{draw_glyph_raster, draw_text_centered_mut, render_bottom_caption_mut};
use gif_caption::font::{FontModel, Glyph, GlyphRaster};

const BLACK: Rgba = Rgba { r: 0, g: 0, b: 0, a: 255 };
const WHITE: Rgba = Rgba { r: 255, g: 255, b: 255, a: 255 };

/// A font whose characters are solid 1x1 dots, `advance` units apart.
fn dot_font(advance: u32, line_height: u32) -> FontModel {
    FontModel {
        glyphs: vec![(
            ' ',
            Glyph { advance, raster: None },
        )],
        missing: Glyph {
            advance,
            raster: Some(GlyphRaster {
                left: 0,
                top: 0,
                width: 1,
                height: 1,
                coverage: vec![255],
            }),
        },
        units_per_px: 1,
        line_height,
    }
}

fn count_white(buf: &PixelBuffer) -> usize {
    let mut n = 0;
    for y in 0..buf.height {
        for x in 0..buf.width {
            if buf.get_pixel(x, y) == WHITE {
                n += 1;
            }
        }
    }
    n
}

#[test]
fn blend_zero_coverage_is_identity() {
    let dst = Rgba { r: 10, g: 20, b: 30, a: 40 };
    assert_eq!(blend(dst, WHITE, 0), dst);
}

#[test]
fn blend_full_coverage_is_overlay_color() {
    let dst = Rgba { r: 10, g: 20, b: 30, a: 40 };
    assert_eq!(blend(dst, WHITE, 255), WHITE);
}

#[test]
fn blend_mixes_linearly() {
    // (100 * 204 + 200 * 51) / 255 = 120 exactly.
    let dst = Rgba { r: 100, g: 100, b: 100, a: 100 };
    let color = Rgba { r: 200, g: 200, b: 200, a: 200 };
    let out = blend(dst, color, 51);
    assert_eq!(out, Rgba { r: 120, g: 120, b: 120, a: 120 });
}

#[test]
fn glyph_clipped_at_top_left_corner() {
    let mut buf = PixelBuffer::new_filled(2, 2, BLACK);
    let raster = GlyphRaster {
        left: 0,
        top: 0,
        width: 3,
        height: 3,
        coverage: vec![255; 9],
    };
    // Grid hangs one row and one column off the top-left edge: no panic,
    // the four in-range pixels are painted, nothing else exists to touch.
    draw_glyph_raster(&mut buf, WHITE, &raster, -1, -1);
    assert_eq!(count_white(&buf), 4);
}

#[test]
fn glyph_fully_outside_changes_nothing() {
    let mut buf = PixelBuffer::new_filled(3, 3, BLACK);
    let raster = GlyphRaster {
        left: 0,
        top: 0,
        width: 2,
        height: 2,
        coverage: vec![255; 4],
    };
    draw_glyph_raster(&mut buf, WHITE, &raster, 5, 5);
    assert_eq!(count_white(&buf), 0);
    draw_glyph_raster(&mut buf, WHITE, &raster, -7, 0);
    assert_eq!(count_white(&buf), 0);
}

#[test]
fn glyph_partially_below_clips_silently() {
    let mut buf = PixelBuffer::new_filled(4, 4, BLACK);
    let raster = GlyphRaster {
        left: 0,
        top: 0,
        width: 2,
        height: 3,
        coverage: vec![255; 6],
    };
    draw_glyph_raster(&mut buf, WHITE, &raster, 1, 2);
    // Rows at y = 2 and y = 3 are painted; the row at y = 4 does not exist.
    assert_eq!(count_white(&buf), 4);
    assert_eq!(buf.get_pixel(1, 2), WHITE);
    assert_eq!(buf.get_pixel(2, 3), WHITE);
    assert_eq!(buf.get_pixel(1, 1), BLACK);
}

#[test]
fn line_is_centered() {
    // "ab": dots 1 unit (= 1 px) apart; measured width from the last dot's
    // right edge: 1 + 1 = 2. Origin = 10/2 - 2/2 = 4.
    let font = dot_font(1, 3);
    let mut buf = PixelBuffer::new_filled(10, 5, BLACK);
    draw_text_centered_mut(&mut buf, WHITE, &font, "ab", 1);
    assert_eq!(buf.get_pixel(4, 1), WHITE);
    assert_eq!(buf.get_pixel(5, 1), WHITE);
    assert_eq!(count_white(&buf), 2);
}

#[test]
fn width_measure_uses_only_the_last_glyph() {
    // 'b' has no ink: a line ending in it measures zero wide, so the line's
    // origin falls at the buffer midline — the documented approximation.
    let mut font = dot_font(1, 3);
    font.glyphs.push((
        'b',
        Glyph { advance: 1, raster: None },
    ));
    let mut buf = PixelBuffer::new_filled(10, 5, BLACK);
    draw_text_centered_mut(&mut buf, WHITE, &font, "ab", 1);
    // Width 0: origin = 10/2 - 0 = 5; only 'a' has ink, at pen 0.
    assert_eq!(buf.get_pixel(5, 1), WHITE);
    assert_eq!(count_white(&buf), 1);
}

#[test]
fn partial_coverage_blends_through_the_draw_path() {
    let mut buf = PixelBuffer::new_filled(1, 1, Rgba { r: 100, g: 100, b: 100, a: 100 });
    let raster = GlyphRaster {
        left: 0,
        top: 0,
        width: 1,
        height: 1,
        coverage: vec![51],
    };
    let color = Rgba { r: 200, g: 200, b: 200, a: 200 };
    draw_glyph_raster(&mut buf, color, &raster, 0, 0);
    assert_eq!(buf.get_pixel(0, 0), Rgba { r: 120, g: 120, b: 120, a: 120 });
}

#[test]
fn empty_caption_mutates_no_pixel() {
    let font = dot_font(3, 7);
    let mut buf = PixelBuffer::new_filled(20, 30, BLACK);
    render_bottom_caption_mut(&mut buf, WHITE, &font, "", 2, 1);
    assert_eq!(count_white(&buf), 0);
    render_bottom_caption_mut(&mut buf, WHITE, &font, " \t ", 2, 1);
    assert_eq!(count_white(&buf), 0);
    render_bottom_caption_mut(&mut buf, WHITE, &font, "\u{2003}\u{a0}", 2, 1);
    assert_eq!(count_white(&buf), 0);
}

#[test]
fn hello_world_stacks_two_centered_lines() {
    // Width 20, padding 1 each side: budget 18 units. Each word is 15
    // units, together 33: two lines. Measured line width: last dot at pen
    // 12 plus its 1-px grid = 13; origin = 10 - 6 = 4. Dots at
    // x = 4, 7, 10, 13, 16. Block of 2 lines, line height 7, bottom margin
    // 2, height 30: first line top at 30 - 2 - 14 = 14, second at 21.
    let font = dot_font(3, 7);
    let mut buf = PixelBuffer::new_filled(20, 30, BLACK);
    render_bottom_caption_mut(&mut buf, WHITE, &font, "Hello World", 2, 1);
    for x in [4u32, 7, 10, 13, 16] {
        assert_eq!(buf.get_pixel(x, 14), WHITE, "first line at x={x}");
        assert_eq!(buf.get_pixel(x, 21), WHITE, "second line at x={x}");
    }
    assert_eq!(count_white(&buf), 10);
}

#[test]
fn single_overlong_word_renders_on_one_line() {
    // Budget 4 units; "Hello" is 15: one line, drawn whole, clipped only by
    // the buffer edges (none here).
    let font = dot_font(3, 7);
    let mut buf = PixelBuffer::new_filled(20, 30, BLACK);
    render_bottom_caption_mut(&mut buf, WHITE, &font, "Hello", 2, 8);
    // One line: top at 30 - 2 - 7 = 21. Width 13, origin 10 - 6 = 4.
    for x in [4u32, 7, 10, 13, 16] {
        assert_eq!(buf.get_pixel(x, 21), WHITE, "dot at x={x}");
    }
    assert_eq!(count_white(&buf), 5);
}
