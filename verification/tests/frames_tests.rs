use gif_caption::buffer::{PixelBuffer, Rgba};
use gif_caption::font::{FontModel, Glyph, GlyphRaster};
use gif_caption::frames::{caption_frames, Frame, FrameSelector};

const BLACK: Rgba = Rgba { r: 0, g: 0, b: 0, a: 255 };
const WHITE: Rgba = Rgba { r: 255, g: 255, b: 255, a: 255 };

fn dot_font() -> FontModel {
    FontModel {
        glyphs: vec![(' ', Glyph { advance: 2, raster: None })],
        missing: Glyph {
            advance: 2,
            raster: Some(GlyphRaster {
                left: 0,
                top: 0,
                width: 1,
                height: 1,
                coverage: vec![255],
            }),
        },
        units_per_px: 1,
        line_height: 3,
    }
}

fn count_white(buf: &PixelBuffer) -> usize {
    let mut n = 0;
    for y in 0..buf.height {
        for x in 0..buf.width {
            if buf.get_pixel(x, y) == WHITE {
                n += 1;
            }
        }
    }
    n
}

#[test]
fn selector_range_is_exclusive_on_both_ends() {
    let sel = FrameSelector { frame_start: 12, frame_end: 36 };
    assert!(!sel.should_caption(1));
    assert!(!sel.should_caption(11));
    assert!(!sel.should_caption(12));
    for i in 13..=35 {
        assert!(sel.should_caption(i), "frame {i} should be captioned");
    }
    assert!(!sel.should_caption(36));
    assert!(!sel.should_caption(37));
    assert!(!sel.should_caption(1000));
}

#[test]
fn pipeline_captions_only_selected_frames() {
    let font = dot_font();
    let frames = vec![
        Frame { buffer: PixelBuffer::new_filled(12, 12, BLACK), delay_cs: 3 },
        Frame { buffer: PixelBuffer::new_filled(12, 12, BLACK), delay_cs: 4 },
        Frame { buffer: PixelBuffer::new_filled(12, 12, BLACK), delay_cs: 5 },
    ];
    let sel = FrameSelector { frame_start: 1, frame_end: 3 };
    let out = caption_frames(&frames, &font, "a", &sel, WHITE, 1, 1, 6);

    assert_eq!(out.len(), 3);
    for f in &out {
        assert_eq!(f.delay_cs, 6);
        assert_eq!(f.buffer.width, 12);
        assert_eq!(f.buffer.height, 12);
    }
    // Only the second frame (1-based ordinal 2) lies strictly inside the
    // range; the others pass through untouched.
    assert_eq!(count_white(&out[0].buffer), 0);
    assert_eq!(count_white(&out[1].buffer), 1);
    assert_eq!(count_white(&out[2].buffer), 0);
}

#[test]
fn pipeline_does_not_mutate_the_source() {
    let font = dot_font();
    let frames = vec![Frame {
        buffer: PixelBuffer::new_filled(8, 8, BLACK),
        delay_cs: 2,
    }];
    let sel = FrameSelector { frame_start: 0, frame_end: 2 };
    let out = caption_frames(&frames, &font, "x", &sel, WHITE, 1, 1, 9);
    assert_eq!(count_white(&out[0].buffer), 1);
    assert_eq!(count_white(&frames[0].buffer), 0);
    assert_eq!(frames[0].delay_cs, 2);
}

#[test]
fn pipeline_with_empty_caption_changes_no_pixels() {
    let font = dot_font();
    let frames = vec![
        Frame { buffer: PixelBuffer::new_filled(6, 6, BLACK), delay_cs: 1 },
        Frame { buffer: PixelBuffer::new_filled(6, 6, BLACK), delay_cs: 1 },
    ];
    let sel = FrameSelector { frame_start: 0, frame_end: 10 };
    let out = caption_frames(&frames, &font, "", &sel, WHITE, 1, 1, 6);
    assert_eq!(out.len(), 2);
    for f in &out {
        assert_eq!(count_white(&f.buffer), 0);
        assert_eq!(f.delay_cs, 6);
    }
}
