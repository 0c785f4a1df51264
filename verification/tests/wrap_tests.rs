use gif_caption::font::{FontModel, Glyph, GlyphRaster};
use gif_caption::wrap::{split_into_lines, split_words};

/// A font whose every character is `advance` units wide, with no ink.
fn flat_font(advance: u32) -> FontModel {
    FontModel {
        glyphs: Vec::new(),
        missing: Glyph { advance, raster: None },
        units_per_px: 1,
        line_height: 10,
    }
}

fn ink_glyph(advance: u32) -> Glyph {
    Glyph {
        advance,
        raster: Some(GlyphRaster {
            left: 0,
            top: 0,
            width: 1,
            height: 1,
            coverage: vec![255],
        }),
    }
}

#[test]
fn split_words_basic() {
    let ws = split_words("Hello World");
    assert_eq!(ws, vec!["Hello".to_string(), "World".to_string()]);
}

#[test]
fn split_words_collapses_whitespace() {
    let ws = split_words("  a \t\n b  ");
    assert_eq!(ws, vec!["a".to_string(), "b".to_string()]);
}

#[test]
fn split_words_on_unicode_whitespace() {
    // No-break space, em space, next line, ideographic space all separate.
    let ws = split_words("a\u{a0}b\u{2003}c\u{85}d\u{3000}e");
    assert_eq!(
        ws,
        vec![
            "a".to_string(),
            "b".to_string(),
            "c".to_string(),
            "d".to_string(),
            "e".to_string()
        ]
    );
}

#[test]
fn unicode_whitespace_only_caption_yields_zero_lines() {
    let font = flat_font(10);
    assert!(split_words("\u{2003}\u{a0}\u{202f}").is_empty());
    assert!(split_into_lines("\u{2003}\u{a0}", &font, 100).is_empty());
}

#[test]
fn trailing_em_space_is_not_part_of_the_word() {
    // "a" followed by an em space is the single word "a"; even when it is
    // wider than the budget the line holds the bare word.
    let font = flat_font(10);
    let lines = split_into_lines("a\u{2003}", &font, 5);
    assert_eq!(lines, vec!["a".to_string()]);
}

#[test]
fn split_words_empty() {
    let ws = split_words("");
    assert!(ws.is_empty());
    let ws = split_words("   ");
    assert!(ws.is_empty());
}

#[test]
fn empty_caption_yields_zero_lines() {
    let font = flat_font(10);
    let lines = split_into_lines("", &font, 100);
    assert!(lines.is_empty());
}

#[test]
fn two_words_fit_exactly() {
    // 5 + 1 + 5 characters at 10 units each: exactly 110; equality fits.
    let font = flat_font(10);
    let lines = split_into_lines("Hello World", &font, 110);
    assert_eq!(lines, vec!["Hello World".to_string()]);
}

#[test]
fn two_words_split_when_too_narrow() {
    // One unit short of fitting both words on a line.
    let font = flat_font(10);
    let lines = split_into_lines("Hello World", &font, 109);
    assert_eq!(lines, vec!["Hello".to_string(), "World".to_string()]);
}

#[test]
fn single_overlong_word_stays_whole() {
    let font = flat_font(10);
    let lines = split_into_lines("Hello", &font, 10);
    assert_eq!(lines, vec!["Hello".to_string()]);
}

#[test]
fn overlong_word_between_others() {
    // "aa" = 20, "bbbbb" = 50 (over the 40 budget), "cc" = 20.
    let font = flat_font(10);
    let lines = split_into_lines("aa bbbbb cc", &font, 40);
    assert_eq!(
        lines,
        vec!["aa".to_string(), "bbbbb".to_string(), "cc".to_string()]
    );
}

#[test]
fn greedy_packing() {
    let font = flat_font(10);
    // Each word 20 units, separator 10: "aa bb" = 50, adding " cc" = 80 > 70.
    let lines = split_into_lines("aa bb cc", &font, 70);
    assert_eq!(lines, vec!["aa bb".to_string(), "cc".to_string()]);
}

#[test]
fn rewrapping_reconstruction_is_stable() {
    let font = flat_font(10);
    let first = split_into_lines("one two three four five", &font, 85);
    let rebuilt = first.join(" ");
    let second = split_into_lines(&rebuilt, &font, 85);
    assert_eq!(first, second);
}

#[test]
fn advance_widths_come_from_the_table() {
    // 'i' is narrow, 'w' is wide; the table, not the fallback, decides.
    let font = FontModel {
        glyphs: vec![
            ('i', ink_glyph(2)),
            ('w', ink_glyph(20)),
            (' ', Glyph { advance: 5, raster: None }),
        ],
        missing: Glyph { advance: 10, raster: None },
        units_per_px: 1,
        line_height: 10,
    };
    // "ii" = 4, "ww" = 40; 4 + 5 + 40 = 49 > 44, so they split.
    let lines = split_into_lines("ii ww", &font, 44);
    assert_eq!(lines, vec!["ii".to_string(), "ww".to_string()]);
    // With the space and both words within budget they share a line.
    let lines = split_into_lines("ii ww", &font, 49);
    assert_eq!(lines, vec!["ii ww".to_string()]);
}
