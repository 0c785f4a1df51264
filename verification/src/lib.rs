//! Caption layout and compositing for animated raster images.
//!
//! The library wraps a caption string into lines that fit a pixel budget,
//! centers each line horizontally, stacks the lines above a bottom margin,
//! and alpha-blends glyph coverage into raw pixel buffers. Glyph metrics and
//! rasters are plain integer data supplied by the caller (advance widths in
//! fixed-point units, coverage as 8-bit values), so the whole engine is
//! verified; font parsing and container encoding live outside the library.

pub mod buffer;
pub mod compose;
pub mod font;
pub mod frames;
pub mod wrap;
