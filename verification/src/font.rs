//! Integer glyph metrics: the library's model of a font at one fixed scale.
//!
//! Advance widths are measured in fixed-point units (`units_per_px` units to
//! the pixel) so that the additive wrapping arithmetic is exact. A glyph's
//! visible ink, if any, is an 8-bit coverage grid together with the pixel
//! offset of that grid from the pen position.

use vstd::prelude::*;

verus! {

/// Largest advance width, in units, that a well-formed glyph may carry.
pub const ADVANCE_MAX: u32 = 0x10_0000;

/// Largest raster offset magnitude, in pixels, that a well-formed glyph may
/// carry.
pub const OFFSET_MAX: i32 = 0x1_0000;

/// The rendered ink of one glyph: a `width x height` grid of coverage
/// values in row-major order, whose top-left cell sits `left` pixels right
/// of and `top` pixels below the glyph's pen position.
pub struct GlyphRaster {
    pub left: i32,
    pub top: i32,
    pub width: u32,
    pub height: u32,
    pub coverage: Vec<u8>,
}

impl GlyphRaster {
    pub open spec fn wf(&self) -> bool {
        &&& self.width <= 0x8000
        &&& self.height <= 0x8000
        &&& -OFFSET_MAX <= self.left <= OFFSET_MAX
        &&& -OFFSET_MAX <= self.top <= OFFSET_MAX
        &&& self.coverage@.len() == self.width * self.height
    }
}

/// One glyph: its advance width in units, and its ink. Glyphs with no
/// visible ink (a space) carry no raster.
pub struct Glyph {
    pub advance: u32,
    pub raster: Option<GlyphRaster>,
}

impl Glyph {
    pub open spec fn wf(&self) -> bool {
        &&& self.advance <= ADVANCE_MAX
        &&& match self.raster {
            Some(r) => r.wf(),
            None => true,
        }
    }
}

/// A font at one fixed render scale, reduced to plain integer data: a glyph
/// table keyed by character, a fallback glyph for characters the table does
/// not cover, the fixed-point resolution of advance widths, and the line
/// height in pixels.
pub struct FontModel {
    pub glyphs: Vec<(char, Glyph)>,
    pub missing: Glyph,
    pub units_per_px: u32,
    pub line_height: u32,
}

/// The first table entry for `c`, or the fallback when there is none.
pub open spec fn lookup_glyph(table: Seq<(char, Glyph)>, c: char, missing: Glyph) -> Glyph
    decreases table.len(),
{
    if table.len() == 0 {
        missing
    } else if table[0].0 == c {
        table[0].1
    } else {
        lookup_glyph(table.drop_first(), c, missing)
    }
}

impl FontModel {
    pub open spec fn wf(&self) -> bool {
        &&& forall|i: int| 0 <= i < self.glyphs@.len() ==> (#[trigger] self.glyphs@[i]).1.wf()
        &&& self.missing.wf()
        &&& 1 <= self.units_per_px <= 0x1_0000
        &&& self.line_height <= 0x1_0000
    }

    /// The glyph this font renders for `c`.
    pub open spec fn glyph_of(&self, c: char) -> Glyph {
        lookup_glyph(self.glyphs@, c, self.missing)
    }

    /// The advance width of `c`, in units.
    pub open spec fn advance_of(&self, c: char) -> int {
        self.glyph_of(c).advance as int
    }

    /// The advance width of the word separator, in units.
    pub open spec fn space_advance(&self) -> int {
        self.advance_of(' ')
    }

    /// Find the glyph for `c`: the first table entry for it, or the
    /// fallback glyph.
    pub fn lookup(&self, c: char) -> (g: &Glyph)
        ensures
            *g == self.glyph_of(c),
    {
        let n = self.glyphs.len();
        proof {
            assert(self.glyphs@.subrange(0, n as int) =~= self.glyphs@);
        }
        let mut i: usize = 0;
        while i < n
            invariant
                i <= n,
                n == self.glyphs@.len(),
                lookup_glyph(self.glyphs@, c, self.missing) == lookup_glyph(
                    self.glyphs@.subrange(i as int, n as int),
                    c,
                    self.missing,
                ),
            decreases n - i,
        {
            let entry = &self.glyphs[i];
            proof {
                assert(self.glyphs@.subrange(i as int, n as int).drop_first() =~= self.glyphs@
                    .subrange(i as int + 1, n as int));
            }
            if entry.0 == c {
                return &entry.1;
            }
            i = i + 1;
        }
        &self.missing
    }

    /// The advance width of `c`, in units.
    pub fn advance_width(&self, c: char) -> (w: u32)
        ensures
            w as int == self.advance_of(c),
    {
        self.lookup(c).advance
    }
}

/// Every glyph a well-formed font returns is itself well-formed.
pub proof fn lemma_lookup_glyph_wf(table: Seq<(char, Glyph)>, c: char, missing: Glyph)
    requires
        forall|i: int| 0 <= i < table.len() ==> (#[trigger] table[i]).1.wf(),
        missing.wf(),
    ensures
        lookup_glyph(table, c, missing).wf(),
    decreases table.len(),
{
    if table.len() > 0 && table[0].0 != c {
        lemma_lookup_glyph_wf(table.drop_first(), c, missing);
    }
}

/// The glyph a well-formed font renders for any character is well-formed.
pub proof fn lemma_glyph_of_wf(f: &FontModel, c: char)
    requires
        f.wf(),
    ensures
        f.glyph_of(c).wf(),
{
    lemma_lookup_glyph_wf(f.glyphs@, c, f.missing);
}

} // verus!
