//! The library's own model of a fixed-cell bitmap font.
//!
//! Glyph bitmaps and metrics are held as plain values, so the rasterizer's
//! coordinate arithmetic can be reasoned about; loading a font file and
//! converting its glyphs into this form is a caller's concern.

use vstd::prelude::*;

verus! {

/// One character's bitmap and metrics. `bits` is the bitmap in row-major
/// order, top row first: bit `gy * width + gx` tells whether the pixel in
/// column `gx` of row `gy` is set. `y_offset` is the signed height of the
/// glyph's bottom edge above the font baseline (negative for descenders),
/// `x_offset` the signed distance from the cell origin to the glyph's left
/// edge.
pub struct Glyph {
    pub width: u32,
    pub height: u32,
    pub x_offset: i32,
    pub y_offset: i32,
    pub bits: Vec<bool>,
}

impl Glyph {
    /// The bitmap holds exactly one bit per pixel of the glyph's box.
    pub open spec fn wf(self) -> bool {
        self.bits@.len() == self.width * self.height
    }
}

/// The first glyph recorded for `c` in a glyph table, if any.
pub open spec fn spec_lookup(glyphs: Seq<(char, Glyph)>, c: char) -> Option<Glyph>
    decreases glyphs.len(),
{
    if glyphs.len() == 0 {
        None
    } else if glyphs[0].0 == c {
        Some(glyphs[0].1)
    } else {
        spec_lookup(glyphs.drop_first(), c)
    }
}

/// A monospace bitmap font: a fixed cell shared by every glyph, and the
/// glyph table as character/glyph pairs.
pub struct Font {
    pub cell_width: u32,
    pub cell_height: u32,
    pub glyphs: Vec<(char, Glyph)>,
}

impl Font {
    /// A font is well formed when every glyph in its table is.
    pub open spec fn wf(self) -> bool {
        forall|i: int| 0 <= i < self.glyphs@.len() ==> (#[trigger] self.glyphs@[i]).1.wf()
    }

    /// The glyph this font records for `c`, if any.
    pub open spec fn spec_glyph(self, c: char) -> Option<Glyph> {
        spec_lookup(self.glyphs@, c)
    }

    /// Finds the glyph for `c` in the table.
    pub fn lookup(&self, c: char) -> (r: Option<&Glyph>)
        ensures
            match r {
                Some(g) => self.spec_glyph(c) == Some(*g),
                None => self.spec_glyph(c) is None,
            },
    {
        let mut i: usize = 0;
        proof {
            assert(self.glyphs@.skip(0) =~= self.glyphs@);
        }
        while i < self.glyphs.len()
            invariant
                i <= self.glyphs@.len(),
                spec_lookup(self.glyphs@.skip(i as int), c) == self.spec_glyph(c),
            decreases self.glyphs@.len() - i,
        {
            proof {
                assert(self.glyphs@.skip(i as int)[0] == self.glyphs@[i as int]);
                assert(self.glyphs@.skip(i as int).drop_first() =~= self.glyphs@.skip(i + 1));
            }
            if self.glyphs[i].0 == c {
                return Some(&self.glyphs[i].1);
            }
            i = i + 1;
        }
        proof {
            assert(self.glyphs@.skip(self.glyphs@.len() as int) =~= Seq::<(char, Glyph)>::empty());
        }
        None
    }
}

/// Metrics that keep a glyph inside the font's nominal cell: no wider than
/// the cell, sitting on or above the baseline, and no taller than the cell
/// above it.
pub open spec fn glyph_fits_cell(g: Glyph, cell_w: int, cell_h: int) -> bool {
    &&& g.width <= cell_w
    &&& 0 <= g.y_offset
    &&& g.y_offset + g.height <= cell_h
}

impl Font {
    /// Every glyph of the font fits its nominal cell.
    pub open spec fn fits_cells(self) -> bool {
        forall|i: int|
            0 <= i < self.glyphs@.len() ==> glyph_fits_cell(
                (#[trigger] self.glyphs@[i]).1,
                self.cell_width as int,
                self.cell_height as int,
            )
    }
}

/// In a table whose glyphs all fit their cell, every glyph a lookup can
/// return fits it too.
pub proof fn lemma_lookup_fits(glyphs: Seq<(char, Glyph)>, c: char, cell_w: int, cell_h: int)
    requires
        forall|i: int|
            0 <= i < glyphs.len() ==> glyph_fits_cell((#[trigger] glyphs[i]).1, cell_w, cell_h),
        spec_lookup(glyphs, c) is Some,
    ensures
        glyph_fits_cell(spec_lookup(glyphs, c)->Some_0, cell_w, cell_h),
    decreases glyphs.len(),
{
    if glyphs.len() == 0 {
    } else if glyphs[0].0 == c {
        assert(glyph_fits_cell(glyphs[0].1, cell_w, cell_h));
    } else {
        assert(forall|i: int|
            0 <= i < glyphs.drop_first().len() ==> glyph_fits_cell(
                (#[trigger] glyphs.drop_first()[i]).1,
                cell_w,
                cell_h,
            ));
        lemma_lookup_fits(glyphs.drop_first(), c, cell_w, cell_h);
    }
}

/// In a well-formed glyph table every glyph that a lookup can return is
/// itself well formed.
pub proof fn lemma_lookup_wf(glyphs: Seq<(char, Glyph)>, c: char)
    requires
        forall|i: int| 0 <= i < glyphs.len() ==> (#[trigger] glyphs[i]).1.wf(),
        spec_lookup(glyphs, c) is Some,
    ensures
        spec_lookup(glyphs, c)->Some_0.wf(),
    decreases glyphs.len(),
{
    if glyphs.len() == 0 {
    } else if glyphs[0].0 == c {
        assert(glyphs[0].1.wf());
    } else {
        assert(forall|i: int|
            0 <= i < glyphs.drop_first().len() ==> (#[trigger] glyphs.drop_first()[i]).1.wf());
        lemma_lookup_wf(glyphs.drop_first(), c);
    }
}

} // verus!
