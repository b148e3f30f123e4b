//! The whole pipeline: wrap the text, size the canvas, rasterize the
//! glyphs, optionally draw a border, and composite the dense RGBA buffer.

use vstd::prelude::*;

use crate::border::{add_box, border_set};
use crate::color::Rgba;
use crate::composite::{composite, buffer_ok};
use crate::font::Font;
use crate::raster::{rasterize, raster_ok, text_coords, pix_set, RasterError};
use crate::wrap::{wrap_text, wrap_lines, line_views, max_len_of, lemma_max_len_ge};

verus! {

/// A finished image: dense RGBA bytes in row-major order.
#[derive(Debug)]
pub struct Image {
    pub pixels: Vec<u8>,
    pub width: u32,
    pub height: u32,
}

/// The canvas width that fits `max_len` glyph cells plus padding on both
/// sides.
pub open spec fn spec_canvas_width(cell_w: int, max_len: int, padding: int) -> int {
    cell_w * max_len + 2 * padding
}

/// The canvas height that fits `n_lines` glyph cells plus padding on both
/// sides.
pub open spec fn spec_canvas_height(cell_h: int, n_lines: int, padding: int) -> int {
    cell_h * n_lines + 2 * padding
}

/// The machine limits a canvas must respect: each dimension and the pixel
/// count fit `u32`, and the byte count fits `usize`.
pub open spec fn canvas_fits(w: int, h: int) -> bool {
    &&& w <= u32::MAX
    &&& h <= u32::MAX
    &&& w * h <= u32::MAX
    &&& 4 * (w * h) <= usize::MAX
}

/// Computes the canvas dimensions for `max_len` columns of `n_lines` glyph
/// cells with `padding` pixels on every side: `None` when a machine limit
/// would be exceeded.
pub fn canvas_size(cell_w: u32, cell_h: u32, max_len: u32, n_lines: usize, padding: u32) -> (r:
    Option<(u32, u32)>)
    ensures
        ({
            let w = spec_canvas_width(cell_w as int, max_len as int, padding as int);
            let h = spec_canvas_height(cell_h as int, n_lines as int, padding as int);
            match r {
                Some(wh) => wh.0 == w && wh.1 == h && canvas_fits(w, h),
                None => !canvas_fits(w, h),
            }
        }),
{
    proof {
        let cw = cell_w as int;
        let ml = max_len as int;
        let ch = cell_h as int;
        let nl = n_lines as int;
        assert(0 <= cw * ml && cw * ml < 0x1000000000000000000000000) by (nonlinear_arith)
            requires
                0 <= cw < 0x100000000,
                0 <= ml < 0x100000000,
        ;
        assert(0 <= ch * nl && ch * nl < 0x1000000000000000000000000) by (nonlinear_arith)
            requires
                0 <= ch < 0x100000000,
                0 <= nl < 0x10000000000000000,
        ;
    }
    let w128: u128 = cell_w as u128 * max_len as u128 + 2 * padding as u128;
    let h128: u128 = cell_h as u128 * n_lines as u128 + 2 * padding as u128;
    if w128 > u32::MAX as u128 || h128 > u32::MAX as u128 {
        return None;
    }
    proof {
        assert(w128 * h128 <= 0x100000000000000000000000000000000 - 1) by (nonlinear_arith)
            requires
                w128 <= 0xffffffff,
                h128 <= 0xffffffff,
        ;
    }
    let wh: u128 = w128 * h128;
    if wh > u32::MAX as u128 {
        return None;
    }
    if 4 * wh > usize::MAX as u128 {
        return None;
    }
    Some((w128 as u32, h128 as u32))
}

/// The wrap limit actually applied: the given one, or effectively none.
pub open spec fn effective_wrap(wrap_at: Option<u32>) -> int {
    match wrap_at {
        Some(m) => m as int,
        None => u32::MAX as int,
    }
}

/// Everything `render` needs to succeed on `text`: every wrapped line's
/// length fits `u32`, the sized canvas respects the machine limits, a
/// requested border has room, and every glyph exists and lands inside the
/// canvas.
pub open spec fn render_ok(
    text: Seq<char>,
    font: Font,
    padding: int,
    wrap_at: Option<u32>,
    border: bool,
) -> bool {
    let lines = wrap_lines(text, effective_wrap(wrap_at));
    let w = spec_canvas_width(font.cell_width as int, max_len_of(lines), padding);
    let h = spec_canvas_height(font.cell_height as int, lines.len() as int, padding);
    &&& max_len_of(lines) <= u32::MAX
    &&& canvas_fits(w, h)
    &&& (border ==> 2 <= w && 2 <= h)
    &&& raster_ok(lines, font, padding, w, h)
}

/// The painted-pixel set of the finished image: the text's glyph bits,
/// plus the border frame when one is requested.
pub open spec fn render_coords(
    text: Seq<char>,
    font: Font,
    padding: int,
    wrap_at: Option<u32>,
    border: bool,
) -> Set<int> {
    let lines = wrap_lines(text, effective_wrap(wrap_at));
    let w = spec_canvas_width(font.cell_width as int, max_len_of(lines), padding);
    let h = spec_canvas_height(font.cell_height as int, lines.len() as int, padding);
    if border {
        text_coords(lines, font, padding, w, h).union(border_set(w, h))
    } else {
        text_coords(lines, font, padding, w, h)
    }
}

/// Success is owed on well-behaved inputs: when every glyph of the font
/// fits its nominal cell, every character of the wrapped text has a glyph,
/// and the machine limits of the derived canvas hold, `render` cannot fail.
pub proof fn lemma_render_ok_when_sized(
    text: Seq<char>,
    font: Font,
    padding: int,
    wrap_at: Option<u32>,
    border: bool,
)
    requires
        font.fits_cells(),
        crate::raster::glyphs_present(wrap_lines(text, effective_wrap(wrap_at)), font),
        0 <= padding,
        max_len_of(wrap_lines(text, effective_wrap(wrap_at))) <= u32::MAX,
        canvas_fits(
            spec_canvas_width(
                font.cell_width as int,
                max_len_of(wrap_lines(text, effective_wrap(wrap_at))),
                padding,
            ),
            spec_canvas_height(
                font.cell_height as int,
                wrap_lines(text, effective_wrap(wrap_at)).len() as int,
                padding,
            ),
        ),
        border ==> 2 <= spec_canvas_width(
            font.cell_width as int,
            max_len_of(wrap_lines(text, effective_wrap(wrap_at))),
            padding,
        ) && 2 <= spec_canvas_height(
            font.cell_height as int,
            wrap_lines(text, effective_wrap(wrap_at)).len() as int,
            padding,
        ),
    ensures
        render_ok(text, font, padding, wrap_at, border),
{
    let lines = wrap_lines(text, effective_wrap(wrap_at));
    let ml = max_len_of(lines);
    let w = spec_canvas_width(font.cell_width as int, ml, padding);
    let h = spec_canvas_height(font.cell_height as int, lines.len() as int, padding);
    assert forall|li: int| 0 <= li < lines.len() implies (#[trigger] lines[li]).len() <= ml by {
        lemma_max_len_ge(lines, li);
    }
    crate::raster::lemma_sized_canvas_in_bounds(lines, font, padding, ml, w, h);
}

/// The longest line length, or `None` when one line does not fit `u32`.
fn checked_max_len(lines: &Vec<String>) -> (r: Option<u32>)
    ensures
        match r {
            Some(m) => m as int == max_len_of(line_views(lines@)) && max_len_of(
                line_views(lines@),
            ) <= u32::MAX,
            None => max_len_of(line_views(lines@)) > u32::MAX,
        },
{
    let mut max_len: u32 = 0;
    let mut i: usize = 0;
    proof {
        assert(line_views(lines@).take(0) =~= Seq::<Seq<char>>::empty());
    }
    while i < lines.len()
        invariant
            i <= lines@.len(),
            max_len as int == max_len_of(line_views(lines@).take(i as int)),
        decreases lines@.len() - i,
    {
        let len: usize = lines[i].as_str().unicode_len();
        proof {
            let lv = line_views(lines@);
            assert(lv.take(i + 1).drop_last() =~= lv.take(i as int));
            assert(lv.take(i + 1).last() == lines@[i as int]@);
        }
        if len > u32::MAX as usize {
            proof {
                let lv = line_views(lines@);
                lemma_max_len_ge(lv, i as int);
            }
            return None;
        }
        if len > max_len as usize {
            max_len = len as u32;
        }
        i = i + 1;
    }
    proof {
        assert(line_views(lines@).take(lines@.len() as int) =~= line_views(lines@));
    }
    Some(max_len)
}

/// Renders `text` into an RGBA image: wraps at `wrap_at` characters (or
/// not at all), rasterizes with `font` and `padding` pixels of margin,
/// frames the canvas when `border` is set, and paints `fg` on `bg`.
pub fn render(
    text: &str,
    font: &Font,
    padding: u32,
    wrap_at: Option<u32>,
    border: bool,
    fg: Rgba,
    bg: Rgba,
) -> (r: Result<Image, RasterError>)
    requires
        font.wf(),
    ensures
        ({
            let lines = wrap_lines(text@, effective_wrap(wrap_at));
            let w = spec_canvas_width(font.cell_width as int, max_len_of(lines), padding as int);
            let h = spec_canvas_height(font.cell_height as int, lines.len() as int, padding as int);
            match r {
                Ok(img) => render_ok(text@, *font, padding as int, wrap_at, border) && img.width
                    == w && img.height == h && buffer_ok(
                    img.pixels@,
                    render_coords(text@, *font, padding as int, wrap_at, border),
                    w,
                    h,
                    fg,
                    bg,
                ),
                Err(RasterError::GlyphNotFound(c)) => !render_ok(
                    text@,
                    *font,
                    padding as int,
                    wrap_at,
                    border,
                ) && (exists|li: int, ci: int|
                    0 <= li < lines.len() && 0 <= ci < lines[li].len() && #[trigger] lines[li][ci]
                        == c) && crate::font::spec_lookup(font.glyphs@, c) is None,
                Err(RasterError::LayoutOverflow) => !render_ok(
                    text@,
                    *font,
                    padding as int,
                    wrap_at,
                    border,
                ),
            }
        }),
{
    let max_chars: u32 = match wrap_at {
        Some(m) => m,
        None => u32::MAX,
    };
    let lines = wrap_text(text, max_chars);
    let ghost lv = wrap_lines(text@, effective_wrap(wrap_at));
    proof {
        assert(line_views(lines@) == lv);
    }
    let max_len = match checked_max_len(&lines) {
        Some(m) => m,
        None => {
            return Err(RasterError::LayoutOverflow);
        },
    };
    let (w, h) = match canvas_size(font.cell_width, font.cell_height, max_len, lines.len(), padding) {
        Some(wh) => wh,
        None => {
            return Err(RasterError::LayoutOverflow);
        },
    };
    if border && (w < 2 || h < 2) {
        return Err(RasterError::LayoutOverflow);
    }
    let pix = if border {
        get_box_pixels(&lines, font, padding, w, h)
    } else {
        rasterize(&lines, font, padding, w, h)
    };
    match pix {
        Err(e) => {
            proof {
                match e {
                    RasterError::GlyphNotFound(c) => {
                        let (li, ci) = choose|li: int, ci: int|
                            0 <= li < lines@.len() && 0 <= ci < lines@[li]@.len()
                                && lines@[li]@[ci] == c;
                        assert(lv[li] == lines@[li]@);
                        assert(0 <= li < lv.len() && 0 <= ci < lv[li].len() && lv[li][ci] == c);
                    },
                    RasterError::LayoutOverflow => {},
                }
            }
            Err(e)
        },
        Ok(v) => {
            let buf = composite(&v, w, h, fg, bg);
            Ok(Image { pixels: buf, width: w, height: h })
        },
    }
}

/// Rasterizes `lines` and adds the border frame to the painted set.
pub fn get_box_pixels(lines: &Vec<String>, font: &Font, padding: u32, pixel_w: u32, pixel_h: u32) -> (r:
    Result<Vec<u32>, RasterError>)
    requires
        font.wf(),
        2 <= pixel_w,
        2 <= pixel_h,
        pixel_w * pixel_h <= u32::MAX,
    ensures
        ({
            let lv = line_views(lines@);
            let pi = padding as int;
            let wi = pixel_w as int;
            let hi = pixel_h as int;
            match r {
                Ok(v) => raster_ok(lv, *font, pi, wi, hi) && pix_set(v@) == text_coords(
                    lv,
                    *font,
                    pi,
                    wi,
                    hi,
                ).union(border_set(wi, hi)),
                Err(RasterError::GlyphNotFound(c)) => !raster_ok(lv, *font, pi, wi, hi) && (exists|
                    li: int,
                    ci: int,
                |
                    0 <= li < lines@.len() && 0 <= ci < lines@[li]@.len()
                        && #[trigger] lines@[li]@[ci] == c) && crate::font::spec_lookup(
                    font.glyphs@,
                    c,
                ) is None,
                Err(RasterError::LayoutOverflow) => !raster_ok(lv, *font, pi, wi, hi),
            }
        }),
{
    match rasterize(lines, font, padding, pixel_w, pixel_h) {
        Err(e) => Err(e),
        Ok(mut v) => {
            add_box(&mut v, pixel_w, pixel_h);
            Ok(v)
        },
    }
}

} // verus!
