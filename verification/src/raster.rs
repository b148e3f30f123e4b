//! Glyph rasterization: mapping each set bit of each glyph's bitmap to a
//! linear canvas coordinate in a sparse painted-pixel set.
//!
//! Lines are consumed in reverse order, so the first wrapped line ends up
//! visually at the top of the canvas: the line with reverse index `l`
//! (0 = last wrapped line) has its baseline `padding + l * cell_height`
//! rows above the canvas bottom. A glyph's bottom edge sits `y_offset`
//! rows above that baseline, and every coordinate must land inside the
//! canvas; a placement that would not is reported as an error rather than
//! wrapped around.

use vstd::prelude::*;

use crate::font::{Font, Glyph, spec_lookup, lemma_lookup_wf, lemma_lookup_fits};
use crate::wrap::line_views;

verus! {

/// Why rasterization failed.
#[derive(Clone, Copy, PartialEq, Eq, Structural, Debug)]
pub enum RasterError {
    /// This character of the input has no glyph in the font.
    GlyphNotFound(char),
    /// A computed coordinate would fall outside the canvas.
    LayoutOverflow,
}

/// The set of coordinates held by a painted-pixel vector.
pub open spec fn pix_set(v: Seq<u32>) -> Set<int> {
    Set::new(|p: int| exists|k: int| 0 <= k < v.len() && p == v[k])
}

/// Appending one coordinate inserts exactly that coordinate into the set.
pub proof fn lemma_pix_set_push(v: Seq<u32>, x: u32)
    ensures
        pix_set(v.push(x)) == pix_set(v).insert(x as int),
{
    assert forall|p: int| pix_set(v.push(x)).contains(p) implies pix_set(v).insert(
        x as int,
    ).contains(p) by {
        let k = choose|k: int| 0 <= k < v.push(x).len() && p == v.push(x)[k];
        if k < v.len() {
            assert(pix_set(v).contains(p));
        }
    }
    assert forall|p: int| pix_set(v).insert(x as int).contains(p) implies pix_set(
        v.push(x),
    ).contains(p) by {
        if p == x as int {
            assert(v.push(x)[v.len() as int] == x);
        } else {
            let k = choose|k: int| 0 <= k < v.len() && p == v[k];
            assert(v.push(x)[k] == v[k]);
        }
    }
    assert(pix_set(v.push(x)) =~= pix_set(v).insert(x as int));
}

/// The leftmost canvas column of the glyph cell at character index `c_idx`.
pub open spec fn spec_char_left(c_idx: int, cell_w: int, padding: int) -> int {
    c_idx * cell_w + padding
}

/// The canvas row of the top of glyph `g` on the line with reverse index
/// `l_idx`: the baseline sits `padding + l_idx * cell_h` rows above the
/// canvas bottom and the glyph's bottom edge `y_offset` rows above that.
pub open spec fn spec_char_top(g: Glyph, l_idx: int, cell_h: int, padding: int, h: int) -> int {
    h - padding - l_idx * cell_h - g.y_offset - g.height
}

/// The linear canvas coordinate of bitmap bit `b` of glyph `g` placed with
/// its left edge at column `left` and its top row at row `top`.
pub open spec fn bit_coord(g: Glyph, left: int, top: int, w: int, b: int) -> int {
    (top + b / (g.width as int)) * w + left + b % (g.width as int)
}

/// The coordinates painted by the first `n` bitmap bits of glyph `g`.
pub open spec fn glyph_coords_upto(g: Glyph, left: int, top: int, w: int, n: int) -> Set<int> {
    Set::new(
        |p: int| exists|b: int| 0 <= b < n && g.bits@[b] && p == bit_coord(g, left, top, w, b),
    )
}

/// The coordinates painted by glyph `g` placed at (`left`, `top`).
pub open spec fn glyph_coords(g: Glyph, left: int, top: int, w: int) -> Set<int> {
    glyph_coords_upto(g, left, top, w, g.width * g.height)
}

/// Whether the box of glyph `g`, placed for character index `c_idx` of the
/// line with reverse index `l_idx`, lies entirely inside a `w x h` canvas.
pub open spec fn glyph_in_bounds(
    g: Glyph,
    l_idx: int,
    c_idx: int,
    cell_w: int,
    cell_h: int,
    padding: int,
    w: int,
    h: int,
) -> bool {
    &&& 0 <= spec_char_left(c_idx, cell_w, padding)
    &&& spec_char_left(c_idx, cell_w, padding) + g.width <= w
    &&& 0 <= spec_char_top(g, l_idx, cell_h, padding, h)
    &&& spec_char_top(g, l_idx, cell_h, padding, h) + g.height <= h
}

/// The character at position (`li`, `ci`) of the text, if there is one, has
/// a glyph whose placed box lies inside the canvas.
pub open spec fn raster_char_ok(
    lines: Seq<Seq<char>>,
    font: Font,
    padding: int,
    w: int,
    h: int,
    li: int,
    ci: int,
) -> bool {
    0 <= li < lines.len() && 0 <= ci < lines[li].len() ==> match spec_lookup(
        font.glyphs@,
        lines[li][ci],
    ) {
        Some(g) => glyph_in_bounds(
            g,
            lines.len() - 1 - li,
            ci,
            font.cell_width as int,
            font.cell_height as int,
            padding,
            w,
            h,
        ),
        None => false,
    }
}

/// Every character of the text has a glyph, and every glyph box lands
/// inside the canvas: rasterization succeeds exactly on such inputs.
pub open spec fn raster_ok(lines: Seq<Seq<char>>, font: Font, padding: int, w: int, h: int) -> bool {
    forall|li: int, ci: int| #[trigger] raster_char_ok(lines, font, padding, w, h, li, ci)
}

/// Coordinates painted by the first `n` characters of the line with
/// reverse index `l_idx`. A character without a glyph paints nothing here;
/// rasterization reports it as an error instead of reaching this case.
pub open spec fn line_coords_upto(
    line: Seq<char>,
    font: Font,
    l_idx: int,
    padding: int,
    w: int,
    h: int,
    n: int,
) -> Set<int>
    decreases n,
{
    if n <= 0 {
        Set::empty()
    } else {
        line_coords_upto(line, font, l_idx, padding, w, h, n - 1).union(
            match spec_lookup(font.glyphs@, line[n - 1]) {
                Some(g) => glyph_coords(
                    g,
                    spec_char_left(n - 1, font.cell_width as int, padding),
                    spec_char_top(g, l_idx, font.cell_height as int, padding, h),
                    w,
                ),
                None => Set::empty(),
            },
        )
    }
}

/// Coordinates painted by the whole line with reverse index `l_idx`.
pub open spec fn line_coords(
    line: Seq<char>,
    font: Font,
    l_idx: int,
    padding: int,
    w: int,
    h: int,
) -> Set<int> {
    line_coords_upto(line, font, l_idx, padding, w, h, line.len() as int)
}

/// Coordinates painted by the last `n` lines of `lines`: the line at
/// sequence index `i` carries reverse index `lines.len() - 1 - i`.
pub open spec fn text_coords_upto(
    lines: Seq<Seq<char>>,
    font: Font,
    padding: int,
    w: int,
    h: int,
    n: int,
) -> Set<int>
    decreases n,
{
    if n <= 0 {
        Set::empty()
    } else {
        text_coords_upto(lines, font, padding, w, h, n - 1).union(
            line_coords(lines[lines.len() - n], font, n - 1, padding, w, h),
        )
    }
}

/// Coordinates painted by the whole text.
pub open spec fn text_coords(
    lines: Seq<Seq<char>>,
    font: Font,
    padding: int,
    w: int,
    h: int,
) -> Set<int> {
    text_coords_upto(lines, font, padding, w, h, lines.len() as int)
}

proof fn lemma_glyph_upto_step(g: Glyph, left: int, top: int, w: int, b: int)
    requires
        0 <= b < g.bits@.len(),
    ensures
        g.bits@[b] ==> glyph_coords_upto(g, left, top, w, b + 1) == glyph_coords_upto(
            g,
            left,
            top,
            w,
            b,
        ).insert(bit_coord(g, left, top, w, b)),
        !g.bits@[b] ==> glyph_coords_upto(g, left, top, w, b + 1) == glyph_coords_upto(
            g,
            left,
            top,
            w,
            b,
        ),
{
    let prev = glyph_coords_upto(g, left, top, w, b);
    let next = glyph_coords_upto(g, left, top, w, b + 1);
    if g.bits@[b] {
        let x = bit_coord(g, left, top, w, b);
        assert forall|p: int| next.contains(p) implies prev.insert(x).contains(p) by {
            let bb = choose|bb: int|
                0 <= bb < b + 1 && g.bits@[bb] && p == bit_coord(g, left, top, w, bb);
            if bb < b {
                assert(prev.contains(p));
            }
        }
        assert forall|p: int| prev.insert(x).contains(p) implies next.contains(p) by {
            if p == x {
                assert(0 <= b < b + 1 && g.bits@[b] && p == bit_coord(g, left, top, w, b));
            } else {
                let bb = choose|bb: int|
                    0 <= bb < b && g.bits@[bb] && p == bit_coord(g, left, top, w, bb);
                assert(0 <= bb < b + 1 && g.bits@[bb] && p == bit_coord(g, left, top, w, bb));
            }
        }
        assert(next =~= prev.insert(x));
    } else {
        assert forall|p: int| next.contains(p) implies prev.contains(p) by {
            let bb = choose|bb: int|
                0 <= bb < b + 1 && g.bits@[bb] && p == bit_coord(g, left, top, w, bb);
            assert(0 <= bb < b && g.bits@[bb] && p == bit_coord(g, left, top, w, bb));
        }
        assert forall|p: int| prev.contains(p) implies next.contains(p) by {
            let bb = choose|bb: int|
                0 <= bb < b && g.bits@[bb] && p == bit_coord(g, left, top, w, bb);
            assert(0 <= bb < b + 1 && g.bits@[bb] && p == bit_coord(g, left, top, w, bb));
        }
        assert(next =~= prev);
    }
}

/// Pushes the canvas coordinate of every set bit of `g`, placed with its
/// left edge at column `left` and its top row at row `top`, onto `out`.
fn glyph_pixels(out: &mut Vec<u32>, g: &Glyph, left: u32, top: u32, w: u32, h: u32)
    requires
        g.wf(),
        left + g.width <= w,
        top + g.height <= h,
        w * h <= u32::MAX,
    ensures
        pix_set(final(out)@) == pix_set(old(out)@).union(
            glyph_coords(*g, left as int, top as int, w as int),
        ),
{
    let gw = g.width;
    let gh = g.height;
    let n = g.bits.len();
    let mut b: usize = 0;
    proof {
        assert(pix_set(out@) =~= pix_set(old(out)@).union(
            glyph_coords_upto(*g, left as int, top as int, w as int, 0),
        ));
    }
    while b < n
        invariant
            g.wf(),
            n == g.bits@.len(),
            gw == g.width,
            gh == g.height,
            left + g.width <= w,
            top + g.height <= h,
            w * h <= u32::MAX,
            b <= n,
            pix_set(out@) == pix_set(old(out)@).union(
                glyph_coords_upto(*g, left as int, top as int, w as int, b as int),
            ),
        decreases n - b,
    {
        let ghost prev_set = glyph_coords_upto(*g, left as int, top as int, w as int, b as int);
        if g.bits[b] {
            proof {
                assert(gw > 0) by {
                    if gw == 0 {
                        assert(g.width * g.height == 0) by (nonlinear_arith)
                            requires
                                g.width == 0,
                        ;
                        assert(g.bits@.len() == 0);
                    }
                }
                vstd::arithmetic::div_mod::lemma_multiply_divide_lt(b as int, gw as int, gh as int);
                vstd::arithmetic::div_mod::lemma_mod_division_less_than_divisor(
                    b as int,
                    gw as int,
                );
            }
            let dy: u32 = (b / (gw as usize)) as u32;
            let dx: u32 = (b % (gw as usize)) as u32;
            let y: u32 = top + dy;
            let x: u32 = left + dx;
            proof {
                assert(y < h);
                assert(x < w);
                let yi = y as int;
                let xi = x as int;
                let wi = w as int;
                let hi = h as int;
                assert(yi * wi + xi < wi * hi && 0 <= yi * wi) by (nonlinear_arith)
                    requires
                        yi < hi,
                        xi < wi,
                        0 <= wi,
                        0 <= yi,
                ;
            }
            let p: u32 = y * w + x;
            let ghost prev_out = out@;
            out.push(p);
            proof {
                lemma_pix_set_push(prev_out, p);
                lemma_glyph_upto_step(*g, left as int, top as int, w as int, b as int);
                assert(p as int == bit_coord(*g, left as int, top as int, w as int, b as int));
                assert(pix_set(out@) =~= pix_set(old(out)@).union(
                    glyph_coords_upto(*g, left as int, top as int, w as int, b + 1),
                ));
            }
        } else {
            proof {
                lemma_glyph_upto_step(*g, left as int, top as int, w as int, b as int);
            }
        }
        b = b + 1;
    }
    proof {
        assert(glyph_coords_upto(*g, left as int, top as int, w as int, n as int)
            == glyph_coords(*g, left as int, top as int, w as int));
    }
}

/// Computes the canvas position of glyph `g` for character index `c_idx`
/// of the line with reverse index `l_idx`: `None` when the glyph's box
/// would not lie inside the canvas.
fn place_glyph(
    g: &Glyph,
    l_idx: usize,
    c_idx: usize,
    cell_w: u32,
    cell_h: u32,
    padding: u32,
    w: u32,
    h: u32,
) -> (r: Option<(u32, u32)>)
    ensures
        match r {
            Some(lt) => glyph_in_bounds(
                *g,
                l_idx as int,
                c_idx as int,
                cell_w as int,
                cell_h as int,
                padding as int,
                w as int,
                h as int,
            ) && lt.0 == spec_char_left(c_idx as int, cell_w as int, padding as int) && lt.1
                == spec_char_top(*g, l_idx as int, cell_h as int, padding as int, h as int),
            None => !glyph_in_bounds(
                *g,
                l_idx as int,
                c_idx as int,
                cell_w as int,
                cell_h as int,
                padding as int,
                w as int,
                h as int,
            ),
        },
{
    proof {
        let ci = c_idx as int;
        let cw = cell_w as int;
        let li = l_idx as int;
        let ch = cell_h as int;
        assert(0 <= ci * cw && ci * cw < 0x1000000000000000000000000) by (nonlinear_arith)
            requires
                0 <= ci < 0x10000000000000000,
                0 <= cw < 0x100000000,
        ;
        assert(0 <= li * ch && li * ch < 0x1000000000000000000000000) by (nonlinear_arith)
            requires
                0 <= li < 0x10000000000000000,
                0 <= ch < 0x100000000,
        ;
    }
    let left: i128 = c_idx as i128 * cell_w as i128 + padding as i128;
    let top: i128 = h as i128 - padding as i128 - l_idx as i128 * cell_h as i128
        - g.y_offset as i128 - g.height as i128;
    if left + g.width as i128 <= w as i128 && top >= 0 && top + g.height as i128 <= h as i128 {
        Some((left as u32, top as u32))
    } else {
        None
    }
}

/// Rasterizes the wrapped `lines` with `font` onto a `width x height`
/// canvas: the painted-pixel set of every set bit of every placed glyph.
/// Lines are consumed in reverse order, characters in forward order; the
/// first character whose glyph is missing, or whose glyph box would leave
/// the canvas, aborts the whole operation.
pub fn rasterize(
    lines: &Vec<String>,
    font: &Font,
    padding: u32,
    width: u32,
    height: u32,
) -> (r: Result<Vec<u32>, RasterError>)
    requires
        font.wf(),
        width * height <= u32::MAX,
    ensures
        match r {
            Ok(v) => raster_ok(
                line_views(lines@),
                *font,
                padding as int,
                width as int,
                height as int,
            ) && pix_set(v@) == text_coords(
                line_views(lines@),
                *font,
                padding as int,
                width as int,
                height as int,
            ),
            Err(RasterError::GlyphNotFound(c)) => !raster_ok(
                line_views(lines@),
                *font,
                padding as int,
                width as int,
                height as int,
            ) && (exists|li: int, ci: int|
                0 <= li < lines@.len() && 0 <= ci < lines@[li]@.len() && #[trigger] lines@[li]@[ci]
                    == c) && spec_lookup(font.glyphs@, c) is None,
            Err(RasterError::LayoutOverflow) => !raster_ok(
                line_views(lines@),
                *font,
                padding as int,
                width as int,
                height as int,
            ),
        },
{
    let ghost lv = line_views(lines@);
    let ghost pi = padding as int;
    let ghost wi = width as int;
    let ghost hi = height as int;
    let mut out: Vec<u32> = Vec::new();
    let nlines = lines.len();
    let mut l: usize = 0;
    proof {
        assert(pix_set(out@) =~= text_coords_upto(lv, *font, pi, wi, hi, 0));
    }
    while l < nlines
        invariant
            font.wf(),
            width * height <= u32::MAX,
            lv == line_views(lines@),
            pi == padding as int,
            wi == width as int,
            hi == height as int,
            nlines == lines@.len(),
            l <= nlines,
            pix_set(out@) == text_coords_upto(lv, *font, pi, wi, hi, l as int),
            forall|li: int, ci: int|
                nlines - l <= li ==> #[trigger] raster_char_ok(lv, *font, pi, wi, hi, li, ci),
        decreases nlines - l,
    {
        let idx = nlines - 1 - l;
        let line = &lines[idx];
        let ghost ls = lv[idx as int];
        proof {
            assert(ls == line@);
            assert(line_coords_upto(ls, *font, l as int, pi, wi, hi, 0) =~= Set::<int>::empty());
            assert(pix_set(out@) =~= text_coords_upto(lv, *font, pi, wi, hi, l as int).union(
                line_coords_upto(ls, *font, l as int, pi, wi, hi, 0),
            ));
        }
        let clen = line.as_str().unicode_len();
        let mut ci: usize = 0;
        while ci < clen
            invariant
                font.wf(),
                width * height <= u32::MAX,
                lv == line_views(lines@),
                pi == padding as int,
                wi == width as int,
                hi == height as int,
                nlines == lines@.len(),
                l < nlines,
                idx == nlines - 1 - l,
                ls == lv[idx as int],
                ls == line@,
                clen == ls.len(),
                ci <= clen,
                pix_set(out@) == text_coords_upto(lv, *font, pi, wi, hi, l as int).union(
                    line_coords_upto(ls, *font, l as int, pi, wi, hi, ci as int),
                ),
                forall|li: int, cj: int|
                    nlines - l <= li ==> #[trigger] raster_char_ok(lv, *font, pi, wi, hi, li, cj),
                forall|cj: int|
                    0 <= cj < ci ==> #[trigger] raster_char_ok(
                        lv,
                        *font,
                        pi,
                        wi,
                        hi,
                        idx as int,
                        cj,
                    ),
            decreases clen - ci,
        {
            let c = line.as_str().get_char(ci);
            match font.lookup(c) {
                None => {
                    proof {
                        assert(!raster_char_ok(lv, *font, pi, wi, hi, idx as int, ci as int));
                        assert(!raster_ok(lv, *font, pi, wi, hi));
                        let li0 = idx as int;
                        let ci0 = ci as int;
                        assert(0 <= li0 < lines@.len() && 0 <= ci0 < lines@[li0]@.len()
                            && lines@[li0]@[ci0] == c);
                    }
                    return Err(RasterError::GlyphNotFound(c));
                },
                Some(g) => {
                    proof {
                        lemma_lookup_wf(font.glyphs@, c);
                    }
                    match place_glyph(
                        g,
                        l,
                        ci,
                        font.cell_width,
                        font.cell_height,
                        padding,
                        width,
                        height,
                    ) {
                        None => {
                            proof {
                                assert(!raster_char_ok(
                                    lv,
                                    *font,
                                    pi,
                                    wi,
                                    hi,
                                    idx as int,
                                    ci as int,
                                ));
                                assert(!raster_ok(lv, *font, pi, wi, hi));
                            }
                            return Err(RasterError::LayoutOverflow);
                        },
                        Some((left, top)) => {
                            let ghost prev_pix = pix_set(out@);
                            glyph_pixels(&mut out, g, left, top, width, height);
                            proof {
                                assert(raster_char_ok(lv, *font, pi, wi, hi, idx as int, ci as int));
                                assert(line_coords_upto(ls, *font, l as int, pi, wi, hi, ci + 1)
                                    == line_coords_upto(
                                    ls,
                                    *font,
                                    l as int,
                                    pi,
                                    wi,
                                    hi,
                                    ci as int,
                                ).union(
                                    glyph_coords(
                                        *g,
                                        spec_char_left(ci as int, font.cell_width as int, pi),
                                        spec_char_top(
                                            *g,
                                            l as int,
                                            font.cell_height as int,
                                            pi,
                                            hi,
                                        ),
                                        wi,
                                    ),
                                ));
                                assert(pix_set(out@) =~= text_coords_upto(
                                    lv,
                                    *font,
                                    pi,
                                    wi,
                                    hi,
                                    l as int,
                                ).union(line_coords_upto(ls, *font, l as int, pi, wi, hi, ci + 1)));
                            }
                        },
                    }
                },
            }
            ci = ci + 1;
        }
        proof {
            assert(text_coords_upto(lv, *font, pi, wi, hi, l + 1) == text_coords_upto(
                lv,
                *font,
                pi,
                wi,
                hi,
                l as int,
            ).union(line_coords(lv[nlines - 1 - l], *font, l as int, pi, wi, hi)));
            assert(pix_set(out@) =~= text_coords_upto(lv, *font, pi, wi, hi, l + 1));
            assert forall|li: int, cj: int| nlines - (l + 1) <= li implies #[trigger] raster_char_ok(
                lv,
                *font,
                pi,
                wi,
                hi,
                li,
                cj,
            ) by {
                if li == idx as int {
                    if 0 <= cj < ls.len() {
                        assert(raster_char_ok(lv, *font, pi, wi, hi, idx as int, cj));
                    }
                } else if nlines - l <= li {
                    assert(raster_char_ok(lv, *font, pi, wi, hi, li, cj));
                }
            }
        }
        l = l + 1;
    }
    proof {
        assert forall|li: int, ci: int| #[trigger] raster_char_ok(
            lv,
            *font,
            pi,
            wi,
            hi,
            li,
            ci,
        ) by {
            if 0 <= li {
                assert(raster_char_ok(lv, *font, pi, wi, hi, li, ci));
            }
        }
    }
    Ok(out)
}

/// Every character of `lines` has a glyph in the font.
pub open spec fn glyphs_present(lines: Seq<Seq<char>>, font: Font) -> bool {
    forall|li: int, ci: int|
        0 <= li < lines.len() && 0 <= ci < lines[li].len() ==> spec_lookup(
            font.glyphs@,
            #[trigger] lines[li][ci],
        ) is Some
}

proof fn lemma_glyph_coords_in_bounds(g: Glyph, left: int, top: int, w: int, h: int)
    requires
        0 <= left,
        left + g.width <= w,
        0 <= top,
        top + g.height <= h,
    ensures
        forall|p: int| glyph_coords(g, left, top, w).contains(p) ==> 0 <= p < w * h,
{
    assert forall|p: int| glyph_coords(g, left, top, w).contains(p) implies 0 <= p < w * h by {
        let b = choose|b: int|
            0 <= b < g.width * g.height && g.bits@[b] && p == bit_coord(g, left, top, w, b);
        let gw = g.width as int;
        let gh = g.height as int;
        assert(gw > 0) by {
            if gw == 0 {
                assert(g.width * g.height == 0) by (nonlinear_arith)
                    requires
                        g.width == 0,
                ;
            }
        }
        vstd::arithmetic::div_mod::lemma_multiply_divide_lt(b, gw, gh);
        vstd::arithmetic::div_mod::lemma_mod_division_less_than_divisor(b, gw);
        vstd::arithmetic::div_mod::lemma_div_pos_is_pos(b, gw);
        let y = top + b / gw;
        let x = left + b % gw;
        assert(0 <= y * w + x && y * w + x < w * h) by (nonlinear_arith)
            requires
                0 <= y < h,
                0 <= x < w,
        ;
    }
}

proof fn lemma_line_coords_in_bounds(
    line: Seq<char>,
    font: Font,
    l_idx: int,
    padding: int,
    w: int,
    h: int,
    n: int,
)
    requires
        n <= line.len(),
        forall|ci: int|
            0 <= ci < n ==> match spec_lookup(font.glyphs@, #[trigger] line[ci]) {
                Some(g) => glyph_in_bounds(
                    g,
                    l_idx,
                    ci,
                    font.cell_width as int,
                    font.cell_height as int,
                    padding,
                    w,
                    h,
                ),
                None => true,
            },
    ensures
        forall|p: int|
            line_coords_upto(line, font, l_idx, padding, w, h, n).contains(p) ==> 0 <= p < w * h,
    decreases n,
{
    if n <= 0 {
    } else {
        lemma_line_coords_in_bounds(line, font, l_idx, padding, w, h, n - 1);
        let prev = line_coords_upto(line, font, l_idx, padding, w, h, n - 1);
        match spec_lookup(font.glyphs@, line[n - 1]) {
            Some(g) => {
                lemma_glyph_coords_in_bounds(
                    g,
                    spec_char_left(n - 1, font.cell_width as int, padding),
                    spec_char_top(g, l_idx, font.cell_height as int, padding, h),
                    w,
                    h,
                );
                let cur = glyph_coords(
                    g,
                    spec_char_left(n - 1, font.cell_width as int, padding),
                    spec_char_top(g, l_idx, font.cell_height as int, padding, h),
                    w,
                );
                assert forall|p: int| line_coords_upto(
                    line,
                    font,
                    l_idx,
                    padding,
                    w,
                    h,
                    n,
                ).contains(p) implies 0 <= p < w * h by {
                    assert(prev.contains(p) || cur.contains(p));
                }
            },
            None => {
                assert forall|p: int| line_coords_upto(
                    line,
                    font,
                    l_idx,
                    padding,
                    w,
                    h,
                    n,
                ).contains(p) implies 0 <= p < w * h by {
                    assert(prev.contains(p) || Set::<int>::empty().contains(p));
                }
            },
        }
    }
}

proof fn lemma_text_coords_in_bounds(
    lines: Seq<Seq<char>>,
    font: Font,
    padding: int,
    w: int,
    h: int,
    n: int,
)
    requires
        n <= lines.len(),
        forall|li: int, ci: int| #[trigger] raster_char_ok(lines, font, padding, w, h, li, ci),
    ensures
        forall|p: int|
            text_coords_upto(lines, font, padding, w, h, n).contains(p) ==> 0 <= p < w * h,
    decreases n,
{
    if n <= 0 {
    } else {
        lemma_text_coords_in_bounds(lines, font, padding, w, h, n - 1);
        let li = lines.len() - n;
        assert forall|ci: int| 0 <= ci < lines[li].len() implies match spec_lookup(
            font.glyphs@,
            #[trigger] lines[li][ci],
        ) {
            Some(g) => glyph_in_bounds(
                g,
                n - 1,
                ci,
                font.cell_width as int,
                font.cell_height as int,
                padding,
                w,
                h,
            ),
            None => true,
        } by {
            assert(raster_char_ok(lines, font, padding, w, h, li, ci));
        }
        lemma_line_coords_in_bounds(
            lines[li],
            font,
            n - 1,
            padding,
            w,
            h,
            lines[li].len() as int,
        );
        assert forall|p: int| text_coords_upto(lines, font, padding, w, h, n).contains(
            p,
        ) implies 0 <= p < w * h by {
            assert(text_coords_upto(lines, font, padding, w, h, n - 1).contains(p)
                || line_coords(lines[li], font, n - 1, padding, w, h).contains(p));
        }
    }
}

/// Every coordinate the rasterizer can emit lies inside the canvas:
/// whenever rasterization succeeds, the whole painted set sits in
/// `[0, w * h)`.
pub proof fn lemma_raster_coords_in_bounds(
    lines: Seq<Seq<char>>,
    font: Font,
    padding: int,
    w: int,
    h: int,
)
    requires
        raster_ok(lines, font, padding, w, h),
    ensures
        forall|p: int| text_coords(lines, font, padding, w, h).contains(p) ==> 0 <= p < w * h,
{
    lemma_text_coords_in_bounds(lines, font, padding, w, h, lines.len() as int);
}

/// A canvas sized exactly to fit the text guarantees success: with every
/// glyph inside its nominal cell, every character present in the font,
/// padding on all sides and the canvas dimensions derived from the longest
/// line and the line count, every glyph box lands inside the canvas.
pub proof fn lemma_sized_canvas_in_bounds(
    lines: Seq<Seq<char>>,
    font: Font,
    padding: int,
    max_len: int,
    w: int,
    h: int,
)
    requires
        font.fits_cells(),
        glyphs_present(lines, font),
        0 <= padding,
        forall|li: int| 0 <= li < lines.len() ==> (#[trigger] lines[li]).len() <= max_len,
        w == font.cell_width as int * max_len + 2 * padding,
        h == font.cell_height as int * lines.len() + 2 * padding,
    ensures
        raster_ok(lines, font, padding, w, h),
{
    let cw = font.cell_width as int;
    let ch = font.cell_height as int;
    let n = lines.len() as int;
    assert forall|li: int, ci: int| #[trigger] raster_char_ok(
        lines,
        font,
        padding,
        w,
        h,
        li,
        ci,
    ) by {
        if 0 <= li < lines.len() && 0 <= ci < lines[li].len() {
            let c = lines[li][ci];
            assert(spec_lookup(font.glyphs@, c) is Some);
            lemma_lookup_fits(font.glyphs@, c, cw, ch);
            let g = spec_lookup(font.glyphs@, c)->Some_0;
            let l_idx = n - 1 - li;
            let left = spec_char_left(ci, cw, padding);
            let top = spec_char_top(g, l_idx, ch, padding, h);
            assert(ci <= max_len - 1);
            assert(0 <= left && left + g.width <= w) by (nonlinear_arith)
                requires
                    left == ci * cw + padding,
                    w == cw * max_len + 2 * padding,
                    0 <= ci <= max_len - 1,
                    g.width <= cw,
                    0 <= padding,
                    0 <= cw,
            ;
            assert(0 <= top && top + g.height <= h) by (nonlinear_arith)
                requires
                    top == h - padding - l_idx * ch - g.y_offset - g.height,
                    h == ch * n + 2 * padding,
                    0 <= l_idx <= n - 1,
                    0 <= g.y_offset,
                    g.y_offset + g.height <= ch,
                    0 <= padding,
                    0 <= ch,
            ;
        }
    }
}

} // verus!
