//! Border drawing: the coordinates of a two-pixel-thick rectangular frame,
//! added to a painted-pixel set.

use vstd::prelude::*;

use crate::raster::{pix_set, lemma_pix_set_push};

verus! {

/// The frame rows: every coordinate in the two top and two bottom rows of
/// a `w x h` canvas.
pub open spec fn top_bottom_set(w: int, h: int) -> Set<int> {
    Set::new(|p: int| 0 <= p < w * h && (p / w <= 1 || p / w >= h - 2))
}

/// The frame columns: every coordinate in the two leftmost and two
/// rightmost columns of a `w x h` canvas.
pub open spec fn side_set(w: int, h: int) -> Set<int> {
    Set::new(|p: int| 0 <= p < w * h && (p % w <= 1 || p % w >= w - 2))
}

/// All coordinates of a two-pixel-thick rectangular border of a `w x h`
/// canvas.
pub open spec fn border_set(w: int, h: int) -> Set<int> {
    top_bottom_set(w, h).union(side_set(w, h))
}

/// The frame-row coordinates restricted to columns below `n`.
spec fn tb_upto(w: int, h: int, n: int) -> Set<int> {
    Set::new(|p: int| 0 <= p < w * h && (p / w <= 1 || p / w >= h - 2) && p % w < n)
}

/// The frame-column coordinates restricted to rows below `n`.
spec fn side_upto(w: int, h: int, n: int) -> Set<int> {
    Set::new(|p: int| 0 <= p < w * h && (p % w <= 1 || p % w >= w - 2) && p / w < n)
}

proof fn lemma_cell_in_canvas(r: int, c: int, w: int, h: int)
    requires
        0 <= c < w,
        0 <= r < h,
    ensures
        0 <= r * w + c < w * h,
{
    assert(0 <= r * w + c && r * w + c < w * h) by (nonlinear_arith)
        requires
            0 <= c < w,
            0 <= r < h,
    ;
}

proof fn lemma_rc(r: int, c: int, w: int)
    requires
        0 <= c < w,
        0 <= r,
    ensures
        (r * w + c) / w == r,
        (r * w + c) % w == c,
{
    vstd::arithmetic::div_mod::lemma_fundamental_div_mod_converse(r * w + c, w, r, c);
}

proof fn lemma_tb_step(w: int, h: int, i: int)
    requires
        2 <= w,
        2 <= h,
        0 <= i < w,
    ensures
        tb_upto(w, h, i + 1) == tb_upto(w, h, i).insert(i).insert(i + w).insert(
            (h - 1) * w + i,
        ).insert((h - 2) * w + i),
{
    let s1 = tb_upto(w, h, i).insert(i).insert(i + w).insert((h - 1) * w + i).insert(
        (h - 2) * w + i,
    );
    assert forall|p: int| s1.contains(p) implies tb_upto(w, h, i + 1).contains(p) by {
        if tb_upto(w, h, i).contains(p) {
        } else {
            if p == i {
                lemma_cell_in_canvas(0, i, w, h);
                lemma_rc(0, i, w);
            } else if p == i + w {
                lemma_cell_in_canvas(1, i, w, h);
                lemma_rc(1, i, w);
            } else if p == (h - 1) * w + i {
                lemma_cell_in_canvas(h - 1, i, w, h);
                lemma_rc(h - 1, i, w);
            } else {
                lemma_cell_in_canvas(h - 2, i, w, h);
                lemma_rc(h - 2, i, w);
            }
        }
    }
    assert forall|p: int| tb_upto(w, h, i + 1).contains(p) implies s1.contains(p) by {
        if p % w < i {
        } else {
            let r = p / w;
            vstd::arithmetic::div_mod::lemma_fundamental_div_mod(p, w);
            vstd::arithmetic::div_mod::lemma_multiply_divide_lt(p, w, h);
            vstd::arithmetic::div_mod::lemma_div_pos_is_pos(p, w);
            assert(p == r * w + i);
            if r <= 1 {
                assert(p == i || p == i + w);
            } else {
                assert(r == h - 1 || r == h - 2);
            }
        }
    }
    assert(tb_upto(w, h, i + 1) =~= s1);
}

proof fn lemma_side_step(w: int, h: int, i: int)
    requires
        2 <= w,
        2 <= h,
        0 <= i < h,
    ensures
        side_upto(w, h, i + 1) == side_upto(w, h, i).insert(i * w).insert(i * w + 1).insert(
            (i + 1) * w - 1,
        ).insert((i + 1) * w - 2),
{
    let s1 = side_upto(w, h, i).insert(i * w).insert(i * w + 1).insert((i + 1) * w - 1).insert(
        (i + 1) * w - 2,
    );
    assert((i + 1) * w - 1 == i * w + (w - 1)) by (nonlinear_arith);
    assert((i + 1) * w - 2 == i * w + (w - 2)) by (nonlinear_arith);
    assert forall|p: int| s1.contains(p) implies side_upto(w, h, i + 1).contains(p) by {
        if side_upto(w, h, i).contains(p) {
        } else {
            if p == i * w {
                lemma_cell_in_canvas(i, 0, w, h);
                lemma_rc(i, 0, w);
            } else if p == i * w + 1 {
                lemma_cell_in_canvas(i, 1, w, h);
                lemma_rc(i, 1, w);
            } else if p == (i + 1) * w - 1 {
                lemma_cell_in_canvas(i, w - 1, w, h);
                lemma_rc(i, w - 1, w);
            } else {
                lemma_cell_in_canvas(i, w - 2, w, h);
                lemma_rc(i, w - 2, w);
            }
        }
    }
    assert forall|p: int| side_upto(w, h, i + 1).contains(p) implies s1.contains(p) by {
        if p / w < i {
        } else {
            let c = p % w;
            vstd::arithmetic::div_mod::lemma_fundamental_div_mod(p, w);
            vstd::arithmetic::div_mod::lemma_mod_division_less_than_divisor(p, w);
            assert(p / w == i);
            assert(p == w * (p / w) + p % w);
            assert(w * i == i * w) by (nonlinear_arith);
            assert(p == i * w + c);
            if c <= 1 {
                assert(p == i * w || p == i * w + 1);
            } else {
                assert(c == w - 1 || c == w - 2);
            }
        }
    }
    assert(side_upto(w, h, i + 1) =~= s1);
}

/// Inserts the coordinates of a two-pixel-thick rectangular frame of a
/// `box_length x box_height` canvas into the painted-pixel set.
pub fn add_box(character_pixels: &mut Vec<u32>, box_length: u32, box_height: u32)
    requires
        2 <= box_length,
        2 <= box_height,
        box_length * box_height <= u32::MAX,
    ensures
        pix_set(final(character_pixels)@) == pix_set(old(character_pixels)@).union(
            border_set(box_length as int, box_height as int),
        ),
{
    let w = box_length;
    let h = box_height;
    let ghost wi = w as int;
    let ghost hi = h as int;
    proof {
        assert(2 * wi <= wi * hi && 2 * hi <= wi * hi) by (nonlinear_arith)
            requires
                2 <= wi,
                2 <= hi,
        ;
        assert(tb_upto(wi, hi, 0) =~= Set::<int>::empty());
        assert(pix_set(character_pixels@) =~= pix_set(old(character_pixels)@).union(
            tb_upto(wi, hi, 0),
        ));
    }
    let mut i: u32 = 0;
    while i < w
        invariant
            w == box_length,
            h == box_height,
            wi == w as int,
            hi == h as int,
            2 <= w,
            2 <= h,
            w * h <= u32::MAX,
            i <= w,
            pix_set(character_pixels@) == pix_set(old(character_pixels)@).union(
                tb_upto(wi, hi, i as int),
            ),
        decreases w - i,
    {
        proof {
            lemma_cell_in_canvas(hi - 1, i as int, wi, hi);
            lemma_cell_in_canvas(hi - 2, i as int, wi, hi);
            lemma_cell_in_canvas(1, i as int, wi, hi);
        }
        let a0: u32 = i;
        let a1: u32 = i + w;
        let a2: u32 = i + (h - 1) * w;
        let a3: u32 = i + (h - 2) * w;
        let ghost s0 = character_pixels@;
        character_pixels.push(a0);
        let ghost s1 = character_pixels@;
        character_pixels.push(a1);
        let ghost s2 = character_pixels@;
        character_pixels.push(a2);
        let ghost s3 = character_pixels@;
        character_pixels.push(a3);
        proof {
            lemma_pix_set_push(s0, a0);
            lemma_pix_set_push(s1, a1);
            lemma_pix_set_push(s2, a2);
            lemma_pix_set_push(s3, a3);
            lemma_tb_step(wi, hi, i as int);
            assert(pix_set(character_pixels@) =~= pix_set(old(character_pixels)@).union(
                tb_upto(wi, hi, i + 1),
            ));
        }
        i = i + 1;
    }
    proof {
        assert forall|p: int| top_bottom_set(wi, hi).contains(p) implies tb_upto(
            wi,
            hi,
            wi,
        ).contains(p) by {
            vstd::arithmetic::div_mod::lemma_mod_division_less_than_divisor(p, wi);
        }
        assert(tb_upto(wi, hi, wi) =~= top_bottom_set(wi, hi));
        assert(side_upto(wi, hi, 0) =~= Set::<int>::empty());
        assert(pix_set(character_pixels@) =~= pix_set(old(character_pixels)@).union(
            top_bottom_set(wi, hi),
        ).union(side_upto(wi, hi, 0)));
    }
    let mut i: u32 = 0;
    while i < h
        invariant
            w == box_length,
            h == box_height,
            wi == w as int,
            hi == h as int,
            2 <= w,
            2 <= h,
            w * h <= u32::MAX,
            i <= h,
            pix_set(character_pixels@) == pix_set(old(character_pixels)@).union(
                top_bottom_set(wi, hi),
            ).union(side_upto(wi, hi, i as int)),
        decreases h - i,
    {
        proof {
            lemma_cell_in_canvas(i as int, wi - 1, wi, hi);
            lemma_cell_in_canvas(i as int, wi - 2, wi, hi);
            lemma_cell_in_canvas(i as int, 1, wi, hi);
            lemma_cell_in_canvas(i as int, 0, wi, hi);
            assert((i as int + 1) * wi - 1 == i as int * wi + (wi - 1)) by (nonlinear_arith);
            assert((i as int + 1) * wi - 2 == i as int * wi + (wi - 2)) by (nonlinear_arith);
        }
        let b0: u32 = i * w;
        let b1: u32 = i * w + 1;
        let b2: u32 = (i + 1) * w - 1;
        let b3: u32 = (i + 1) * w - 2;
        let ghost s0 = character_pixels@;
        character_pixels.push(b0);
        let ghost s1 = character_pixels@;
        character_pixels.push(b1);
        let ghost s2 = character_pixels@;
        character_pixels.push(b2);
        let ghost s3 = character_pixels@;
        character_pixels.push(b3);
        proof {
            lemma_pix_set_push(s0, b0);
            lemma_pix_set_push(s1, b1);
            lemma_pix_set_push(s2, b2);
            lemma_pix_set_push(s3, b3);
            lemma_side_step(wi, hi, i as int);
            assert(pix_set(character_pixels@) =~= pix_set(old(character_pixels)@).union(
                top_bottom_set(wi, hi),
            ).union(side_upto(wi, hi, i + 1)));
        }
        i = i + 1;
    }
    proof {
        assert forall|p: int| side_set(wi, hi).contains(p) implies side_upto(wi, hi, hi).contains(
            p,
        ) by {
            vstd::arithmetic::div_mod::lemma_multiply_divide_lt(p, wi, hi);
        }
        assert(side_upto(wi, hi, hi) =~= side_set(wi, hi));
        assert(pix_set(character_pixels@) =~= pix_set(old(character_pixels)@).union(
            border_set(wi, hi),
        ));
    }
}

/// Drawing the border twice leaves the same painted-pixel set as drawing
/// it once: coordinates form a set, and insertion is idempotent.
pub proof fn lemma_border_idempotent(s: Set<int>, w: int, h: int)
    ensures
        s.union(border_set(w, h)).union(border_set(w, h)) == s.union(border_set(w, h)),
{
    assert(s.union(border_set(w, h)).union(border_set(w, h)) =~= s.union(border_set(w, h)));
}

} // verus!
