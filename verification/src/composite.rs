//! Canvas compositing: turning the sparse painted-pixel set into a dense
//! row-major RGBA pixel buffer, foreground where painted, background
//! elsewhere. Membership is looked up through a dense boolean mask built
//! once from the sparse set, not by scanning the set per pixel.

use vstd::prelude::*;

use crate::color::{Rgba, rgba_bytes, default_foreground, default_background};
use crate::raster::pix_set;

verus! {

/// The four bytes of pixel `i` in buffer `buf`.
pub open spec fn pixel_bytes(buf: Seq<u8>, i: int) -> Seq<u8> {
    seq![buf[4 * i], buf[4 * i + 1], buf[4 * i + 2], buf[4 * i + 3]]
}

/// A dense buffer renders the painted set `pix` on a `w x h` canvas:
/// four bytes per pixel, `fg` where painted, `bg` elsewhere.
pub open spec fn buffer_ok(
    buf: Seq<u8>,
    pix: Set<int>,
    w: int,
    h: int,
    fg: Rgba,
    bg: Rgba,
) -> bool {
    &&& buf.len() == 4 * (w * h)
    &&& forall|i: int|
        0 <= i < w * h ==> #[trigger] pixel_bytes(buf, i) == (if pix.contains(i) {
            rgba_bytes(fg)
        } else {
            rgba_bytes(bg)
        })
}

/// Converts a painted-pixel vector into a dense RGBA buffer for a
/// `width x height` canvas. Coordinates outside the canvas paint nothing.
pub fn composite(pixels: &Vec<u32>, width: u32, height: u32, fg: Rgba, bg: Rgba) -> (r: Vec<u8>)
    requires
        width * height <= u32::MAX,
        4 * (width * height) <= usize::MAX,
    ensures
        buffer_ok(r@, pix_set(pixels@), width as int, height as int, fg, bg),
{
    let ghost ni = width as int * height as int;
    let n: usize = (width as usize) * (height as usize);
    let mut mask: Vec<bool> = vec![false; n];
    let mut k: usize = 0;
    while k < pixels.len()
        invariant
            n == ni,
            ni == width as int * height as int,
            mask@.len() == n,
            k <= pixels@.len(),
            forall|j: int|
                0 <= j < ni ==> (#[trigger] mask@[j] == exists|t: int|
                    0 <= t < k && pixels@[t] as int == j),
        decreases pixels@.len() - k,
    {
        let ghost prev_mask = mask@;
        let p = pixels[k];
        if (p as usize) < n {
            mask[p as usize] = true;
        }
        proof {
            assert forall|j: int| 0 <= j < ni implies (#[trigger] mask@[j] == exists|t: int|
                0 <= t < k + 1 && pixels@[t] as int == j) by {
                if j == p as int {
                    assert(pixels@[k as int] as int == j);
                    assert(mask@[j]);
                } else {
                    assert(mask@[j] == prev_mask[j]);
                    if mask@[j] {
                        let t = choose|t: int| 0 <= t < k && pixels@[t] as int == j;
                        assert(0 <= t < k + 1 && pixels@[t] as int == j);
                    } else {
                        if exists|t: int| 0 <= t < k + 1 && pixels@[t] as int == j {
                            let t = choose|t: int| 0 <= t < k + 1 && pixels@[t] as int == j;
                            assert(t < k);
                            assert(prev_mask[j]);
                        }
                    }
                }
            }
        }
        k = k + 1;
    }
    proof {
        assert forall|j: int| 0 <= j < ni implies (mask@[j] == pix_set(pixels@).contains(j)) by {
            if mask@[j] {
                let t = choose|t: int| 0 <= t < pixels@.len() && pixels@[t] as int == j;
                assert(j == pixels@[t]);
                assert(pix_set(pixels@).contains(j));
            } else {
                if pix_set(pixels@).contains(j) {
                    let t = choose|t: int| 0 <= t < pixels@.len() && j == pixels@[t];
                    assert(pixels@[t] as int == j);
                    assert(mask@[j]);
                }
            }
        }
    }
    let mut buf: Vec<u8> = Vec::new();
    let mut i: usize = 0;
    while i < n
        invariant
            n == ni,
            ni == width as int * height as int,
            4 * ni <= usize::MAX,
            mask@.len() == n,
            i <= n,
            buf@.len() == 4 * i,
            forall|j: int| 0 <= j < ni ==> (#[trigger] mask@[j] == pix_set(pixels@).contains(j)),
            forall|j: int|
                0 <= j < i ==> #[trigger] pixel_bytes(buf@, j) == (if pix_set(
                    pixels@,
                ).contains(j) {
                    rgba_bytes(fg)
                } else {
                    rgba_bytes(bg)
                }),
        decreases n - i,
    {
        let ghost prev_buf = buf@;
        if mask[i] {
            buf.push(fg.r);
            buf.push(fg.g);
            buf.push(fg.b);
            buf.push(fg.a);
            proof {
                assert(pixel_bytes(buf@, i as int) =~= rgba_bytes(fg));
            }
        } else {
            buf.push(bg.r);
            buf.push(bg.g);
            buf.push(bg.b);
            buf.push(bg.a);
            proof {
                assert(pixel_bytes(buf@, i as int) =~= rgba_bytes(bg));
            }
        }
        proof {
            assert forall|j: int| 0 <= j < i implies #[trigger] pixel_bytes(buf@, j)
                == pixel_bytes(prev_buf, j) by {
                assert(buf@[4 * j] == prev_buf[4 * j]);
                assert(buf@[4 * j + 1] == prev_buf[4 * j + 1]);
                assert(buf@[4 * j + 2] == prev_buf[4 * j + 2]);
                assert(buf@[4 * j + 3] == prev_buf[4 * j + 3]);
                assert(pixel_bytes(buf@, j) =~= pixel_bytes(prev_buf, j));
            }
        }
        i = i + 1;
    }
    buf
}

/// Converts a painted-pixel vector into a dense RGBA buffer with the
/// default palette.
pub fn explode_to_png_pixels(pixels: Vec<u32>, max_x: u32, max_y: u32) -> (r: Vec<u8>)
    requires
        max_x * max_y <= u32::MAX,
        4 * (max_x * max_y) <= usize::MAX,
    ensures
        buffer_ok(
            r@,
            pix_set(pixels@),
            max_x as int,
            max_y as int,
            (Rgba { r: 235, g: 219, b: 178, a: 255 }),
            (Rgba { r: 40, g: 40, b: 40, a: 255 }),
        ),
{
    let fg = default_foreground();
    let bg = default_background();
    composite(&pixels, max_x, max_y, fg, bg)
}

} // verus!
