//! RGBA color samples and the default palette.

use vstd::prelude::*;

verus! {

/// A 4-channel color sample, one byte per channel.
#[derive(Clone, Copy, PartialEq, Eq, Structural, Debug)]
pub struct Rgba {
    pub r: u8,
    pub g: u8,
    pub b: u8,
    pub a: u8,
}

/// The four bytes of a color in the order they appear in a pixel buffer.
pub open spec fn rgba_bytes(c: Rgba) -> Seq<u8> {
    seq![c.r, c.g, c.b, c.a]
}

/// The default foreground color of rendered text.
pub fn default_foreground() -> (c: Rgba)
    ensures
        c == (Rgba { r: 235, g: 219, b: 178, a: 255 }),
{
    Rgba { r: 235, g: 219, b: 178, a: 255 }
}

/// The default background color of the canvas.
pub fn default_background() -> (c: Rgba)
    ensures
        c == (Rgba { r: 40, g: 40, b: 40, a: 255 }),
{
    Rgba { r: 40, g: 40, b: 40, a: 255 }
}

} // verus!
