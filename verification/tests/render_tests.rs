use textbox::font::{Font, Glyph};
use textbox::raster::RasterError;
use textbox::render::{canvas_size, get_box_pixels, render};
use textbox::Rgba;

fn glyph(width: u32, height: u32, y_offset: i32, on: bool) -> Glyph {
    Glyph {
        width,
        height,
        x_offset: 0,
        y_offset,
        bits: vec![on; (width * height) as usize],
    }
}

fn fg() -> Rgba {
    Rgba { r: 235, g: 219, b: 178, a: 255 }
}

fn bg() -> Rgba {
    Rgba { r: 40, g: 40, b: 40, a: 255 }
}

fn group(buf: &[u8], i: usize) -> [u8; 4] {
    [buf[4 * i], buf[4 * i + 1], buf[4 * i + 2], buf[4 * i + 3]]
}

fn two_by_two_font() -> Font {
    Font {
        cell_width: 2,
        cell_height: 2,
        glyphs: vec![
            ('h', glyph(2, 2, 0, true)),
            ('i', glyph(2, 2, 0, false)),
            (' ', glyph(2, 2, 0, false)),
        ],
    }
}

#[test]
fn canvas_size_exact() {
    assert_eq!(canvas_size(2, 2, 3, 1, 0), Some((6, 2)));
    assert_eq!(canvas_size(8, 14, 10, 2, 10), Some((100, 48)));
}

#[test]
fn canvas_size_rejects_overflow() {
    assert_eq!(canvas_size(u32::MAX, u32::MAX, u32::MAX, 2, u32::MAX), None);
    // Each dimension fits u32 but their product does not.
    assert_eq!(canvas_size(1, 1, u32::MAX - 1, (u32::MAX - 1) as usize, 0), None);
}

#[test]
fn render_end_to_end_without_border() {
    // "hi" wraps to the single line "hi " (3 cells): 'h' paints its whole
    // cell, the rest paint nothing, so exactly the first glyph cell is
    // foreground on the 6x2 canvas.
    let font = two_by_two_font();
    let img = render("hi", &font, 0, None, false, fg(), bg()).unwrap();
    assert_eq!(img.width, 6);
    assert_eq!(img.height, 2);
    assert_eq!(img.pixels.len(), 48);
    for i in 0..12 {
        if i == 0 || i == 1 || i == 6 || i == 7 {
            assert_eq!(group(&img.pixels, i), [235, 219, 178, 255]);
        } else {
            assert_eq!(group(&img.pixels, i), [40, 40, 40, 255]);
        }
    }
}

#[test]
fn render_end_to_end_with_border() {
    // On a 6x2 canvas the two-pixel frame covers every row, so the whole
    // buffer is foreground.
    let font = two_by_two_font();
    let img = render("hi", &font, 0, None, true, fg(), bg()).unwrap();
    assert_eq!((img.width, img.height), (6, 2));
    for i in 0..12 {
        assert_eq!(group(&img.pixels, i), [235, 219, 178, 255]);
    }
}

#[test]
fn render_padding_and_border_leave_one_background_pixel() {
    // One solid 1x1 glyph with 2 pixels of padding on a 6x5 canvas: the
    // frame covers everything but the 2x1 interior, and the glyph fills
    // the interior's left pixel; only coordinate 15 stays background.
    let font = Font {
        cell_width: 1,
        cell_height: 1,
        glyphs: vec![('a', glyph(1, 1, 0, true)), (' ', glyph(1, 1, 0, false))],
    };
    let img = render("a", &font, 2, Some(30), true, fg(), bg()).unwrap();
    assert_eq!((img.width, img.height), (6, 5));
    assert_eq!(img.pixels.len(), 120);
    for i in 0..30 {
        if i == 15 {
            assert_eq!(group(&img.pixels, i), [40, 40, 40, 255]);
        } else {
            assert_eq!(group(&img.pixels, i), [235, 219, 178, 255]);
        }
    }
}

#[test]
fn render_wraps_before_rasterizing() {
    // Wrapped at 2, "h h" becomes two lines of one cell each: a 4x4 canvas
    // (line "h " is 2 cells wide) with the first line on top.
    let font = two_by_two_font();
    let img = render("h h", &font, 0, Some(2), false, fg(), bg()).unwrap();
    assert_eq!((img.width, img.height), (4, 4));
    for i in 0..8 {
        let expected = if i == 0 || i == 1 || i == 4 || i == 5 || i == 8 || i == 9 || i == 12 || i == 13 {
            [235, 219, 178, 255]
        } else {
            [40, 40, 40, 255]
        };
        assert_eq!(group(&img.pixels, i), expected);
    }
}

#[test]
fn box_pixels_are_glyphs_plus_border() {
    // On a 4x2 canvas the two-pixel frame already covers both rows, so the
    // set is the whole canvas; the 'h' cell coordinates come first.
    let font = two_by_two_font();
    let lines = vec!["h".to_string()];
    let mut pixels = get_box_pixels(&lines, &font, 0, 4, 2).unwrap();
    pixels.sort();
    pixels.dedup();
    assert_eq!(pixels, vec![0, 1, 2, 3, 4, 5, 6, 7]);
}

#[test]
fn render_missing_glyph_is_fatal() {
    let font = two_by_two_font();
    let err = render("q", &font, 0, None, false, fg(), bg()).unwrap_err();
    assert_eq!(err, RasterError::GlyphNotFound('q'));
}

#[test]
fn render_border_needs_room() {
    // Empty input with no padding gives a 0x0 canvas: no room for a frame.
    let font = two_by_two_font();
    let err = render("", &font, 0, None, true, fg(), bg()).unwrap_err();
    assert_eq!(err, RasterError::LayoutOverflow);
}

#[test]
fn render_empty_input_without_border() {
    let font = two_by_two_font();
    let img = render("", &font, 0, None, false, fg(), bg()).unwrap();
    assert_eq!((img.width, img.height), (0, 0));
    assert!(img.pixels.is_empty());
}

#[test]
fn render_canvas_overflow_is_fatal() {
    let font = Font {
        cell_width: u32::MAX,
        cell_height: u32::MAX,
        glyphs: vec![('h', glyph(1, 1, 0, true)), (' ', glyph(1, 1, 0, false))],
    };
    let err = render("h h h", &font, u32::MAX, None, false, fg(), bg()).unwrap_err();
    assert_eq!(err, RasterError::LayoutOverflow);
}
