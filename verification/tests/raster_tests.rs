use textbox::font::{Font, Glyph};
use textbox::raster::{rasterize, RasterError};

fn glyph(width: u32, height: u32, y_offset: i32, on: bool) -> Glyph {
    Glyph {
        width,
        height,
        x_offset: 0,
        y_offset,
        bits: vec![on; (width * height) as usize],
    }
}

fn two_by_two_font() -> Font {
    Font {
        cell_width: 2,
        cell_height: 2,
        glyphs: vec![
            ('h', glyph(2, 2, 0, true)),
            ('i', glyph(2, 2, 0, false)),
            (' ', glyph(2, 2, 0, false)),
        ],
    }
}

fn sorted_set(mut v: Vec<u32>) -> Vec<u32> {
    v.sort();
    v.dedup();
    v
}

#[test]
fn lookup_finds_glyph() {
    let font = two_by_two_font();
    let g = font.lookup('h');
    assert!(g.is_some());
    assert_eq!(g.unwrap().width, 2);
    assert!(font.lookup('z').is_none());
}

#[test]
fn rasterize_solid_glyph_first_cell() {
    // 'h' paints its whole 2x2 cell, 'i' paints nothing: on a 4x2 canvas
    // the painted set is exactly the first glyph cell.
    let font = two_by_two_font();
    let lines = vec!["hi".to_string()];
    let pixels = rasterize(&lines, &font, 0, 4, 2).unwrap();
    assert_eq!(sorted_set(pixels), vec![0, 1, 4, 5]);
}

#[test]
fn rasterize_second_column() {
    // 'i' then 'h': the solid cell sits one cell advance to the right.
    let font = two_by_two_font();
    let lines = vec!["ih".to_string()];
    let pixels = rasterize(&lines, &font, 0, 4, 2).unwrap();
    assert_eq!(sorted_set(pixels), vec![2, 3, 6, 7]);
}

#[test]
fn rasterize_two_lines_reversed() {
    // Two lines on a 2x4 canvas: the first wrapped line lands in the top
    // cell row, the second in the bottom one.
    let font = two_by_two_font();
    let lines = vec!["h".to_string(), "i".to_string()];
    let pixels = rasterize(&lines, &font, 0, 2, 4).unwrap();
    assert_eq!(sorted_set(pixels), vec![0, 1, 2, 3]);
}

#[test]
fn rasterize_empty_lines() {
    let font = two_by_two_font();
    let lines: Vec<String> = Vec::new();
    let pixels = rasterize(&lines, &font, 0, 4, 4).unwrap();
    assert!(pixels.is_empty());
}

#[test]
fn rasterize_missing_glyph_is_fatal() {
    let font = two_by_two_font();
    let lines = vec!["hx".to_string()];
    let err = rasterize(&lines, &font, 0, 4, 2).unwrap_err();
    assert_eq!(err, RasterError::GlyphNotFound('x'));
}

#[test]
fn rasterize_rejects_canvas_too_short() {
    // The 2-row glyph cannot fit a 1-row canvas: its top row would be -1.
    let font = two_by_two_font();
    let lines = vec!["h".to_string()];
    let err = rasterize(&lines, &font, 0, 4, 1).unwrap_err();
    assert_eq!(err, RasterError::LayoutOverflow);
}

#[test]
fn rasterize_rejects_padding_larger_than_canvas() {
    let font = two_by_two_font();
    let lines = vec!["h".to_string()];
    let err = rasterize(&lines, &font, 9, 4, 2).unwrap_err();
    assert_eq!(err, RasterError::LayoutOverflow);
}

#[test]
fn rasterize_y_offset_raises_glyph() {
    // A 1x1 glyph one row above the baseline on a 1x3 canvas: the baseline
    // is the canvas bottom, so the bit lands in the middle row.
    let font = Font {
        cell_width: 1,
        cell_height: 3,
        glyphs: vec![('a', glyph(1, 1, 1, true))],
    };
    let lines = vec!["a".to_string()];
    let pixels = rasterize(&lines, &font, 0, 1, 3).unwrap();
    assert_eq!(sorted_set(pixels), vec![1]);
}

#[test]
fn rasterize_glyph_narrower_than_cell() {
    // A 1x2 glyph in a 2x2 cell paints only the cell's left column.
    let font = Font {
        cell_width: 2,
        cell_height: 2,
        glyphs: vec![('l', glyph(1, 2, 0, true))],
    };
    let lines = vec!["ll".to_string()];
    let pixels = rasterize(&lines, &font, 0, 4, 2).unwrap();
    assert_eq!(sorted_set(pixels), vec![0, 2, 4, 6]);
}
