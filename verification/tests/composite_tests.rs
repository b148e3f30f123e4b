use textbox::composite::{composite, explode_to_png_pixels};
use textbox::Rgba;

const FG: [u8; 4] = [235, 219, 178, 255];
const BG: [u8; 4] = [40, 40, 40, 255];

fn group(buf: &[u8], i: usize) -> [u8; 4] {
    [buf[4 * i], buf[4 * i + 1], buf[4 * i + 2], buf[4 * i + 3]]
}

#[test]
fn composite_paints_members_only() {
    let fg = Rgba { r: 1, g: 2, b: 3, a: 4 };
    let bg = Rgba { r: 9, g: 8, b: 7, a: 6 };
    let buf = composite(&vec![5], 3, 3, fg, bg);
    assert_eq!(buf.len(), 36);
    for i in 0..9 {
        if i == 5 {
            assert_eq!(group(&buf, i), [1, 2, 3, 4]);
        } else {
            assert_eq!(group(&buf, i), [9, 8, 7, 6]);
        }
    }
}

#[test]
fn composite_duplicates_are_harmless() {
    let fg = Rgba { r: 1, g: 1, b: 1, a: 1 };
    let bg = Rgba { r: 0, g: 0, b: 0, a: 0 };
    let once = composite(&vec![2], 2, 2, fg, bg);
    let thrice = composite(&vec![2, 2, 2], 2, 2, fg, bg);
    assert_eq!(once, thrice);
}

#[test]
fn explode_uses_default_palette() {
    let buf = explode_to_png_pixels(vec![0, 8], 3, 3);
    assert_eq!(buf.len(), 36);
    for i in 0..9 {
        if i == 0 || i == 8 {
            assert_eq!(group(&buf, i), FG);
        } else {
            assert_eq!(group(&buf, i), BG);
        }
    }
}

#[test]
fn explode_ignores_out_of_range_coordinates() {
    let buf = explode_to_png_pixels(vec![9, 1000], 3, 3);
    assert_eq!(buf.len(), 36);
    for i in 0..9 {
        assert_eq!(group(&buf, i), BG);
    }
}

#[test]
fn explode_empty_set_is_all_background() {
    let buf = explode_to_png_pixels(Vec::new(), 2, 2);
    assert_eq!(buf.len(), 16);
    for i in 0..4 {
        assert_eq!(group(&buf, i), BG);
    }
}

#[test]
fn explode_zero_sized_canvas() {
    let buf = explode_to_png_pixels(Vec::new(), 0, 5);
    assert!(buf.is_empty());
}
