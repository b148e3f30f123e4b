use textbox::border::add_box;

fn sorted_set(mut v: Vec<u32>) -> Vec<u32> {
    v.sort();
    v.dedup();
    v
}

#[test]
fn add_box_covers_whole_2x2_canvas() {
    let mut pixels: Vec<u32> = Vec::new();
    add_box(&mut pixels, 2, 2);
    assert_eq!(sorted_set(pixels), vec![0, 1, 2, 3]);
}

#[test]
fn add_box_leaves_interior_of_6x6_canvas() {
    let mut pixels: Vec<u32> = Vec::new();
    add_box(&mut pixels, 6, 6);
    let got = sorted_set(pixels);
    let expected: Vec<u32> = (0u32..36)
        .filter(|p| {
            let row = p / 6;
            let col = p % 6;
            row <= 1 || row >= 4 || col <= 1 || col >= 4
        })
        .collect();
    assert_eq!(got, expected);
}

#[test]
fn add_box_keeps_existing_pixels() {
    let mut pixels: Vec<u32> = vec![14];
    add_box(&mut pixels, 6, 6);
    let got = sorted_set(pixels);
    assert!(got.contains(&14));
}

#[test]
fn add_box_twice_is_idempotent() {
    // Coordinates form a set: a second border pass adds nothing new.
    let mut once: Vec<u32> = vec![20];
    add_box(&mut once, 6, 6);
    let mut twice: Vec<u32> = vec![20];
    add_box(&mut twice, 6, 6);
    add_box(&mut twice, 6, 6);
    assert_eq!(sorted_set(once), sorted_set(twice));
}
