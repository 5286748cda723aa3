use epd_home::dither::{dither_image, luma, Rgb};
use epd_home::order::str_lt;

fn grid(w: usize, h: usize, p: Rgb) -> Vec<Vec<Rgb>> {
    vec![vec![p; w]; h]
}

#[test]
fn luma_weights() {
    assert_eq!(luma(Rgb { r: 255, g: 255, b: 255 }), 255);
    assert_eq!(luma(Rgb { r: 0, g: 0, b: 0 }), 0);
    assert_eq!(luma(Rgb { r: 128, g: 128, b: 128 }), 128);
    // pure red is much darker than pure green under the perceptual weights
    assert_eq!(luma(Rgb { r: 255, g: 0, b: 0 }), 54);
    assert_eq!(luma(Rgb { r: 0, g: 255, b: 0 }), 182);
    assert_eq!(luma(Rgb { r: 0, g: 0, b: 255 }), 18);
}

#[test]
fn all_white_dithers_to_all_false() {
    let out = dither_image(&grid(5, 4, Rgb { r: 255, g: 255, b: 255 }));
    assert_eq!(out.len(), 4);
    for row in &out {
        assert_eq!(row.len(), 5);
        assert!(row.iter().all(|&b| !b));
    }
}

#[test]
fn all_black_dithers_to_all_true() {
    let out = dither_image(&grid(3, 6, Rgb { r: 0, g: 0, b: 0 }));
    assert_eq!(out.len(), 6);
    for row in &out {
        assert_eq!(row.len(), 3);
        assert!(row.iter().all(|&b| b));
    }
}

#[test]
fn dithering_is_deterministic() {
    let img = vec![
        vec![Rgb { r: 10, g: 200, b: 30 }, Rgb { r: 130, g: 130, b: 130 }],
        vec![Rgb { r: 250, g: 2, b: 90 }, Rgb { r: 60, g: 60, b: 60 }],
    ];
    let a = dither_image(&img);
    let b = dither_image(&img);
    assert_eq!(a, b);
}

#[test]
fn threshold_sits_at_mid_intensity() {
    let light = dither_image(&grid(1, 1, Rgb { r: 128, g: 128, b: 128 }));
    assert_eq!(light, vec![vec![false]]);
    let dark = dither_image(&grid(1, 1, Rgb { r: 127, g: 127, b: 127 }));
    assert_eq!(dark, vec![vec![true]]);
}

#[test]
fn error_diffuses_to_the_right_neighbour() {
    // both pixels sit just above the threshold; quantizing the first to
    // white pushes a negative error right that tips the second to black
    let img = vec![vec![Rgb { r: 130, g: 130, b: 130 }, Rgb { r: 130, g: 130, b: 130 }]];
    let out = dither_image(&img);
    assert_eq!(out, vec![vec![false, true]]);
}

#[test]
fn empty_image_dithers_to_empty_grid() {
    let out = dither_image(&Vec::new());
    assert!(out.is_empty());
}

#[test]
fn string_order_is_lexicographic() {
    assert!(str_lt("abc", "abd"));
    assert!(str_lt("ab", "abc"));
    assert!(!str_lt("b", "a"));
    assert!(!str_lt("same", "same"));
    assert!(str_lt("", "a"));
    assert!(str_lt("Zebra", "apple"));
}
