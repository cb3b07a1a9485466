use prism_core::corpus::{noise_image, pattern_image, Pattern};
use prism_core::preview::{nearest, side_by_side};
use prism_core::{Image, Rgba};

#[test]
fn nearest_doubles_each_pixel() {
    let img = Image {
        width: 2,
        height: 1,
        pixels: vec![Rgba::new(1, 1, 1, 1), Rgba::new(2, 2, 2, 2)],
    };
    let out = nearest(&img, 4, 2);
    assert_eq!((out.width, out.height), (4, 2));
    let a = Rgba::new(1, 1, 1, 1);
    let b = Rgba::new(2, 2, 2, 2);
    assert_eq!(out.pixels, vec![a, a, b, b, a, a, b, b]);
}

#[test]
fn nearest_at_native_size_is_identity() {
    let img = pattern_image(Pattern::DemoSmall, 48);
    assert_eq!(nearest(&img, 48, 48), img);
}

#[test]
fn side_by_side_puts_a_white_gap_between() {
    let l = Image { width: 1, height: 2, pixels: vec![Rgba::new(1, 0, 0, 255), Rgba::new(2, 0, 0, 255)] };
    let r = Image { width: 1, height: 2, pixels: vec![Rgba::new(3, 0, 0, 255), Rgba::new(4, 0, 0, 255)] };
    let out = side_by_side(&l, &r, 2);
    let w = Rgba::new(255, 255, 255, 255);
    assert_eq!((out.width, out.height), (4, 2));
    assert_eq!(
        out.pixels,
        vec![l.pixels[0], w, w, r.pixels[0], l.pixels[1], w, w, r.pixels[1]]
    );
}

#[test]
fn gradient_pattern_values() {
    let img = pattern_image(Pattern::Gradient, 512);
    assert_eq!(img.pixels[0], Rgba::new(0, 0, 0, 255));
    assert_eq!(img.pixels[511 * 512 + 511], Rgba::new(255, 255, 255, 255));
    assert_eq!(img.pixels[3 * 512 + 9], Rgba::new(4, 1, 3, 255));
}

#[test]
fn shapes_pattern_rings() {
    let img = pattern_image(Pattern::Shapes, 512);
    assert_eq!(img.pixels[256 * 512 + 256], Rgba::new(220, 60, 60, 255));
    assert_eq!(img.pixels[256 * 512 + 406], Rgba::new(60, 60, 220, 255));
    assert_eq!(img.pixels[0], Rgba::new(240, 240, 235, 255));
}

#[test]
fn demo_pattern_diagonal_and_ground() {
    let img = pattern_image(Pattern::DemoSmall, 48);
    assert_eq!(img.pixels[24 * 48 + 24], Rgba::new(210, 70, 50, 255));
    assert_eq!(img.pixels[2 * 48 + 3], Rgba::new(30, 30, 30, 255));
    assert_eq!(img.pixels[0 * 48 + 10], Rgba::new(110, 90, 170, 255));
}

#[test]
fn noise_matches_the_generator() {
    let img = noise_image(4);
    let mut state = 0xDEADBEEFu64;
    let mut next = || {
        state = state.wrapping_mul(6364136223846793005).wrapping_add(1442695040888963407);
        (state >> 56) as u8
    };
    for p in &img.pixels {
        let (r, g, b) = (next(), next(), next());
        assert_eq!(*p, Rgba::new(r, g, b, 255));
    }
    assert_eq!(img.pixels.len(), 16);
}
