use prism_core::reconstruct::{fits_scale, scale};
use prism_core::{Error, Image, Rgba};

fn image(width: u32, height: u32, f: impl Fn(u32, u32) -> Rgba) -> Image {
    let mut pixels = Vec::new();
    for y in 0..height {
        for x in 0..width {
            pixels.push(f(x, y));
        }
    }
    Image { width, height, pixels }
}

#[test]
fn identity_scale_is_bit_exact() {
    let img = image(37, 23, |x, y| Rgba::new(x as u8, y as u8, (x * y) as u8, 255));
    let scaled = scale(&img, 37, 23).unwrap();
    assert_eq!(scaled, img);
}

#[test]
fn flat_image_stays_flat() {
    let img = image(16, 16, |_, _| Rgba::new(120, 7, 200, 33));
    let scaled = scale(&img, 100, 57).unwrap();
    assert!(scaled.pixels.iter().all(|&p| p == Rgba::new(120, 7, 200, 33)));
}

#[test]
fn symmetric_input_gives_symmetric_output() {
    let img = image(16, 16, |x, _| {
        let d = if x < 8 { x } else { 15 - x };
        Rgba::new((d * 30) as u8, 0, 0, 255)
    });
    let scaled = scale(&img, 64, 16).unwrap();
    for y in 0..16usize {
        for x in 0..64usize {
            let a = scaled.pixels[y * 64 + x];
            let b = scaled.pixels[y * 64 + (63 - x)];
            assert_eq!(a, b, "asymmetry at ({x}, {y})");
        }
    }
}

#[test]
fn minification_is_rejected() {
    let img = image(16, 16, |_, _| Rgba::opaque_black());
    assert!(scale(&img, 8, 16).is_err());
}

#[test]
fn minification_error_names_the_rule() {
    let img = image(4, 4, |_, _| Rgba::opaque_black());
    assert_eq!(
        scale(&img, 4, 3),
        Err(Error::BadHeader("version 1 reconstruction does not minify"))
    );
}

#[test]
fn zero_output_dimension_is_rejected() {
    let img = Image { width: 0, height: 0, pixels: Vec::new() };
    assert_eq!(scale(&img, 0, 5), Err(Error::BadHeader("zero output dimension")));
}

#[test]
fn doubling_a_two_pixel_edge_rounds_exactly() {
    // Catmull-Rom at t = 0.25 and 0.75 between 0 and 255, clamped at the edges.
    let img = image(2, 1, |x, _| if x == 0 { Rgba::new(0, 0, 0, 255) } else { Rgba::new(255, 255, 255, 255) });
    let scaled = scale(&img, 4, 1).unwrap();
    let reds: Vec<u8> = scaled.pixels.iter().map(|p| p.r).collect();
    assert_eq!(reds, vec![0, 52, 203, 255]);
    assert!(scaled.pixels.iter().all(|p| p.a == 255));
}

#[test]
fn fits_scale_reports_overflow() {
    assert!(fits_scale(16, 16, 100, 57));
    assert!(!fits_scale(u32::MAX, 1, u32::MAX, 1));
}
