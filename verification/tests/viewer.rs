use prism_core::pixel::to_rgba_bytes;
use prism_core::reconstruct::scale;
use prism_core::vector::{rasterize, FillRule, PathCmd, Shape, Style, VectorImage};
use prism_core::viewer::Slab;
use prism_core::{encode_file, encode_vector_file, Image, Rgba};

fn raster_file() -> (Image, Vec<u8>) {
    let mut pixels = Vec::new();
    for y in 0..4u32 {
        for x in 0..5u32 {
            pixels.push(Rgba::new((x * 50) as u8, (y * 60) as u8, 9, 255));
        }
    }
    let img = Image { width: 5, height: 4, pixels };
    let f = encode_file(&img);
    (img, f)
}

fn vector_file() -> (VectorImage, Vec<u8>) {
    let art = VectorImage {
        scale: 0,
        colors: vec![Rgba::new(10, 20, 30, 255)],
        styles: vec![Style::Flat { color: 0 }],
        paths: vec![vec![PathCmd::MoveTo(1, 1), PathCmd::LineTo(7, 2), PathCmd::LineTo(3, 7)]],
        shapes: vec![Shape { style: 0, path: 0, fill_rule: FillRule::NonZero }],
    };
    let f = encode_vector_file(&art, 8, 8);
    (art, f)
}

#[test]
fn handles_count_from_one_and_stay_apart() {
    let (_, rf) = raster_file();
    let (_, vf) = vector_file();
    let mut slab = Slab::new();
    let a = slab.load(&rf).unwrap();
    let b = slab.load(&vf).unwrap();
    assert_eq!((a, b), (1, 2));
    assert_eq!((slab.kind(a), slab.width(a), slab.height(a)), (1, 5, 4));
    assert_eq!((slab.kind(b), slab.width(b), slab.height(b)), (2, 8, 8));
    assert_eq!(slab.kind(0), 0);
    assert_eq!(slab.kind(3), 0);
}

#[test]
fn bad_file_gives_handle_zero() {
    let mut slab = Slab::new();
    assert_eq!(slab.load(b"not a prism file"), Some(0));
    assert_eq!(slab.kind(1), 0);
}

#[test]
fn unload_is_idempotent() {
    let (_, rf) = raster_file();
    let mut slab = Slab::new();
    let a = slab.load(&rf).unwrap();
    slab.unload(a);
    slab.unload(a);
    slab.unload(0);
    assert_eq!(slab.kind(a), 0);
    assert_eq!(slab.width(a), 0);
    assert_eq!(slab.render(a, 5, 4), Some(None));
}

#[test]
fn raster_renders_native_and_scaled() {
    let (img, rf) = raster_file();
    let mut slab = Slab::new();
    let h = slab.load(&rf).unwrap();
    assert_eq!(slab.render(h, 5, 4), Some(Some(to_rgba_bytes(&img.pixels))));
    let scaled = scale(&img, 12, 9).unwrap();
    assert_eq!(slab.render(h, 12, 9), Some(Some(to_rgba_bytes(&scaled.pixels))));
    assert_eq!(slab.render(h, 4, 4), Some(None));
}

#[test]
fn vector_renders_at_any_size() {
    let (art, vf) = vector_file();
    let mut slab = Slab::new();
    let h = slab.load(&vf).unwrap();
    for (w, hh) in [(8u32, 8u32), (3, 2), (40, 17)] {
        let px = rasterize(&art, 8, 8, w, hh).unwrap();
        assert_eq!(slab.render(h, w, hh), Some(Some(to_rgba_bytes(&px))));
    }
    assert_eq!(slab.render(h, 0, 8), Some(None));
}

#[test]
fn a_handle_lives_until_unloaded_whatever_else_happens() {
    let (_, rf) = raster_file();
    let (_, vf) = vector_file();
    let mut slab = Slab::new();
    let a = slab.load(&rf).unwrap();
    let b = slab.load(&vf).unwrap();
    assert_eq!(slab.load(b"junk"), Some(0));
    let c = slab.load(&rf).unwrap();
    slab.unload(c);
    slab.unload(a);
    slab.unload(a);
    let d = slab.load(&vf).unwrap();
    assert_eq!((a, b, c, d), (1, 2, 3, 4));
    assert_eq!(slab.kind(a), 0);
    assert_eq!(slab.kind(b), 2);
    assert_eq!(slab.kind(c), 0);
    assert_eq!(slab.kind(d), 2);
    assert_eq!(slab.kind(0), 0);
    assert_eq!(slab.kind(5), 0);
}
