//! Concrete instances of the properties the library proves.

use prism_core::raster;
use prism_core::reconstruct::scale;
use prism_core::varint::{get_varint, get_varuint, put_varint, put_varuint};
use prism_core::vector::{rasterize, FillRule, PathCmd, Shape, Style, VectorImage};
use prism_core::{decode_file, decode_payload, encode_file, encode_vector_file, FilePayload, Image, Rgba};

fn art() -> VectorImage {
    VectorImage {
        scale: 2,
        colors: vec![Rgba::new(9, 8, 7, 255), Rgba::new(200, 100, 0, 128)],
        styles: vec![
            Style::Flat { color: 0 },
            Style::Radial { cx: -40, cy: 40, ex: 100, ey: 40, c0: 0, c1: 1 },
        ],
        paths: vec![vec![
            PathCmd::MoveTo(-12, 4),
            PathCmd::QuadTo(60, -30, 100, 90),
            PathCmd::CubicTo(50, 200, 10, -5, 4, 4),
            PathCmd::LineTo(0, 90),
        ]],
        shapes: vec![
            Shape { style: 1, path: 0, fill_rule: FillRule::NonZero },
            Shape { style: 0, path: 0, fill_rule: FillRule::EvenOdd },
        ],
    }
}

#[test]
fn raster_payload_roundtrips() {
    let mut pixels = Vec::new();
    for y in 0..19u32 {
        for x in 0..300u32 {
            pixels.push(Rgba::new((x * 7) as u8, (y * 13) as u8, (x ^ y) as u8, (x + y) as u8));
        }
    }
    let bytes = raster::encode(&pixels, 300, 19);
    assert_eq!(raster::decode(&bytes, 300, 19).unwrap(), pixels);
}

#[test]
fn varints_roundtrip() {
    let values: [i64; 7] = [0, -1, 1, 63, -64, i64::MAX, i64::MIN];
    let mut out = Vec::new();
    for v in values {
        put_varint(&mut out, v);
    }
    put_varuint(&mut out, u64::MAX);
    let mut cur = 0usize;
    for v in values {
        assert_eq!(get_varint(&out, &mut cur), Ok(v));
    }
    assert_eq!(get_varuint(&out, &mut cur), Ok(u64::MAX));
    assert_eq!(cur, out.len());
}

#[test]
fn vector_file_roundtrips() {
    let a = art();
    let f = encode_vector_file(&a, 120, 100);
    match decode_payload(&f).unwrap() {
        FilePayload::Vector { art: back, width, height } => {
            assert_eq!(back, a);
            assert_eq!((width, height), (120, 100));
        }
        FilePayload::Raster(_) => panic!("vector file decoded as raster"),
    }
}

#[test]
fn vector_file_decodes_to_its_rasterization() {
    let a = art();
    let f = encode_vector_file(&a, 30, 25);
    let img = decode_file(&f).unwrap();
    assert_eq!((img.width, img.height), (30, 25));
    assert_eq!(img.pixels, rasterize(&a, 30, 25, 30, 25).unwrap());
}

#[test]
fn identity_scale_of_noise_is_exact() {
    let mut pixels = Vec::new();
    let mut s = 1u32;
    for _ in 0..(9 * 5) {
        s = s.wrapping_mul(1103515245).wrapping_add(12345);
        pixels.push(Rgba::new((s >> 24) as u8, (s >> 16) as u8, (s >> 8) as u8, s as u8));
    }
    let img = Image { width: 9, height: 5, pixels };
    assert_eq!(scale(&img, 9, 5).unwrap(), img);
}

#[test]
fn flat_image_stays_flat_at_odd_factors() {
    let img = Image { width: 3, height: 2, pixels: vec![Rgba::new(1, 254, 77, 0); 6] };
    let out = scale(&img, 11, 7).unwrap();
    assert_eq!(out.pixels, vec![Rgba::new(1, 254, 77, 0); 77]);
}

#[test]
fn raster_file_roundtrips_through_bytes() {
    let img = Image { width: 3, height: 1, pixels: vec![Rgba::new(1, 2, 3, 4); 3] };
    assert_eq!(decode_file(&encode_file(&img)).unwrap(), img);
}
