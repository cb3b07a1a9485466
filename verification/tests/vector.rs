use prism_core::vector::{
    decode, encode, rasterize, rasterize_checked, FillRule, PathCmd, Shape, Style, VectorImage,
};
use prism_core::{Error, Rgba};

fn sample_art() -> VectorImage {
    VectorImage {
        scale: 0,
        colors: vec![
            Rgba::new(200, 40, 40, 255),
            Rgba::new(40, 40, 200, 255),
            Rgba::new(30, 200, 30, 128),
        ],
        styles: vec![
            Style::Flat { color: 0 },
            Style::Linear { x0: 0, y0: 0, x1: 96, y1: 0, c0: 0, c1: 1 },
            Style::Radial { cx: 48, cy: 48, ex: 88, ey: 48, c0: 2, c1: 1 },
        ],
        paths: vec![
            vec![
                PathCmd::MoveTo(8, 8),
                PathCmd::LineTo(88, 8),
                PathCmd::LineTo(88, 88),
                PathCmd::LineTo(8, 88),
                PathCmd::Close,
            ],
            vec![
                PathCmd::MoveTo(48, 12),
                PathCmd::CubicTo(80, 12, 80, 84, 48, 84),
                PathCmd::QuadTo(20, 48, 48, 12),
                PathCmd::Close,
            ],
        ],
        shapes: vec![
            Shape { style: 1, path: 0, fill_rule: FillRule::NonZero },
            Shape { style: 0, path: 1, fill_rule: FillRule::EvenOdd },
        ],
    }
}

#[test]
fn wire_roundtrip() {
    let art = sample_art();
    let encoded = encode(&art);
    let decoded = decode(&encoded).expect("decode failed");
    assert_eq!(decoded, art);
}

#[test]
fn rejects_draw_before_move() {
    let mut data = vec![0u8];
    data.push(0);
    data.push(0);
    data.push(1);
    data.extend_from_slice(&[1, 1, 2, 2]);
    data.push(0);
    assert_eq!(decode(&data), Err(Error::BadVector("draw before move_to")));
}

#[test]
fn rejects_bad_indices() {
    let art = sample_art();
    let mut encoded = encode(&art);
    let n = encoded.len();
    encoded[n - 3] = 9;
    assert!(matches!(decode(&encoded), Err(Error::BadVector(_))));
}

#[test]
fn rasterizes_inside_and_outside() {
    let art = sample_art();
    let px = rasterize(&art, 96, 96, 96, 96).unwrap();
    assert_eq!(px[0].a, 0);
    let center = px[48 * 96 + 48];
    assert!(center.a == 255, "center should be opaque, got {center:?}");
    assert!(center.r > 150, "center should be red-ish, got {center:?}");
}

#[test]
fn scales_without_pixelation_artifacts() {
    let art = sample_art();
    let big = rasterize(&art, 96, 96, 384, 384).unwrap();
    assert_eq!(big.len(), 384 * 384);
    assert_eq!(big[0].a, 0);
    assert_eq!(big[192 * 384 + 192].a, 255);
}

#[test]
fn sample_art_rasterizes_without_overflow() {
    let art = sample_art();
    assert!(matches!(rasterize_checked(&art, 96, 96, 96, 96), Some(Ok(_))));
    assert!(matches!(rasterize_checked(&art, 96, 96, 384, 384), Some(Ok(_))));
}

#[test]
fn zero_dimension_is_rejected() {
    let art = sample_art();
    assert_eq!(rasterize(&art, 0, 96, 96, 96), Err(Error::BadVector("zero dimension")));
    assert_eq!(rasterize(&art, 96, 96, 96, 0), Err(Error::BadVector("zero dimension")));
}

#[test]
fn flat_square_fills_exactly_its_pixels() {
    let art = VectorImage {
        scale: 0,
        colors: vec![Rgba::new(10, 20, 30, 255)],
        styles: vec![Style::Flat { color: 0 }],
        paths: vec![vec![
            PathCmd::MoveTo(2, 2),
            PathCmd::LineTo(6, 2),
            PathCmd::LineTo(6, 6),
            PathCmd::LineTo(2, 6),
            PathCmd::Close,
        ]],
        shapes: vec![Shape { style: 0, path: 0, fill_rule: FillRule::NonZero }],
    };
    let px = rasterize(&art, 8, 8, 8, 8).unwrap();
    for y in 0..8usize {
        for x in 0..8usize {
            let inside = (2..6).contains(&x) && (2..6).contains(&y);
            let want = if inside { Rgba::new(10, 20, 30, 255) } else { Rgba::new(0, 0, 0, 0) };
            assert_eq!(px[y * 8 + x], want, "pixel ({x}, {y})");
        }
    }
}

#[test]
fn even_odd_leaves_a_hole_where_nonzero_fills() {
    let square = |x0: i64, x1: i64| {
        vec![
            PathCmd::MoveTo(x0, x0),
            PathCmd::LineTo(x1, x0),
            PathCmd::LineTo(x1, x1),
            PathCmd::LineTo(x0, x1),
            PathCmd::Close,
        ]
    };
    let mut path = square(0, 8);
    path.extend(square(2, 6));
    let art = |rule| VectorImage {
        scale: 0,
        colors: vec![Rgba::new(255, 0, 0, 255)],
        styles: vec![Style::Flat { color: 0 }],
        paths: vec![path.clone()],
        shapes: vec![Shape { style: 0, path: 0, fill_rule: rule }],
    };
    let nonzero = rasterize(&art(FillRule::NonZero), 8, 8, 8, 8).unwrap();
    let evenodd = rasterize(&art(FillRule::EvenOdd), 8, 8, 8, 8).unwrap();
    assert_eq!(nonzero[4 * 8 + 4].a, 255);
    assert_eq!(evenodd[4 * 8 + 4].a, 0);
    assert_eq!(evenodd[1 * 8 + 1].a, 255);
}

#[test]
fn out_of_range_path_index_is_refused_by_the_checked_form() {
    let mut art = sample_art();
    art.shapes[0].path = 7;
    assert!(rasterize_checked(&art, 96, 96, 96, 96).is_none());
}

#[test]
fn huge_coordinates_are_reported_by_the_checked_form() {
    let art = VectorImage {
        scale: 0,
        colors: vec![Rgba::new(1, 1, 1, 255)],
        styles: vec![Style::Flat { color: 0 }],
        paths: vec![vec![PathCmd::MoveTo(i64::MAX / 2, 0), PathCmd::LineTo(0, 5)]],
        shapes: vec![Shape { style: 0, path: 0, fill_rule: FillRule::NonZero }],
    };
    assert!(rasterize_checked(&art, 8, 8, 8, 8).is_none());
}

#[test]
fn art_without_shapes_is_transparent() {
    let art = VectorImage { scale: 3, colors: vec![], styles: vec![], paths: vec![], shapes: vec![] };
    let px = rasterize(&art, 10, 10, 7, 3).unwrap();
    assert_eq!(px, vec![Rgba::new(0, 0, 0, 0); 21]);
}

#[test]
fn close_returns_to_the_subpath_start() {
    let art = VectorImage {
        scale: 0,
        colors: vec![],
        styles: vec![],
        paths: vec![vec![PathCmd::MoveTo(1, 1), PathCmd::LineTo(3, 1), PathCmd::Close, PathCmd::LineTo(1, 2)]],
        shapes: vec![],
    };
    let encoded = encode(&art);
    assert_eq!(encoded, vec![0, 0, 0, 1, 4, 0, 2, 2, 1, 4, 0, 4, 1, 0, 2, 0]);
    assert_eq!(decode(&encoded), Ok(art));
}
