use prism_core::bench::{png_encode, qoi_encode};
use prism_core::Rgba;

#[test]
fn qoi_output_has_header_and_end_marker() {
    let px = vec![Rgba::new(1, 2, 3, 255); 6];
    let q = qoi_encode(&px, 3, 2).unwrap();
    assert_eq!(&q[..4], b"qoif");
    assert_eq!(&q[4..8], &3u32.to_be_bytes());
    assert_eq!(&q[8..12], &2u32.to_be_bytes());
    assert_eq!(q[12], 4);
    assert_eq!(&q[q.len() - 8..], &[0, 0, 0, 0, 0, 0, 0, 1]);
}

#[test]
fn qoi_refuses_mismatched_sizes() {
    let px = vec![Rgba::new(1, 2, 3, 255); 6];
    // 24 bytes over 8 pixels read as three channels each
    assert!(qoi_encode(&px, 4, 2).is_some());
    assert!(qoi_encode(&px, 5, 2).is_none());
    assert!(qoi_encode(&[], 0, 0).is_none());
}

#[test]
fn png_output_has_signature() {
    let px = vec![Rgba::new(9, 8, 7, 6); 4];
    let p = png_encode(&px, 2, 2).unwrap();
    assert_eq!(&p[..8], &[0x89, b'P', b'N', b'G', 0x0D, 0x0A, 0x1A, 0x0A]);
}
