use prism_core::pixel::{from_rgba_bytes, med, predict, to_rgba_bytes};
use prism_core::Rgba;

#[test]
fn med_selects_bound_on_edges() {
    assert_eq!(med(10, 50, 60), 10);
    assert_eq!(med(10, 50, 5), 50);
    assert_eq!(med(10, 50, 30), 30);
}

#[test]
fn med_gradient_stays_in_channel_range() {
    assert_eq!(med(200, 250, 210), 240);
    assert_eq!(med(0, 255, 100), 155);
}

#[test]
fn hash_slot_formula() {
    let p = Rgba::new(1, 2, 3, 4);
    assert_eq!(p.hash(), (3 + 10 + 21 + 44) % 64);
    assert_eq!(Rgba::new(255, 255, 255, 255).hash(), (255 * 26) % 64);
}

#[test]
fn predict_edges_and_interior() {
    let px = vec![
        Rgba::new(10, 20, 30, 40),
        Rgba::new(50, 60, 70, 80),
        Rgba::new(90, 100, 110, 120),
        Rgba::new(0, 0, 0, 0),
    ];
    assert_eq!(predict(&px, 2, 0, 0), Rgba::opaque_black());
    assert_eq!(predict(&px, 2, 1, 0), px[0]);
    assert_eq!(predict(&px, 2, 0, 1), px[0]);
    // l = px[2], u = px[1], ul = px[0]: ul below both, so the larger wins
    assert_eq!(predict(&px, 2, 1, 1), Rgba::new(90, 100, 110, 120));
}

#[test]
fn rgba_bytes_interleave_and_group_back() {
    let px = vec![Rgba::new(1, 2, 3, 4), Rgba::new(5, 6, 7, 8)];
    let bytes = to_rgba_bytes(&px);
    assert_eq!(bytes, vec![1, 2, 3, 4, 5, 6, 7, 8]);
    assert_eq!(from_rgba_bytes(&bytes), px);
    assert_eq!(from_rgba_bytes(&[9, 9, 9, 9, 1, 2]), vec![Rgba::new(9, 9, 9, 9)]);
}

#[test]
fn default_pixel_is_transparent_black() {
    assert_eq!(Rgba::default(), Rgba::new(0, 0, 0, 0));
}
