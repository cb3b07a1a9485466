//! Synthetic test images: smooth gradients, flat shapes with hard edges, a
//! small demo picture and incompressible noise.

use vstd::prelude::*;
use crate::container::Image;
use crate::pixel::Rgba;

verus! {

/// The deterministic patterns of the synthetic corpus.
#[derive(Clone, Copy, PartialEq, Eq, Debug, Structural)]
pub enum Pattern {
    /// Red along x, green along y, blue along the diagonal.
    Gradient,
    /// A red disc inside a blue ring on an off-white ground, centred at (256, 256).
    Shapes,
    /// A small disc, a dark diagonal and a tinted ground, centred at (24, 24).
    DemoSmall,
}

/// Pixel (x, y) of a pattern.
pub open spec fn pattern_px(p: Pattern, x: int, y: int) -> Rgba {
    match p {
        Pattern::Gradient => Rgba {
            r: (x / 2) as u8,
            g: (y / 2) as u8,
            b: ((x + y) / 4) as u8,
            a: 255,
        },
        Pattern::Shapes => {
            let d = (x - 256) * (x - 256) + (y - 256) * (y - 256);
            if d < 100 * 100 {
                Rgba { r: 220, g: 60, b: 60, a: 255 }
            } else if d < 200 * 200 {
                Rgba { r: 60, g: 60, b: 220, a: 255 }
            } else {
                Rgba { r: 240, g: 240, b: 235, a: 255 }
            }
        },
        Pattern::DemoSmall => {
            let d = (x - 24) * (x - 24) + (y - 24) * (y - 24);
            if d < 12 * 12 {
                Rgba { r: 210, g: 70, b: 50, a: 255 }
            } else if -2 < x - y < 2 {
                Rgba { r: 30, g: 30, b: 30, a: 255 }
            } else {
                Rgba { r: (80 + x * 3) as u8, g: (90 + y * 3) as u8, b: 170, a: 255 }
            }
        },
    }
}

/// Pixel (x, y) of a pattern.
pub fn pattern_pixel(p: Pattern, x: u32, y: u32) -> (px: Rgba)
    requires
        x < 0x8000,
        y < 0x8000,
    ensures
        px == pattern_px(p, x as int, y as int),
{
    match p {
        Pattern::Gradient => Rgba::new((x / 2) as u8, (y / 2) as u8, ((x + y) / 4) as u8, 255),
        Pattern::Shapes => {
            let cx = x as i32 - 256;
            let cy = y as i32 - 256;
            proof {
                assert(cx * cx <= 0x3FF0_0100) by (nonlinear_arith)
                    requires
                        -256 <= cx <= 0x7FF0,
                ;
                assert(cy * cy <= 0x3FF0_0100) by (nonlinear_arith)
                    requires
                        -256 <= cy <= 0x7FF0,
                ;
                assert(cx * cx >= 0 && cy * cy >= 0) by (nonlinear_arith);
            }
            let d = cx * cx + cy * cy;
            if d < 100 * 100 {
                Rgba::new(220, 60, 60, 255)
            } else if d < 200 * 200 {
                Rgba::new(60, 60, 220, 255)
            } else {
                Rgba::new(240, 240, 235, 255)
            }
        },
        Pattern::DemoSmall => {
            let cx = x as i32 - 24;
            let cy = y as i32 - 24;
            proof {
                assert(cx * cx <= 0x3FF0_0100) by (nonlinear_arith)
                    requires
                        -24 <= cx <= 0x7FF0,
                ;
                assert(cy * cy <= 0x3FF0_0100) by (nonlinear_arith)
                    requires
                        -24 <= cy <= 0x7FF0,
                ;
                assert(cx * cx >= 0 && cy * cy >= 0) by (nonlinear_arith);
            }
            let d = cx * cx + cy * cy;
            let diff = x as i32 - y as i32;
            if d < 12 * 12 {
                Rgba::new(210, 70, 50, 255)
            } else if -2 < diff && diff < 2 {
                Rgba::new(30, 30, 30, 255)
            } else {
                Rgba::new((80 + x * 3) as u8, (90 + y * 3) as u8, 170, 255)
            }
        },
    }
}

/// A `size` x `size` image of a pattern, row-major.
pub open spec fn pattern_spec(p: Pattern, size: int) -> Seq<Rgba> {
    Seq::new((size * size) as nat, |k: int| pattern_px(p, k % size, k / size))
}

/// A `size` x `size` image of a pattern.
pub fn pattern_image(p: Pattern, size: u32) -> (img: Image)
    requires
        size <= 0x8000,
    ensures
        img.width == size,
        img.height == size,
        img.pixels@ == pattern_spec(p, size as int),
{
    let mut pixels: Vec<Rgba> = Vec::new();
    let mut y: u32 = 0;
    while y < size
        invariant
            0 <= y <= size,
            size <= 0x8000,
            pixels@.len() == y * size,
            forall|k: int| 0 <= k < pixels@.len() ==> pixels@[k] == pattern_px(p, k % size as int, k / size as int),
        decreases size - y,
    {
        let mut x: u32 = 0;
        while x < size
            invariant
                0 <= y < size,
                0 <= x <= size,
                size <= 0x8000,
                pixels@.len() == y * size + x,
                forall|k: int| 0 <= k < pixels@.len() ==> pixels@[k] == pattern_px(p, k % size as int, k / size as int),
            decreases size - x,
        {
            proof {
                vstd::arithmetic::div_mod::lemma_fundamental_div_mod_converse(
                    (y * size + x) as int,
                    size as int,
                    y as int,
                    x as int,
                );
            }
            pixels.push(pattern_pixel(p, x, y));
            x = x + 1;
        }
        proof {
            assert(pixels@.len() == (y + 1) * size) by (nonlinear_arith)
                requires
                    pixels@.len() == y * size + size,
            ;
        }
        y = y + 1;
    }
    proof {
        assert(pixels@ =~= pattern_spec(p, size as int)) by {
            assert(y * size == size * size);
        }
    }
    Image { width: size, height: size, pixels }
}

/// The noise generator's seed.
pub const NOISE_SEED: u64 = 0xDEADBEEF;

/// One step of the noise generator (a 64-bit linear congruential generator).
pub open spec fn lcg(s: u64) -> u64 {
    s.wrapping_mul(6364136223846793005).wrapping_add(1442695040888963407)
}

/// The generator state after `n` steps from `s`.
pub open spec fn lcg_iter(s: u64, n: nat) -> u64
    decreases n,
{
    if n == 0 {
        s
    } else {
        lcg(lcg_iter(s, (n - 1) as nat))
    }
}

/// The byte the generator yields at step `n` (counted from 1).
pub open spec fn noise_byte(n: nat) -> u8 {
    (lcg_iter(NOISE_SEED, n) >> 56) as u8
}

/// Noise: pixel `i` takes the generator's bytes 3i+1, 3i+2, 3i+3 as red,
/// green and blue, fully opaque.
pub open spec fn noise_spec(count: nat) -> Seq<Rgba> {
    Seq::new(
        count,
        |i: int| Rgba {
            r: noise_byte((3 * i + 1) as nat),
            g: noise_byte((3 * i + 2) as nat),
            b: noise_byte((3 * i + 3) as nat),
            a: 255,
        },
    )
}

fn noise_next(state: &mut u64) -> (b: u8)
    ensures
        *final(state) == lcg(*old(state)),
        b == (lcg(*old(state)) >> 56) as u8,
{
    *state = state.wrapping_mul(6364136223846793005).wrapping_add(1442695040888963407);
    (*state >> 56) as u8
}

/// A `size` x `size` image of noise.
pub fn noise_image(size: u32) -> (img: Image)
    requires
        size * size <= u32::MAX,
    ensures
        img.width == size,
        img.height == size,
        img.pixels@ == noise_spec((size * size) as nat),
{
    let mut state: u64 = NOISE_SEED;
    let n = size * size;
    let mut pixels: Vec<Rgba> = Vec::new();
    let mut i: u32 = 0;
    while i < n
        invariant
            0 <= i <= n,
            n == size * size,
            state == lcg_iter(NOISE_SEED, (3 * i) as nat),
            pixels@.len() == i,
            forall|k: int| 0 <= k < i ==> pixels@[k] == noise_spec(n as nat)[k],
        decreases n - i,
    {
        let r = noise_next(&mut state);
        let g = noise_next(&mut state);
        let b = noise_next(&mut state);
        proof {
            assert(lcg_iter(NOISE_SEED, (3 * i + 1) as nat) == lcg(lcg_iter(NOISE_SEED, (3 * i) as nat)));
            assert(lcg_iter(NOISE_SEED, (3 * i + 2) as nat) == lcg(lcg_iter(NOISE_SEED, (3 * i + 1) as nat)));
            assert(lcg_iter(NOISE_SEED, (3 * i + 3) as nat) == lcg(lcg_iter(NOISE_SEED, (3 * i + 2) as nat)));
        }
        pixels.push(Rgba::new(r, g, b, 255));
        i = i + 1;
    }
    proof {
        assert(pixels@ =~= noise_spec(n as nat));
    }
    Image { width: size, height: size, pixels }
}

} // verus!
