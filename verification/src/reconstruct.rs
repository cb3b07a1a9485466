//! Reconstruction scaler: Catmull-Rom in Q16 fixed point, integer-only, so
//! every conforming implementation is bit-exact.

use vstd::prelude::*;
use crate::container::Image;
use crate::error::Error;
use crate::pixel::Rgba;

verus! {

pub const ONE: i64 = 65536;

/// Per-output-position taps and Q16 weights along one axis.
pub struct AxisStep {
    pub taps: [usize; 4],
    pub weights: [i64; 4],
}

/// The source position of output sample `x`, in Q16.
pub open spec fn source_q16(n_in: int, n_out: int, x: int) -> int {
    ((2 * x + 1) * n_in * 65536) / (2 * n_out) - 32768
}

pub open spec fn clamp_int(v: int, lo: int, hi: int) -> int {
    if v < lo { lo } else if v > hi { hi } else { v }
}

/// The four taps of output sample `x`: columns base-1 .. base+2, clamped.
pub open spec fn tap_spec(n_in: int, n_out: int, x: int, k: int) -> int {
    clamp_int(source_q16(n_in, n_out, x) / 65536 - 1 + k, 0, n_in - 1)
}

/// The Catmull-Rom weights of output sample `x`, renormalized to sum to one.
pub open spec fn weight_spec(n_in: int, n_out: int, x: int, k: int) -> int {
    let t = source_q16(n_in, n_out, x) % 65536;
    let t2 = (t * t) / 65536;
    let t3 = (t2 * t) / 65536;
    let w0 = (-t3 + 2 * t2 - t) / 2;
    let w1 = (3 * t3 - 5 * t2 + 2 * 65536) / 2;
    let w2 = (-3 * t3 + 4 * t2 + t) / 2;
    let w3 = (t3 - t2) / 2;
    if k == 0 {
        w0
    } else if k == 1 {
        w1 + 65536 - (w0 + w1 + w2 + w3)
    } else if k == 2 {
        w2
    } else {
        w3
    }
}

/// `x >> k` is the floor of `x / 2^k`.
proof fn lemma_shr1(x: i64)
    ensures
        (x >> 1i64) as int == (x as int) / 2,
{
    assert((x >> 1i64) * 2 + (x & 1) == x && 0 <= (x & 1) < 2) by (bit_vector);
    vstd::arithmetic::div_mod::lemma_fundamental_div_mod_converse(
        x as int,
        2,
        (x >> 1i64) as int,
        (x & 1) as int,
    );
}

proof fn lemma_shr16(x: i64)
    ensures
        (x >> 16i64) as int == (x as int) / 65536,
        (x & 0xFFFF) as int == (x as int) % 65536,
{
    assert((x >> 16i64) * 65536 + (x & 0xFFFF) == x && 0 <= (x & 0xFFFF) < 65536) by (bit_vector);
    vstd::arithmetic::div_mod::lemma_fundamental_div_mod_converse(
        x as int,
        65536,
        (x >> 16i64) as int,
        (x & 0xFFFF) as int,
    );
}

proof fn lemma_shr32(x: i64)
    ensures
        (x >> 32i64) as int == (x as int) / 0x1_0000_0000,
{
    assert((x >> 32i64) * 0x1_0000_0000 + (x & 0xFFFF_FFFF) == x && 0 <= (x & 0xFFFF_FFFF)
        < 0x1_0000_0000) by (bit_vector);
    vstd::arithmetic::div_mod::lemma_fundamental_div_mod_converse(
        x as int,
        0x1_0000_0000,
        (x >> 32i64) as int,
        (x & 0xFFFF_FFFF) as int,
    );
}

/// The source positions of an axis can be computed in i64.
pub open spec fn axis_fits(n_in: int, n_out: int) -> bool {
    (2 * n_out - 1) * n_in * 65536 <= i64::MAX
}

pub open spec fn step_is(s: AxisStep, n_in: int, n_out: int, x: int) -> bool {
    &&& forall|k: int| 0 <= k < 4 ==> s.taps[k] as int == tap_spec(n_in, n_out, x, k)
    &&& forall|k: int| 0 <= k < 4 ==> s.weights[k] as int == weight_spec(n_in, n_out, x, k)
}

/// Weights stay small.
pub proof fn lemma_weight_bounds(n_in: int, n_out: int, x: int, k: int)
    ensures
        -0x4_0000 <= weight_spec(n_in, n_out, x, k) <= 0x4_0000,
{
    let t = source_q16(n_in, n_out, x) % 65536;
    let t2 = (t * t) / 65536;
    let t3 = (t2 * t) / 65536;
    assert(0 <= t < 65536);
    assert(0 <= t2 < 65536) by (nonlinear_arith)
        requires
            0 <= t < 65536,
            t2 == (t * t) / 65536,
    ;
    assert(0 <= t3 < 65536) by (nonlinear_arith)
        requires
            0 <= t < 65536,
            0 <= t2 < 65536,
            t3 == (t2 * t) / 65536,
    ;
}

fn axis_steps(len_in: u32, len_out: u32) -> (steps: Vec<AxisStep>)
    requires
        len_in >= 1,
        axis_fits(len_in as int, len_out as int),
    ensures
        steps@.len() == len_out,
        forall|x: int| 0 <= x < len_out ==> step_is(#[trigger] steps@[x], len_in as int, len_out as int, x),
{
    let n_in = len_in as i64;
    let n_out = len_out as i64;
    let mut steps: Vec<AxisStep> = Vec::new();
    let mut x: i64 = 0;
    while x < n_out
        invariant
            n_in == len_in,
            n_out == len_out,
            len_in >= 1,
            axis_fits(len_in as int, len_out as int),
            0 <= x <= n_out,
            steps@.len() == x,
            forall|j: int| 0 <= j < x ==> step_is(#[trigger] steps@[j], len_in as int, len_out as int, j),
        decreases n_out - x,
    {
        proof {
            assert((2 * x + 1) * n_in <= (2 * n_out - 1) * n_in) by (nonlinear_arith)
                requires
                    0 <= x < n_out,
                    n_in >= 1,
            ;
            assert((2 * x + 1) * n_in * 65536 <= (2 * n_out - 1) * n_in * 65536) by (nonlinear_arith)
                requires
                    (2 * x + 1) * n_in <= (2 * n_out - 1) * n_in,
            ;
            assert((2 * x + 1) * n_in >= 0) by (nonlinear_arith)
                requires
                    0 <= x,
                    n_in >= 1,
            ;
        }
        let sx = ((2 * x + 1) * n_in * ONE) / (2 * n_out) - ONE / 2;
        let base = sx >> 16;
        let t = sx & 0xFFFF;
        proof {
            lemma_shr16(sx);
            assert(0 <= t < 65536);
            assert(0 <= t * t < 0x1_0000_0000) by (nonlinear_arith)
                requires
                    0 <= t < 65536,
            ;
        }
        let tt = t * t;
        let t2 = tt >> 16;
        proof {
            lemma_shr16(tt);
            assert(0 <= t2 < 65536) by (nonlinear_arith)
                requires
                    t2 == (t * t) / 65536,
                    0 <= t * t < 0x1_0000_0000,
            ;
            assert(0 <= t2 * t < 0x1_0000_0000) by (nonlinear_arith)
                requires
                    0 <= t < 65536,
                    0 <= t2 < 65536,
            ;
        }
        let t2t = t2 * t;
        let t3 = t2t >> 16;
        proof {
            lemma_shr16(t2t);
            assert(0 <= t3 < 65536) by (nonlinear_arith)
                requires
                    t3 == (t2 * t) / 65536,
                    0 <= t2 * t < 0x1_0000_0000,
            ;
        }
        let n0 = -t3 + 2 * t2 - t;
        let n1 = 3 * t3 - 5 * t2 + 2 * ONE;
        let n2 = 4 * t2 + t - 3 * t3;
        let n3 = t3 - t2;
        let w0 = n0 >> 1;
        let mut w1 = n1 >> 1;
        let w2 = n2 >> 1;
        let w3 = n3 >> 1;
        proof {
            lemma_shr1(n0);
            lemma_shr1(n1);
            lemma_shr1(n2);
            lemma_shr1(n3);
        }
        w1 = w1 + (ONE - (w0 + w1 + w2 + w3));
        let hi = n_in - 1;
        let c0 = if base - 1 < 0 { 0 } else if base - 1 > hi { hi } else { base - 1 };
        let c1 = if base < 0 { 0 } else if base > hi { hi } else { base };
        let c2 = if base + 1 < 0 { 0 } else if base + 1 > hi { hi } else { base + 1 };
        let c3 = if base + 2 < 0 { 0 } else if base + 2 > hi { hi } else { base + 2 };
        let step = AxisStep {
            taps: [c0 as usize, c1 as usize, c2 as usize, c3 as usize],
            weights: [w0, w1, w2, w3],
        };
        proof {
            assert(sx as int == source_q16(len_in as int, len_out as int, x as int));
            assert(step_is(step, len_in as int, len_out as int, x as int));
        }
        steps.push(step);
        x = x + 1;
    }
    steps
}

/// Channel `c` (0 = r, 1 = g, 2 = b, 3 = a) of a pixel.
pub open spec fn channel(p: Rgba, c: int) -> int {
    if c == 0 {
        p.r as int
    } else if c == 1 {
        p.g as int
    } else if c == 2 {
        p.b as int
    } else {
        p.a as int
    }
}

/// Term `k` (row tap `k / 4`, column tap `k % 4`) of the accumulator of
/// output pixel (ox, oy), channel `c`.
pub open spec fn tap_term(
    px: Seq<Rgba>,
    w_in: int,
    h_in: int,
    w_out: int,
    h_out: int,
    ox: int,
    oy: int,
    c: int,
    k: int,
) -> int {
    let ty = tap_spec(h_in, h_out, oy, k / 4);
    let tx = tap_spec(w_in, w_out, ox, k % 4);
    channel(px[ty * w_in + tx], c) * (weight_spec(w_in, w_out, ox, k % 4) * weight_spec(
        h_in,
        h_out,
        oy,
        k / 4,
    ))
}

/// The sum of the first `n` terms of the accumulator.
pub open spec fn acc_spec(
    px: Seq<Rgba>,
    w_in: int,
    h_in: int,
    w_out: int,
    h_out: int,
    ox: int,
    oy: int,
    c: int,
    n: int,
) -> int
    decreases n,
{
    if n <= 0 {
        0
    } else {
        acc_spec(px, w_in, h_in, w_out, h_out, ox, oy, c, n - 1) + tap_term(
            px,
            w_in,
            h_in,
            w_out,
            h_out,
            ox,
            oy,
            c,
            n - 1,
        )
    }
}

/// A Q32 accumulator rounded half up and clamped to a channel value.
pub open spec fn round_channel(v: int) -> u8 {
    clamp_int((v + 0x8000_0000) / 0x1_0000_0000, 0, 255) as u8
}

/// Output pixel (ox, oy) of the reconstruction.
pub open spec fn scaled_px(
    px: Seq<Rgba>,
    w_in: int,
    h_in: int,
    w_out: int,
    h_out: int,
    ox: int,
    oy: int,
) -> Rgba {
    Rgba {
        r: round_channel(acc_spec(px, w_in, h_in, w_out, h_out, ox, oy, 0, 16)),
        g: round_channel(acc_spec(px, w_in, h_in, w_out, h_out, ox, oy, 1, 16)),
        b: round_channel(acc_spec(px, w_in, h_in, w_out, h_out, ox, oy, 2, 16)),
        a: round_channel(acc_spec(px, w_in, h_in, w_out, h_out, ox, oy, 3, 16)),
    }
}

/// What `scale` gives: the error for a refused size, or the pixels of the
/// scaled image in row-major order.
pub open spec fn scale_spec(w_in: u32, h_in: u32, px: Seq<Rgba>, w_out: u32, h_out: u32) -> Result<
    Seq<Rgba>,
    Error,
> {
    if w_out < w_in || h_out < h_in {
        Err(Error::BadHeader("version 1 reconstruction does not minify"))
    } else if w_out == 0 || h_out == 0 {
        Err(Error::BadHeader("zero output dimension"))
    } else {
        Ok(
            Seq::new(
                (w_out * h_out) as nat,
                |k: int| scaled_px(px, w_in as int, h_in as int, w_out as int, h_out as int, k % w_out as int, k / w_out as int),
            ),
        )
    }
}

/// The inputs on which `scale` computes without overflow: both axes fit the
/// Q16 arithmetic, and the output fits in memory.
pub open spec fn scalable(w_in: u32, h_in: u32, w_out: u32, h_out: u32) -> bool {
    &&& axis_fits(w_in as int, w_out as int)
    &&& axis_fits(h_in as int, h_out as int)
    &&& w_out * h_out <= usize::MAX
}

proof fn lemma_term_bound(
    px: Seq<Rgba>,
    w_in: int,
    h_in: int,
    w_out: int,
    h_out: int,
    ox: int,
    oy: int,
    c: int,
    k: int,
)
    ensures
        -0xFF0_0000_0000 <= tap_term(px, w_in, h_in, w_out, h_out, ox, oy, c, k) <= 0xFF0_0000_0000,
{
    let ty = tap_spec(h_in, h_out, oy, k / 4);
    let tx = tap_spec(w_in, w_out, ox, k % 4);
    let v = channel(px[ty * w_in + tx], c);
    let a = weight_spec(w_in, w_out, ox, k % 4);
    let b = weight_spec(h_in, h_out, oy, k / 4);
    lemma_weight_bounds(w_in, w_out, ox, k % 4);
    lemma_weight_bounds(h_in, h_out, oy, k / 4);
    assert(0 <= v <= 255);
    assert(-0x10_0000_0000 <= a * b <= 0x10_0000_0000) by (nonlinear_arith)
        requires
            -0x4_0000 <= a <= 0x4_0000,
            -0x4_0000 <= b <= 0x4_0000,
    ;
    assert(-0xFF0_0000_0000 <= v * (a * b) <= 0xFF0_0000_0000) by (nonlinear_arith)
        requires
            -0x10_0000_0000 <= a * b <= 0x10_0000_0000,
            0 <= v <= 255,
    ;
}

proof fn lemma_acc_bound(
    px: Seq<Rgba>,
    w_in: int,
    h_in: int,
    w_out: int,
    h_out: int,
    ox: int,
    oy: int,
    c: int,
    n: int,
)
    requires
        0 <= n,
    ensures
        -n * (0xFF0_0000_0000) <= acc_spec(px, w_in, h_in, w_out, h_out, ox, oy, c, n) <= n
            * (0xFF0_0000_0000),
    decreases n,
{
    if n > 0 {
        lemma_acc_bound(px, w_in, h_in, w_out, h_out, ox, oy, c, n - 1);
        lemma_term_bound(px, w_in, h_in, w_out, h_out, ox, oy, c, n - 1);
        assert(acc_spec(px, w_in, h_in, w_out, h_out, ox, oy, c, n) == acc_spec(
            px,
            w_in,
            h_in,
            w_out,
            h_out,
            ox,
            oy,
            c,
            n - 1,
        ) + tap_term(px, w_in, h_in, w_out, h_out, ox, oy, c, n - 1));
        assert(n * 0xFF0_0000_0000 == (n - 1) * 0xFF0_0000_0000 + 0xFF0_0000_0000) by (nonlinear_arith);
    }
}

fn round_acc(v: i64) -> (r: u8)
    requires
        -16 * (0xFF0_0000_0000) <= v <= 16 * (0xFF0_0000_0000),
    ensures
        r == round_channel(v as int),
{
    let s = v + 0x8000_0000;
    let q = s >> 32;
    proof {
        lemma_shr32(s);
    }
    if q < 0 {
        0
    } else if q > 255 {
        255
    } else {
        q as u8
    }
}

/// The sample of output pixel (ox, oy) from its row and column steps.
fn sample_at(
    pixels: &Vec<Rgba>,
    w_in: u32,
    h_in: u32,
    w_out: u32,
    h_out: u32,
    row: &AxisStep,
    col: &AxisStep,
    Ghost(ox): Ghost<int>,
    Ghost(oy): Ghost<int>,
) -> (p: Rgba)
    requires
        w_in >= 1,
        h_in >= 1,
        pixels@.len() == w_in * h_in,
        step_is(*row, h_in as int, h_out as int, oy),
        step_is(*col, w_in as int, w_out as int, ox),
    ensures
        p == scaled_px(pixels@, w_in as int, h_in as int, w_out as int, h_out as int, ox, oy),
{
    let ghost px = pixels@;
    let ghost (wi, hi, wo, ho) = (w_in as int, h_in as int, w_out as int, h_out as int);
    let src_w = w_in as usize;
    let len = pixels.len();
    let mut acc0: i64 = 0;
    let mut acc1: i64 = 0;
    let mut acc2: i64 = 0;
    let mut acc3: i64 = 0;
    let mut k: usize = 0;
    while k < 16
        invariant
            0 <= k <= 16,
            src_w == w_in,
            len == pixels@.len(),
            w_in >= 1,
            h_in >= 1,
            px == pixels@,
            wi == w_in,
            hi == h_in,
            wo == w_out,
            ho == h_out,
            pixels@.len() == w_in * h_in,
            step_is(*row, hi, ho, oy),
            step_is(*col, wi, wo, ox),
            acc0 == acc_spec(px, wi, hi, wo, ho, ox, oy, 0, k as int),
            acc1 == acc_spec(px, wi, hi, wo, ho, ox, oy, 1, k as int),
            acc2 == acc_spec(px, wi, hi, wo, ho, ox, oy, 2, k as int),
            acc3 == acc_spec(px, wi, hi, wo, ho, ox, oy, 3, k as int),
        decreases 16 - k,
    {
        let j = k / 4;
        let i = k % 4;
        let ty = row.taps[j];
        let tx = col.taps[i];
        proof {
            assert(ty as int == tap_spec(hi, ho, oy, j as int));
            assert(tx as int == tap_spec(wi, wo, ox, i as int));
            assert(0 <= ty < h_in);
            assert(0 <= tx < w_in);
            assert(ty * w_in + tx < w_in * h_in) by (nonlinear_arith)
                requires
                    0 <= ty < h_in,
                    0 <= tx < w_in,
            ;
            lemma_weight_bounds(wi, wo, ox, i as int);
            lemma_weight_bounds(hi, ho, oy, j as int);
            assert(-0x10_0000_0000 <= col.weights[i as int] * row.weights[j as int]
                <= 0x10_0000_0000) by (nonlinear_arith)
                requires
                    -0x4_0000 <= col.weights[i as int] <= 0x4_0000,
                    -0x4_0000 <= row.weights[j as int] <= 0x4_0000,
            ;
            lemma_acc_bound(px, wi, hi, wo, ho, ox, oy, 0, k as int);
            lemma_acc_bound(px, wi, hi, wo, ho, ox, oy, 1, k as int);
            lemma_acc_bound(px, wi, hi, wo, ho, ox, oy, 2, k as int);
            lemma_acc_bound(px, wi, hi, wo, ho, ox, oy, 3, k as int);
            lemma_term_bound(px, wi, hi, wo, ho, ox, oy, 0, k as int);
            lemma_term_bound(px, wi, hi, wo, ho, ox, oy, 1, k as int);
            lemma_term_bound(px, wi, hi, wo, ho, ox, oy, 2, k as int);
            lemma_term_bound(px, wi, hi, wo, ho, ox, oy, 3, k as int);
        }
        let w = col.weights[i] * row.weights[j];
        let p = pixels[ty * src_w + tx];
        acc0 = acc0 + p.r as i64 * w;
        acc1 = acc1 + p.g as i64 * w;
        acc2 = acc2 + p.b as i64 * w;
        acc3 = acc3 + p.a as i64 * w;
        k = k + 1;
    }
    proof {
        lemma_acc_bound(px, wi, hi, wo, ho, ox, oy, 0, 16);
        lemma_acc_bound(px, wi, hi, wo, ho, ox, oy, 1, 16);
        lemma_acc_bound(px, wi, hi, wo, ho, ox, oy, 2, 16);
        lemma_acc_bound(px, wi, hi, wo, ho, ox, oy, 3, 16);
    }
    Rgba::new(round_acc(acc0), round_acc(acc1), round_acc(acc2), round_acc(acc3))
}

/// Whether `scale` can compute (w_in, h_in) -> (w_out, h_out) without
/// overflow.
pub fn fits_scale(w_in: u32, h_in: u32, w_out: u32, h_out: u32) -> (b: bool)
    ensures
        b == scalable(w_in, h_in, w_out, h_out),
{
    proof {
        assert(-0x1_0000_0000 * 65536 <= (2 * w_out - 1) * w_in * 65536 <= 0x2_0000_0000
            * 0x1_0000_0000 * 65536) by (nonlinear_arith)
            requires
                w_out <= u32::MAX,
                w_in <= u32::MAX,
        ;
        assert(-0x1_0000_0000 * 65536 <= (2 * h_out - 1) * h_in * 65536 <= 0x2_0000_0000
            * 0x1_0000_0000 * 65536) by (nonlinear_arith)
            requires
                h_out <= u32::MAX,
                h_in <= u32::MAX,
        ;
        assert(w_out * h_out <= 0x1_0000_0000 * 0x1_0000_0000) by (nonlinear_arith)
            requires
                w_out <= u32::MAX,
                h_out <= u32::MAX,
        ;
    }
    let ax = (2 * w_out as i128 - 1) * w_in as i128 * 65536;
    let ay = (2 * h_out as i128 - 1) * h_in as i128 * 65536;
    let n = w_out as u128 * h_out as u128;
    ax <= i64::MAX as i128 && ay <= i64::MAX as i128 && n <= usize::MAX as u128
}

/// The inputs on which `scale` computes rather than refuses.
pub open spec fn scale_accepts(w_in: u32, h_in: u32, w_out: u32, h_out: u32) -> bool {
    w_out >= w_in && h_out >= h_in && w_out > 0 && h_out > 0
}

/// Scale an image to (w_out, h_out) with the mandated kernel.
/// Version 1 accepts only target sizes at or above the source size.
pub fn scale(image: &Image, w_out: u32, h_out: u32) -> (res: Result<Image, Error>)
    requires
        image.pixels@.len() == image.width * image.height,
        scale_accepts(image.width, image.height, w_out, h_out) ==> image.width >= 1
            && image.height >= 1 && scalable(image.width, image.height, w_out, h_out),
    ensures
        match scale_spec(image.width, image.height, image.pixels@, w_out, h_out) {
            Ok(px) => res matches Ok(out) && out.width == w_out && out.height == h_out
                && out.pixels@ == px,
            Err(e) => res == Err::<Image, Error>(e),
        },
{
    if w_out < image.width || h_out < image.height {
        return Err(Error::BadHeader("version 1 reconstruction does not minify"));
    }
    if w_out == 0 || h_out == 0 {
        return Err(Error::BadHeader("zero output dimension"));
    }
    let cols = axis_steps(image.width, w_out);
    let rows = axis_steps(image.height, h_out);
    let ghost px = image.pixels@;
    let ghost (wi, hi, wo, ho) = (image.width as int, image.height as int, w_out as int, h_out as int);
    let ghost target = Seq::new(
        (w_out * h_out) as nat,
        |k: int| scaled_px(px, wi, hi, wo, ho, k % wo, k / wo),
    );
    let mut out: Vec<Rgba> = Vec::new();
    let mut oy: usize = 0;
    while oy < rows.len()
        invariant
            0 <= oy <= rows@.len(),
            rows@.len() == h_out,
            cols@.len() == w_out,
            w_out > 0,
            image.width >= 1,
            image.height >= 1,
            image.pixels@.len() == image.width * image.height,
            px == image.pixels@,
            wi == image.width,
            hi == image.height,
            wo == w_out,
            ho == h_out,
            w_out * h_out <= usize::MAX,
            forall|y: int| 0 <= y < h_out ==> step_is(#[trigger] rows@[y], hi, ho, y),
            forall|x: int| 0 <= x < w_out ==> step_is(#[trigger] cols@[x], wi, wo, x),
            out@.len() == oy * w_out,
            forall|k: int| 0 <= k < out@.len() ==> out@[k] == scaled_px(px, wi, hi, wo, ho, k % wo, k / wo),
        decreases rows@.len() - oy,
    {
        let row = &rows[oy];
        let mut ox: usize = 0;
        while ox < cols.len()
            invariant
                0 <= oy < rows@.len(),
                0 <= ox <= cols@.len(),
                rows@.len() == h_out,
                cols@.len() == w_out,
                w_out > 0,
                image.width >= 1,
                image.height >= 1,
                image.pixels@.len() == image.width * image.height,
                px == image.pixels@,
                wi == image.width,
                hi == image.height,
                wo == w_out,
                ho == h_out,
                w_out * h_out <= usize::MAX,
                *row == rows@[oy as int],
                step_is(*row, hi, ho, oy as int),
                forall|x: int| 0 <= x < w_out ==> step_is(#[trigger] cols@[x], wi, wo, x),
                out@.len() == oy * w_out + ox,
                forall|k: int| 0 <= k < out@.len() ==> out@[k] == scaled_px(px, wi, hi, wo, ho, k % wo, k / wo),
            decreases cols@.len() - ox,
        {
            let col = &cols[ox];
            let p = sample_at(
                &image.pixels,
                image.width,
                image.height,
                w_out,
                h_out,
                row,
                col,
                Ghost(ox as int),
                Ghost(oy as int),
            );
            proof {
                let k = oy * w_out + ox;
                vstd::arithmetic::div_mod::lemma_fundamental_div_mod_converse(k as int, wo, oy as int, ox as int);
                assert(oy * w_out + ox < (oy + 1) * w_out) by (nonlinear_arith)
                    requires ox < w_out;
                assert((oy + 1) * w_out <= h_out * w_out) by (nonlinear_arith)
                    requires oy < h_out, w_out > 0;
            }
            out.push(p);
            ox = ox + 1;
        }
        proof {
            assert(out@.len() == (oy + 1) * w_out) by (nonlinear_arith)
                requires out@.len() == oy * w_out + w_out;
        }
        oy = oy + 1;
    }
    proof {
        assert(oy * w_out == w_out * h_out) by (nonlinear_arith)
            requires oy == h_out;
        assert(out@ =~= target);
    }
    Ok(Image { width: w_out, height: h_out, pixels: out })
}

/// Along an axis scaled by one, every output sample sits on its source
/// sample: taps centred on it and weights (0, 1, 0, 0).
proof fn lemma_unit_axis(n: int, x: int)
    requires
        n >= 1,
        0 <= x < n,
    ensures
        source_q16(n, n, x) == x * 65536,
        tap_spec(n, n, x, 1) == x,
        weight_spec(n, n, x, 0) == 0,
        weight_spec(n, n, x, 1) == 65536,
        weight_spec(n, n, x, 2) == 0,
        weight_spec(n, n, x, 3) == 0,
{
    assert((2 * x + 1) * n * 65536 == (2 * n) * ((2 * x + 1) * 32768)) by (nonlinear_arith);
    vstd::arithmetic::div_mod::lemma_fundamental_div_mod_converse(
        (2 * x + 1) * n * 65536,
        2 * n,
        (2 * x + 1) * 32768,
        0,
    );
    vstd::arithmetic::div_mod::lemma_fundamental_div_mod_converse(x * 65536, 65536, x, 0);
}

/// The weight sum of an axis is exactly one (65536 in Q16).
proof fn lemma_weight_sum(n_in: int, n_out: int, x: int)
    ensures
        weight_spec(n_in, n_out, x, 0) + weight_spec(n_in, n_out, x, 1) + weight_spec(
            n_in,
            n_out,
            x,
            2,
        ) + weight_spec(n_in, n_out, x, 3) == 65536,
{
}

/// Where the source position of an output pixel falls on a whole sample
/// along both axes (t = 0), the weights are exactly (0, 1, 0, 0) and the
/// output is the stored sample under it, bit-exactly.
pub proof fn lemma_integer_position(
    px: Seq<Rgba>,
    w_in: int,
    h_in: int,
    w_out: int,
    h_out: int,
    ox: int,
    oy: int,
)
    requires
        source_q16(w_in, w_out, ox) % 65536 == 0,
        source_q16(h_in, h_out, oy) % 65536 == 0,
    ensures
        scaled_px(px, w_in, h_in, w_out, h_out, ox, oy) == px[tap_spec(h_in, h_out, oy, 1) * w_in
            + tap_spec(w_in, w_out, ox, 1)],
{
    let (w, h, x, y) = (w_in, h_in, ox, oy);
    let p = px[tap_spec(h_in, h_out, oy, 1) * w_in + tap_spec(w_in, w_out, ox, 1)];
    assert(weight_spec(w, w_out, x, 0) == 0 && weight_spec(w, w_out, x, 1) == 65536 && weight_spec(
        w,
        w_out,
        x,
        2,
    ) == 0 && weight_spec(w, w_out, x, 3) == 0);
    assert(weight_spec(h, h_out, y, 0) == 0 && weight_spec(h, h_out, y, 1) == 65536 && weight_spec(
        h,
        h_out,
        y,
        2,
    ) == 0 && weight_spec(h, h_out, y, 3) == 0);
    assert forall|c: int, k: int| 0 <= k < 16 implies #[trigger] tap_term(px, w, h, w_out, h_out, x, y, c, k)
        == if k == 5 { channel(p, c) * 0x1_0000_0000 } else { 0 } by {
        let a = weight_spec(w, w_out, x, k % 4);
        let b = weight_spec(h, h_out, y, k / 4);
        let v = channel(px[tap_spec(h, h_out, y, k / 4) * w + tap_spec(w, w_out, x, k % 4)], c);
        assert(a == 0 || b == 0 || k == 5);
        if k == 5 {
            assert(a == 65536 && b == 65536);
        } else {
            assert(v * (a * b) == 0) by (nonlinear_arith)
                requires a == 0 || b == 0;
        }
    }
    assert forall|c: int| 0 <= c < 4 implies #[trigger] acc_spec(px, w, h, w_out, h_out, x, y, c, 16)
        == channel(p, c) * 0x1_0000_0000 by {
        reveal_with_fuel(acc_spec, 17);
        assert(tap_term(px, w, h, w_out, h_out, x, y, c, 0) == 0);
        assert(tap_term(px, w, h, w_out, h_out, x, y, c, 1) == 0);
        assert(tap_term(px, w, h, w_out, h_out, x, y, c, 2) == 0);
        assert(tap_term(px, w, h, w_out, h_out, x, y, c, 3) == 0);
        assert(tap_term(px, w, h, w_out, h_out, x, y, c, 4) == 0);
        assert(tap_term(px, w, h, w_out, h_out, x, y, c, 5) == channel(p, c) * 0x1_0000_0000);
        assert(tap_term(px, w, h, w_out, h_out, x, y, c, 6) == 0);
        assert(tap_term(px, w, h, w_out, h_out, x, y, c, 7) == 0);
        assert(tap_term(px, w, h, w_out, h_out, x, y, c, 8) == 0);
        assert(tap_term(px, w, h, w_out, h_out, x, y, c, 9) == 0);
        assert(tap_term(px, w, h, w_out, h_out, x, y, c, 10) == 0);
        assert(tap_term(px, w, h, w_out, h_out, x, y, c, 11) == 0);
        assert(tap_term(px, w, h, w_out, h_out, x, y, c, 12) == 0);
        assert(tap_term(px, w, h, w_out, h_out, x, y, c, 13) == 0);
        assert(tap_term(px, w, h, w_out, h_out, x, y, c, 14) == 0);
        assert(tap_term(px, w, h, w_out, h_out, x, y, c, 15) == 0);
    }
    assert forall|v: int| 0 <= v <= 255 implies #[trigger] round_channel(v * 0x1_0000_0000) == v by {
        vstd::arithmetic::div_mod::lemma_fundamental_div_mod_converse(
            v * 0x1_0000_0000 + 0x8000_0000,
            0x1_0000_0000,
            v,
            0x8000_0000,
        );
    }
    assert(round_channel(channel(p, 0) * 0x1_0000_0000) == p.r);
    assert(round_channel(channel(p, 1) * 0x1_0000_0000) == p.g);
    assert(round_channel(channel(p, 2) * 0x1_0000_0000) == p.b);
    assert(round_channel(channel(p, 3) * 0x1_0000_0000) == p.a);
}

/// Scaling an image to its own size returns its pixels bit-exactly.
pub proof fn lemma_identity_scale(w: u32, h: u32, px: Seq<Rgba>)
    requires
        w >= 1,
        h >= 1,
        px.len() == w * h,
    ensures
        scale_spec(w, h, px, w, h) == Ok::<Seq<Rgba>, Error>(px),
{
    let s = Seq::new(
        (w * h) as nat,
        |k: int| scaled_px(px, w as int, h as int, w as int, h as int, k % w as int, k / w as int),
    );
    assert forall|k: int| 0 <= k < px.len() implies s[k] == px[k] by {
        let x = k % w as int;
        let y = k / w as int;
        vstd::arithmetic::div_mod::lemma_fundamental_div_mod(k, w as int);
        assert(y < h) by (nonlinear_arith)
            requires
                k == w * y + x,
                0 <= x,
                k < w * h,
                w >= 1,
        ;
        lemma_unit_axis(w as int, x);
        lemma_unit_axis(h as int, y);
        vstd::arithmetic::div_mod::lemma_mod_multiples_basic(x, 65536);
        vstd::arithmetic::div_mod::lemma_mod_multiples_basic(y, 65536);
        lemma_integer_position(px, w as int, h as int, w as int, h as int, x, y);
        assert(y * w + x == k) by (nonlinear_arith)
            requires
                k == w * y + x,
        ;
    }
    assert(s =~= px);
}

proof fn lemma_flat_pixel(
    px: Seq<Rgba>,
    w_in: int,
    h_in: int,
    w_out: int,
    h_out: int,
    ox: int,
    oy: int,
    p: Rgba,
)
    requires
        w_in >= 1,
        h_in >= 1,
        px.len() == w_in * h_in,
        forall|i: int| 0 <= i < px.len() ==> px[i] == p,
    ensures
        scaled_px(px, w_in, h_in, w_out, h_out, ox, oy) == p,
{
    let a0 = weight_spec(w_in, w_out, ox, 0);
    let a1 = weight_spec(w_in, w_out, ox, 1);
    let a2 = weight_spec(w_in, w_out, ox, 2);
    let a3 = weight_spec(w_in, w_out, ox, 3);
    let b0 = weight_spec(h_in, h_out, oy, 0);
    let b1 = weight_spec(h_in, h_out, oy, 1);
    let b2 = weight_spec(h_in, h_out, oy, 2);
    let b3 = weight_spec(h_in, h_out, oy, 3);
    lemma_weight_sum(w_in, w_out, ox);
    lemma_weight_sum(h_in, h_out, oy);
    assert forall|c: int, k: int| 0 <= k < 16 implies #[trigger] tap_term(
        px,
        w_in,
        h_in,
        w_out,
        h_out,
        ox,
        oy,
        c,
        k,
    ) == channel(p, c) * (weight_spec(w_in, w_out, ox, k % 4) * weight_spec(
        h_in,
        h_out,
        oy,
        k / 4,
    )) by {
        let ty = tap_spec(h_in, h_out, oy, k / 4);
        let tx = tap_spec(w_in, w_out, ox, k % 4);
        assert(0 <= ty < h_in && 0 <= tx < w_in);
        assert(0 <= ty * w_in + tx < w_in * h_in) by (nonlinear_arith)
            requires
                0 <= ty < h_in,
                0 <= tx < w_in,
        ;
    }
    assert forall|c: int| 0 <= c < 4 implies #[trigger] acc_spec(
        px,
        w_in,
        h_in,
        w_out,
        h_out,
        ox,
        oy,
        c,
        16,
    ) == channel(p, c) * 0x1_0000_0000 by {
        reveal_with_fuel(acc_spec, 17);
        let v = channel(p, c);
        assert(tap_term(px, w_in, h_in, w_out, h_out, ox, oy, c, 0) == v * (a0 * b0));
        assert(tap_term(px, w_in, h_in, w_out, h_out, ox, oy, c, 1) == v * (a1 * b0));
        assert(tap_term(px, w_in, h_in, w_out, h_out, ox, oy, c, 2) == v * (a2 * b0));
        assert(tap_term(px, w_in, h_in, w_out, h_out, ox, oy, c, 3) == v * (a3 * b0));
        assert(tap_term(px, w_in, h_in, w_out, h_out, ox, oy, c, 4) == v * (a0 * b1));
        assert(tap_term(px, w_in, h_in, w_out, h_out, ox, oy, c, 5) == v * (a1 * b1));
        assert(tap_term(px, w_in, h_in, w_out, h_out, ox, oy, c, 6) == v * (a2 * b1));
        assert(tap_term(px, w_in, h_in, w_out, h_out, ox, oy, c, 7) == v * (a3 * b1));
        assert(tap_term(px, w_in, h_in, w_out, h_out, ox, oy, c, 8) == v * (a0 * b2));
        assert(tap_term(px, w_in, h_in, w_out, h_out, ox, oy, c, 9) == v * (a1 * b2));
        assert(tap_term(px, w_in, h_in, w_out, h_out, ox, oy, c, 10) == v * (a2 * b2));
        assert(tap_term(px, w_in, h_in, w_out, h_out, ox, oy, c, 11) == v * (a3 * b2));
        assert(tap_term(px, w_in, h_in, w_out, h_out, ox, oy, c, 12) == v * (a0 * b3));
        assert(tap_term(px, w_in, h_in, w_out, h_out, ox, oy, c, 13) == v * (a1 * b3));
        assert(tap_term(px, w_in, h_in, w_out, h_out, ox, oy, c, 14) == v * (a2 * b3));
        assert(tap_term(px, w_in, h_in, w_out, h_out, ox, oy, c, 15) == v * (a3 * b3));
        assert(v * (a0 * b0) + v * (a1 * b0) + v * (a2 * b0) + v * (a3 * b0) == v * b0 * 65536)
            by (nonlinear_arith)
            requires
                a0 + a1 + a2 + a3 == 65536,
        ;
        assert(v * (a0 * b1) + v * (a1 * b1) + v * (a2 * b1) + v * (a3 * b1) == v * b1 * 65536)
            by (nonlinear_arith)
            requires
                a0 + a1 + a2 + a3 == 65536,
        ;
        assert(v * (a0 * b2) + v * (a1 * b2) + v * (a2 * b2) + v * (a3 * b2) == v * b2 * 65536)
            by (nonlinear_arith)
            requires
                a0 + a1 + a2 + a3 == 65536,
        ;
        assert(v * (a0 * b3) + v * (a1 * b3) + v * (a2 * b3) + v * (a3 * b3) == v * b3 * 65536)
            by (nonlinear_arith)
            requires
                a0 + a1 + a2 + a3 == 65536,
        ;
        assert(v * b0 * 65536 + v * b1 * 65536 + v * b2 * 65536 + v * b3 * 65536 == v
            * 0x1_0000_0000) by (nonlinear_arith)
            requires
                b0 + b1 + b2 + b3 == 65536,
        ;
    }
    assert forall|v: int| 0 <= v <= 255 implies #[trigger] round_channel(v * 0x1_0000_0000) == v by {
        vstd::arithmetic::div_mod::lemma_fundamental_div_mod_converse(
            v * 0x1_0000_0000 + 0x8000_0000,
            0x1_0000_0000,
            v,
            0x8000_0000,
        );
    }
    assert(round_channel(channel(p, 0) * 0x1_0000_0000) == p.r);
    assert(round_channel(channel(p, 1) * 0x1_0000_0000) == p.g);
    assert(round_channel(channel(p, 2) * 0x1_0000_0000) == p.b);
    assert(round_channel(channel(p, 3) * 0x1_0000_0000) == p.a);
}

/// A flat image stays flat under any accepted scaling: the weights of each
/// axis sum to exactly one.
pub proof fn lemma_flat_stays_flat(
    w_in: u32,
    h_in: u32,
    px: Seq<Rgba>,
    w_out: u32,
    h_out: u32,
    p: Rgba,
)
    requires
        w_in >= 1,
        h_in >= 1,
        px.len() == w_in * h_in,
        forall|i: int| 0 <= i < px.len() ==> px[i] == p,
        scale_accepts(w_in, h_in, w_out, h_out),
    ensures
        scale_spec(w_in, h_in, px, w_out, h_out) matches Ok(out) && out.len() == w_out * h_out
            && forall|k: int| 0 <= k < out.len() ==> out[k] == p,
{
    assert forall|ox: int, oy: int| #[trigger] scaled_px(
        px,
        w_in as int,
        h_in as int,
        w_out as int,
        h_out as int,
        ox,
        oy,
    ) == p by {
        lemma_flat_pixel(px, w_in as int, h_in as int, w_out as int, h_out as int, ox, oy, p);
    }
}

// ---- transposition ----

/// An image of width `w` and height `h` turned about its diagonal: width
/// `h`, height `w`, with pixel (x, y) of the result the pixel (y, x) of the
/// image.
pub open spec fn transpose(px: Seq<Rgba>, w: int, h: int) -> Seq<Rgba> {
    Seq::new((w * h) as nat, |i: int| px[(i % h) * w + i / h])
}

/// The taps of an axis lie on it.
proof fn lemma_tap_range(n_in: int, n_out: int, x: int, k: int)
    requires
        n_in >= 1,
    ensures
        0 <= tap_spec(n_in, n_out, x, k) < n_in,
{
}

/// Tap term `k` of a pixel of the transposed image is the term with the
/// roles of the two taps exchanged in the image itself.
proof fn lemma_term_transpose(
    px: Seq<Rgba>,
    w: int,
    h: int,
    wo: int,
    ho: int,
    ox: int,
    oy: int,
    c: int,
    k: int,
)
    requires
        w >= 1,
        h >= 1,
        px.len() == w * h,
        0 <= k < 16,
    ensures
        tap_term(transpose(px, w, h), h, w, ho, wo, oy, ox, c, k) == tap_term(
            px,
            w,
            h,
            wo,
            ho,
            ox,
            oy,
            c,
            (k % 4) * 4 + k / 4,
        ),
{
    let t = transpose(px, w, h);
    let ty = tap_spec(w, wo, ox, k / 4);
    let tx = tap_spec(h, ho, oy, k % 4);
    lemma_tap_range(w, wo, ox, k / 4);
    lemma_tap_range(h, ho, oy, k % 4);
    let i = ty * h + tx;
    vstd::arithmetic::div_mod::lemma_fundamental_div_mod_converse(i, h, ty, tx);
    assert(0 <= i < w * h) by (nonlinear_arith)
        requires
            i == ty * h + tx,
            0 <= ty < w,
            0 <= tx < h,
    ;
    assert(t[i] == px[tx * w + ty]);
    let k2 = (k % 4) * 4 + k / 4;
    assert(k2 / 4 == k % 4 && k2 % 4 == k / 4);
    let a = weight_spec(w, wo, ox, k / 4);
    let b = weight_spec(h, ho, oy, k % 4);
    vstd::arithmetic::mul::lemma_mul_is_commutative(a, b);
}

/// Scaling is the same along both axes: a pixel of the transposed image,
/// scaled with the two axes exchanged, is the pixel of the scaled image at
/// the exchanged position.
pub proof fn lemma_scaled_px_transpose(
    px: Seq<Rgba>,
    w: int,
    h: int,
    wo: int,
    ho: int,
    ox: int,
    oy: int,
)
    requires
        w >= 1,
        h >= 1,
        px.len() == w * h,
    ensures
        scaled_px(transpose(px, w, h), h, w, ho, wo, oy, ox) == scaled_px(px, w, h, wo, ho, ox, oy),
{
    let t = transpose(px, w, h);
    assert forall|c: int| #[trigger] acc_spec(t, h, w, ho, wo, oy, ox, c, 16) == acc_spec(
        px,
        w,
        h,
        wo,
        ho,
        ox,
        oy,
        c,
        16,
    ) by {
        reveal_with_fuel(acc_spec, 17);
        assert forall|k: int| 0 <= k < 16 implies #[trigger] tap_term(t, h, w, ho, wo, oy, ox, c, k)
            == tap_term(px, w, h, wo, ho, ox, oy, c, (k % 4) * 4 + k / 4) by {
            lemma_term_transpose(px, w, h, wo, ho, ox, oy, c, k);
        }
        assert(tap_term(t, h, w, ho, wo, oy, ox, c, 0) == tap_term(px, w, h, wo, ho, ox, oy, c, 0));
        assert(tap_term(t, h, w, ho, wo, oy, ox, c, 1) == tap_term(px, w, h, wo, ho, ox, oy, c, 4));
        assert(tap_term(t, h, w, ho, wo, oy, ox, c, 2) == tap_term(px, w, h, wo, ho, ox, oy, c, 8));
        assert(tap_term(t, h, w, ho, wo, oy, ox, c, 3) == tap_term(px, w, h, wo, ho, ox, oy, c, 12));
        assert(tap_term(t, h, w, ho, wo, oy, ox, c, 4) == tap_term(px, w, h, wo, ho, ox, oy, c, 1));
        assert(tap_term(t, h, w, ho, wo, oy, ox, c, 5) == tap_term(px, w, h, wo, ho, ox, oy, c, 5));
        assert(tap_term(t, h, w, ho, wo, oy, ox, c, 6) == tap_term(px, w, h, wo, ho, ox, oy, c, 9));
        assert(tap_term(t, h, w, ho, wo, oy, ox, c, 7) == tap_term(px, w, h, wo, ho, ox, oy, c, 13));
        assert(tap_term(t, h, w, ho, wo, oy, ox, c, 8) == tap_term(px, w, h, wo, ho, ox, oy, c, 2));
        assert(tap_term(t, h, w, ho, wo, oy, ox, c, 9) == tap_term(px, w, h, wo, ho, ox, oy, c, 6));
        assert(tap_term(t, h, w, ho, wo, oy, ox, c, 10) == tap_term(px, w, h, wo, ho, ox, oy, c, 10));
        assert(tap_term(t, h, w, ho, wo, oy, ox, c, 11) == tap_term(px, w, h, wo, ho, ox, oy, c, 14));
        assert(tap_term(t, h, w, ho, wo, oy, ox, c, 12) == tap_term(px, w, h, wo, ho, ox, oy, c, 3));
        assert(tap_term(t, h, w, ho, wo, oy, ox, c, 13) == tap_term(px, w, h, wo, ho, ox, oy, c, 7));
        assert(tap_term(t, h, w, ho, wo, oy, ox, c, 14) == tap_term(px, w, h, wo, ho, ox, oy, c, 11));
        assert(tap_term(t, h, w, ho, wo, oy, ox, c, 15) == tap_term(px, w, h, wo, ho, ox, oy, c, 15));
    }
}

/// Scaling commutes with transposition: scaling the transposed image to the
/// transposed size gives the transposed result, or the same refusal. So the
/// vertical filter is the horizontal one, applied to the height axis.
pub proof fn lemma_scale_transpose(w_in: u32, h_in: u32, px: Seq<Rgba>, w_out: u32, h_out: u32)
    requires
        w_in >= 1,
        h_in >= 1,
        px.len() == w_in * h_in,
    ensures
        scale_spec(h_in, w_in, transpose(px, w_in as int, h_in as int), h_out, w_out) == match scale_spec(
            w_in,
            h_in,
            px,
            w_out,
            h_out,
        ) {
            Ok(o) => Ok::<Seq<Rgba>, Error>(transpose(o, w_out as int, h_out as int)),
            Err(e) => Err::<Seq<Rgba>, Error>(e),
        },
{
    let (w, h, wo, ho) = (w_in as int, h_in as int, w_out as int, h_out as int);
    let t = transpose(px, w, h);
    if !(w_out < w_in || h_out < h_in) && !(w_out == 0 || h_out == 0) {
        let o = Seq::new((wo * ho) as nat, |j: int| scaled_px(px, w, h, wo, ho, j % wo, j / wo));
        let lhs = Seq::new((ho * wo) as nat, |i: int| scaled_px(t, h, w, ho, wo, i % ho, i / ho));
        let rhs = transpose(o, wo, ho);
        assert(ho * wo == wo * ho) by (nonlinear_arith);
        assert forall|i: int| 0 <= i < lhs.len() implies lhs[i] == rhs[i] by {
            let x = i / ho;
            let y = i % ho;
            vstd::arithmetic::div_mod::lemma_fundamental_div_mod(i, ho);
            assert(x < wo) by (nonlinear_arith)
                requires
                    i == ho * x + y,
                    0 <= y,
                    i < ho * wo,
                    ho >= 1,
            ;
            assert(x >= 0) by (nonlinear_arith)
                requires
                    i == ho * x + y,
                    y < ho,
                    i >= 0,
                    ho >= 1,
            ;
            let j = y * wo + x;
            vstd::arithmetic::div_mod::lemma_fundamental_div_mod_converse(j, wo, y, x);
            assert(0 <= j < wo * ho) by (nonlinear_arith)
                requires
                    j == y * wo + x,
                    0 <= x < wo,
                    0 <= y < ho,
            ;
            lemma_scaled_px_transpose(px, w, h, wo, ho, x, y);
        }
        assert(lhs =~= rhs);
    }
}


/// The rounding of an accumulator is to the nearest channel value: within
/// half a step of it, clamped to the channel's range.
pub proof fn lemma_round_nearest(v: int)
    requires
        0 <= v < 0x100_0000_0000 - 0x8000_0000,
    ensures
        round_channel(v) * 0x1_0000_0000 - 0x8000_0000 <= v < round_channel(v) * 0x1_0000_0000
            + 0x8000_0000,
{
    vstd::arithmetic::div_mod::lemma_fundamental_div_mod(v + 0x8000_0000, 0x1_0000_0000);
}

/// The Catmull-Rom weights reproduce position: the taps at -1, 0, +1 and
/// +2 around the base sample, weighted, land on the fractional source
/// position `t` to within the rounding of the Q16 arithmetic. So a linear
/// ramp stays linear when scaled.
pub proof fn lemma_weights_first_moment(n_in: int, n_out: int, x: int)
    ensures
        ({
            let t = source_q16(n_in, n_out, x) % 65536;
            let m = -weight_spec(n_in, n_out, x, 0) + weight_spec(n_in, n_out, x, 2) + 2
                * weight_spec(n_in, n_out, x, 3);
            t - 2 <= m <= t + 2
        }),
{
    let t = source_q16(n_in, n_out, x) % 65536;
    let t2 = (t * t) / 65536;
    let t3 = (t2 * t) / 65536;
    let a = -t3 + 2 * t2 - t;
    let b = -3 * t3 + 4 * t2 + t;
    let c = t3 - t2;
    vstd::arithmetic::div_mod::lemma_fundamental_div_mod(a, 2);
    vstd::arithmetic::div_mod::lemma_fundamental_div_mod(b, 2);
    vstd::arithmetic::div_mod::lemma_fundamental_div_mod(c, 2);
    assert(-a + b + 2 * c == 2 * t);
}

} // verus!
