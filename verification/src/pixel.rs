//! Pixel type and the MED predictor.

use vstd::prelude::*;

verus! {

/// One 8-bit RGBA pixel, straight alpha.
#[derive(Clone, Copy, PartialEq, Eq, Debug, Structural)]
pub struct Rgba {
    pub r: u8,
    pub g: u8,
    pub b: u8,
    pub a: u8,
}

/// The all-zero pixel, the initial content of index tables and buffers.
pub open spec fn zero_px() -> Rgba {
    Rgba { r: 0, g: 0, b: 0, a: 0 }
}

/// Opaque black, the prediction for the first pixel of a tile.
pub open spec fn opaque_black() -> Rgba {
    Rgba { r: 0, g: 0, b: 0, a: 255 }
}

impl Default for Rgba {
    fn default() -> (p: Rgba)
        ensures
            p == zero_px(),
    {
        Rgba { r: 0, g: 0, b: 0, a: 0 }
    }
}

/// Index-table slot of a pixel.
pub open spec fn hash_spec(p: Rgba) -> int {
    (p.r as int * 3 + p.g as int * 5 + p.b as int * 7 + p.a as int * 11) % 64
}

impl Rgba {
    /// Opaque black: (0, 0, 0, 255).
    pub fn opaque_black() -> (p: Rgba)
        ensures
            p == opaque_black(),
    {
        Rgba { r: 0, g: 0, b: 0, a: 255 }
    }

    pub fn new(r: u8, g: u8, b: u8, a: u8) -> (p: Self)
        ensures
            p == (Rgba { r, g, b, a }),
    {
        Rgba { r, g, b, a }
    }

    /// Index-table slot for this pixel: (r*3 + g*5 + b*7 + a*11) % 64.
    pub fn hash(self) -> (slot: usize)
        ensures
            slot == hash_spec(self),
            slot < 64,
    {
        (self.r as usize * 3 + self.g as usize * 5 + self.b as usize * 7 + self.a as usize * 11) % 64
    }
}

/// Median edge detector for one channel, as the format defines it.
pub open spec fn med_spec(l: u8, u: u8, ul: u8) -> u8 {
    let lo = if l < u { l } else { u };
    let hi = if l < u { u } else { l };
    if ul >= hi {
        lo
    } else if ul <= lo {
        hi
    } else {
        (l as int + u as int - ul as int) as u8
    }
}

/// Median edge detector for one channel.
pub fn med(l: u8, u: u8, ul: u8) -> (p: u8)
    ensures
        p == med_spec(l, u, ul),
        // the prediction never leaves the range spanned by the neighbours
        (l <= p <= u) || (u <= p <= l),
{
    let (lo, hi) = if l < u { (l, u) } else { (u, l) };
    if ul >= hi {
        lo
    } else if ul <= lo {
        hi
    } else {
        (l as i16 + u as i16 - ul as i16) as u8
    }
}

/// Per-channel MED of three pixels.
pub open spec fn med_px(l: Rgba, u: Rgba, ul: Rgba) -> Rgba {
    Rgba {
        r: med_spec(l.r, u.r, ul.r),
        g: med_spec(l.g, u.g, ul.g),
        b: med_spec(l.b, u.b, ul.b),
        a: med_spec(l.a, u.a, ul.a),
    }
}

/// The prediction for the pixel at (x, y) of a buffer with row stride `w`:
/// opaque black for the first pixel, the left neighbour on the first row, the
/// upper neighbour on the first column, the MED of left, up and up-left
/// elsewhere.
pub open spec fn predict_spec(px: Seq<Rgba>, w: int, x: int, y: int) -> Rgba {
    let idx = y * w + x;
    if x == 0 && y == 0 {
        opaque_black()
    } else if y == 0 {
        px[idx - 1]
    } else if x == 0 {
        px[idx - w]
    } else {
        med_px(px[idx - 1], px[idx - w], px[idx - w - 1])
    }
}

/// The prediction for the pixel at position `pos` of a tile `w` wide.
pub open spec fn predict_at(px: Seq<Rgba>, w: int, pos: int) -> Rgba {
    predict_spec(px, w, pos % w, pos / w)
}

/// A prediction reads only positions before the predicted one.
pub proof fn lemma_predict_reads_prefix(a: Seq<Rgba>, b: Seq<Rgba>, w: int, x: int, y: int)
    requires
        0 <= x,
        0 <= y,
        0 <= w,
        y * w + x <= a.len(),
        y * w + x <= b.len(),
        forall|k: int| 0 <= k < y * w + x ==> a[k] == b[k],
        x < w || y == 0,
    ensures
        predict_spec(a, w, x, y) == predict_spec(b, w, x, y),
{
    let idx = y * w + x;
    if x == 0 && y == 0 {
    } else if y == 0 {
        assert(a[idx - 1] == b[idx - 1]);
    } else if x == 0 {
        assert(idx - w >= 0) by (nonlinear_arith)
            requires idx == y * w + x, y >= 1, w >= 0, x >= 0;
        assert(a[idx - w] == b[idx - w]);
    } else {
        assert(idx - w - 1 >= 0) by (nonlinear_arith)
            requires idx == y * w + x, y >= 1, w >= 0, x >= 1;
        assert(a[idx - 1] == b[idx - 1]);
        assert(a[idx - w] == b[idx - w]);
        assert(a[idx - w - 1] == b[idx - w - 1]);
    }
}

/// Prediction for the pixel at tile-local (x, y). `pixels` is the tile buffer,
/// row-major with row stride `width`; only positions before (x, y) are read.
pub fn predict(pixels: &[Rgba], width: usize, x: usize, y: usize) -> (p: Rgba)
    requires
        y * width + x <= pixels@.len(),
        x < width || y == 0,
    ensures
        p == predict_spec(pixels@, width as int, x as int, y as int),
{
    let n = pixels.len();
    proof {
        assert(y * width <= y * width + x);
        assert(y * width + x <= usize::MAX);
        if y >= 1 {
            assert(y * width >= width) by (nonlinear_arith)
                requires y >= 1;
        }
    }
    let idx = y * width + x;
    if x == 0 && y == 0 {
        return Rgba::opaque_black();
    }
    if y == 0 {
        return pixels[idx - 1];
    }
    if x == 0 {
        return pixels[idx - width];
    }
    let l = pixels[idx - 1];
    let u = pixels[idx - width];
    let ul = pixels[idx - width - 1];
    Rgba {
        r: med(l.r, u.r, ul.r),
        g: med(l.g, u.g, ul.g),
        b: med(l.b, u.b, ul.b),
        a: med(l.a, u.a, ul.a),
    }
}

/// Channel `c` (0 = r, 1 = g, 2 = b, 3 = a) of a pixel, as a byte.
pub open spec fn channel_byte(p: Rgba, c: int) -> u8 {
    if c == 0 {
        p.r
    } else if c == 1 {
        p.g
    } else if c == 2 {
        p.b
    } else {
        p.a
    }
}

/// Pixels as interleaved RGBA bytes, four per pixel.
pub open spec fn rgba_bytes(px: Seq<Rgba>) -> Seq<u8> {
    Seq::new(4 * px.len(), |k: int| channel_byte(px[k / 4], k % 4))
}

/// Pixels from interleaved RGBA bytes; a trailing partial pixel is dropped.
pub open spec fn pixels_of(raw: Seq<u8>) -> Seq<Rgba> {
    Seq::new(
        raw.len() / 4,
        |i: int| Rgba { r: raw[4 * i], g: raw[4 * i + 1], b: raw[4 * i + 2], a: raw[4 * i + 3] },
    )
}

/// Interleave pixels into RGBA bytes.
pub fn to_rgba_bytes(pixels: &[Rgba]) -> (out: Vec<u8>)
    requires
        4 * pixels@.len() <= usize::MAX,
    ensures
        out@ == rgba_bytes(pixels@),
{
    let mut out: Vec<u8> = Vec::new();
    let mut i: usize = 0;
    while i < pixels.len()
        invariant
            0 <= i <= pixels@.len(),
            out@.len() == 4 * i,
            forall|k: int| 0 <= k < 4 * i ==> out@[k] == channel_byte(pixels@[k / 4], k % 4),
        decreases pixels@.len() - i,
    {
        let p = pixels[i];
        out.push(p.r);
        out.push(p.g);
        out.push(p.b);
        out.push(p.a);
        proof {
            assert forall|k: int| 4 * i <= k < 4 * i + 4 implies out@[k] == channel_byte(
                pixels@[k / 4],
                k % 4,
            ) by {
                assert(k / 4 == i);
            }
        }
        i = i + 1;
    }
    proof {
        assert(out@ =~= rgba_bytes(pixels@));
    }
    out
}

/// Group interleaved RGBA bytes into pixels, four bytes each.
pub fn from_rgba_bytes(raw: &[u8]) -> (out: Vec<Rgba>)
    ensures
        out@ == pixels_of(raw@),
{
    let len = raw.len();
    let n = len / 4;
    let mut out: Vec<Rgba> = Vec::new();
    let mut i: usize = 0;
    while i < n
        invariant
            n == raw@.len() / 4,
            len == raw@.len(),
            0 <= i <= n,
            out@.len() == i,
            forall|k: int| 0 <= k < i ==> out@[k] == pixels_of(raw@)[k],
        decreases n - i,
    {
        out.push(Rgba::new(raw[4 * i], raw[4 * i + 1], raw[4 * i + 2], raw[4 * i + 3]));
        i = i + 1;
    }
    proof {
        assert(out@ =~= pixels_of(raw@));
    }
    out
}

/// Interleaving pixels into bytes and grouping the bytes again gives the
/// pixels back.
pub proof fn lemma_rgba_bytes_roundtrip(px: Seq<Rgba>)
    ensures
        pixels_of(rgba_bytes(px)) == px,
{
    let b = rgba_bytes(px);
    assert forall|i: int| 0 <= i < px.len() implies pixels_of(b)[i] == px[i] by {
        assert((4 * i) / 4 == i && (4 * i) % 4 == 0);
        assert((4 * i + 1) / 4 == i && (4 * i + 1) % 4 == 1);
        assert((4 * i + 2) / 4 == i && (4 * i + 2) % 4 == 2);
        assert((4 * i + 3) / 4 == i && (4 * i + 3) % 4 == 3);
    }
    assert(pixels_of(b) =~= px);
}

} // verus!
