//! Side-by-side previews: nearest-neighbour sampling to set beside the
//! mandated reconstruction.

use vstd::prelude::*;
use crate::container::Image;
use crate::pixel::Rgba;

verus! {

/// The source column (or row) nearest-neighbour sampling reads for output
/// position `x` of `n_out`, from `n_in` source positions.
pub open spec fn nearest_src(x: int, n_in: int, n_out: int) -> int {
    if (x * n_in) / n_out > n_in - 1 {
        n_in - 1
    } else {
        (x * n_in) / n_out
    }
}

/// Output pixel (x, y) of nearest-neighbour scaling.
pub open spec fn nearest_px(px: Seq<Rgba>, w: int, h: int, w_out: int, h_out: int, x: int, y: int) -> Rgba {
    px[nearest_src(y, h, h_out) * w + nearest_src(x, w, w_out)]
}

/// Nearest-neighbour scaling to (w_out, h_out), row-major.
pub open spec fn nearest_spec(px: Seq<Rgba>, w: int, h: int, w_out: int, h_out: int) -> Seq<Rgba> {
    Seq::new((w_out * h_out) as nat, |k: int| nearest_px(px, w, h, w_out, h_out, k % w_out, k / w_out))
}

/// Scale by picking the nearest source pixel.
pub fn nearest(img: &Image, w_out: u32, h_out: u32) -> (out: Image)
    requires
        img.pixels@.len() == img.width * img.height,
        w_out * h_out <= u32::MAX,
        w_out > 0 && h_out > 0 ==> img.width >= 1 && img.height >= 1,
        w_out > 0 ==> (w_out - 1) * img.width <= u32::MAX,
        h_out > 0 ==> (h_out - 1) * img.height <= u32::MAX,
    ensures
        out.width == w_out,
        out.height == h_out,
        out.pixels@ == nearest_spec(
            img.pixels@,
            img.width as int,
            img.height as int,
            w_out as int,
            h_out as int,
        ),
{
    let ghost (w, h, wo, ho) = (img.width as int, img.height as int, w_out as int, h_out as int);
    let n = img.pixels.len();
    let mut pixels: Vec<Rgba> = Vec::new();
    let mut y: u32 = 0;
    while y < h_out
        invariant
            0 <= y <= h_out,
            w == img.width,
            h == img.height,
            wo == w_out,
            ho == h_out,
            n == img.pixels@.len(),
            img.pixels@.len() == img.width * img.height,
            w_out * h_out <= u32::MAX,
            w_out > 0 && h_out > 0 ==> img.width >= 1 && img.height >= 1,
            w_out > 0 ==> (w_out - 1) * img.width <= u32::MAX,
            h_out > 0 ==> (h_out - 1) * img.height <= u32::MAX,
            pixels@.len() == y * w_out,
            forall|k: int|
                0 <= k < pixels@.len() ==> pixels@[k] == nearest_px(
                    img.pixels@,
                    w,
                    h,
                    wo,
                    ho,
                    k % wo,
                    k / wo,
                ),
        decreases h_out - y,
    {
        let mut x: u32 = 0;
        while x < w_out
            invariant
                0 <= y < h_out,
                0 <= x <= w_out,
                w == img.width,
                h == img.height,
                wo == w_out,
                ho == h_out,
                img.pixels@.len() == img.width * img.height,
                w_out > 0 ==> img.width >= 1 && img.height >= 1,
                w_out > 0 ==> (w_out - 1) * img.width <= u32::MAX,
                n == img.pixels@.len(),
                (h_out - 1) * img.height <= u32::MAX,
                w_out * h_out <= u32::MAX,
                pixels@.len() == y * w_out + x,
                forall|k: int|
                    0 <= k < pixels@.len() ==> pixels@[k] == nearest_px(
                        img.pixels@,
                        w,
                        h,
                        wo,
                        ho,
                        k % wo,
                        k / wo,
                    ),
            decreases w_out - x,
        {
            proof {
                assert(x * img.width <= (w_out - 1) * img.width) by (nonlinear_arith)
                    requires
                        x <= w_out - 1,
                ;
                assert(y * img.height <= (h_out - 1) * img.height) by (nonlinear_arith)
                    requires
                        y <= h_out - 1,
                ;
            }
            let sx0 = x * img.width / w_out;
            let sx = if sx0 > img.width - 1 { img.width - 1 } else { sx0 };
            let sy0 = y * img.height / h_out;
            let sy = if sy0 > img.height - 1 { img.height - 1 } else { sy0 };
            proof {
                assert(sy * img.width + sx < img.width * img.height) by (nonlinear_arith)
                    requires
                        sy <= img.height - 1,
                        sx <= img.width - 1,
                ;
                assert(img.width * img.height <= usize::MAX);
                let k = y * w_out + x;
                vstd::arithmetic::div_mod::lemma_fundamental_div_mod_converse(k as int, wo, y as int, x as int);
                assert(y * w_out + x < (y + 1) * w_out) by (nonlinear_arith)
                    requires
                        x < w_out,
                ;
            }
            let p = img.pixels[sy as usize * img.width as usize + sx as usize];
            pixels.push(p);
            x = x + 1;
        }
        proof {
            assert(pixels@.len() == (y + 1) * w_out) by (nonlinear_arith)
                requires
                    pixels@.len() == y * w_out + w_out,
            ;
        }
        y = y + 1;
    }
    proof {
        assert(pixels@.len() == w_out * h_out) by (nonlinear_arith)
            requires
                pixels@.len() == y * w_out,
                y == h_out,
        ;
        assert(pixels@ =~= nearest_spec(img.pixels@, w, h, wo, ho));
    }
    Image { width: w_out, height: h_out, pixels }
}

/// Pixel (x, y) of two equally sized images side by side, `gap` white
/// columns apart.
pub open spec fn side_px(left: Seq<Rgba>, right: Seq<Rgba>, w: int, gap: int, x: int, y: int) -> Rgba {
    if x < w {
        left[y * w + x]
    } else if x < w + gap {
        Rgba { r: 255, g: 255, b: 255, a: 255 }
    } else {
        right[y * w + (x - w - gap)]
    }
}

/// The pixels of two images side by side, row-major, each row `2 * w + gap`
/// wide.
pub open spec fn side_spec(left: Seq<Rgba>, right: Seq<Rgba>, w: int, h: int, gap: int) -> Seq<Rgba> {
    let total = 2 * w + gap;
    Seq::new((total * h) as nat, |k: int| side_px(left, right, w, gap, k % total, k / total))
}

/// Row `y` of the side-by-side image.
fn side_row(left: &Vec<Rgba>, right: &Vec<Rgba>, w: u32, h: u32, gap: u32, y: u32) -> (line: Vec<Rgba>)
    requires
        y < h,
        left@.len() == w * h,
        right@.len() == w * h,
    ensures
        line@ == Seq::new((2 * w + gap) as nat, |x: int| side_px(left@, right@, w as int, gap as int, x, y as int)),
{
    proof {
        assert(y * w + w <= w * h) by (nonlinear_arith)
            requires
                y < h,
        ;
    }
    let nl = left.len();
    let nr = right.len();
    let row = y as usize * w as usize;
    let mut line: Vec<Rgba> = Vec::new();
    let mut x: u32 = 0;
    while x < w
        invariant
            0 <= x <= w,
            row == y * w,
            row + w <= w * h,
            left@.len() == w * h,
            nl == left@.len(),
            line@.len() == x,
            forall|j: int| 0 <= j < x ==> line@[j] == side_px(left@, right@, w as int, gap as int, j, y as int),
        decreases w - x,
    {
        line.push(left[row + x as usize]);
        x = x + 1;
    }
    let mut g: u32 = 0;
    while g < gap
        invariant
            0 <= g <= gap,
            line@.len() == w + g,
            forall|j: int| 0 <= j < w + g ==> line@[j] == side_px(left@, right@, w as int, gap as int, j, y as int),
        decreases gap - g,
    {
        line.push(Rgba::new(255, 255, 255, 255));
        g = g + 1;
    }
    let mut x: u32 = 0;
    while x < w
        invariant
            0 <= x <= w,
            row == y * w,
            row + w <= w * h,
            right@.len() == w * h,
            nr == right@.len(),
            line@.len() == w + gap + x,
            forall|j: int| 0 <= j < w + gap + x ==> line@[j] == side_px(left@, right@, w as int, gap as int, j, y as int),
        decreases w - x,
    {
        line.push(right[row + x as usize]);
        x = x + 1;
    }
    proof {
        assert(line@ =~= Seq::new((2 * w + gap) as nat, |x: int| side_px(left@, right@, w as int, gap as int, x, y as int)));
    }
    line
}

/// Two images of the same size side by side, `left` first, with `gap` white
/// columns between them.
pub fn side_by_side(left: &Image, right: &Image, gap: u32) -> (out: Image)
    requires
        left.width == right.width,
        left.height == right.height,
        left.pixels@.len() == left.width * left.height,
        right.pixels@.len() == right.width * right.height,
        left.width * 2 + gap <= u32::MAX,
        (left.width * 2 + gap) * left.height <= u32::MAX,
    ensures
        out.width == left.width * 2 + gap,
        out.height == left.height,
        out.pixels@ == side_spec(left.pixels@, right.pixels@, left.width as int, left.height as int, gap as int),
{
    let w = left.width;
    let h = left.height;
    let ghost total: int = 2 * w + gap;
    let mut pixels: Vec<Rgba> = Vec::new();
    let mut y: u32 = 0;
    while y < h
        invariant
            0 <= y <= h,
            w == left.width,
            h == left.height,
            left.width == right.width,
            left.pixels@.len() == w * h,
            right.pixels@.len() == w * h,
            total == 2 * w + gap,
            total >= 0,
            pixels@.len() == y * total,
            forall|k: int| 0 <= k < pixels@.len() ==> pixels@[k] == side_px(
                left.pixels@,
                right.pixels@,
                w as int,
                gap as int,
                k % total,
                k / total,
            ),
        decreases h - y,
    {
        let mut line = side_row(&left.pixels, &right.pixels, w, h, gap, y);
        let ghost before = pixels@;
        pixels.append(&mut line);
        proof {
            assert forall|k: int| 0 <= k < pixels@.len() implies pixels@[k] == side_px(
                left.pixels@,
                right.pixels@,
                w as int,
                gap as int,
                k % total,
                k / total,
            ) by {
                if k >= before.len() {
                    let x = k - y * total;
                    vstd::arithmetic::div_mod::lemma_fundamental_div_mod_converse(k, total, y as int, x);
                }
            }
            assert(pixels@.len() == (y + 1) * total) by (nonlinear_arith)
                requires
                    pixels@.len() == y * total + total,
            ;
        }
        y = y + 1;
    }
    proof {
        assert(pixels@ =~= side_spec(left.pixels@, right.pixels@, w as int, h as int, gap as int)) by {
            assert(y * total == total * h) by (nonlinear_arith)
                requires
                    y == h,
            ;
        }
    }
    Image { width: w * 2 + gap, height: h, pixels }
}

} // verus!
