//! Vector payload: pooled colors, styles and paths, and shapes that refer to
//! them, painted in order.

use vstd::prelude::*;
use crate::error::Error;
use crate::pixel::Rgba;
use crate::raster::append_bytes;
pub use crate::render::{rasterize, rasterize_checked};
use crate::varint::{
    varuint_bytes, varint_bytes, parse_varuint, parse_varint, put_varuint, put_varint, get_varuint,
    get_varint, lemma_varuint_roundtrip, lemma_varint_roundtrip, lemma_varuint_len,
};

verus! {

#[derive(Clone, Copy, PartialEq, Eq, Debug, Structural)]
pub enum Style {
    Flat { color: u32 },
    Linear { x0: i64, y0: i64, x1: i64, y1: i64, c0: u32, c1: u32 },
    Radial { cx: i64, cy: i64, ex: i64, ey: i64, c0: u32, c1: u32 },
}

#[derive(Clone, Copy, PartialEq, Eq, Debug, Structural)]
pub enum PathCmd {
    MoveTo(i64, i64),
    LineTo(i64, i64),
    QuadTo(i64, i64, i64, i64),
    CubicTo(i64, i64, i64, i64, i64, i64),
    Close,
}

#[derive(Clone, Copy, PartialEq, Eq, Debug, Structural)]
pub enum FillRule {
    NonZero,
    EvenOdd,
}

#[derive(Clone, Copy, PartialEq, Eq, Debug, Structural)]
pub struct Shape {
    pub style: u32,
    pub path: u32,
    pub fill_rule: FillRule,
}

/// In-memory vector art. Path coordinates are absolute, in fixed-point
/// units with `scale` fractional bits; the wire format stores deltas.
#[derive(Clone, PartialEq, Eq, Debug)]
pub struct VectorImage {
    pub scale: u8,
    pub colors: Vec<Rgba>,
    pub styles: Vec<Style>,
    pub paths: Vec<Vec<PathCmd>>,
    pub shapes: Vec<Shape>,
}

/// The mathematical content of a `VectorImage`.
#[verifier::ext_equal]
pub struct ArtView {
    pub scale: u8,
    pub colors: Seq<Rgba>,
    pub styles: Seq<Style>,
    pub paths: Seq<Seq<PathCmd>>,
    pub shapes: Seq<Shape>,
}

impl View for VectorImage {
    type V = ArtView;

    open spec fn view(&self) -> ArtView {
        ArtView {
            scale: self.scale,
            colors: self.colors@,
            styles: self.styles@,
            paths: self.paths@.map_values(|p: Vec<PathCmd>| p@),
            shapes: self.shapes@,
        }
    }
}

// ---- wire format, as written ----

pub open spec fn color_bytes(colors: Seq<Rgba>) -> Seq<u8>
    decreases colors.len(),
{
    if colors.len() == 0 {
        Seq::empty()
    } else {
        seq![colors[0].r, colors[0].g, colors[0].b, colors[0].a] + color_bytes(colors.drop_first())
    }
}

pub open spec fn style_bytes(s: Style) -> Seq<u8> {
    match s {
        Style::Flat { color } => seq![0u8] + varuint_bytes(color as u64),
        Style::Linear { x0, y0, x1, y1, c0, c1 } => seq![1u8] + varint_bytes(x0) + varint_bytes(y0)
            + varint_bytes(x1) + varint_bytes(y1) + varuint_bytes(c0 as u64) + varuint_bytes(
            c1 as u64,
        ),
        Style::Radial { cx, cy, ex, ey, c0, c1 } => seq![2u8] + varint_bytes(cx) + varint_bytes(cy)
            + varint_bytes(ex) + varint_bytes(ey) + varuint_bytes(c0 as u64) + varuint_bytes(
            c1 as u64,
        ),
    }
}

pub open spec fn styles_bytes(ss: Seq<Style>) -> Seq<u8>
    decreases ss.len(),
{
    if ss.len() == 0 {
        Seq::empty()
    } else {
        style_bytes(ss[0]) + styles_bytes(ss.drop_first())
    }
}

/// `a - b` as the i64 delta the wire format stores.
pub open spec fn delta(a: i64, b: i64) -> i64 {
    (a - b) as i64
}

/// Bytes of one path instruction, relative to the current point (cx, cy).
pub open spec fn cmd_bytes(c: PathCmd, cx: i64, cy: i64) -> Seq<u8> {
    match c {
        PathCmd::MoveTo(x, y) => seq![0u8] + varint_bytes(delta(x, cx)) + varint_bytes(delta(y, cy)),
        PathCmd::LineTo(x, y) => seq![1u8] + varint_bytes(delta(x, cx)) + varint_bytes(delta(y, cy)),
        PathCmd::QuadTo(qx, qy, x, y) => seq![2u8] + varint_bytes(delta(qx, cx)) + varint_bytes(
            delta(qy, cy),
        ) + varint_bytes(delta(x, qx)) + varint_bytes(delta(y, qy)),
        PathCmd::CubicTo(ax, ay, bx, by, x, y) => seq![3u8] + varint_bytes(delta(ax, cx))
            + varint_bytes(delta(ay, cy)) + varint_bytes(delta(bx, ax)) + varint_bytes(delta(by, ay))
            + varint_bytes(delta(x, bx)) + varint_bytes(delta(y, by)),
        PathCmd::Close => seq![4u8],
    }
}

/// The current point after an instruction, from the current point (cx, cy)
/// and the subpath start (sx, sy): close returns to the subpath start.
pub open spec fn cmd_end(c: PathCmd, cx: i64, cy: i64, sx: i64, sy: i64) -> (i64, i64) {
    match c {
        PathCmd::MoveTo(x, y) => (x, y),
        PathCmd::LineTo(x, y) => (x, y),
        PathCmd::QuadTo(qx, qy, x, y) => (x, y),
        PathCmd::CubicTo(ax, ay, bx, by, x, y) => (x, y),
        PathCmd::Close => (sx, sy),
    }
}

/// The subpath start after an instruction: a move_to begins a new subpath.
pub open spec fn cmd_start(c: PathCmd, sx: i64, sy: i64) -> (i64, i64) {
    match c {
        PathCmd::MoveTo(x, y) => (x, y),
        _ => (sx, sy),
    }
}

pub open spec fn fits_i64(v: int) -> bool {
    i64::MIN <= v <= i64::MAX
}

/// Every delta of an instruction fits an i64.
pub open spec fn cmd_fits(c: PathCmd, cx: i64, cy: i64) -> bool {
    match c {
        PathCmd::MoveTo(x, y) => fits_i64(x - cx) && fits_i64(y - cy),
        PathCmd::LineTo(x, y) => fits_i64(x - cx) && fits_i64(y - cy),
        PathCmd::QuadTo(qx, qy, x, y) => fits_i64(qx - cx) && fits_i64(qy - cy) && fits_i64(x - qx)
            && fits_i64(y - qy),
        PathCmd::CubicTo(ax, ay, bx, by, x, y) => fits_i64(ax - cx) && fits_i64(ay - cy) && fits_i64(
            bx - ax,
        ) && fits_i64(by - ay) && fits_i64(x - bx) && fits_i64(y - by),
        PathCmd::Close => true,
    }
}

/// The instructions of a path, from current point (cx, cy) and subpath
/// start (sx, sy).
pub open spec fn cmds_bytes(cmds: Seq<PathCmd>, cx: i64, cy: i64, sx: i64, sy: i64) -> Seq<u8>
    decreases cmds.len(),
{
    if cmds.len() == 0 {
        Seq::empty()
    } else {
        let e = cmd_end(cmds[0], cx, cy, sx, sy);
        let st = cmd_start(cmds[0], sx, sy);
        cmd_bytes(cmds[0], cx, cy) + cmds_bytes(cmds.drop_first(), e.0, e.1, st.0, st.1)
    }
}

/// Every delta of a path, from current point (cx, cy) and subpath start
/// (sx, sy), fits an i64.
pub open spec fn cmds_fit(cmds: Seq<PathCmd>, cx: i64, cy: i64, sx: i64, sy: i64) -> bool
    decreases cmds.len(),
{
    if cmds.len() == 0 {
        true
    } else {
        let e = cmd_end(cmds[0], cx, cy, sx, sy);
        let st = cmd_start(cmds[0], sx, sy);
        cmd_fits(cmds[0], cx, cy) && cmds_fit(cmds.drop_first(), e.0, e.1, st.0, st.1)
    }
}

pub open spec fn path_bytes(cmds: Seq<PathCmd>) -> Seq<u8> {
    varuint_bytes(cmds.len() as u64) + cmds_bytes(cmds, 0, 0, 0, 0)
}

pub open spec fn paths_bytes(ps: Seq<Seq<PathCmd>>) -> Seq<u8>
    decreases ps.len(),
{
    if ps.len() == 0 {
        Seq::empty()
    } else {
        path_bytes(ps[0]) + paths_bytes(ps.drop_first())
    }
}

pub open spec fn rule_byte(r: FillRule) -> u8 {
    match r {
        FillRule::NonZero => 0u8,
        FillRule::EvenOdd => 1u8,
    }
}

pub open spec fn shape_bytes(s: Shape) -> Seq<u8> {
    varuint_bytes(s.style as u64) + varuint_bytes(s.path as u64) + seq![rule_byte(s.fill_rule)]
}

pub open spec fn shapes_bytes(ss: Seq<Shape>) -> Seq<u8>
    decreases ss.len(),
{
    if ss.len() == 0 {
        Seq::empty()
    } else {
        shape_bytes(ss[0]) + shapes_bytes(ss.drop_first())
    }
}

/// The VECT payload of a piece of art.
pub open spec fn vector_encode_spec(art: ArtView) -> Seq<u8> {
    seq![art.scale] + varuint_bytes(art.colors.len() as u64) + color_bytes(art.colors) + varuint_bytes(
        art.styles.len() as u64,
    ) + styles_bytes(art.styles) + varuint_bytes(art.paths.len() as u64) + paths_bytes(art.paths)
        + varuint_bytes(art.shapes.len() as u64) + shapes_bytes(art.shapes)
}

/// Art whose path deltas can all be written.
pub open spec fn encodable(art: ArtView) -> bool {
    forall|i: int| 0 <= i < art.paths.len() ==> cmds_fit(#[trigger] art.paths[i], 0, 0, 0, 0)
}

// ---- encode ----

proof fn lemma_skip_first<T>(s: Seq<T>, k: int)
    requires
        0 <= k < s.len(),
    ensures
        s.skip(k).len() > 0,
        s.skip(k)[0] == s[k],
        s.skip(k).drop_first() == s.skip(k + 1),
{
    assert(s.skip(k).drop_first() =~= s.skip(k + 1));
}

fn put_style(out: &mut Vec<u8>, s: Style)
    ensures
        final(out)@ == old(out)@ + style_bytes(s),
{
    match s {
        Style::Flat { color } => {
            out.push(0);
            put_varuint(out, color as u64);
        },
        Style::Linear { x0, y0, x1, y1, c0, c1 } => {
            out.push(1);
            put_varint(out, x0);
            put_varint(out, y0);
            put_varint(out, x1);
            put_varint(out, y1);
            put_varuint(out, c0 as u64);
            put_varuint(out, c1 as u64);
        },
        Style::Radial { cx, cy, ex, ey, c0, c1 } => {
            out.push(2);
            put_varint(out, cx);
            put_varint(out, cy);
            put_varint(out, ex);
            put_varint(out, ey);
            put_varuint(out, c0 as u64);
            put_varuint(out, c1 as u64);
        },
    }
    proof {
        assert(final(out)@ =~= old(out)@ + style_bytes(s));
    }
}

fn put_cmd(out: &mut Vec<u8>, c: PathCmd, cx: i64, cy: i64, sx: i64, sy: i64) -> (end: (i64, i64))
    requires
        cmd_fits(c, cx, cy),
    ensures
        final(out)@ == old(out)@ + cmd_bytes(c, cx, cy),
        end == cmd_end(c, cx, cy, sx, sy),
{
    let end = match c {
        PathCmd::MoveTo(x, y) => {
            out.push(0);
            put_varint(out, x - cx);
            put_varint(out, y - cy);
            (x, y)
        },
        PathCmd::LineTo(x, y) => {
            out.push(1);
            put_varint(out, x - cx);
            put_varint(out, y - cy);
            (x, y)
        },
        PathCmd::QuadTo(qx, qy, x, y) => {
            out.push(2);
            put_varint(out, qx - cx);
            put_varint(out, qy - cy);
            put_varint(out, x - qx);
            put_varint(out, y - qy);
            (x, y)
        },
        PathCmd::CubicTo(ax, ay, bx, by, x, y) => {
            out.push(3);
            put_varint(out, ax - cx);
            put_varint(out, ay - cy);
            put_varint(out, bx - ax);
            put_varint(out, by - ay);
            put_varint(out, x - bx);
            put_varint(out, y - by);
            (x, y)
        },
        PathCmd::Close => {
            out.push(4);
            (sx, sy)
        },
    };
    proof {
        assert(final(out)@ =~= old(out)@ + cmd_bytes(c, cx, cy));
    }
    end
}

fn put_shape(out: &mut Vec<u8>, sh: Shape)
    ensures
        final(out)@ == old(out)@ + shape_bytes(sh),
{
    put_varuint(out, sh.style as u64);
    put_varuint(out, sh.path as u64);
    out.push(
        match sh.fill_rule {
            FillRule::NonZero => 0,
            FillRule::EvenOdd => 1,
        },
    );
    proof {
        assert(final(out)@ =~= old(out)@ + shape_bytes(sh));
    }
}

/// Encode vector art as a VECT chunk payload.
pub fn encode(art: &VectorImage) -> (out: Vec<u8>)
    requires
        encodable(art@),
    ensures
        out@ == vector_encode_spec(art@),
{
    let mut out: Vec<u8> = Vec::new();
    out.push(art.scale);

    put_varuint(&mut out, art.colors.len() as u64);
    let ghost base = out@;
    let mut i: usize = 0;
    proof {
        assert(art.colors@.skip(0) =~= art.colors@);
    }
    while i < art.colors.len()
        invariant
            i <= art.colors@.len(),
            out@ + color_bytes(art.colors@.skip(i as int)) == base + color_bytes(art.colors@),
        decreases art.colors.len() - i,
    {
        let c = art.colors[i];
        proof {
            lemma_skip_first(art.colors@, i as int);
        }
        out.push(c.r);
        out.push(c.g);
        out.push(c.b);
        out.push(c.a);
        i = i + 1;
        proof {
            assert(out@ + color_bytes(art.colors@.skip(i as int)) =~= base + color_bytes(art.colors@));
        }
    }
    proof {
        assert(art.colors@.skip(i as int) =~= Seq::<Rgba>::empty());
        assert(out@ =~= base + color_bytes(art.colors@));
    }

    put_varuint(&mut out, art.styles.len() as u64);
    let ghost base = out@;
    let mut i: usize = 0;
    proof {
        assert(art.styles@.skip(0) =~= art.styles@);
    }
    while i < art.styles.len()
        invariant
            i <= art.styles@.len(),
            out@ + styles_bytes(art.styles@.skip(i as int)) == base + styles_bytes(art.styles@),
        decreases art.styles.len() - i,
    {
        proof {
            lemma_skip_first(art.styles@, i as int);
        }
        put_style(&mut out, art.styles[i]);
        i = i + 1;
        proof {
            assert(out@ + styles_bytes(art.styles@.skip(i as int)) =~= base + styles_bytes(art.styles@));
        }
    }
    proof {
        assert(art.styles@.skip(i as int) =~= Seq::<Style>::empty());
        assert(out@ =~= base + styles_bytes(art.styles@));
    }

    put_varuint(&mut out, art.paths.len() as u64);
    let ghost base = out@;
    let ghost pviews = art.paths@.map_values(|p: Vec<PathCmd>| p@);
    let mut i: usize = 0;
    proof {
        assert(pviews.skip(0) =~= pviews);
    }
    while i < art.paths.len()
        invariant
            encodable(art@),
            pviews == art.paths@.map_values(|p: Vec<PathCmd>| p@),
            i <= art.paths@.len(),
            out@ + paths_bytes(pviews.skip(i as int)) == base + paths_bytes(pviews),
        decreases art.paths.len() - i,
    {
        proof {
            lemma_skip_first(pviews, i as int);
        }
        let path = &art.paths[i];
        let ghost pbase = out@;
        let ghost cmds = path@;
        put_varuint(&mut out, path.len() as u64);
        let ghost cbase = out@;
        let mut cx: i64 = 0;
        let mut cy: i64 = 0;
        let mut sx: i64 = 0;
        let mut sy: i64 = 0;
        let mut j: usize = 0;
        proof {
            assert(cmds == pviews[i as int]);
            assert(art@.paths[i as int] == cmds);
            assert(cmds.skip(0) =~= cmds);
        }
        while j < path.len()
            invariant
                cmds == path@,
                j <= cmds.len(),
                cmds_fit(cmds.skip(j as int), cx, cy, sx, sy),
                out@ + cmds_bytes(cmds.skip(j as int), cx, cy, sx, sy) == cbase + cmds_bytes(
                    cmds,
                    0,
                    0,
                    0,
                    0,
                ),
            decreases path.len() - j,
        {
            proof {
                lemma_skip_first(cmds, j as int);
            }
            let c = path[j];
            let e = put_cmd(&mut out, c, cx, cy, sx, sy);
            if let PathCmd::MoveTo(mx, my) = c {
                sx = mx;
                sy = my;
            }
            cx = e.0;
            cy = e.1;
            j = j + 1;
            proof {
                assert(out@ + cmds_bytes(cmds.skip(j as int), cx, cy, sx, sy) =~= cbase + cmds_bytes(
                    cmds,
                    0,
                    0,
                    0,
                    0,
                ));
            }
        }
        proof {
            assert(cmds.skip(j as int) =~= Seq::<PathCmd>::empty());
            assert(out@ =~= pbase + path_bytes(cmds));
        }
        i = i + 1;
        proof {
            assert(out@ + paths_bytes(pviews.skip(i as int)) =~= base + paths_bytes(pviews));
        }
    }
    proof {
        assert(pviews.skip(i as int) =~= Seq::<Seq<PathCmd>>::empty());
        assert(out@ =~= base + paths_bytes(pviews));
    }

    put_varuint(&mut out, art.shapes.len() as u64);
    let ghost base = out@;
    let mut i: usize = 0;
    proof {
        assert(art.shapes@.skip(0) =~= art.shapes@);
    }
    while i < art.shapes.len()
        invariant
            i <= art.shapes@.len(),
            out@ + shapes_bytes(art.shapes@.skip(i as int)) == base + shapes_bytes(art.shapes@),
        decreases art.shapes.len() - i,
    {
        proof {
            lemma_skip_first(art.shapes@, i as int);
        }
        put_shape(&mut out, art.shapes[i]);
        i = i + 1;
        proof {
            assert(out@ + shapes_bytes(art.shapes@.skip(i as int)) =~= base + shapes_bytes(art.shapes@));
        }
    }
    proof {
        assert(art.shapes@.skip(i as int) =~= Seq::<Shape>::empty());
        assert(out@ =~= base + shapes_bytes(art.shapes@));
        assert(out@ =~= vector_encode_spec(art@));
    }
    out
}


// ---- wire format, as read ----
//
// A read that the format rejects gives `Err(Some(e))`; `Err(None)` marks an
// input on which adding up the path deltas leaves the i64 range.

/// A color index, checked against the color pool size `cc`.
pub open spec fn parse_color_idx(data: Seq<u8>, cur: int, cc: int) -> Result<(u32, int), Error> {
    match parse_varuint(data, cur) {
        Err(e) => Err(e),
        Ok((v, c)) => if (v as usize) < cc {
            Ok((v as u32, c))
        } else {
            Err(Error::BadVector("color index out of range"))
        },
    }
}

/// Four VarInts: gradient geometry.
pub open spec fn parse_geom(data: Seq<u8>, cur: int) -> Result<((i64, i64, i64, i64), int), Error> {
    match parse_varint(data, cur) {
        Err(e) => Err(e),
        Ok((a, c1)) => match parse_varint(data, c1) {
            Err(e) => Err(e),
            Ok((b, c2)) => match parse_varint(data, c2) {
                Err(e) => Err(e),
                Ok((c, c3)) => match parse_varint(data, c3) {
                    Err(e) => Err(e),
                    Ok((d, c4)) => Ok(((a, b, c, d), c4)),
                },
            },
        },
    }
}

pub open spec fn parse_style(data: Seq<u8>, cur: int, cc: int) -> Result<(Style, int), Error> {
    if cur < 0 || cur >= data.len() {
        Err(Error::Truncated)
    } else {
        let kind = data[cur];
        if kind == 0 {
            match parse_color_idx(data, cur + 1, cc) {
                Err(e) => Err(e),
                Ok((color, c)) => Ok((Style::Flat { color }, c)),
            }
        } else if kind == 1 || kind == 2 {
            match parse_geom(data, cur + 1) {
                Err(e) => Err(e),
                Ok((g, c1)) => match parse_color_idx(data, c1, cc) {
                    Err(e) => Err(e),
                    Ok((c0, c2)) => match parse_color_idx(data, c2, cc) {
                        Err(e) => Err(e),
                        Ok((c1v, c3)) => if kind == 1 {
                            Ok((Style::Linear { x0: g.0, y0: g.1, x1: g.2, y1: g.3, c0, c1: c1v }, c3))
                        } else {
                            Ok((Style::Radial { cx: g.0, cy: g.1, ex: g.2, ey: g.3, c0, c1: c1v }, c3))
                        },
                    },
                },
            }
        } else {
            Err(Error::BadVector("unknown style kind"))
        }
    }
}

/// `n` items read one after the other, prepended with `done`.
pub open spec fn prefixed<T, E>(done: Seq<T>, r: Result<(Seq<T>, int), E>) -> Result<(Seq<T>, int), E> {
    match r {
        Ok((rest, c)) => Ok((done + rest, c)),
        Err(e) => Err(e),
    }
}

pub open spec fn parse_styles(data: Seq<u8>, cur: int, n: nat, cc: int) -> Result<(Seq<Style>, int), Error>
    decreases n,
{
    if n == 0 {
        Ok((Seq::empty(), cur))
    } else {
        match parse_style(data, cur, cc) {
            Err(e) => Err(e),
            Ok((st, c)) => prefixed(seq![st], parse_styles(data, c, (n - 1) as nat, cc)),
        }
    }
}

/// Read a VarInt delta and add it to `base`.
pub open spec fn add_delta(data: Seq<u8>, cur: int, base: i64) -> Result<(i64, int), Option<Error>> {
    match parse_varint(data, cur) {
        Err(e) => Err(Some(e)),
        Ok((d, c)) => if fits_i64(base + d) {
            Ok(((base + d) as i64, c))
        } else {
            Err(None)
        },
    }
}

/// One path instruction at `cur`, with the current point (cx, cy), the
/// subpath start (sx, sy) and whether a move_to has been seen: the
/// instruction, the position after it, and the new current point and flag.
pub open spec fn parse_cmd(
    data: Seq<u8>,
    cur: int,
    cx: i64,
    cy: i64,
    sx: i64,
    sy: i64,
    moved: bool,
) -> Result<
    (PathCmd, int, i64, i64, bool),
    Option<Error>,
> {
    if cur < 0 || cur >= data.len() {
        Err(Some(Error::Truncated))
    } else {
        let op = data[cur];
        if op != 0 && op != 4 && !moved {
            Err(Some(Error::BadVector("draw before move_to")))
        } else if op == 0 || op == 1 {
            match add_delta(data, cur + 1, cx) {
                Err(e) => Err(e),
                Ok((x, c1)) => match add_delta(data, c1, cy) {
                    Err(e) => Err(e),
                    Ok((y, c2)) => if op == 0 {
                        Ok((PathCmd::MoveTo(x, y), c2, x, y, true))
                    } else {
                        Ok((PathCmd::LineTo(x, y), c2, x, y, moved))
                    },
                },
            }
        } else if op == 2 {
            match add_delta(data, cur + 1, cx) {
                Err(e) => Err(e),
                Ok((qx, c1)) => match add_delta(data, c1, cy) {
                    Err(e) => Err(e),
                    Ok((qy, c2)) => match add_delta(data, c2, qx) {
                        Err(e) => Err(e),
                        Ok((x, c3)) => match add_delta(data, c3, qy) {
                            Err(e) => Err(e),
                            Ok((y, c4)) => Ok((PathCmd::QuadTo(qx, qy, x, y), c4, x, y, moved)),
                        },
                    },
                },
            }
        } else if op == 3 {
            match add_delta(data, cur + 1, cx) {
                Err(e) => Err(e),
                Ok((ax, c1)) => match add_delta(data, c1, cy) {
                    Err(e) => Err(e),
                    Ok((ay, c2)) => match add_delta(data, c2, ax) {
                        Err(e) => Err(e),
                        Ok((bx, c3)) => match add_delta(data, c3, ay) {
                            Err(e) => Err(e),
                            Ok((by, c4)) => match add_delta(data, c4, bx) {
                                Err(e) => Err(e),
                                Ok((x, c5)) => match add_delta(data, c5, by) {
                                    Err(e) => Err(e),
                                    Ok((y, c6)) => Ok(
                                        (PathCmd::CubicTo(ax, ay, bx, by, x, y), c6, x, y, moved),
                                    ),
                                },
                            },
                        },
                    },
                },
            }
        } else if op == 4 {
            Ok((PathCmd::Close, cur + 1, sx, sy, moved))
        } else {
            Err(Some(Error::BadVector("unknown path opcode")))
        }
    }
}

pub open spec fn parse_cmds(
    data: Seq<u8>,
    cur: int,
    n: nat,
    cx: i64,
    cy: i64,
    sx: i64,
    sy: i64,
    moved: bool,
) -> Result<(Seq<PathCmd>, int), Option<Error>>
    decreases n,
{
    if n == 0 {
        Ok((Seq::empty(), cur))
    } else {
        match parse_cmd(data, cur, cx, cy, sx, sy, moved) {
            Err(e) => Err(e),
            Ok((c, c2, x, y, h)) => {
                let st = cmd_start(c, sx, sy);
                prefixed(seq![c], parse_cmds(data, c2, (n - 1) as nat, x, y, st.0, st.1, h))
            },
        }
    }
}

pub open spec fn parse_path(data: Seq<u8>, cur: int) -> Result<(Seq<PathCmd>, int), Option<Error>> {
    match parse_varuint(data, cur) {
        Err(e) => Err(Some(e)),
        Ok((n, c)) => parse_cmds(data, c, (n as usize) as nat, 0, 0, 0, 0, false),
    }
}

pub open spec fn parse_paths(data: Seq<u8>, cur: int, n: nat) -> Result<
    (Seq<Seq<PathCmd>>, int),
    Option<Error>,
>
    decreases n,
{
    if n == 0 {
        Ok((Seq::empty(), cur))
    } else {
        match parse_path(data, cur) {
            Err(e) => Err(e),
            Ok((p, c)) => prefixed(seq![p], parse_paths(data, c, (n - 1) as nat)),
        }
    }
}

pub open spec fn parse_shape(data: Seq<u8>, cur: int, ns: int, np: int) -> Result<(Shape, int), Error> {
    match parse_varuint(data, cur) {
        Err(e) => Err(e),
        Ok((sv, c1)) => match parse_varuint(data, c1) {
            Err(e) => Err(e),
            Ok((pv, c2)) => {
                let style = sv as usize;
                let path = pv as usize;
                if style >= ns || path >= np {
                    Err(Error::BadVector("shape index out of range"))
                } else if c2 < 0 || c2 >= data.len() {
                    Err(Error::Truncated)
                } else if data[c2] == 0 {
                    Ok((Shape { style: style as u32, path: path as u32, fill_rule: FillRule::NonZero }, c2 + 1))
                } else if data[c2] == 1 {
                    Ok((Shape { style: style as u32, path: path as u32, fill_rule: FillRule::EvenOdd }, c2 + 1))
                } else {
                    Err(Error::BadVector("unknown fill rule"))
                }
            },
        },
    }
}

pub open spec fn parse_shapes(data: Seq<u8>, cur: int, n: nat, ns: int, np: int) -> Result<
    (Seq<Shape>, int),
    Error,
>
    decreases n,
{
    if n == 0 {
        Ok((Seq::empty(), cur))
    } else {
        match parse_shape(data, cur, ns, np) {
            Err(e) => Err(e),
            Ok((sh, c)) => prefixed(seq![sh], parse_shapes(data, c, (n - 1) as nat, ns, np)),
        }
    }
}

/// The colors of a pool of `cc` entries starting at `cur`.
pub open spec fn colors_at(data: Seq<u8>, cur: int, cc: int) -> Seq<Rgba> {
    Seq::new(
        cc as nat,
        |i: int| Rgba { r: data[cur + 4 * i], g: data[cur + 4 * i + 1], b: data[cur + 4 * i + 2], a: data[cur + 4 * i + 3] },
    )
}

pub open spec fn lift<T>(r: Result<T, Error>) -> Result<T, Option<Error>> {
    match r {
        Ok(v) => Ok(v),
        Err(e) => Err(Some(e)),
    }
}

/// Everything after the color pool: styles, paths, shapes, end of payload.
pub open spec fn parse_after_colors(data: Seq<u8>, cur: int, scale: u8, colors: Seq<Rgba>) -> Result<
    ArtView,
    Option<Error>,
> {
    match parse_varuint(data, cur) {
        Err(e) => Err(Some(e)),
        Ok((sc, c1)) => match parse_styles(data, c1, (sc as usize) as nat, colors.len() as int) {
            Err(e) => Err(Some(e)),
            Ok((styles, c2)) => match parse_varuint(data, c2) {
                Err(e) => Err(Some(e)),
                Ok((pc, c3)) => match parse_paths(data, c3, (pc as usize) as nat) {
                    Err(e) => Err(e),
                    Ok((paths, c4)) => match parse_varuint(data, c4) {
                        Err(e) => Err(Some(e)),
                        Ok((shc, c5)) => match parse_shapes(
                            data,
                            c5,
                            (shc as usize) as nat,
                            styles.len() as int,
                            paths.len() as int,
                        ) {
                            Err(e) => Err(Some(e)),
                            Ok((shapes, c6)) => if c6 != data.len() {
                                Err(Some(Error::BadVector("trailing bytes in vector payload")))
                            } else {
                                Ok(ArtView { scale, colors, styles, paths, shapes })
                            },
                        },
                    },
                },
            },
        },
    }
}

/// What a VECT payload decodes to.
pub open spec fn vector_decode_spec(data: Seq<u8>) -> Result<ArtView, Option<Error>> {
    if data.len() == 0 {
        Err(Some(Error::Truncated))
    } else if data[0] > 15 {
        Err(Some(Error::BadVector("scale above 15")))
    } else {
        match parse_varuint(data, 1) {
            Err(e) => Err(Some(e)),
            Ok((ccv, c)) => {
                let cc = ccv as usize;
                if cc * 4 > usize::MAX {
                    Err(Some(Error::BadVector("color pool exceeds payload")))
                } else if c + cc * 4 > usize::MAX {
                    Err(None)
                } else if c + cc * 4 > data.len() {
                    Err(Some(Error::BadVector("color pool exceeds payload")))
                } else {
                    parse_after_colors(data, c + cc * 4, data[0], colors_at(data, c, cc as int))
                }
            },
        }
    }
}

/// A payload whose decoding keeps every path coordinate in the i64 range.
pub open spec fn decodable(data: Seq<u8>) -> bool {
    vector_decode_spec(data) != Err::<ArtView, Option<Error>>(None)
}


// ---- decode ----

fn read_color_idx(data: &[u8], cur: &mut usize, cc: usize) -> (res: Result<u32, Error>)
    ensures
        match parse_color_idx(data@, *old(cur) as int, cc as int) {
            Ok((v, c)) => res == Ok::<u32, Error>(v) && *final(cur) as int == c,
            Err(e) => res == Err::<u32, Error>(e),
        },
{
    let v = get_varuint(data, cur)?;
    if (v as usize) < cc {
        Ok(v as u32)
    } else {
        Err(Error::BadVector("color index out of range"))
    }
}

fn read_style(data: &[u8], cur: &mut usize, cc: usize) -> (res: Result<Style, Error>)
    ensures
        match parse_style(data@, *old(cur) as int, cc as int) {
            Ok((v, c)) => res == Ok::<Style, Error>(v) && *final(cur) as int == c,
            Err(e) => res == Err::<Style, Error>(e),
        },
{
    if *cur >= data.len() {
        return Err(Error::Truncated);
    }
    let kind = data[*cur];
    *cur = *cur + 1;
    if kind == 0 {
        let color = read_color_idx(data, cur, cc)?;
        Ok(Style::Flat { color })
    } else if kind == 1 || kind == 2 {
        let g0 = get_varint(data, cur)?;
        let g1 = get_varint(data, cur)?;
        let g2 = get_varint(data, cur)?;
        let g3 = get_varint(data, cur)?;
        let c0 = read_color_idx(data, cur, cc)?;
        let c1 = read_color_idx(data, cur, cc)?;
        if kind == 1 {
            Ok(Style::Linear { x0: g0, y0: g1, x1: g2, y1: g3, c0, c1 })
        } else {
            Ok(Style::Radial { cx: g0, cy: g1, ex: g2, ey: g3, c0, c1 })
        }
    } else {
        Err(Error::BadVector("unknown style kind"))
    }
}

/// Read a delta and add it to `base`; `Err(None)` where the sum leaves i64.
fn read_delta(data: &[u8], cur: &mut usize, base: i64) -> (res: Result<i64, Option<Error>>)
    ensures
        match add_delta(data@, *old(cur) as int, base) {
            Ok((v, c)) => res == Ok::<i64, Option<Error>>(v) && *final(cur) as int == c,
            Err(e) => res == Err::<i64, Option<Error>>(e),
        },
{
    let d = match get_varint(data, cur) {
        Ok(d) => d,
        Err(e) => {
            return Err(Some(e));
        },
    };
    match base.checked_add(d) {
        Some(v) => Ok(v),
        None => Err(None),
    }
}

fn read_cmd(data: &[u8], cur: &mut usize, cx: i64, cy: i64, sx: i64, sy: i64, moved: bool) -> (res:
    Result<(PathCmd, i64, i64, bool), Option<Error>>)
    ensures
        match parse_cmd(data@, *old(cur) as int, cx, cy, sx, sy, moved) {
            Ok((c, p, x, y, m)) => res == Ok::<(PathCmd, i64, i64, bool), Option<Error>>((c, x, y, m))
                && *final(cur) as int == p,
            Err(e) => res == Err::<(PathCmd, i64, i64, bool), Option<Error>>(e),
        },
{
    if *cur >= data.len() {
        return Err(Some(Error::Truncated));
    }
    let op = data[*cur];
    *cur = *cur + 1;
    if op != 0 && op != 4 && !moved {
        return Err(Some(Error::BadVector("draw before move_to")));
    }
    if op == 0 || op == 1 {
        let x = read_delta(data, cur, cx)?;
        let y = read_delta(data, cur, cy)?;
        if op == 0 {
            Ok((PathCmd::MoveTo(x, y), x, y, true))
        } else {
            Ok((PathCmd::LineTo(x, y), x, y, moved))
        }
    } else if op == 2 {
        let qx = read_delta(data, cur, cx)?;
        let qy = read_delta(data, cur, cy)?;
        let x = read_delta(data, cur, qx)?;
        let y = read_delta(data, cur, qy)?;
        Ok((PathCmd::QuadTo(qx, qy, x, y), x, y, moved))
    } else if op == 3 {
        let ax = read_delta(data, cur, cx)?;
        let ay = read_delta(data, cur, cy)?;
        let bx = read_delta(data, cur, ax)?;
        let by = read_delta(data, cur, ay)?;
        let x = read_delta(data, cur, bx)?;
        let y = read_delta(data, cur, by)?;
        Ok((PathCmd::CubicTo(ax, ay, bx, by, x, y), x, y, moved))
    } else if op == 4 {
        Ok((PathCmd::Close, sx, sy, moved))
    } else {
        Err(Some(Error::BadVector("unknown path opcode")))
    }
}

fn read_path(data: &[u8], cur: &mut usize) -> (res: Result<Vec<PathCmd>, Option<Error>>)
    ensures
        match parse_path(data@, *old(cur) as int) {
            Ok((p, c)) => res matches Ok(v) && v@ == p && *final(cur) as int == c,
            Err(e) => res == Err::<Vec<PathCmd>, Option<Error>>(e),
        },
{
    let instr_count = match get_varuint(data, cur) {
        Ok(v) => v as usize,
        Err(e) => {
            return Err(Some(e));
        },
    };
    let ghost c0 = *cur as int;
    let mut cmds: Vec<PathCmd> = Vec::new();
    let mut cx: i64 = 0;
    let mut cy: i64 = 0;
    let mut sx: i64 = 0;
    let mut sy: i64 = 0;
    let mut moved = false;
    let mut i: usize = 0;
    proof {
        assert(parse_cmds(data@, c0, instr_count as nat, 0, 0, 0, 0, false) =~= prefixed(
            cmds@,
            parse_cmds(data@, c0, instr_count as nat, 0, 0, 0, 0, false),
        )) by {
            match parse_cmds(data@, c0, instr_count as nat, 0, 0, 0, 0, false) {
                Ok((r, c)) => {
                    assert(cmds@ + r =~= r);
                },
                Err(e) => {},
            }
        }
    }
    while i < instr_count
        invariant
            i <= instr_count,
            parse_path(data@, *old(cur) as int) == parse_cmds(data@, c0, instr_count as nat, 0, 0, 0, 0, false),
            parse_cmds(data@, c0, instr_count as nat, 0, 0, 0, 0, false) == prefixed(
                cmds@,
                parse_cmds(data@, *cur as int, (instr_count - i) as nat, cx, cy, sx, sy, moved),
            ),
        decreases instr_count - i,
    {
        let ghost before = cmds@;
        let ghost rest = parse_cmds(data@, *cur as int, (instr_count - i) as nat, cx, cy, sx, sy, moved);
        let (c, x, y, m) = read_cmd(data, cur, cx, cy, sx, sy, moved)?;
        if let PathCmd::MoveTo(mx, my) = c {
            sx = mx;
            sy = my;
        }
        cmds.push(c);
        cx = x;
        cy = y;
        moved = m;
        i = i + 1;
        proof {
            match parse_cmds(data@, *cur as int, (instr_count - i) as nat, cx, cy, sx, sy, moved) {
                Ok((r, cc)) => {
                    assert(before + (seq![c] + r) =~= cmds@ + r);
                },
                Err(e) => {},
            }
        }
    }
    proof {
        assert(cmds@ + Seq::<PathCmd>::empty() =~= cmds@);
    }
    Ok(cmds)
}

fn read_shape(data: &[u8], cur: &mut usize, ns: usize, np: usize) -> (res: Result<Shape, Error>)
    ensures
        match parse_shape(data@, *old(cur) as int, ns as int, np as int) {
            Ok((v, c)) => res == Ok::<Shape, Error>(v) && *final(cur) as int == c,
            Err(e) => res == Err::<Shape, Error>(e),
        },
{
    let style = get_varuint(data, cur)? as usize;
    let path = get_varuint(data, cur)? as usize;
    if style >= ns || path >= np {
        return Err(Error::BadVector("shape index out of range"));
    }
    if *cur >= data.len() {
        return Err(Error::Truncated);
    }
    let rule = if data[*cur] == 0 {
        FillRule::NonZero
    } else if data[*cur] == 1 {
        FillRule::EvenOdd
    } else {
        return Err(Error::BadVector("unknown fill rule"));
    };
    *cur = *cur + 1;
    Ok(Shape { style: style as u32, path: path as u32, fill_rule: rule })
}

/// Decode a VECT chunk payload; `Err(None)` where a path coordinate would
/// leave i64.
pub fn decode_checked(data: &[u8]) -> (res: Result<VectorImage, Option<Error>>)
    ensures
        match res {
            Ok(art) => vector_decode_spec(data@) == Ok::<ArtView, Option<Error>>(art@),
            Err(e) => vector_decode_spec(data@) == Err::<ArtView, Option<Error>>(e),
        },
{
    if data.len() == 0 {
        return Err(Some(Error::Truncated));
    }
    let scale = data[0];
    let mut cur: usize = 1;
    if scale > 15 {
        return Err(Some(Error::BadVector("scale above 15")));
    }

    let color_count = match get_varuint(data, &mut cur) {
        Ok(v) => v as usize,
        Err(e) => {
            return Err(Some(e));
        },
    };
    match color_count.checked_mul(4) {
        None => {
            return Err(Some(Error::BadVector("color pool exceeds payload")));
        },
        Some(n) => match cur.checked_add(n) {
            None => {
                return Err(None);
            },
            Some(end) => {
                if end > data.len() {
                    return Err(Some(Error::BadVector("color pool exceeds payload")));
                }
            },
        },
    }
    let ghost cstart = cur as int;
    let mut colors: Vec<Rgba> = Vec::new();
    let mut i: usize = 0;
    while i < color_count
        invariant
            cstart + 4 * color_count <= data@.len(),
            i <= color_count,
            cur == cstart + 4 * i,
            colors@ == colors_at(data@, cstart, color_count as int).take(i as int),
        decreases color_count - i,
    {
        colors.push(Rgba::new(data[cur], data[cur + 1], data[cur + 2], data[cur + 3]));
        cur = cur + 4;
        i = i + 1;
        proof {
            assert(colors@ =~= colors_at(data@, cstart, color_count as int).take(i as int));
        }
    }
    proof {
        assert(colors@ =~= colors_at(data@, cstart, color_count as int));
    }
    let ghost ac = cur as int;
    assert(vector_decode_spec(data@) == parse_after_colors(data@, ac, scale, colors@));
    let cc = color_count;

    // styles
    let scv = match get_varuint(data, &mut cur) {
        Ok(v) => v,
        Err(e) => {
            return Err(Some(e));
        },
    };
    let style_count = scv as usize;
    let ghost s0 = cur as int;
    let mut styles: Vec<Style> = Vec::new();
    let mut i: usize = 0;
    proof {
        match parse_styles(data@, s0, style_count as nat, cc as int) {
            Ok((r, c)) => {
                assert(styles@ + r =~= r);
            },
            Err(e) => {},
        }
    }
    while i < style_count
        invariant
            i <= style_count,
            colors@.len() == cc,
            vector_decode_spec(data@) == parse_after_colors(data@, ac, scale, colors@),
            parse_varuint(data@, ac) == Ok::<(u64, int), Error>((scv, s0)),
            style_count == scv as usize,
            parse_styles(data@, s0, style_count as nat, cc as int) == prefixed(
                styles@,
                parse_styles(data@, cur as int, (style_count - i) as nat, cc as int),
            ),
        decreases style_count - i,
    {
        let ghost before = styles@;
        let st = match read_style(data, &mut cur, cc) {
            Ok(st) => st,
            Err(e) => {
                return Err(Some(e));
            },
        };
        styles.push(st);
        i = i + 1;
        proof {
            match parse_styles(data@, cur as int, (style_count - i) as nat, cc as int) {
                Ok((r, c)) => {
                    assert(before + (seq![st] + r) =~= styles@ + r);
                },
                Err(e) => {},
            }
        }
    }
    proof {
        assert(styles@ + Seq::<Style>::empty() =~= styles@);
    }
    let ghost ps = cur as int;

    // paths
    let pcv = match get_varuint(data, &mut cur) {
        Ok(v) => v,
        Err(e) => {
            return Err(Some(e));
        },
    };
    let path_count = pcv as usize;
    let ghost p0 = cur as int;
    let mut paths: Vec<Vec<PathCmd>> = Vec::new();
    let ghost pviews: Seq<Seq<PathCmd>> = Seq::empty();
    let mut i: usize = 0;
    proof {
        match parse_paths(data@, p0, path_count as nat) {
            Ok((r, c)) => {
                assert(pviews + r =~= r);
            },
            Err(e) => {},
        }
    }
    while i < path_count
        invariant
            i <= path_count,
            colors@.len() == cc,
            vector_decode_spec(data@) == parse_after_colors(data@, ac, scale, colors@),
            parse_varuint(data@, ac) == Ok::<(u64, int), Error>((scv, s0)),
            style_count == scv as usize,
            parse_styles(data@, s0, style_count as nat, cc as int) == Ok::<(Seq<Style>, int), Error>(
                (styles@, ps),
            ),
            parse_varuint(data@, ps) == Ok::<(u64, int), Error>((pcv, p0)),
            path_count == pcv as usize,
            paths@.len() == pviews.len(),
            forall|j: int| 0 <= j < pviews.len() ==> (#[trigger] paths@[j])@ == pviews[j],
            parse_paths(data@, p0, path_count as nat) == prefixed(
                pviews,
                parse_paths(data@, cur as int, (path_count - i) as nat),
            ),
        decreases path_count - i,
    {
        let ghost before = pviews;
        let p = match read_path(data, &mut cur) {
            Ok(p) => p,
            Err(e) => {
                return Err(e);
            },
        };
        proof {
            pviews = pviews.push(p@);
        }
        paths.push(p);
        i = i + 1;
        proof {
            match parse_paths(data@, cur as int, (path_count - i) as nat) {
                Ok((r, c)) => {
                    assert(before + (seq![p@] + r) =~= pviews + r);
                },
                Err(e) => {},
            }
        }
    }
    proof {
        assert(pviews + Seq::<Seq<PathCmd>>::empty() =~= pviews);
        assert(paths@.map_values(|p: Vec<PathCmd>| p@) =~= pviews);
    }
    let ghost hs = cur as int;

    // shapes
    let hcv = match get_varuint(data, &mut cur) {
        Ok(v) => v,
        Err(e) => {
            return Err(Some(e));
        },
    };
    let shape_count = hcv as usize;
    let ghost h0 = cur as int;
    let ns = styles.len();
    let np = paths.len();
    let mut shapes: Vec<Shape> = Vec::new();
    let mut i: usize = 0;
    proof {
        match parse_shapes(data@, h0, shape_count as nat, ns as int, np as int) {
            Ok((r, c)) => {
                assert(shapes@ + r =~= r);
            },
            Err(e) => {},
        }
    }
    while i < shape_count
        invariant
            i <= shape_count,
            colors@.len() == cc,
            ns == styles@.len(),
            np == paths@.len(),
            paths@.len() == pviews.len(),
            vector_decode_spec(data@) == parse_after_colors(data@, ac, scale, colors@),
            parse_varuint(data@, ac) == Ok::<(u64, int), Error>((scv, s0)),
            style_count == scv as usize,
            parse_styles(data@, s0, style_count as nat, cc as int) == Ok::<(Seq<Style>, int), Error>(
                (styles@, ps),
            ),
            parse_varuint(data@, ps) == Ok::<(u64, int), Error>((pcv, p0)),
            path_count == pcv as usize,
            parse_paths(data@, p0, path_count as nat) == Ok::<(Seq<Seq<PathCmd>>, int), Option<Error>>(
                (pviews, hs),
            ),
            parse_varuint(data@, hs) == Ok::<(u64, int), Error>((hcv, h0)),
            shape_count == hcv as usize,
            parse_shapes(data@, h0, shape_count as nat, ns as int, np as int) == prefixed(
                shapes@,
                parse_shapes(data@, cur as int, (shape_count - i) as nat, ns as int, np as int),
            ),
        decreases shape_count - i,
    {
        let ghost before = shapes@;
        let sh = match read_shape(data, &mut cur, ns, np) {
            Ok(sh) => sh,
            Err(e) => {
                return Err(Some(e));
            },
        };
        shapes.push(sh);
        i = i + 1;
        proof {
            match parse_shapes(data@, cur as int, (shape_count - i) as nat, ns as int, np as int) {
                Ok((r, c)) => {
                    assert(before + (seq![sh] + r) =~= shapes@ + r);
                },
                Err(e) => {},
            }
        }
    }
    proof {
        assert(shapes@ + Seq::<Shape>::empty() =~= shapes@);
    }

    if cur != data.len() {
        return Err(Some(Error::BadVector("trailing bytes in vector payload")));
    }
    let art = VectorImage { scale, colors, styles, paths, shapes };
    proof {
        assert(art@ =~= ArtView { scale, colors: art.colors@, styles: art.styles@, paths: pviews, shapes: art.shapes@ });
    }
    Ok(art)
}


/// Decode a VECT chunk payload.
pub fn decode(data: &[u8]) -> (res: Result<VectorImage, Error>)
    requires
        decodable(data@),
    ensures
        match res {
            Ok(art) => vector_decode_spec(data@) == Ok::<ArtView, Option<Error>>(art@),
            Err(e) => vector_decode_spec(data@) == Err::<ArtView, Option<Error>>(Some(e)),
        },
{
    match decode_checked(data) {
        Ok(art) => Ok(art),
        Err(Some(e)) => Err(e),
        Err(None) => {
            proof {
                assert(false);
            }
            Err(Error::Truncated)
        },
    }
}


// ---- the wire round trip ----

/// `data` holds `bytes` at `cur`.
pub open spec fn holds_at(data: Seq<u8>, cur: int, bytes: Seq<u8>) -> bool {
    0 <= cur && cur + bytes.len() <= data.len() && data.subrange(cur, cur + bytes.len()) == bytes
}

proof fn lemma_holds_split(data: Seq<u8>, cur: int, a: Seq<u8>, b: Seq<u8>)
    requires
        holds_at(data, cur, a + b),
    ensures
        holds_at(data, cur, a),
        holds_at(data, cur + a.len(), b),
{
    assert(data.subrange(cur, cur + a.len()) =~= data.subrange(cur, cur + (a + b).len()).subrange(
        0,
        a.len() as int,
    ));
    assert((a + b).subrange(0, a.len() as int) =~= a);
    assert(data.subrange(cur + a.len(), cur + a.len() + b.len()) =~= data.subrange(
        cur,
        cur + (a + b).len(),
    ).subrange(a.len() as int, (a + b).len() as int));
    assert((a + b).subrange(a.len() as int, (a + b).len() as int) =~= b);
}

proof fn lemma_holds_byte(data: Seq<u8>, cur: int, b: u8, rest: Seq<u8>)
    requires
        holds_at(data, cur, seq![b] + rest),
    ensures
        cur < data.len(),
        data[cur] == b,
        holds_at(data, cur + 1, rest),
{
    lemma_holds_split(data, cur, seq![b], rest);
    assert(data.subrange(cur, cur + 1)[0] == data[cur]);
}

#[verifier::spinoff_prover]
proof fn lemma_varuint_at(data: Seq<u8>, cur: int, v: u64, rest: Seq<u8>)
    requires
        holds_at(data, cur, varuint_bytes(v) + rest),
    ensures
        parse_varuint(data, cur) == Ok::<(u64, int), Error>((v, cur + varuint_bytes(v).len())),
        holds_at(data, cur + varuint_bytes(v).len(), rest),
{
    lemma_holds_split(data, cur, varuint_bytes(v), rest);
    lemma_varuint_roundtrip(data, cur, v);
}

#[verifier::spinoff_prover]
proof fn lemma_varint_at(data: Seq<u8>, cur: int, v: i64, rest: Seq<u8>)
    requires
        holds_at(data, cur, varint_bytes(v) + rest),
    ensures
        parse_varint(data, cur) == Ok::<(i64, int), Error>((v, cur + varint_bytes(v).len())),
        holds_at(data, cur + varint_bytes(v).len(), rest),
{
    lemma_holds_split(data, cur, varint_bytes(v), rest);
    lemma_varint_roundtrip(data, cur, v);
}

#[verifier::spinoff_prover]
proof fn lemma_colors_at(data: Seq<u8>, cur: int, colors: Seq<Rgba>)
    requires
        holds_at(data, cur, color_bytes(colors)),
    ensures
        color_bytes(colors).len() == 4 * colors.len(),
        colors_at(data, cur, colors.len() as int) == colors,
    decreases colors.len(),
{
    if colors.len() > 0 {
        let c = colors[0];
        let head = seq![c.r, c.g, c.b, c.a];
        lemma_holds_split(data, cur, head, color_bytes(colors.drop_first()));
        lemma_colors_at(data, cur + 4, colors.drop_first());
        assert(data.subrange(cur, cur + 4)[0] == data[cur]);
        assert(data.subrange(cur, cur + 4)[1] == data[cur + 1]);
        assert(data.subrange(cur, cur + 4)[2] == data[cur + 2]);
        assert(data.subrange(cur, cur + 4)[3] == data[cur + 3]);
        let a = colors_at(data, cur, colors.len() as int);
        let b = colors_at(data, cur + 4, colors.len() - 1);
        assert forall|i: int| 0 <= i < colors.len() implies a[i] == colors[i] by {
            if i > 0 {
                assert(a[i] == b[i - 1]);
            }
        }
        assert(a =~= colors);
    } else {
        assert(colors_at(data, cur, 0) =~= colors);
    }
}

/// A style whose color indices lie inside a pool of `cc` colors.
pub open spec fn style_ok(s: Style, cc: int) -> bool {
    match s {
        Style::Flat { color } => color < cc,
        Style::Linear { c0, c1, .. } => c0 < cc && c1 < cc,
        Style::Radial { c0, c1, .. } => c0 < cc && c1 < cc,
    }
}

#[verifier::spinoff_prover]
proof fn lemma_color_idx_at(data: Seq<u8>, cur: int, v: u32, cc: int, rest: Seq<u8>)
    requires
        v < cc,
        cc <= usize::MAX,
        holds_at(data, cur, varuint_bytes(v as u64) + rest),
    ensures
        parse_color_idx(data, cur, cc) == Ok::<(u32, int), Error>((v, cur + varuint_bytes(v as u64).len())),
        holds_at(data, cur + varuint_bytes(v as u64).len(), rest),
{
    lemma_varuint_at(data, cur, v as u64, rest);
}

#[verifier::spinoff_prover]
proof fn lemma_geom_at(data: Seq<u8>, cur: int, a: i64, b: i64, c: i64, d: i64, rest: Seq<u8>)
    requires
        holds_at(data, cur, varint_bytes(a) + (varint_bytes(b) + (varint_bytes(c) + (varint_bytes(d) + rest)))),
    ensures
        parse_geom(data, cur) == Ok::<((i64, i64, i64, i64), int), Error>(
            ((a, b, c, d), cur + varint_bytes(a).len() + varint_bytes(b).len() + varint_bytes(c).len()
                + varint_bytes(d).len()),
        ),
        holds_at(
            data,
            cur + varint_bytes(a).len() + varint_bytes(b).len() + varint_bytes(c).len() + varint_bytes(d).len(),
            rest,
        ),
{
    let b1 = varint_bytes(a);
    let b2 = varint_bytes(b);
    let b3 = varint_bytes(c);
    lemma_varint_at(data, cur, a, varint_bytes(b) + (varint_bytes(c) + (varint_bytes(d) + rest)));
    lemma_varint_at(data, cur + b1.len(), b, varint_bytes(c) + (varint_bytes(d) + rest));
    lemma_varint_at(data, cur + b1.len() + b2.len(), c, varint_bytes(d) + rest);
    lemma_varint_at(data, cur + b1.len() + b2.len() + b3.len(), d, rest);
}

#[verifier::spinoff_prover]
#[verifier::rlimit(40)]
proof fn lemma_gradient_at(
    data: Seq<u8>,
    cur: int,
    kind: u8,
    g: (i64, i64, i64, i64),
    c0: u32,
    c1: u32,
    cc: int,
    rest: Seq<u8>,
)
    requires
        kind == 1 || kind == 2,
        c0 < cc,
        c1 < cc,
        cc <= usize::MAX,
        holds_at(
            data,
            cur,
            seq![kind] + varint_bytes(g.0) + varint_bytes(g.1) + varint_bytes(g.2) + varint_bytes(g.3)
                + varuint_bytes(c0 as u64) + varuint_bytes(c1 as u64) + rest,
        ),
    ensures
        ({
            let n = 1 + varint_bytes(g.0).len() + varint_bytes(g.1).len() + varint_bytes(g.2).len()
                + varint_bytes(g.3).len() + varuint_bytes(c0 as u64).len() + varuint_bytes(c1 as u64).len();
            &&& parse_style(data, cur, cc) == Ok::<(Style, int), Error>(
                (
                    if kind == 1 {
                        Style::Linear { x0: g.0, y0: g.1, x1: g.2, y1: g.3, c0, c1 }
                    } else {
                        Style::Radial { cx: g.0, cy: g.1, ex: g.2, ey: g.3, c0, c1 }
                    },
                    cur + n,
                ),
            )
            &&& holds_at(data, cur + n, rest)
        }),
{
    let b1 = varint_bytes(g.0);
    let b2 = varint_bytes(g.1);
    let b3 = varint_bytes(g.2);
    let b4 = varint_bytes(g.3);
    let b5 = varuint_bytes(c0 as u64);
    let b6 = varuint_bytes(c1 as u64);
    assert(seq![kind] + b1 + b2 + b3 + b4 + b5 + b6 + rest =~= seq![kind] + ((b1 + (b2 + (b3 + (b4
        + (b5 + (b6 + rest))))))));
    lemma_holds_byte(data, cur, kind, b1 + (b2 + (b3 + (b4 + (b5 + (b6 + rest))))));
    lemma_geom_at(data, cur + 1, g.0, g.1, g.2, g.3, b5 + (b6 + rest));
    let c1p = cur + 1 + b1.len() + b2.len() + b3.len() + b4.len();
    lemma_color_idx_at(data, c1p, c0, cc, b6 + rest);
    lemma_color_idx_at(data, c1p + b5.len(), c1, cc, rest);
}

#[verifier::spinoff_prover]
proof fn lemma_style_at(data: Seq<u8>, cur: int, s: Style, cc: int, rest: Seq<u8>)
    requires
        style_ok(s, cc),
        cc <= usize::MAX,
        holds_at(data, cur, style_bytes(s) + rest),
    ensures
        parse_style(data, cur, cc) == Ok::<(Style, int), Error>((s, cur + style_bytes(s).len())),
        holds_at(data, cur + style_bytes(s).len(), rest),
{
    match s {
        Style::Flat { color } => {
            let v = varuint_bytes(color as u64);
            assert(style_bytes(s) + rest =~= seq![0u8] + (v + rest));
            lemma_holds_byte(data, cur, 0u8, v + rest);
            lemma_color_idx_at(data, cur + 1, color, cc, rest);
        },
        Style::Linear { x0, y0, x1, y1, c0, c1 } => {
            lemma_gradient_at(data, cur, 1u8, (x0, y0, x1, y1), c0, c1, cc, rest);
        },
        Style::Radial { cx, cy, ex, ey, c0, c1 } => {
            lemma_gradient_at(data, cur, 2u8, (cx, cy, ex, ey), c0, c1, cc, rest);
        },
    }
}

#[verifier::spinoff_prover]
proof fn lemma_styles_at(data: Seq<u8>, cur: int, ss: Seq<Style>, cc: int, rest: Seq<u8>)
    requires
        forall|i: int| 0 <= i < ss.len() ==> style_ok(#[trigger] ss[i], cc),
        cc <= usize::MAX,
        holds_at(data, cur, styles_bytes(ss) + rest),
    ensures
        parse_styles(data, cur, ss.len(), cc) == Ok::<(Seq<Style>, int), Error>(
            (ss, cur + styles_bytes(ss).len()),
        ),
        holds_at(data, cur + styles_bytes(ss).len(), rest),
    decreases ss.len(),
{
    if ss.len() == 0 {
        assert(styles_bytes(ss) + rest =~= rest);
        assert(ss =~= Seq::<Style>::empty());
    } else {
        let tail = ss.drop_first();
        assert(style_ok(ss[0], cc));
        assert(styles_bytes(ss) + rest =~= style_bytes(ss[0]) + (styles_bytes(tail) + rest));
        lemma_style_at(data, cur, ss[0], cc, styles_bytes(tail) + rest);
        assert forall|i: int| 0 <= i < tail.len() implies style_ok(#[trigger] tail[i], cc) by {
            assert(tail[i] == ss[i + 1]);
        }
        lemma_styles_at(data, cur + style_bytes(ss[0]).len(), tail, cc, rest);
        assert(seq![ss[0]] + tail =~= ss);
        assert((ss.len() - 1) as nat == tail.len());
        assert(styles_bytes(ss).len() == style_bytes(ss[0]).len() + styles_bytes(tail).len());
    }
}

/// A draw instruction: line, quadratic or cubic.
pub open spec fn is_draw(c: PathCmd) -> bool {
    c is LineTo || c is QuadTo || c is CubicTo
}

/// No draw instruction before the first move_to.
pub open spec fn cmds_ok(cmds: Seq<PathCmd>, moved: bool) -> bool
    decreases cmds.len(),
{
    if cmds.len() == 0 {
        true
    } else {
        (is_draw(cmds[0]) ==> moved) && cmds_ok(cmds.drop_first(), moved || cmds[0] is MoveTo)
    }
}

#[verifier::spinoff_prover]
proof fn lemma_delta_at(data: Seq<u8>, cur: int, base: i64, target: i64, rest: Seq<u8>)
    requires
        fits_i64(target - base),
        holds_at(data, cur, varint_bytes(delta(target, base)) + rest),
    ensures
        add_delta(data, cur, base) == Ok::<(i64, int), Option<Error>>(
            (target, cur + varint_bytes(delta(target, base)).len()),
        ),
        holds_at(data, cur + varint_bytes(delta(target, base)).len(), rest),
{
    lemma_varint_at(data, cur, delta(target, base), rest);
}

#[verifier::spinoff_prover]
proof fn lemma_cmd_at(
    data: Seq<u8>,
    cur: int,
    c: PathCmd,
    cx: i64,
    cy: i64,
    sx: i64,
    sy: i64,
    moved: bool,
    rest: Seq<u8>,
)
    requires
        cmd_fits(c, cx, cy),
        is_draw(c) ==> moved,
        holds_at(data, cur, cmd_bytes(c, cx, cy) + rest),
    ensures
        parse_cmd(data, cur, cx, cy, sx, sy, moved) == Ok::<(PathCmd, int, i64, i64, bool), Option<Error>>(
            (
                c,
                cur + cmd_bytes(c, cx, cy).len(),
                cmd_end(c, cx, cy, sx, sy).0,
                cmd_end(c, cx, cy, sx, sy).1,
                moved || c is MoveTo,
            ),
        ),
        holds_at(data, cur + cmd_bytes(c, cx, cy).len(), rest),
{
    match c {
        PathCmd::MoveTo(x, y) => {
            let b1 = varint_bytes(delta(x, cx));
            let b2 = varint_bytes(delta(y, cy));
            assert(cmd_bytes(c, cx, cy) + rest =~= seq![0u8] + (b1 + (b2 + rest)));
            lemma_holds_byte(data, cur, 0u8, b1 + (b2 + rest));
            lemma_delta_at(data, cur + 1, cx, x, b2 + rest);
            lemma_delta_at(data, cur + 1 + b1.len(), cy, y, rest);
        },
        PathCmd::LineTo(x, y) => {
            let b1 = varint_bytes(delta(x, cx));
            let b2 = varint_bytes(delta(y, cy));
            assert(cmd_bytes(c, cx, cy) + rest =~= seq![1u8] + (b1 + (b2 + rest)));
            lemma_holds_byte(data, cur, 1u8, b1 + (b2 + rest));
            lemma_delta_at(data, cur + 1, cx, x, b2 + rest);
            lemma_delta_at(data, cur + 1 + b1.len(), cy, y, rest);
        },
        PathCmd::QuadTo(qx, qy, x, y) => {
            let b1 = varint_bytes(delta(qx, cx));
            let b2 = varint_bytes(delta(qy, cy));
            let b3 = varint_bytes(delta(x, qx));
            let b4 = varint_bytes(delta(y, qy));
            assert(cmd_bytes(c, cx, cy) + rest =~= seq![2u8] + (b1 + (b2 + (b3 + (b4 + rest)))));
            lemma_holds_byte(data, cur, 2u8, b1 + (b2 + (b3 + (b4 + rest))));
            lemma_delta_at(data, cur + 1, cx, qx, b2 + (b3 + (b4 + rest)));
            lemma_delta_at(data, cur + 1 + b1.len(), cy, qy, b3 + (b4 + rest));
            lemma_delta_at(data, cur + 1 + b1.len() + b2.len(), qx, x, b4 + rest);
            lemma_delta_at(data, cur + 1 + b1.len() + b2.len() + b3.len(), qy, y, rest);
        },
        PathCmd::CubicTo(ax, ay, bx, by, x, y) => {
            let b1 = varint_bytes(delta(ax, cx));
            let b2 = varint_bytes(delta(ay, cy));
            let b3 = varint_bytes(delta(bx, ax));
            let b4 = varint_bytes(delta(by, ay));
            let b5 = varint_bytes(delta(x, bx));
            let b6 = varint_bytes(delta(y, by));
            assert(cmd_bytes(c, cx, cy) + rest =~= seq![3u8] + (b1 + (b2 + (b3 + (b4 + (b5 + (b6
                + rest)))))));
            lemma_holds_byte(data, cur, 3u8, b1 + (b2 + (b3 + (b4 + (b5 + (b6 + rest))))));
            lemma_delta_at(data, cur + 1, cx, ax, b2 + (b3 + (b4 + (b5 + (b6 + rest)))));
            lemma_delta_at(data, cur + 1 + b1.len(), cy, ay, b3 + (b4 + (b5 + (b6 + rest))));
            lemma_delta_at(data, cur + 1 + b1.len() + b2.len(), ax, bx, b4 + (b5 + (b6 + rest)));
            lemma_delta_at(data, cur + 1 + b1.len() + b2.len() + b3.len(), ay, by, b5 + (b6 + rest));
            lemma_delta_at(data, cur + 1 + b1.len() + b2.len() + b3.len() + b4.len(), bx, x, b6 + rest);
            lemma_delta_at(
                data,
                cur + 1 + b1.len() + b2.len() + b3.len() + b4.len() + b5.len(),
                by,
                y,
                rest,
            );
        },
        PathCmd::Close => {
            assert(cmd_bytes(c, cx, cy) + rest =~= seq![4u8] + rest);
            lemma_holds_byte(data, cur, 4u8, rest);
        },
    }
}

#[verifier::spinoff_prover]
proof fn lemma_cmds_at(
    data: Seq<u8>,
    cur: int,
    cmds: Seq<PathCmd>,
    cx: i64,
    cy: i64,
    sx: i64,
    sy: i64,
    moved: bool,
    rest: Seq<u8>,
)
    requires
        cmds_fit(cmds, cx, cy, sx, sy),
        cmds_ok(cmds, moved),
        holds_at(data, cur, cmds_bytes(cmds, cx, cy, sx, sy) + rest),
    ensures
        parse_cmds(data, cur, cmds.len(), cx, cy, sx, sy, moved) == Ok::<
            (Seq<PathCmd>, int),
            Option<Error>,
        >((cmds, cur + cmds_bytes(cmds, cx, cy, sx, sy).len())),
        holds_at(data, cur + cmds_bytes(cmds, cx, cy, sx, sy).len(), rest),
    decreases cmds.len(),
{
    if cmds.len() == 0 {
        assert(cmds_bytes(cmds, cx, cy, sx, sy) + rest =~= rest);
        assert(cmds =~= Seq::<PathCmd>::empty());
    } else {
        let c = cmds[0];
        let e = cmd_end(c, cx, cy, sx, sy);
        let st = cmd_start(c, sx, sy);
        let tail = cmds.drop_first();
        let tb = cmds_bytes(tail, e.0, e.1, st.0, st.1);
        assert(cmds_bytes(cmds, cx, cy, sx, sy) + rest =~= cmd_bytes(c, cx, cy) + (tb + rest));
        lemma_cmd_at(data, cur, c, cx, cy, sx, sy, moved, tb + rest);
        lemma_cmds_at(
            data,
            cur + cmd_bytes(c, cx, cy).len(),
            tail,
            e.0,
            e.1,
            st.0,
            st.1,
            moved || c is MoveTo,
            rest,
        );
        assert(seq![c] + tail =~= cmds);
        assert((cmds.len() - 1) as nat == tail.len());
        assert(cmds_bytes(cmds, cx, cy, sx, sy).len() == cmd_bytes(c, cx, cy).len() + tb.len());
    }
}

#[verifier::spinoff_prover]
proof fn lemma_paths_at(data: Seq<u8>, cur: int, ps: Seq<Seq<PathCmd>>, rest: Seq<u8>)
    requires
        forall|i: int| 0 <= i < ps.len() ==> cmds_fit(#[trigger] ps[i], 0, 0, 0, 0) && cmds_ok(ps[i], false)
            && ps[i].len() <= usize::MAX,
        holds_at(data, cur, paths_bytes(ps) + rest),
    ensures
        parse_paths(data, cur, ps.len()) == Ok::<(Seq<Seq<PathCmd>>, int), Option<Error>>(
            (ps, cur + paths_bytes(ps).len()),
        ),
        holds_at(data, cur + paths_bytes(ps).len(), rest),
    decreases ps.len(),
{
    if ps.len() == 0 {
        assert(paths_bytes(ps) + rest =~= rest);
        assert(ps =~= Seq::<Seq<PathCmd>>::empty());
    } else {
        let p = ps[0];
        let tail = ps.drop_first();
        let n = varuint_bytes(p.len() as u64);
        assert(paths_bytes(ps) + rest =~= n + (cmds_bytes(p, 0, 0, 0, 0) + (paths_bytes(tail) + rest)));
        assert(cmds_fit(ps[0], 0, 0, 0, 0));
        lemma_varuint_at(data, cur, p.len() as u64, cmds_bytes(p, 0, 0, 0, 0) + (paths_bytes(tail) + rest));
        assert(((p.len() as u64) as usize) as nat == p.len());
        lemma_cmds_at(data, cur + n.len(), p, 0, 0, 0, 0, false, paths_bytes(tail) + rest);
        assert forall|i: int| 0 <= i < tail.len() implies cmds_fit(#[trigger] tail[i], 0, 0, 0, 0)
            && cmds_ok(tail[i], false) && tail[i].len() <= usize::MAX by {
            assert(tail[i] == ps[i + 1]);
        }
        lemma_paths_at(data, cur + path_bytes(p).len(), tail, rest);
        assert(seq![p] + tail =~= ps);
        assert((ps.len() - 1) as nat == tail.len());
        assert(paths_bytes(ps).len() == path_bytes(p).len() + paths_bytes(tail).len());
        assert(parse_path(data, cur) == Ok::<(Seq<PathCmd>, int), Option<Error>>((p, cur + path_bytes(p).len())));
    }
}

#[verifier::spinoff_prover]
proof fn lemma_shapes_at(data: Seq<u8>, cur: int, ss: Seq<Shape>, ns: int, np: int, rest: Seq<u8>)
    requires
        forall|i: int| 0 <= i < ss.len() ==> (#[trigger] ss[i]).style < ns && ss[i].path < np,
        ns <= usize::MAX,
        np <= usize::MAX,
        holds_at(data, cur, shapes_bytes(ss) + rest),
    ensures
        parse_shapes(data, cur, ss.len(), ns, np) == Ok::<(Seq<Shape>, int), Error>(
            (ss, cur + shapes_bytes(ss).len()),
        ),
        holds_at(data, cur + shapes_bytes(ss).len(), rest),
    decreases ss.len(),
{
    if ss.len() == 0 {
        assert(shapes_bytes(ss) + rest =~= rest);
        assert(ss =~= Seq::<Shape>::empty());
    } else {
        let s = ss[0];
        let tail = ss.drop_first();
        let b1 = varuint_bytes(s.style as u64);
        let b2 = varuint_bytes(s.path as u64);
        assert(shapes_bytes(ss) + rest =~= b1 + (b2 + (seq![rule_byte(s.fill_rule)] + (shapes_bytes(
            tail,
        ) + rest))));
        lemma_varuint_at(data, cur, s.style as u64, b2 + (seq![rule_byte(s.fill_rule)] + (shapes_bytes(tail) + rest)));
        lemma_varuint_at(data, cur + b1.len(), s.path as u64, seq![rule_byte(s.fill_rule)] + (shapes_bytes(tail) + rest));
        lemma_holds_byte(data, cur + b1.len() + b2.len(), rule_byte(s.fill_rule), shapes_bytes(tail) + rest);
        assert forall|i: int| 0 <= i < tail.len() implies (#[trigger] tail[i]).style < ns && tail[i].path
            < np by {
            assert(tail[i] == ss[i + 1]);
        }
        lemma_shapes_at(data, cur + shape_bytes(s).len(), tail, ns, np, rest);
        assert(seq![s] + tail =~= ss);
        assert((ss.len() - 1) as nat == tail.len());
        assert(shapes_bytes(ss).len() == shape_bytes(s).len() + shapes_bytes(tail).len());
        assert(parse_shape(data, cur, ns, np) == Ok::<(Shape, int), Error>((s, cur + shape_bytes(s).len())));
    }
}

/// Art that the wire format carries unchanged: scale in range, every index
/// inside its pool, every path drawing only after a move_to, every delta
/// representable, and an encoding that fits in memory.
pub open spec fn wire_ok(art: ArtView) -> bool {
    &&& art.scale <= 15
    &&& encodable(art)
    &&& forall|i: int| 0 <= i < art.styles.len() ==> style_ok(#[trigger] art.styles[i], art.colors.len() as int)
    &&& forall|i: int| 0 <= i < art.paths.len() ==> cmds_ok(#[trigger] art.paths[i], false)
    &&& forall|i: int| 0 <= i < art.shapes.len() ==> (#[trigger] art.shapes[i]).style < art.styles.len()
        && art.shapes[i].path < art.paths.len()
    &&& vector_encode_spec(art).len() <= usize::MAX
    &&& art.colors.len() <= usize::MAX
    &&& art.styles.len() <= usize::MAX
    &&& art.paths.len() <= usize::MAX
    &&& art.shapes.len() <= usize::MAX
    &&& forall|i: int| 0 <= i < art.paths.len() ==> (#[trigger] art.paths[i]).len() <= usize::MAX
}

/// The bytes after the color pool.
pub open spec fn after_colors_bytes(art: ArtView) -> Seq<u8> {
    varuint_bytes(art.styles.len() as u64) + styles_bytes(art.styles) + varuint_bytes(art.paths.len() as u64)
        + paths_bytes(art.paths) + varuint_bytes(art.shapes.len() as u64) + shapes_bytes(art.shapes)
}

#[verifier::spinoff_prover]
proof fn lemma_after_colors(data: Seq<u8>, a: int, art: ArtView)
    requires
        wire_ok(art),
        holds_at(data, a, after_colors_bytes(art)),
        data.len() == a + after_colors_bytes(art).len(),
    ensures
        parse_after_colors(data, a, art.scale, art.colors) == Ok::<ArtView, Option<Error>>(art),
{
    let ns = varuint_bytes(art.styles.len() as u64);
    let sb = styles_bytes(art.styles);
    let np = varuint_bytes(art.paths.len() as u64);
    let pb = paths_bytes(art.paths);
    let nh = varuint_bytes(art.shapes.len() as u64);
    let hb = shapes_bytes(art.shapes);
    let e = Seq::<u8>::empty();
    assert(after_colors_bytes(art) + e =~= ns + (sb + (np + (pb + (nh + (hb + e))))));
    assert(after_colors_bytes(art) + e =~= after_colors_bytes(art));
    assert(((art.styles.len() as u64) as usize) == art.styles.len());
    assert(((art.paths.len() as u64) as usize) == art.paths.len());
    assert(((art.shapes.len() as u64) as usize) == art.shapes.len());
    lemma_varuint_at(data, a, art.styles.len() as u64, sb + (np + (pb + (nh + (hb + e)))));
    let s0 = a + ns.len() as int;
    lemma_styles_at(data, s0, art.styles, art.colors.len() as int, np + (pb + (nh + (hb + e))));
    let ps = s0 + sb.len() as int;
    lemma_varuint_at(data, ps, art.paths.len() as u64, pb + (nh + (hb + e)));
    let p0 = ps + np.len() as int;
    assert forall|i: int| 0 <= i < art.paths.len() implies cmds_fit(#[trigger] art.paths[i], 0, 0, 0, 0)
        && cmds_ok(art.paths[i], false) && art.paths[i].len() <= usize::MAX by {
        assert(cmds_fit(art.paths[i], 0, 0, 0, 0));
        assert(cmds_ok(art.paths[i], false));
    }
    lemma_paths_at(data, p0, art.paths, nh + (hb + e));
    let hs = p0 + pb.len() as int;
    lemma_varuint_at(data, hs, art.shapes.len() as u64, hb + e);
    let h0 = hs + nh.len() as int;
    lemma_shapes_at(data, h0, art.shapes, art.styles.len() as int, art.paths.len() as int, e);
}

/// Decoding encoded art gives the art back.
#[verifier::spinoff_prover]
#[verifier::rlimit(50)]
pub proof fn lemma_vector_roundtrip(art: ArtView)
    requires
        wire_ok(art),
    ensures
        vector_decode_spec(vector_encode_spec(art)) == Ok::<ArtView, Option<Error>>(art),
{
    let data = vector_encode_spec(art);
    let cb = color_bytes(art.colors);
    let nc = varuint_bytes(art.colors.len() as u64);
    let rest = after_colors_bytes(art);
    assert(data =~= seq![art.scale] + (nc + (cb + rest)));
    assert(holds_at(data, 0, data)) by {
        assert(data.subrange(0, data.len() as int) =~= data);
    }
    lemma_holds_byte(data, 0, art.scale, nc + (cb + rest));
    lemma_varuint_at(data, 1, art.colors.len() as u64, cb + rest);
    let c = (1 + nc.len()) as int;
    lemma_holds_split(data, c, cb, rest);
    lemma_colors_at(data, c, art.colors);
    let cc = art.colors.len();
    assert(((cc as u64) as usize) == cc);
    assert(parse_varuint(data, 1) == Ok::<(u64, int), Error>((cc as u64, c)));
    assert(cb.len() == cc * 4);
    assert(data.len() == c + cb.len() + rest.len());
    assert(colors_at(data, c, cc as int) == art.colors);
    lemma_after_colors(data, c + cb.len() as int, art);
    assert(data[0] == art.scale);
}

} // verus!
