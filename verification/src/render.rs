//! The rasterizer for vector art: curves flattened in Q16 fixed
//! point, 4x4 supersampled scanline coverage, integer gradients and
//! straight-alpha compositing.
//!
//! Each stage is stated as a spec function over mathematical integers that
//! yields `None` exactly where the rasterizer's fixed-width arithmetic
//! would overflow or index out of range; the executable code computes with
//! checked operations and is proved to agree with the spec.

use vstd::prelude::*;
use crate::error::Error;
use crate::pixel::Rgba;
use crate::vector::{ArtView, FillRule, PathCmd, Shape, Style, VectorImage};

verus! {

/// Q16 one.
pub const ONE: i64 = 65536;

/// Supersampling factor per axis.
pub const SS: i64 = 4;

/// The value fits an i64.
pub open spec fn fits(v: int) -> bool {
    i64::MIN <= v <= i64::MAX
}

/// Integer division rounding toward zero, as Rust's `/` does.
pub open spec fn tdiv(a: int, b: int) -> int {
    if a >= 0 {
        if b > 0 {
            a / b
        } else {
            -(a / -b)
        }
    } else {
        if b > 0 {
            -((-a) / b)
        } else {
            (-a) / (-b)
        }
    }
}

/// `r` is the integer square root of `v`: r * r <= v < (r + 1) * (r + 1).
pub open spec fn is_root(v: int, r: int) -> bool {
    0 <= r && r * r <= v && v < (r + 1) * (r + 1)
}

/// `floor(sqrt(v))` for positive `v`, and 0 otherwise.
pub open spec fn isqrt_spec(v: int) -> int {
    if v <= 0 {
        0
    } else {
        choose|r: int| #[trigger] is_root(v, r)
    }
}

/// One Newton step from `x` never undershoots the root `s`.
proof fn lemma_newton_above(v: int, x: int, s: int)
    requires
        x >= 1,
        0 <= s,
        s * s <= v,
    ensures
        (x + v / x) / 2 >= s,
{
    let q = v / x;
    vstd::arithmetic::div_mod::lemma_fundamental_div_mod(v, x);
    assert(v < x * (q + 1)) by (nonlinear_arith)
        requires
            v == x * q + v % x,
            0 <= v % x < x,
    ;
    if x + q <= 2 * s - 1 {
        assert(x * (q + 1) <= s * s) by (nonlinear_arith)
            requires
                q + 1 <= 2 * s - x,
                x >= 1,
        ;
    }
}

/// Above the root, a Newton step strictly decreases.
proof fn lemma_newton_descends(v: int, x: int)
    requires
        x >= 1,
        v < x * x,
    ensures
        (x + v / x) / 2 < x,
{
    vstd::arithmetic::div_mod::lemma_fundamental_div_mod(v, x);
    let q = v / x;
    assert(q < x) by (nonlinear_arith)
        requires
            v == x * q + v % x,
            0 <= v % x,
            v < x * x,
            x >= 1,
    ;
}

/// Integer square root by Newton iteration.
fn isqrt(v: i64) -> (r: i64)
    requires
        v < i64::MAX,
    ensures
        r == isqrt_spec(v as int),
{
    if v <= 0 {
        return 0;
    }
    let ghost s = isqrt_spec(v as int);
    proof {
        lemma_isqrt_exists(v as int);
    }
    let mut x = v;
    let mut y = (x + 1) / 2;
    proof {
        assert(v as int / v as int == 1) by {
            vstd::arithmetic::div_mod::lemma_div_by_self(v as int);
        }
        lemma_newton_above(v as int, x as int, s);
    }
    while y < x
        invariant
            0 < v < i64::MAX,
            s == isqrt_spec(v as int),
            0 <= s,
            s * s <= v,
            v < (s + 1) * (s + 1),
            1 <= x <= v,
            x >= s,
            y == (x + v / x) / 2,
            y >= s,
        decreases x,
    {
        x = y;
        proof {
            assert(x >= 1) by {
                assert(s >= 1) by (nonlinear_arith)
                    requires
                        v > 0,
                        v < (s + 1) * (s + 1),
                        s >= 0,
                ;
            }
            lemma_newton_above(v as int, x as int, s);
            let q = v as int / x as int;
            vstd::arithmetic::div_mod::lemma_fundamental_div_mod(v as int, x as int);
            assert(q >= 1) by {
                vstd::arithmetic::div_mod::lemma_div_is_ordered(x as int, v as int, x as int);
                vstd::arithmetic::div_mod::lemma_div_by_self(x as int);
            }
            assert(x + q <= v + 1) by (nonlinear_arith)
                requires
                    x * q + v % x == v,
                    0 <= v % x,
                    q >= 1,
                    x >= 1,
            ;
        }
        y = (x + v / x) / 2;
    }
    proof {
        if x > s {
            assert(v < x * x) by (nonlinear_arith)
                requires
                    x >= s + 1,
                    v < (s + 1) * (s + 1),
                    s >= 0,
            ;
            lemma_newton_descends(v as int, x as int);
        }
    }
    x
}

proof fn lemma_isqrt_exists(v: int)
    requires
        v > 0,
    ensures
        0 <= isqrt_spec(v),
        isqrt_spec(v) * isqrt_spec(v) <= v,
        v < (isqrt_spec(v) + 1) * (isqrt_spec(v) + 1),
{
    assert(v < (v + 1) * (v + 1)) by (nonlinear_arith)
        requires
            v > 0,
    ;
    let r = root_below(v, v);
    assert(is_root(v, r));
}

/// The integer square root of `v`, found below `n` by walking down.
proof fn root_below(v: int, n: int) -> (r: int)
    requires
        v > 0,
        0 <= n,
        v < (n + 1) * (n + 1),
    ensures
        0 <= r <= n,
        r * r <= v,
        v < (r + 1) * (r + 1),
    decreases n,
{
    if n * n <= v {
        n
    } else {
        assert(n >= 1) by (nonlinear_arith)
            requires
                n * n > v,
                v > 0,
                n >= 0,
        ;
        root_below(v, n - 1)
    }
}

/// The scale from design units to Q16 device subpixels: a coordinate `x`
/// maps to `x * num_x / den_x`, and likewise for `y`.
#[derive(Clone, Copy)]
pub struct Mapping {
    pub num_x: i64,
    pub num_y: i64,
    pub den_x: i64,
    pub den_y: i64,
}

/// An edge (x0, y0, x1, y1) in Q16 device subpixel space.
pub type Edge = (i64, i64, i64, i64);

/// `a / b` as Rust computes it on i64, or `None` where it panics.
pub open spec fn div_spec(a: int, b: int) -> Option<i64> {
    if b == 0 || !fits(tdiv(a, b)) {
        None
    } else {
        Some(tdiv(a, b) as i64)
    }
}

/// A design-space point in device subpixels.
pub open spec fn map_spec(m: Mapping, x: i64, y: i64) -> Option<(i64, i64)> {
    let px = x * m.num_x;
    let py = y * m.num_y;
    if !fits(px) || !fits(py) {
        None
    } else {
        match (div_spec(px, m.den_x as int), div_spec(py, m.den_y as int)) {
            (Some(a), Some(b)) => Some((a, b)),
            _ => None,
        }
    }
}

/// `a + (b - a) * t / ONE` along one coordinate.
pub open spec fn lerp1(a: i64, b: i64, t: i64) -> Option<i64> {
    let d = b - a;
    let p = d * t;
    if !fits(d) || !fits(p) || !fits(a + tdiv(p, 65536)) {
        None
    } else {
        Some((a + tdiv(p, 65536)) as i64)
    }
}

/// The point at Q16 parameter `t` on the segment from `a` to `b`.
pub open spec fn lerp_spec(a: (i64, i64), b: (i64, i64), t: i64) -> Option<(i64, i64)> {
    match (lerp1(a.0, b.0, t), lerp1(a.1, b.1, t)) {
        (Some(x), Some(y)) => Some((x, y)),
        _ => None,
    }
}

/// Checked i64 product.
fn mul_i64(a: i64, b: i64) -> (r: Option<i64>)
    ensures
        r == (if fits(a * b) {
            Some((a * b) as i64)
        } else {
            None::<i64>
        }),
{
    a.checked_mul(b)
}

/// Checked i64 sum.
fn add_i64(a: i64, b: i64) -> (r: Option<i64>)
    ensures
        r == (if fits(a + b) {
            Some((a + b) as i64)
        } else {
            None::<i64>
        }),
{
    a.checked_add(b)
}

/// Checked i64 difference.
fn sub_i64(a: i64, b: i64) -> (r: Option<i64>)
    ensures
        r == (if fits(a - b) {
            Some((a - b) as i64)
        } else {
            None::<i64>
        }),
{
    a.checked_sub(b)
}

/// Checked i64 quotient, rounding toward zero.
fn div_i64(a: i64, b: i64) -> (r: Option<i64>)
    ensures
        r == div_spec(a as int, b as int),
{
    a.checked_div(b)
}

fn map_pt(m: Mapping, x: i64, y: i64) -> (r: Option<(i64, i64)>)
    ensures
        r == map_spec(m, x, y),
{
    let px = mul_i64(x, m.num_x)?;
    let py = mul_i64(y, m.num_y)?;
    let a = div_i64(px, m.den_x)?;
    let b = div_i64(py, m.den_y)?;
    Some((a, b))
}

fn lerp_coord(a: i64, b: i64, t: i64) -> (r: Option<i64>)
    ensures
        r == lerp1(a, b, t),
{
    let d = sub_i64(b, a)?;
    let p = mul_i64(d, t)?;
    let q = p / ONE;
    proof {
        assert(q == tdiv(p as int, 65536));
    }
    add_i64(a, q)
}

fn lerp_pt(a: (i64, i64), b: (i64, i64), t: i64) -> (r: Option<(i64, i64)>)
    ensures
        r == lerp_spec(a, b, t),
{
    let x = lerp_coord(a.0, b.0, t)?;
    let y = lerp_coord(a.1, b.1, t)?;
    Some((x, y))
}

/// Append the edge from `a` to `b`, unless it is horizontal.
pub open spec fn push_edge(a: (i64, i64), b: (i64, i64), edges: Seq<Edge>) -> Seq<Edge> {
    if a.1 != b.1 {
        edges.push((a.0, a.1, b.0, b.1))
    } else {
        edges
    }
}

/// Point `i` of 8 on the quadratic from `c` through control `q` to `p`.
pub open spec fn quad_point(c: (i64, i64), q: (i64, i64), p: (i64, i64), i: int) -> Option<(i64, i64)> {
    let t = (i * 8192) as i64;
    match (lerp_spec(c, q, t), lerp_spec(q, p, t)) {
        (Some(a), Some(b)) => lerp_spec(a, b, t),
        _ => None,
    }
}

/// Point `i` of 16 on the cubic from `c` through controls `a`, `b` to `p`.
pub open spec fn cubic_point(
    c: (i64, i64),
    a: (i64, i64),
    b: (i64, i64),
    p: (i64, i64),
    i: int,
) -> Option<(i64, i64)> {
    let t = (i * 4096) as i64;
    match (lerp_spec(c, a, t), lerp_spec(a, b, t), lerp_spec(b, p, t)) {
        (Some(ab), Some(bc), Some(cd)) => match (lerp_spec(ab, bc, t), lerp_spec(bc, cd, t)) {
            (Some(u), Some(v)) => lerp_spec(u, v, t),
            _ => None,
        },
        _ => None,
    }
}

/// The last point and the edges after the first `k` segments of a quadratic.
pub open spec fn quad_prefix(
    c: (i64, i64),
    q: (i64, i64),
    p: (i64, i64),
    edges: Seq<Edge>,
    k: nat,
) -> Option<((i64, i64), Seq<Edge>)>
    decreases k,
{
    if k == 0 {
        Some((c, edges))
    } else {
        match quad_prefix(c, q, p, edges, (k - 1) as nat) {
            Some((prev, es)) => match quad_point(c, q, p, k as int) {
                Some(m) => Some((m, push_edge(prev, m, es))),
                None => None,
            },
            None => None,
        }
    }
}

/// The last point and the edges after the first `k` segments of a cubic.
pub open spec fn cubic_prefix(
    c: (i64, i64),
    a: (i64, i64),
    b: (i64, i64),
    p: (i64, i64),
    edges: Seq<Edge>,
    k: nat,
) -> Option<((i64, i64), Seq<Edge>)>
    decreases k,
{
    if k == 0 {
        Some((c, edges))
    } else {
        match cubic_prefix(c, a, b, p, edges, (k - 1) as nat) {
            Some((prev, es)) => match cubic_point(c, a, b, p, k as int) {
                Some(m) => Some((m, push_edge(prev, m, es))),
                None => None,
            },
            None => None,
        }
    }
}

/// Flattening state: subpath start, current point, edges so far.
pub type PathState = ((i64, i64), (i64, i64), Seq<Edge>);

/// One path instruction applied to the flattening state.
pub open spec fn cmd_step(m: Mapping, st: PathState, cmd: PathCmd) -> Option<PathState> {
    let (start, cur, edges) = st;
    match cmd {
        PathCmd::MoveTo(x, y) => {
            let es = if cur.0 != start.0 || cur.1 != start.1 {
                push_edge(cur, start, edges)
            } else {
                edges
            };
            match map_spec(m, x, y) {
                Some(p) => Some((p, p, es)),
                None => None,
            }
        },
        PathCmd::LineTo(x, y) => match map_spec(m, x, y) {
            Some(p) => Some((start, p, push_edge(cur, p, edges))),
            None => None,
        },
        PathCmd::QuadTo(qx, qy, x, y) => match (map_spec(m, qx, qy), map_spec(m, x, y)) {
            (Some(q), Some(p)) => match quad_prefix(cur, q, p, edges, 8) {
                Some((_, es)) => Some((start, p, es)),
                None => None,
            },
            _ => None,
        },
        PathCmd::CubicTo(ax, ay, bx, by, x, y) => match (
            map_spec(m, ax, ay),
            map_spec(m, bx, by),
            map_spec(m, x, y),
        ) {
            (Some(a), Some(b), Some(p)) => match cubic_prefix(cur, a, b, p, edges, 16) {
                Some((_, es)) => Some((start, p, es)),
                None => None,
            },
            _ => None,
        },
        PathCmd::Close => Some((start, start, push_edge(cur, start, edges))),
    }
}

/// The flattening state after the first `n` instructions.
pub open spec fn path_prefix(m: Mapping, cmds: Seq<PathCmd>, n: nat) -> Option<PathState>
    decreases n,
{
    if n == 0 {
        Some(((0i64, 0i64), (0i64, 0i64), Seq::empty()))
    } else {
        match path_prefix(m, cmds, (n - 1) as nat) {
            Some(st) => cmd_step(m, st, cmds[n - 1]),
            None => None,
        }
    }
}

/// The edges of a path: every instruction flattened, and the last subpath
/// closed.
pub open spec fn edges_spec(m: Mapping, cmds: Seq<PathCmd>) -> Option<Seq<Edge>> {
    match path_prefix(m, cmds, cmds.len()) {
        Some((start, cur, edges)) => Some(
            if cur.0 != start.0 || cur.1 != start.1 {
                push_edge(cur, start, edges)
            } else {
                edges
            },
        ),
        None => None,
    }
}

fn push_edge_exec(a: (i64, i64), b: (i64, i64), edges: &mut Vec<Edge>)
    ensures
        final(edges)@ == push_edge(a, b, old(edges)@),
{
    if a.1 != b.1 {
        edges.push((a.0, a.1, b.0, b.1));
    }
}

fn flatten_quad(cur: (i64, i64), q: (i64, i64), p: (i64, i64), edges: &mut Vec<Edge>) -> (ok: bool)
    ensures
        match quad_prefix(cur, q, p, old(edges)@, 8) {
            Some((_, es)) => ok && final(edges)@ == es,
            None => !ok,
        },
{
    let ghost e0 = edges@;
    let mut prev = cur;
    let mut i: i64 = 1;
    while i <= 8
        invariant
            1 <= i <= 9,
            e0 == old(edges)@,
            quad_prefix(cur, q, p, e0, (i - 1) as nat) == Some((prev, edges@)),
        decreases 9 - i,
    {
        let t = i * ONE / 8;
        proof {
            assert(t == i * 8192);
            assert(t == (i * 8192) as i64);
        }
        let a = match lerp_pt(cur, q, t) {
            Some(a) => a,
            None => {
                proof {
                    assert(quad_point(cur, q, p, i as int) is None);
                    lemma_quad_prefix_none(cur, q, p, e0, i as nat, 8);
                }
                return false;
            },
        };
        let b = match lerp_pt(q, p, t) {
            Some(b) => b,
            None => {
                proof {
                    assert(quad_point(cur, q, p, i as int) is None);
                    lemma_quad_prefix_none(cur, q, p, e0, i as nat, 8);
                }
                return false;
            },
        };
        let m = match lerp_pt(a, b, t) {
            Some(m) => m,
            None => {
                proof {
                    assert(quad_point(cur, q, p, i as int) is None);
                    lemma_quad_prefix_none(cur, q, p, e0, i as nat, 8);
                }
                return false;
            },
        };
        push_edge_exec(prev, m, edges);
        prev = m;
        i = i + 1;
    }
    true
}

proof fn lemma_quad_prefix_none(
    c: (i64, i64),
    q: (i64, i64),
    p: (i64, i64),
    e: Seq<Edge>,
    k: nat,
    n: nat,
)
    requires
        1 <= k <= n,
        quad_prefix(c, q, p, e, (k - 1) as nat) is Some,
        quad_point(c, q, p, k as int) is None,
    ensures
        quad_prefix(c, q, p, e, n) is None,
    decreases n,
{
    if n > k {
        lemma_quad_prefix_none(c, q, p, e, k, (n - 1) as nat);
    }
}

proof fn lemma_cubic_prefix_none(
    c: (i64, i64),
    a: (i64, i64),
    b: (i64, i64),
    p: (i64, i64),
    e: Seq<Edge>,
    k: nat,
    n: nat,
)
    requires
        1 <= k <= n,
        cubic_prefix(c, a, b, p, e, (k - 1) as nat) is Some,
        cubic_point(c, a, b, p, k as int) is None,
    ensures
        cubic_prefix(c, a, b, p, e, n) is None,
    decreases n,
{
    if n > k {
        lemma_cubic_prefix_none(c, a, b, p, e, k, (n - 1) as nat);
    }
}

fn flatten_cubic(
    cur: (i64, i64),
    a: (i64, i64),
    b: (i64, i64),
    p: (i64, i64),
    edges: &mut Vec<Edge>,
) -> (ok: bool)
    ensures
        match cubic_prefix(cur, a, b, p, old(edges)@, 16) {
            Some((_, es)) => ok && final(edges)@ == es,
            None => !ok,
        },
{
    let ghost e0 = edges@;
    let mut prev = cur;
    let mut i: i64 = 1;
    while i <= 16
        invariant
            1 <= i <= 17,
            e0 == old(edges)@,
            cubic_prefix(cur, a, b, p, e0, (i - 1) as nat) == Some((prev, edges@)),
        decreases 17 - i,
    {
        let t = i * ONE / 16;
        proof {
            assert(t == i * 4096);
            assert(t == (i * 4096) as i64);
        }
        let pt = match cubic_pt(cur, a, b, p, t) {
            Some(pt) => pt,
            None => {
                proof {
                    assert(cubic_point(cur, a, b, p, i as int) is None);
                    lemma_cubic_prefix_none(cur, a, b, p, e0, i as nat, 16);
                }
                return false;
            },
        };
        proof {
            assert(cubic_point(cur, a, b, p, i as int) == Some(pt));
        }
        push_edge_exec(prev, pt, edges);
        prev = pt;
        i = i + 1;
    }
    true
}

fn cubic_pt(c: (i64, i64), a: (i64, i64), b: (i64, i64), p: (i64, i64), t: i64) -> (r: Option<(i64, i64)>)
    ensures
        r == (match (lerp_spec(c, a, t), lerp_spec(a, b, t), lerp_spec(b, p, t)) {
            (Some(ab), Some(bc), Some(cd)) => match (lerp_spec(ab, bc, t), lerp_spec(bc, cd, t)) {
                (Some(u), Some(v)) => lerp_spec(u, v, t),
                _ => None,
            },
            _ => None,
        }),
{
    let ab = lerp_pt(c, a, t)?;
    let bc = lerp_pt(a, b, t)?;
    let cd = lerp_pt(b, p, t)?;
    let u = lerp_pt(ab, bc, t)?;
    let v = lerp_pt(bc, cd, t)?;
    lerp_pt(u, v, t)
}

proof fn lemma_path_prefix_none(m: Mapping, cmds: Seq<PathCmd>, k: nat, n: nat)
    requires
        k <= n,
        path_prefix(m, cmds, k) is None,
    ensures
        path_prefix(m, cmds, n) is None,
    decreases n,
{
    if n > k {
        lemma_path_prefix_none(m, cmds, k, (n - 1) as nat);
    }
}

/// Flatten one path into edges in Q16 device subpixel space; `None` where
/// the fixed-point arithmetic would overflow.
fn build_edges(m: Mapping, cmds: &Vec<PathCmd>) -> (r: Option<Vec<Edge>>)
    ensures
        match edges_spec(m, cmds@) {
            Some(es) => r matches Some(v) && v@ == es,
            None => r is None,
        },
{
    let mut edges: Vec<Edge> = Vec::new();
    let mut start: (i64, i64) = (0, 0);
    let mut cur: (i64, i64) = (0, 0);
    let mut n: usize = 0;
    while n < cmds.len()
        invariant
            0 <= n <= cmds@.len(),
            path_prefix(m, cmds@, n as nat) == Some((start, cur, edges@)),
        decreases cmds@.len() - n,
    {
        let cmd = cmds[n];
        let ghost st = (start, cur, edges@);
        let ok: bool = match cmd {
            PathCmd::MoveTo(x, y) => {
                if cur.0 != start.0 || cur.1 != start.1 {
                    push_edge_exec(cur, start, &mut edges);
                }
                match map_pt(m, x, y) {
                    Some(p) => {
                        cur = p;
                        start = p;
                        true
                    },
                    None => false,
                }
            },
            PathCmd::LineTo(x, y) => match map_pt(m, x, y) {
                Some(p) => {
                    push_edge_exec(cur, p, &mut edges);
                    cur = p;
                    true
                },
                None => false,
            },
            PathCmd::QuadTo(qx, qy, x, y) => match (map_pt(m, qx, qy), map_pt(m, x, y)) {
                (Some(q), Some(p)) => {
                    if flatten_quad(cur, q, p, &mut edges) {
                        cur = p;
                        true
                    } else {
                        false
                    }
                },
                _ => false,
            },
            PathCmd::CubicTo(ax, ay, bx, by, x, y) => match (
                map_pt(m, ax, ay),
                map_pt(m, bx, by),
                map_pt(m, x, y),
            ) {
                (Some(a), Some(b), Some(p)) => {
                    if flatten_cubic(cur, a, b, p, &mut edges) {
                        cur = p;
                        true
                    } else {
                        false
                    }
                },
                _ => false,
            },
            PathCmd::Close => {
                push_edge_exec(cur, start, &mut edges);
                cur = start;
                true
            },
        };
        if !ok {
            proof {
                assert(cmd_step(m, st, cmds@[n as int]) is None);
                assert(path_prefix(m, cmds@, (n + 1) as nat) is None);
                lemma_path_prefix_none(m, cmds@, (n + 1) as nat, cmds@.len());
            }
            return None;
        }
        proof {
            assert(cmd_step(m, st, cmds@[n as int]) == Some((start, cur, edges@)));
        }
        n = n + 1;
    }
    if cur.0 != start.0 || cur.1 != start.1 {
        push_edge_exec(cur, start, &mut edges);
    }
    Some(edges)
}

/// A scanline crossing: its x in Q16 subpixels and the edge direction.
pub type Crossing = (i64, i32);

/// Where edge `e` crosses the scanline at `sy`: `Some(None)` when it does
/// not, `None` when the arithmetic would overflow.
pub open spec fn crossing_of(e: Edge, sy: int) -> Option<Option<Crossing>> {
    let (x0, y0, x1, y1) = e;
    let (dir, ya, xa, yb, xb) = if y0 < y1 {
        (1i32, y0, x0, y1, x1)
    } else {
        (-1i32, y1, x1, y0, x0)
    };
    if sy >= ya && sy < yb {
        let dx = xb - xa;
        let dy = sy - ya;
        let den = yb - ya;
        if !fits(dx) || !fits(dy) || !fits(dx * dy) || !fits(den) || !fits(
            xa + tdiv(dx * dy, den),
        ) {
            None
        } else {
            Some(Some(((xa + tdiv(dx * dy, den)) as i64, dir)))
        }
    } else {
        Some(None)
    }
}

/// The crossings of the first `n` edges with the scanline at `sy`, in edge
/// order.
pub open spec fn crossings_prefix(edges: Seq<Edge>, sy: int, n: nat) -> Option<Seq<Crossing>>
    decreases n,
{
    if n == 0 {
        Some(Seq::empty())
    } else {
        match crossings_prefix(edges, sy, (n - 1) as nat) {
            Some(cs) => match crossing_of(edges[n - 1], sy) {
                Some(Some(c)) => Some(cs.push(c)),
                Some(None) => Some(cs),
                None => None,
            },
            None => None,
        }
    }
}

/// The order of crossings: by x, then by direction.
pub open spec fn crossing_le(a: Crossing, b: Crossing) -> bool {
    a.0 < b.0 || (a.0 == b.0 && a.1 <= b.1)
}

/// `e` inserted into the sorted sequence `s` before its first element not
/// below `e`.
pub open spec fn insert_sorted(s: Seq<Crossing>, e: Crossing) -> Seq<Crossing>
    decreases s.len(),
{
    if s.len() == 0 {
        seq![e]
    } else if crossing_le(e, s[0]) {
        seq![e] + s
    } else {
        seq![s[0]] + insert_sorted(s.drop_first(), e)
    }
}

/// The crossings in ascending order.
pub open spec fn sort_spec(s: Seq<Crossing>) -> Seq<Crossing>
    decreases s.len(),
{
    if s.len() == 0 {
        s
    } else {
        insert_sorted(sort_spec(s.drop_last()), s.last())
    }
}

proof fn lemma_insert_at(s: Seq<Crossing>, e: Crossing, j: int)
    requires
        0 <= j <= s.len(),
        forall|k: int| 0 <= k < j ==> !crossing_le(e, #[trigger] s[k]),
        j == s.len() || crossing_le(e, s[j]),
    ensures
        insert_sorted(s, e) == s.take(j) + seq![e] + s.skip(j),
    decreases s.len(),
{
    if s.len() == 0 {
        assert(s.take(j) + seq![e] + s.skip(j) =~= seq![e]);
    } else if crossing_le(e, s[0]) {
        assert(j == 0);
        assert(s.take(j) + seq![e] + s.skip(j) =~= seq![e] + s);
    } else {
        assert(j >= 1);
        let t = s.drop_first();
        assert forall|k: int| 0 <= k < j - 1 implies !crossing_le(e, #[trigger] t[k]) by {
            assert(t[k] == s[k + 1]);
        }
        lemma_insert_at(t, e, j - 1);
        assert(s.take(j) + seq![e] + s.skip(j) =~= seq![s[0]] + (t.take(j - 1) + seq![e] + t.skip(
            j - 1,
        )));
    }
}

/// The crossings are in ascending order.
pub open spec fn crossings_sorted(s: Seq<Crossing>) -> bool {
    forall|i: int, j: int| 0 <= i < j < s.len() ==> crossing_le(#[trigger] s[i], #[trigger] s[j])
}

proof fn lemma_insert_sorted_props(s: Seq<Crossing>, e: Crossing)
    requires
        crossings_sorted(s),
    ensures
        crossings_sorted(insert_sorted(s, e)),
        insert_sorted(s, e).to_multiset() =~= s.to_multiset().insert(e),
    decreases s.len(),
{
    broadcast use vstd::seq_lib::group_to_multiset_ensures, vstd::multiset::group_multiset_axioms;

    if s.len() == 0 {
        assert(seq![e] =~= Seq::<Crossing>::empty().push(e));
    } else if crossing_le(e, s[0]) {
        let r = seq![e] + s;
        assert forall|i: int, j: int| 0 <= i < j < r.len() implies crossing_le(
            #[trigger] r[i],
            #[trigger] r[j],
        ) by {
            if i == 0 && j > 1 {
                assert(crossing_le(s[0], s[j - 1]));
            }
        }
        assert(r =~= s.insert(0, e));
    } else {
        let t = s.drop_first();
        assert forall|i: int, j: int| 0 <= i < j < t.len() implies crossing_le(
            #[trigger] t[i],
            #[trigger] t[j],
        ) by {
            assert(t[i] == s[i + 1] && t[j] == s[j + 1]);
        }
        lemma_insert_sorted_props(t, e);
        let it = insert_sorted(t, e);
        let r = seq![s[0]] + it;
        assert forall|i: int, j: int| 0 <= i < j < r.len() implies crossing_le(
            #[trigger] r[i],
            #[trigger] r[j],
        ) by {
            if i == 0 {
                let x = it[j - 1];
                assert(r[j] == x);
                assert(it.contains(x));
                assert(it.to_multiset().count(x) > 0);
                if x != e {
                    assert(t.to_multiset().count(x) > 0);
                    assert(t.contains(x));
                    let k = choose|k: int| 0 <= k < t.len() && t[k] == x;
                    assert(s[k + 1] == x);
                    assert(crossing_le(s[0], s[k + 1]));
                }
            } else {
                assert(r[i] == it[i - 1] && r[j] == it[j - 1]);
            }
        }
        vstd::seq_lib::lemma_multiset_commutative(seq![s[0]], it);
        vstd::seq_lib::lemma_multiset_commutative(seq![s[0]], t);
        assert(s =~= seq![s[0]] + t);
    }
}

/// Sorting puts the crossings in ascending order and keeps exactly the
/// crossings it was given.
pub proof fn lemma_sort_spec(s: Seq<Crossing>)
    ensures
        crossings_sorted(sort_spec(s)),
        sort_spec(s).to_multiset() == s.to_multiset(),
    decreases s.len(),
{
    broadcast use vstd::seq_lib::group_to_multiset_ensures;

    if s.len() > 0 {
        lemma_sort_spec(s.drop_last());
        lemma_insert_sorted_props(sort_spec(s.drop_last()), s.last());
        assert(s =~= s.drop_last().push(s.last()));
    } else {
        assert(s.to_multiset() =~= vstd::multiset::Multiset::empty());
    }
}

/// Crossings of every edge with the scanline at `sy`; `None` on overflow.
fn scan_crossings(edges: &Vec<Edge>, sy: i64) -> (r: Option<Vec<Crossing>>)
    ensures
        match crossings_prefix(edges@, sy as int, edges@.len()) {
            Some(cs) => r matches Some(v) && v@ == cs,
            None => r is None,
        },
{
    let mut out: Vec<Crossing> = Vec::new();
    let mut n: usize = 0;
    while n < edges.len()
        invariant
            0 <= n <= edges@.len(),
            crossings_prefix(edges@, sy as int, n as nat) == Some(out@),
        decreases edges@.len() - n,
    {
        let (x0, y0, x1, y1) = edges[n];
        let (dir, ya, xa, yb, xb): (i32, i64, i64, i64, i64) = if y0 < y1 {
            (1, y0, x0, y1, x1)
        } else {
            (-1, y1, x1, y0, x0)
        };
        if sy >= ya && sy < yb {
            let x = match crossing_x(xa, xb, ya, yb, sy) {
                Some(x) => x,
                None => {
                    proof {
                        assert(crossing_of(edges@[n as int], sy as int) is None);
                        assert(crossings_prefix(edges@, sy as int, (n + 1) as nat) is None);
                        lemma_crossings_none(edges@, sy as int, (n + 1) as nat, edges@.len());
                    }
                    return None;
                },
            };
            out.push((x, dir));
        }
        n = n + 1;
    }
    Some(out)
}

fn crossing_x(xa: i64, xb: i64, ya: i64, yb: i64, sy: i64) -> (r: Option<i64>)
    requires
        ya <= sy < yb,
    ensures
        r == (if !fits(xb - xa) || !fits(sy - ya) || !fits((xb - xa) * (sy - ya)) || !fits(yb - ya)
            || !fits(xa + tdiv((xb - xa) * (sy - ya), yb - ya)) {
            None
        } else {
            Some((xa + tdiv((xb - xa) * (sy - ya), yb - ya)) as i64)
        }),
{
    let dx = sub_i64(xb, xa)?;
    let dy = sub_i64(sy, ya)?;
    let p = mul_i64(dx, dy)?;
    let den = sub_i64(yb, ya)?;
    let q = div_i64(p, den)?;
    add_i64(xa, q)
}

proof fn lemma_crossings_none(edges: Seq<Edge>, sy: int, k: nat, n: nat)
    requires
        k <= n,
        crossings_prefix(edges, sy, k) is None,
    ensures
        crossings_prefix(edges, sy, n) is None,
    decreases n,
{
    if n > k {
        lemma_crossings_none(edges, sy, k, (n - 1) as nat);
    }
}

/// Sort crossings by insertion.
fn sort_crossings(cs: &Vec<Crossing>) -> (out: Vec<Crossing>)
    ensures
        out@ == sort_spec(cs@),
{
    let mut out: Vec<Crossing> = Vec::new();
    let mut n: usize = 0;
    while n < cs.len()
        invariant
            0 <= n <= cs@.len(),
            out@ == sort_spec(cs@.take(n as int)),
        decreases cs@.len() - n,
    {
        let e = cs[n];
        let mut j: usize = 0;
        while j < out.len() && !(e.0 < out[j].0 || (e.0 == out[j].0 && e.1 <= out[j].1))
            invariant
                0 <= j <= out@.len(),
                forall|k: int| 0 <= k < j ==> !crossing_le(e, #[trigger] out@[k]),
            decreases out@.len() - j,
        {
            j = j + 1;
        }
        proof {
            lemma_insert_at(out@, e, j as int);
            assert(cs@.take(n + 1).drop_last() =~= cs@.take(n as int));
            assert(cs@.take(n + 1).last() == e);
        }
        out.insert(j, e);
        proof {
            assert(out@ =~= insert_sorted(sort_spec(cs@.take(n as int)), e));
        }
        n = n + 1;
    }
    proof {
        assert(cs@.take(n as int) =~= cs@);
    }
    out
}

/// Coverage counts after adding one to the pixel under each subpixel column
/// `c` of `c..=c1`, in row `row`; `None` where a count would pass 255.
pub open spec fn mark_cols(cov: Seq<u8>, row: int, c: int, c1: int) -> Option<Seq<u8>>
    decreases c1 + 1 - c,
{
    if c > c1 {
        Some(cov)
    } else {
        let i = row + c / 4;
        if cov[i] == 255 {
            None
        } else {
            mark_cols(cov.update(i, (cov[i] + 1) as u8), row, c + 1, c1)
        }
    }
}

/// First and last subpixel column whose centre lies in [xa, xb), clipped to
/// the row; `None` on overflow.
pub open spec fn span_cols(xa: i64, xb: i64, sub_w: int) -> Option<(int, int)> {
    if !fits(xa - 32768) || !fits(xa - 32768 + 65536) || !fits(xb - 32768) || !fits(
        xb - 32768 - 1,
    ) {
        None
    } else {
        let a = (xa - 32768 + 65536 - 1) / 65536;
        let b = (xb - 32768 - 1) / 65536;
        Some((if a < 0 { 0 } else { a }, if b > sub_w - 1 { sub_w - 1 } else { b }))
    }
}

/// The coverage after marking the span [xa, xb) of subpixel row `ys`.
pub open spec fn mark_span_spec(xa: i64, xb: i64, ys: int, out_w: int, cov: Seq<u8>) -> Option<Seq<u8>> {
    match span_cols(xa, xb, out_w * 4) {
        Some((c0, c1)) => mark_cols(cov, (ys / 4) * out_w, c0, c1),
        None => None,
    }
}

/// Whether a winding number is inside under the fill rule.
pub open spec fn inside(w: int, rule: FillRule) -> bool {
    match rule {
        FillRule::NonZero => w != 0,
        FillRule::EvenOdd => w % 2 != 0,
    }
}

/// Sweep state along a subpixel row: winding number, span start, coverage.
pub type SweepState = (i32, i64, Seq<u8>);

/// One sorted crossing applied to the sweep state.
pub open spec fn sweep_step(
    st: SweepState,
    c: Crossing,
    ys: int,
    out_w: int,
    rule: FillRule,
) -> Option<SweepState> {
    let (w, span_start, cov) = st;
    let w2 = w + c.1;
    if !(i32::MIN <= w2 <= i32::MAX) {
        None
    } else {
        let was = inside(w as int, rule);
        let now = inside(w2, rule);
        if !was && now {
            Some((w2 as i32, c.0, cov))
        } else if was && !now {
            match mark_span_spec(span_start, c.0, ys, out_w, cov) {
                Some(cov2) => Some((w2 as i32, span_start, cov2)),
                None => None,
            }
        } else {
            Some((w2 as i32, span_start, cov))
        }
    }
}

/// The sweep state after the first `n` sorted crossings.
pub open spec fn sweep_prefix(
    cs: Seq<Crossing>,
    cov: Seq<u8>,
    ys: int,
    out_w: int,
    rule: FillRule,
    n: nat,
) -> Option<SweepState>
    decreases n,
{
    if n == 0 {
        Some((0i32, 0i64, cov))
    } else {
        match sweep_prefix(cs, cov, ys, out_w, rule, (n - 1) as nat) {
            Some(st) => sweep_step(st, cs[n - 1], ys, out_w, rule),
            None => None,
        }
    }
}

/// Coverage after filling subpixel row `ys`.
pub open spec fn fill_row(
    edges: Seq<Edge>,
    cov: Seq<u8>,
    ys: int,
    out_w: int,
    rule: FillRule,
) -> Option<Seq<u8>> {
    match crossings_prefix(edges, ys * 65536 + 32768, edges.len()) {
        Some(cs) => {
            let sorted = sort_spec(cs);
            match sweep_prefix(sorted, cov, ys, out_w, rule, sorted.len()) {
                Some((_, _, cov2)) => Some(cov2),
                None => None,
            }
        },
        None => None,
    }
}

/// Coverage after filling the first `n` subpixel rows, from all zeros.
pub open spec fn fill_prefix(
    edges: Seq<Edge>,
    out_w: int,
    out_h: int,
    rule: FillRule,
    n: nat,
) -> Option<Seq<u8>>
    decreases n,
{
    if n == 0 {
        Some(Seq::new((out_w * out_h) as nat, |i: int| 0u8))
    } else {
        match fill_prefix(edges, out_w, out_h, rule, (n - 1) as nat) {
            Some(cov) => fill_row(edges, cov, n - 1, out_w, rule),
            None => None,
        }
    }
}

/// Coverage of a shape: how many of the 16 subsamples of each pixel are
/// inside, row-major.
pub open spec fn coverage_spec(edges: Seq<Edge>, out_w: int, out_h: int, rule: FillRule) -> Option<
    Seq<u8>,
> {
    fill_prefix(edges, out_w, out_h, rule, (out_h * 4) as nat)
}

proof fn lemma_mark_cols_none(cov: Seq<u8>, row: int, c: int, c1: int)
    requires
        c <= c1,
        cov[row + c / 4] == 255,
    ensures
        mark_cols(cov, row, c, c1) is None,
{
}

fn mark_span(xa: i64, xb: i64, ys: i64, out_w: u32, out_h: u32, coverage: &mut Vec<u8>) -> (ok: bool)
    requires
        0 <= ys < out_h * 4,
        old(coverage)@.len() == out_w * out_h,
    ensures
        match mark_span_spec(xa, xb, ys as int, out_w as int, old(coverage)@) {
            Some(c) => ok && final(coverage)@ == c,
            None => !ok,
        },
        final(coverage)@.len() == old(coverage)@.len(),
{
    let sub_w = out_w as i64 * SS;
    let a1 = match sub_i64(xa, 32768) { Some(v) => v, None => { return false; } };
    let a2 = match add_i64(a1, 65536) { Some(v) => v, None => { return false; } };
    let b1 = match sub_i64(xb, 32768) { Some(v) => v, None => { return false; } };
    let b2 = match sub_i64(b1, 1) { Some(v) => v, None => { return false; } };
    let a = (a2 - 1) >> 16;
    let b = b2 >> 16;
    proof {
        lemma_shr16_floor((a2 - 1) as i64);
        lemma_shr16_floor(b2);
    }
    let c0 = if a < 0 { 0 } else { a };
    let c1 = if b > sub_w - 1 { sub_w - 1 } else { b };
    let len = coverage.len();
    proof {
        assert(out_w * out_h <= usize::MAX);
        assert((ys / 4) * out_w <= out_w * out_h) by (nonlinear_arith)
            requires
                0 <= ys / 4 < out_h,
        ;
    }
    let row: usize = (ys / SS) as usize * out_w as usize;
    proof {
        assert(ys / 4 < out_h);
        assert((ys / 4) * out_w <= (out_h - 1) * out_w) by (nonlinear_arith)
            requires
                ys / 4 <= out_h - 1,
        ;
        assert((out_h - 1) * out_w + out_w == out_w * out_h) by (nonlinear_arith);
    }
    let ghost cov0 = coverage@;
    proof {
        assert(span_cols(xa, xb, out_w * 4) == Some((c0 as int, c1 as int)));
    }
    let mut c = c0;
    while c <= c1
        invariant
            0 <= c0 <= c,
            c1 <= sub_w - 1,
            sub_w == out_w * 4,
            c <= c1 + 1 || c == c0,
            row == (ys / 4) * out_w,
            span_cols(xa, xb, out_w * 4) == Some((c0 as int, c1 as int)),
            row + out_w <= out_w * out_h,
            out_w * out_h <= usize::MAX,
            coverage@.len() == out_w * out_h,
            cov0 == old(coverage)@,
            cov0.len() == out_w * out_h,
            mark_cols(cov0, row as int, c0 as int, c1 as int) == mark_cols(
                coverage@,
                row as int,
                c as int,
                c1 as int,
            ),
        decreases c1 + 1 - c,
    {
        let i = row + (c / SS) as usize;
        if coverage[i] == 255 {
            proof {
                lemma_mark_cols_none(coverage@, row as int, c as int, c1 as int);
                assert(span_cols(xa, xb, out_w * 4) == Some((c0 as int, c1 as int)));
            }
            return false;
        }
        coverage.set(i, coverage[i] + 1);
        c = c + 1;
    }
    proof {
        assert(span_cols(xa, xb, out_w * 4) == Some((c0 as int, c1 as int)));
    }
    true
}

/// `x >> 16` is the floor of `x / 65536`.
proof fn lemma_shr16_floor(x: i64)
    ensures
        (x >> 16i64) as int == (x as int) / 65536,
{
    assert((x >> 16i64) * 65536 + (x & 0xFFFF) == x && 0 <= (x & 0xFFFF) < 65536) by (bit_vector);
    vstd::arithmetic::div_mod::lemma_fundamental_div_mod_converse(
        x as int,
        65536,
        (x >> 16i64) as int,
        (x & 0xFFFF) as int,
    );
}

fn inside_exec(w: i32, rule: FillRule) -> (r: bool)
    ensures
        r == inside(w as int, rule),
{
    match rule {
        FillRule::NonZero => w != 0,
        FillRule::EvenOdd => w % 2 != 0,
    }
}

proof fn lemma_sweep_none(
    cs: Seq<Crossing>,
    cov: Seq<u8>,
    ys: int,
    out_w: int,
    rule: FillRule,
    k: nat,
    n: nat,
)
    requires
        k <= n,
        sweep_prefix(cs, cov, ys, out_w, rule, k) is None,
    ensures
        sweep_prefix(cs, cov, ys, out_w, rule, n) is None,
    decreases n,
{
    if n > k {
        lemma_sweep_none(cs, cov, ys, out_w, rule, k, (n - 1) as nat);
    }
}

/// Mark the inside spans of one subpixel row, given its sorted crossings.
fn sweep_row(
    sorted: &Vec<Crossing>,
    ys: i64,
    out_w: u32,
    out_h: u32,
    rule: FillRule,
    coverage: &mut Vec<u8>,
) -> (ok: bool)
    requires
        0 <= ys < out_h * 4,
        old(coverage)@.len() == out_w * out_h,
    ensures
        match sweep_prefix(sorted@, old(coverage)@, ys as int, out_w as int, rule, sorted@.len()) {
            Some((_, _, c)) => ok && final(coverage)@ == c,
            None => !ok,
        },
        final(coverage)@.len() == old(coverage)@.len(),
{
    let ghost cov0 = coverage@;
    let mut winding: i32 = 0;
    let mut span_start: i64 = 0;
    let mut n: usize = 0;
    while n < sorted.len()
        invariant
            0 <= n <= sorted@.len(),
            0 <= ys < out_h * 4,
            cov0 == old(coverage)@,
            cov0.len() == out_w * out_h,
            coverage@.len() == out_w * out_h,
            sweep_prefix(sorted@, cov0, ys as int, out_w as int, rule, n as nat) == Some(
                (winding, span_start, coverage@),
            ),
        decreases sorted@.len() - n,
    {
        let (x, dir) = sorted[n];
        let was = inside_exec(winding, rule);
        let w2 = match winding.checked_add(dir) {
            Some(v) => v,
            None => {
                proof {
                    lemma_sweep_none(sorted@, cov0, ys as int, out_w as int, rule, (n + 1) as nat, sorted@.len());
                }
                return false;
            },
        };
        winding = w2;
        let now = inside_exec(winding, rule);
        if !was && now {
            span_start = x;
        } else if was && !now {
            if !mark_span(span_start, x, ys, out_w, out_h, coverage) {
                proof {
                    lemma_sweep_none(sorted@, cov0, ys as int, out_w as int, rule, (n + 1) as nat, sorted@.len());
                }
                return false;
            }
        }
        n = n + 1;
    }
    true
}

proof fn lemma_fill_none(edges: Seq<Edge>, out_w: int, out_h: int, rule: FillRule, k: nat, n: nat)
    requires
        k <= n,
        fill_prefix(edges, out_w, out_h, rule, k) is None,
    ensures
        fill_prefix(edges, out_w, out_h, rule, n) is None,
    decreases n,
{
    if n > k {
        lemma_fill_none(edges, out_w, out_h, rule, k, (n - 1) as nat);
    }
}

/// Scanline fill at 4x4 supersampling into a zeroed coverage buffer; each
/// pixel counts its subsamples inside the shape.
fn fill_coverage(
    edges: &Vec<Edge>,
    out_w: u32,
    out_h: u32,
    rule: FillRule,
    coverage: &mut Vec<u8>,
) -> (ok: bool)
    requires
        old(coverage)@ == Seq::new((out_w * out_h) as nat, |i: int| 0u8),
    ensures
        match coverage_spec(edges@, out_w as int, out_h as int, rule) {
            Some(c) => ok && final(coverage)@ == c,
            None => !ok,
        },
        final(coverage)@.len() == out_w * out_h,
{
    let rows = out_h as i64 * SS;
    let mut ys: i64 = 0;
    while ys < rows
        invariant
            rows == out_h * 4,
            0 <= ys <= rows,
            coverage@.len() == out_w * out_h,
            fill_prefix(edges@, out_w as int, out_h as int, rule, ys as nat) == Some(coverage@),
        decreases rows - ys,
    {
        let sy = ys * ONE + ONE / 2;
        let cs = match scan_crossings(edges, sy) {
            Some(cs) => cs,
            None => {
                proof {
                    lemma_fill_none(edges@, out_w as int, out_h as int, rule, (ys + 1) as nat, (out_h * 4) as nat);
                }
                return false;
            },
        };
        let sorted = sort_crossings(&cs);
        if !sweep_row(&sorted, ys, out_w, out_h, rule, coverage) {
            proof {
                lemma_fill_none(edges@, out_w as int, out_h as int, rule, (ys + 1) as nat, (out_h * 4) as nat);
            }
            return false;
        }
        ys = ys + 1;
    }
    true
}

/// One channel blended from `x` toward `y` by Q16 `t`.
pub open spec fn lerp_channel(x: u8, y: u8, t: int) -> u8 {
    (x + tdiv((y - x) * t, 65536)) as u8
}

/// The color at Q16 parameter `t` between `a` and `b`.
pub open spec fn lerp_color_spec(a: Rgba, b: Rgba, t: int) -> Rgba {
    Rgba {
        r: lerp_channel(a.r, b.r, t),
        g: lerp_channel(a.g, b.g, t),
        b: lerp_channel(a.b, b.b, t),
        a: lerp_channel(a.a, b.a, t),
    }
}

/// `v` clamped to [0, ONE].
pub open spec fn clamp_unit(v: int) -> int {
    if v < 0 {
        0
    } else if v > 65536 {
        65536
    } else {
        v
    }
}

/// The two gradient colors of a style, when both indices are in the pool.
pub open spec fn grad_colors(art: ArtView, c0: u32, c1: u32, t: int) -> Option<Rgba> {
    if c0 < art.colors.len() && c1 < art.colors.len() {
        Some(lerp_color_spec(art.colors[c0 as int], art.colors[c1 as int], t))
    } else {
        None
    }
}

/// The Q16 position of (px, py) along the linear gradient from `a` to `b`.
pub open spec fn linear_t(a: (i64, i64), b: (i64, i64), px: i64, py: i64) -> Option<int> {
    let ex = b.0 - a.0;
    let ey = b.1 - a.1;
    if !fits(ex) || !fits(ey) || !fits(ex * ex) || !fits(ey * ey) || !fits(ex * ex + ey * ey) {
        None
    } else {
        let den16 = (ex * ex + ey * ey) / 65536;
        if den16 == 0 {
            Some(0)
        } else {
            let dx = px - a.0;
            let dy = py - a.1;
            if !fits(dx) || !fits(dx * ex) || !fits(dy) || !fits(dy * ey) || !fits(
                dx * ex + dy * ey,
            ) {
                None
            } else {
                Some(clamp_unit(tdiv(dx * ex + dy * ey, den16)))
            }
        }
    }
}

/// The squared distance between two points, when it fits and its square
/// root can be taken.
pub open spec fn dist2(a: (i64, i64), px: i64, py: i64) -> Option<int> {
    let dx = px - a.0;
    let dy = py - a.1;
    if !fits(dx) || !fits(dy) || !fits(dx * dx) || !fits(dy * dy) || !fits(dx * dx + dy * dy) || dx
        * dx + dy * dy == i64::MAX {
        None
    } else {
        Some(dx * dx + dy * dy)
    }
}

/// The Q16 position of (px, py) along the radial gradient centred at `a`
/// with rim point `b`.
pub open spec fn radial_t(a: (i64, i64), b: (i64, i64), px: i64, py: i64) -> Option<int> {
    match (dist2(a, b.0, b.1), dist2(a, px, py)) {
        (Some(rr), Some(dd)) => {
            let r = isqrt_spec(rr);
            let d = isqrt_spec(dd);
            if r == 0 {
                Some(0)
            } else if !fits(d * 65536) {
                None
            } else {
                Some(clamp_unit((d * 65536) / r))
            }
        },
        _ => None,
    }
}

/// The color a style paints at device subpixel (px, py).
pub open spec fn style_spec(art: ArtView, style: Style, m: Mapping, px: i64, py: i64) -> Option<Rgba> {
    match style {
        Style::Flat { color } => if color < art.colors.len() {
            Some(art.colors[color as int])
        } else {
            None
        },
        Style::Linear { x0, y0, x1, y1, c0, c1 } => match (map_spec(m, x0, y0), map_spec(m, x1, y1)) {
            (Some(a), Some(b)) => match linear_t(a, b, px, py) {
                Some(t) => grad_colors(art, c0, c1, t),
                None => None,
            },
            _ => None,
        },
        Style::Radial { cx, cy, ex, ey, c0, c1 } => match (map_spec(m, cx, cy), map_spec(m, ex, ey)) {
            (Some(a), Some(b)) => match radial_t(a, b, px, py) {
                Some(t) => grad_colors(art, c0, c1, t),
                None => None,
            },
            _ => None,
        },
    }
}

fn lerp_channel_exec(x: u8, y: u8, t: i64) -> (r: u8)
    requires
        0 <= t <= 65536,
    ensures
        r == lerp_channel(x, y, t as int),
{
    proof {
        assert(-255 * 65536 <= (y - x) * t <= 255 * 65536) by (nonlinear_arith)
            requires
                0 <= t <= 65536,
                -255 <= y - x <= 255,
        ;
    }
    (x as i64 + (y as i64 - x as i64) * t / ONE) as u8
}

fn lerp_color(a: Rgba, b: Rgba, t: i64) -> (r: Rgba)
    requires
        0 <= t <= 65536,
    ensures
        r == lerp_color_spec(a, b, t as int),
{
    Rgba::new(
        lerp_channel_exec(a.r, b.r, t),
        lerp_channel_exec(a.g, b.g, t),
        lerp_channel_exec(a.b, b.b, t),
        lerp_channel_exec(a.a, b.a, t),
    )
}

fn grad_colors_exec(art: &VectorImage, c0: u32, c1: u32, t: i64) -> (r: Option<Rgba>)
    requires
        0 <= t <= 65536,
    ensures
        r == grad_colors(art@, c0, c1, t as int),
{
    if (c0 as usize) < art.colors.len() && (c1 as usize) < art.colors.len() {
        Some(lerp_color(art.colors[c0 as usize], art.colors[c1 as usize], t))
    } else {
        None
    }
}

fn linear_t_exec(a: (i64, i64), b: (i64, i64), px: i64, py: i64) -> (r: Option<i64>)
    ensures
        match linear_t(a, b, px, py) {
            Some(t) => r == Some(t as i64) && 0 <= t <= 65536,
            None => r is None,
        },
{
    let ex = sub_i64(b.0, a.0)?;
    let ey = sub_i64(b.1, a.1)?;
    let exx = mul_i64(ex, ex)?;
    let eyy = mul_i64(ey, ey)?;
    let sum = add_i64(exx, eyy)?;
    let den16 = sum >> 16;
    proof {
        lemma_shr16_floor(sum);
        assert(ex * ex >= 0 && ey * ey >= 0) by (nonlinear_arith);
    }
    if den16 == 0 {
        return Some(0);
    }
    let dx = sub_i64(px, a.0)?;
    let p1 = mul_i64(dx, ex)?;
    let dy = sub_i64(py, a.1)?;
    let p2 = mul_i64(dy, ey)?;
    let num = add_i64(p1, p2)?;
    let q = num / den16;
    Some(if q < 0 { 0 } else if q > ONE { ONE } else { q })
}

fn dist2_exec(a: (i64, i64), px: i64, py: i64) -> (r: Option<i64>)
    ensures
        match dist2(a, px, py) {
            Some(v) => r == Some(v as i64),
            None => r is None,
        },
{
    let dx = sub_i64(px, a.0)?;
    let dy = sub_i64(py, a.1)?;
    let xx = mul_i64(dx, dx)?;
    let yy = mul_i64(dy, dy)?;
    let v = add_i64(xx, yy)?;
    if v == i64::MAX {
        return None;
    }
    Some(v)
}

fn radial_t_exec(a: (i64, i64), b: (i64, i64), px: i64, py: i64) -> (r: Option<i64>)
    ensures
        match radial_t(a, b, px, py) {
            Some(t) => r == Some(t as i64) && 0 <= t <= 65536,
            None => r is None,
        },
{
    let rr = dist2_exec(a, b.0, b.1)?;
    let dd = dist2_exec(a, px, py)?;
    let r = isqrt(rr);
    let d = isqrt(dd);
    if r == 0 {
        return Some(0);
    }
    proof {
        if rr > 0 {
            lemma_isqrt_exists(rr as int);
        }
        if dd > 0 {
            lemma_isqrt_exists(dd as int);
        }
    }
    let dq = mul_i64(d, ONE)?;
    let q = dq / r;
    Some(if q < 0 { 0 } else if q > ONE { ONE } else { q })
}

/// The color a style paints at device subpixel (px, py).
fn style_color(art: &VectorImage, style: Style, m: Mapping, px: i64, py: i64) -> (r: Option<Rgba>)
    ensures
        r == style_spec(art@, style, m, px, py),
{
    match style {
        Style::Flat { color } => {
            if (color as usize) < art.colors.len() {
                Some(art.colors[color as usize])
            } else {
                None
            }
        },
        Style::Linear { x0, y0, x1, y1, c0, c1 } => {
            let a = map_pt(m, x0, y0)?;
            let b = map_pt(m, x1, y1)?;
            let t = linear_t_exec(a, b, px, py)?;
            grad_colors_exec(art, c0, c1, t)
        },
        Style::Radial { cx, cy, ex, ey, c0, c1 } => {
            let a = map_pt(m, cx, cy)?;
            let b = map_pt(m, ex, ey)?;
            let t = radial_t_exec(a, b, px, py)?;
            grad_colors_exec(art, c0, c1, t)
        },
    }
}

/// A premultiplied accumulator pixel, channels in 0..=65025.
pub type Acc = (u32, u32, u32, u32);

/// Straight-alpha "over" of channel `c` at effective alpha `a` onto the
/// premultiplied destination channel `d`.
pub open spec fn blend(c: int, a: int, d: int) -> int {
    c * a + (d * (255 - a) + 127) / 255
}

/// Pixel (x, y) of a shape painted over the accumulator pixel `dst`, given
/// its coverage count.
pub open spec fn composite_px(
    art: ArtView,
    style: Style,
    m: Mapping,
    cov: u8,
    x: int,
    y: int,
    dst: Acc,
) -> Option<Acc> {
    if cov == 0 {
        Some(dst)
    } else {
        let px = ((x * 4 + 2) * 65536) as i64;
        let py = ((y * 4 + 2) * 65536) as i64;
        match style_spec(art, style, m, px, py) {
            Some(color) => {
                let a = (color.a * cov + 8) / 16;
                if a == 0 {
                    Some(dst)
                } else if a > 255 {
                    None
                } else {
                    Some(
                        (
                            blend(color.r as int, a, dst.0 as int) as u32,
                            blend(color.g as int, a, dst.1 as int) as u32,
                            blend(color.b as int, a, dst.2 as int) as u32,
                            blend(255, a, dst.3 as int) as u32,
                        ),
                    )
                }
            },
            None => None,
        }
    }
}

/// The accumulator after painting the first `n` pixels (row-major) of a
/// shape with the given coverage.
pub open spec fn composite_prefix(
    art: ArtView,
    style: Style,
    m: Mapping,
    cov: Seq<u8>,
    w: int,
    acc: Seq<Acc>,
    n: nat,
) -> Option<Seq<Acc>>
    decreases n,
{
    if n == 0 {
        Some(acc)
    } else {
        match composite_prefix(art, style, m, cov, w, acc, (n - 1) as nat) {
            Some(a) => {
                let k = n - 1;
                match composite_px(art, style, m, cov[k], k % w, k / w, a[k]) {
                    Some(p) => Some(a.update(k, p)),
                    None => None,
                }
            },
            None => None,
        }
    }
}

/// The accumulator after painting a shape with the given coverage.
pub open spec fn composite_spec(
    art: ArtView,
    shape: Shape,
    m: Mapping,
    cov: Seq<u8>,
    w: int,
    h: int,
    acc: Seq<Acc>,
) -> Option<Seq<Acc>> {
    if shape.style >= art.styles.len() {
        None
    } else {
        composite_prefix(art, art.styles[shape.style as int], m, cov, w, acc, (w * h) as nat)
    }
}

/// Every channel of every accumulator pixel is at most 255 * 255.
pub open spec fn acc_bounded(acc: Seq<Acc>) -> bool {
    forall|k: int|
        0 <= k < acc.len() ==> (#[trigger] acc[k]).0 <= 65025 && acc[k].1 <= 65025 && acc[k].2
            <= 65025 && acc[k].3 <= 65025
}

proof fn lemma_blend_bound(c: int, a: int, d: int)
    requires
        0 <= c <= 255,
        1 <= a <= 255,
        0 <= d <= 65025,
    ensures
        0 <= blend(c, a, d) <= 65025,
{
    assert(0 <= d * (255 - a) <= 65025 * (255 - a)) by (nonlinear_arith)
        requires
            0 <= d <= 65025,
            1 <= a <= 255,
    ;
    assert((d * (255 - a) + 127) / 255 <= 255 * (255 - a)) by (nonlinear_arith)
        requires
            0 <= d * (255 - a) <= 65025 * (255 - a),
            a <= 255,
    ;
    assert(0 <= c * a <= 255 * a) by (nonlinear_arith)
        requires
            0 <= c <= 255,
            1 <= a,
    ;
}

fn blend_exec(c: u32, a: u32, d: u32) -> (r: u32)
    requires
        c <= 255,
        1 <= a <= 255,
        d <= 65025,
    ensures
        r == blend(c as int, a as int, d as int),
        r <= 65025,
{
    proof {
        lemma_blend_bound(c as int, a as int, d as int);
        assert(d * (255 - a) <= 65025 * 255) by (nonlinear_arith)
            requires
                d <= 65025,
                1 <= a <= 255,
        ;
        assert(c * a <= 65025) by (nonlinear_arith)
            requires
                c <= 255,
                a <= 255,
        ;
    }
    c * a + (d * (255 - a) + 127) / 255
}

proof fn lemma_composite_none(
    art: ArtView,
    style: Style,
    m: Mapping,
    cov: Seq<u8>,
    w: int,
    acc: Seq<Acc>,
    k: nat,
    n: nat,
)
    requires
        k <= n,
        composite_prefix(art, style, m, cov, w, acc, k) is None,
    ensures
        composite_prefix(art, style, m, cov, w, acc, n) is None,
    decreases n,
{
    if n > k {
        lemma_composite_none(art, style, m, cov, w, acc, k, (n - 1) as nat);
    }
}

/// Paint one shape over the accumulator, pixel by pixel in row-major order.
fn composite(
    art: &VectorImage,
    shape: Shape,
    m: Mapping,
    coverage: &Vec<u8>,
    w: u32,
    h: u32,
    acc: &mut Vec<Acc>,
) -> (ok: bool)
    requires
        w >= 1,
        coverage@.len() == w * h,
        old(acc)@.len() == w * h,
        acc_bounded(old(acc)@),
    ensures
        match composite_spec(art@, shape, m, coverage@, w as int, h as int, old(acc)@) {
            Some(a) => ok && final(acc)@ == a,
            None => !ok,
        },
        final(acc)@.len() == old(acc)@.len(),
        acc_bounded(final(acc)@),
{
    if shape.style as usize >= art.styles.len() {
        return false;
    }
    let style = art.styles[shape.style as usize];
    let ghost acc0 = acc@;
    let n = coverage.len();
    let wu = w as usize;
    let mut k: usize = 0;
    while k < n
        invariant
            0 <= k <= n,
            n == w * h,
            wu == w,
            w >= 1,
            n == coverage@.len(),
            shape.style < art@.styles.len(),
            style == art@.styles[shape.style as int],
            acc0 == old(acc)@,
            acc0.len() == n,
            acc@.len() == n,
            acc_bounded(acc@),
            composite_prefix(art@, style, m, coverage@, w as int, acc0, k as nat) == Some(acc@),
        decreases n - k,
    {
        let cov = coverage[k];
        if cov != 0 {
            let x = (k % wu) as i64;
            let y = (k / wu) as i64;
            proof {
                vstd::arithmetic::div_mod::lemma_fundamental_div_mod(k as int, w as int);
                let (ki, wi) = (k as int, w as int);
                assert(ki / wi < h) by (nonlinear_arith)
                    requires
                        ki == wi * (ki / wi) + ki % wi,
                        0 <= ki % wi,
                        ki < wi * h,
                        wi >= 1,
                ;
                assert(x < w);
            }
            let px = (x * SS + SS / 2) * ONE;
            let py = (y * SS + SS / 2) * ONE;
            let color = match style_color(art, style, m, px, py) {
                Some(c) => c,
                None => {
                    proof {
                        lemma_composite_none(art@, style, m, coverage@, w as int, acc0, (k + 1) as nat, n as nat);
                    }
                    return false;
                },
            };
            proof {
                assert(color.a * cov <= 65025) by (nonlinear_arith)
                    requires
                        color.a <= 255,
                        cov <= 255,
                ;
            }
            let a_eff = (color.a as u32 * cov as u32 + 8) / 16;
            if a_eff != 0 {
                if a_eff > 255 {
                    proof {
                        lemma_composite_none(art@, style, m, coverage@, w as int, acc0, (k + 1) as nat, n as nat);
                    }
                    return false;
                }
                let dst = acc[k];
                let p = (
                    blend_exec(color.r as u32, a_eff, dst.0),
                    blend_exec(color.g as u32, a_eff, dst.1),
                    blend_exec(color.b as u32, a_eff, dst.2),
                    blend_exec(255, a_eff, dst.3),
                );
                acc.set(k, p);
            }
        }
        k = k + 1;
    }
    true
}

/// Un-premultiply an accumulator pixel to straight-alpha RGBA.
pub open spec fn finish_px(p: Acc) -> Rgba {
    let a = if (p.3 + 127) / 255 > 255 {
        255
    } else {
        (p.3 + 127) / 255
    };
    if a == 0 {
        Rgba { r: 0, g: 0, b: 0, a: 0 }
    } else {
        Rgba {
            r: unpremul(p.0 as int, p.3 as int) as u8,
            g: unpremul(p.1 as int, p.3 as int) as u8,
            b: unpremul(p.2 as int, p.3 as int) as u8,
            a: a as u8,
        }
    }
}

/// A premultiplied channel over alpha `a`, rounded and capped at 255.
pub open spec fn unpremul(c: int, a: int) -> int {
    if (c * 255 + a / 2) / a > 255 {
        255
    } else {
        (c * 255 + a / 2) / a
    }
}

fn finish_px_exec(p: Acc) -> (r: Rgba)
    requires
        p.0 <= 65025,
        p.1 <= 65025,
        p.2 <= 65025,
        p.3 <= 65025,
    ensures
        r == finish_px(p),
{
    let a0 = (p.3 + 127) / 255;
    let a = if a0 > 255 { 255 } else { a0 };
    if a == 0 {
        Rgba::default()
    } else {
        let r = (p.0 * 255 + p.3 / 2) / p.3;
        let g = (p.1 * 255 + p.3 / 2) / p.3;
        let b = (p.2 * 255 + p.3 / 2) / p.3;
        Rgba::new(
            if r > 255 { 255 } else { r as u8 },
            if g > 255 { 255 } else { g as u8 },
            if b > 255 { 255 } else { b as u8 },
            a as u8,
        )
    }
}

/// The mapping from design units (with `scale` fractional bits) onto the
/// output's Q16 subpixels; `None` where the shift would overflow.
pub open spec fn mapping_spec(scale: u8, dw: u32, dh: u32, ow: u32, oh: u32) -> Option<Mapping> {
    if scale >= 64 {
        None
    } else {
        Some(
            Mapping {
                num_x: (ow * 4 * 65536) as i64,
                num_y: (oh * 4 * 65536) as i64,
                den_x: (dw as i64) << scale,
                den_y: (dh as i64) << scale,
            },
        )
    }
}

/// The accumulator after painting the first `n` shapes, in order.
pub open spec fn shapes_prefix(art: ArtView, m: Mapping, ow: int, oh: int, n: nat) -> Option<
    Seq<Acc>,
>
    decreases n,
{
    if n == 0 {
        Some(Seq::new((ow * oh) as nat, |i: int| (0u32, 0u32, 0u32, 0u32)))
    } else {
        match shapes_prefix(art, m, ow, oh, (n - 1) as nat) {
            Some(acc) => {
                let shape = art.shapes[n - 1];
                if shape.path >= art.paths.len() {
                    None
                } else {
                    match edges_spec(m, art.paths[shape.path as int]) {
                        Some(edges) => match coverage_spec(edges, ow, oh, shape.fill_rule) {
                            Some(cov) => composite_spec(art, shape, m, cov, ow, oh, acc),
                            None => None,
                        },
                        None => None,
                    }
                }
            },
            None => None,
        }
    }
}

/// What the rasterizer yields for art designed at (dw, dh) units
/// drawn at (ow, oh) pixels: the error for a zero dimension, or the pixels
/// row-major; `None` where its fixed-width arithmetic would
/// overflow, an index would fall outside its pool, or the output would not
/// fit in memory.
pub open spec fn raster_spec(art: ArtView, dw: u32, dh: u32, ow: u32, oh: u32) -> Option<
    Result<Seq<Rgba>, Error>,
> {
    if dw == 0 || dh == 0 || ow == 0 || oh == 0 {
        Some(Err(Error::BadVector("zero dimension")))
    } else if ow * oh > usize::MAX {
        None
    } else {
        match mapping_spec(art.scale, dw, dh, ow, oh) {
            Some(m) => match shapes_prefix(art, m, ow as int, oh as int, art.shapes.len()) {
                Some(acc) => Some(Ok(acc.map_values(|p: Acc| finish_px(p)))),
                None => None,
            },
            None => None,
        }
    }
}

proof fn lemma_shapes_none(art: ArtView, m: Mapping, ow: int, oh: int, k: nat, n: nat)
    requires
        k <= n,
        shapes_prefix(art, m, ow, oh, k) is None,
    ensures
        shapes_prefix(art, m, ow, oh, n) is None,
    decreases n,
{
    if n > k {
        lemma_shapes_none(art, m, ow, oh, k, (n - 1) as nat);
    }
}

fn zeros_u8(n: usize) -> (v: Vec<u8>)
    ensures
        v@ == Seq::new(n as nat, |i: int| 0u8),
{
    let mut v: Vec<u8> = Vec::new();
    while v.len() < n
        invariant
            v@.len() <= n,
            forall|i: int| 0 <= i < v@.len() ==> v@[i] == 0u8,
        decreases n - v@.len(),
    {
        v.push(0);
    }
    proof {
        assert(v@ =~= Seq::new(n as nat, |i: int| 0u8));
    }
    v
}

/// Paint every shape in order onto a zeroed accumulator.
fn paint_shapes(art: &VectorImage, m: Mapping, out_w: u32, out_h: u32) -> (r: Option<Vec<Acc>>)
    requires
        out_w >= 1,
        out_h >= 1,
        out_w * out_h <= usize::MAX,
    ensures
        match shapes_prefix(art@, m, out_w as int, out_h as int, art@.shapes.len()) {
            Some(a) => r matches Some(v) && v@ == a && acc_bounded(a),
            None => r is None,
        },
{
    let total = out_w as usize * out_h as usize;
    let ghost ow = out_w as int;
    let ghost oh = out_h as int;
    let mut acc: Vec<Acc> = Vec::new();
    while acc.len() < total
        invariant
            acc@.len() <= total,
            forall|i: int| 0 <= i < acc@.len() ==> acc@[i] == (0u32, 0u32, 0u32, 0u32),
        decreases total - acc@.len(),
    {
        acc.push((0, 0, 0, 0));
    }
    proof {
        assert(acc@ =~= Seq::new((ow * oh) as nat, |i: int| (0u32, 0u32, 0u32, 0u32)));
    }
    let mut i: usize = 0;
    while i < art.shapes.len()
        invariant
            0 <= i <= art@.shapes.len(),
            total == out_w * out_h,
            out_w >= 1,
            ow == out_w,
            oh == out_h,
            acc@.len() == total,
            acc_bounded(acc@),
            shapes_prefix(art@, m, ow, oh, i as nat) == Some(acc@),
        decreases art@.shapes.len() - i,
    {
        let shape = art.shapes[i];
        if shape.path as usize >= art.paths.len() {
            proof {
                lemma_shapes_none(art@, m, ow, oh, (i + 1) as nat, art@.shapes.len());
            }
            return None;
        }
        let edges = match build_edges(m, &art.paths[shape.path as usize]) {
            Some(e) => e,
            None => {
                proof {
                    lemma_shapes_none(art@, m, ow, oh, (i + 1) as nat, art@.shapes.len());
                }
                return None;
            },
        };
        let mut coverage = zeros_u8(total);
        if !fill_coverage(&edges, out_w, out_h, shape.fill_rule, &mut coverage) {
            proof {
                lemma_shapes_none(art@, m, ow, oh, (i + 1) as nat, art@.shapes.len());
            }
            return None;
        }
        if !composite(art, shape, m, &coverage, out_w, out_h, &mut acc) {
            proof {
                lemma_shapes_none(art@, m, ow, oh, (i + 1) as nat, art@.shapes.len());
            }
            return None;
        }
        i = i + 1;
    }
    Some(acc)
}

/// Rasterize at (out_w, out_h), design space (design_w, design_h) units;
/// `None` where the fixed-width arithmetic would overflow or an index falls
/// outside its pool.
pub fn rasterize_checked(
    art: &VectorImage,
    design_w: u32,
    design_h: u32,
    out_w: u32,
    out_h: u32,
) -> (r: Option<Result<Vec<Rgba>, Error>>)
    ensures
        match raster_spec(art@, design_w, design_h, out_w, out_h) {
            Some(Ok(px)) => r matches Some(Ok(v)) && v@ == px,
            Some(Err(e)) => r == Some(Err::<Vec<Rgba>, Error>(e)),
            None => r is None,
        },
{
    if design_w == 0 || design_h == 0 || out_w == 0 || out_h == 0 {
        return Some(Err(Error::BadVector("zero dimension")));
    }
    let _total = (out_w as usize).checked_mul(out_h as usize)?;
    if art.scale >= 64 {
        return None;
    }
    let m = Mapping {
        num_x: out_w as i64 * SS * ONE,
        num_y: out_h as i64 * SS * ONE,
        den_x: (design_w as i64) << art.scale,
        den_y: (design_h as i64) << art.scale,
    };
    proof {
        assert(mapping_spec(art.scale, design_w, design_h, out_w, out_h) == Some(m));
    }
    let acc = paint_shapes(art, m, out_w, out_h)?;
    let mut out: Vec<Rgba> = Vec::new();
    let mut k: usize = 0;
    while k < acc.len()
        invariant
            0 <= k <= acc@.len(),
            acc_bounded(acc@),
            out@.len() == k,
            forall|j: int| 0 <= j < k ==> out@[j] == finish_px(acc@[j]),
        decreases acc@.len() - k,
    {
        let p = acc[k];
        out.push(finish_px_exec(p));
        k = k + 1;
    }
    proof {
        assert(out@ =~= acc@.map_values(|p: Acc| finish_px(p)));
    }
    Some(Ok(out))
}

/// Art without shapes renders every pixel transparent black.
pub proof fn lemma_empty_art_is_transparent(art: ArtView, dw: u32, dh: u32, ow: u32, oh: u32)
    requires
        art.shapes.len() == 0,
        art.scale < 64,
        dw > 0,
        dh > 0,
        ow > 0,
        oh > 0,
        ow * oh <= usize::MAX,
    ensures
        raster_spec(art, dw, dh, ow, oh) == Some(
            Ok::<Seq<Rgba>, Error>(
                Seq::new((ow * oh) as nat, |i: int| Rgba { r: 0, g: 0, b: 0, a: 0 }),
            ),
        ),
{
    let m = mapping_spec(art.scale, dw, dh, ow, oh).unwrap();
    let acc = shapes_prefix(art, m, ow as int, oh as int, 0);
    assert(finish_px((0u32, 0u32, 0u32, 0u32)) == Rgba { r: 0, g: 0, b: 0, a: 0 });
    assert(acc.unwrap().map_values(|p: Acc| finish_px(p)) =~= Seq::new(
        (ow * oh) as nat,
        |i: int| Rgba { r: 0, g: 0, b: 0, a: 0 },
    ));
}

/// Rasterize at (out_w, out_h). Design space is (design_w, design_h) units.
pub fn rasterize(
    art: &VectorImage,
    design_w: u32,
    design_h: u32,
    out_w: u32,
    out_h: u32,
) -> (res: Result<Vec<Rgba>, Error>)
    requires
        raster_spec(art@, design_w, design_h, out_w, out_h) is Some,
    ensures
        match raster_spec(art@, design_w, design_h, out_w, out_h) {
            Some(Ok(px)) => res matches Ok(v) && v@ == px,
            Some(Err(e)) => res == Err::<Vec<Rgba>, Error>(e),
            None => false,
        },
{
    match rasterize_checked(art, design_w, design_h, out_w, out_h) {
        Some(r) => r,
        None => {
            proof {
                assert(false);
            }
            Err(Error::BadVector("zero dimension"))
        },
    }
}

// ---- laws of filling and compositing ----

/// The fill rules depend on the winding number only through its size, not
/// its sign, so a path fills the same whichever way round it is drawn: a
/// winding of 0 is outside under both rules; even-odd alternates with each
/// crossing; whatever is inside under even-odd is inside under nonzero; and
/// under nonzero, winding further from zero never leaves the shape.
pub proof fn lemma_fill_rules(w: int)
    ensures
        !inside(0, FillRule::NonZero),
        !inside(0, FillRule::EvenOdd),
        inside(-w, FillRule::NonZero) == inside(w, FillRule::NonZero),
        inside(-w, FillRule::EvenOdd) == inside(w, FillRule::EvenOdd),
        inside(w + 1, FillRule::EvenOdd) != inside(w, FillRule::EvenOdd),
        inside(w, FillRule::EvenOdd) ==> inside(w, FillRule::NonZero),
        w > 0 && inside(w, FillRule::NonZero) ==> inside(w + 1, FillRule::NonZero),
{
    vstd::arithmetic::div_mod::lemma_fundamental_div_mod(w, 2);
    vstd::arithmetic::div_mod::lemma_fundamental_div_mod(-w, 2);
    vstd::arithmetic::div_mod::lemma_fundamental_div_mod(w + 1, 2);
}

/// Every nonzero winding is inside under nonzero, whichever its sign: one
/// crossing from outside is inside, and further windings stay inside.
pub proof fn lemma_nonzero_fills_both_orientations(w: int)
    requires
        w != 0,
    ensures
        inside(w, FillRule::NonZero),
        inside(-w, FillRule::NonZero),
    decreases if w < 0 { -w } else { w },
{
    lemma_fill_rules(0);
    lemma_fill_rules(w);
    if w == 1 || w == -1 {
        lemma_fill_rules(1);
    } else if w > 1 {
        lemma_nonzero_fills_both_orientations(w - 1);
        lemma_fill_rules(w - 1);
    } else {
        lemma_nonzero_fills_both_orientations(-w - 1);
        lemma_fill_rules(-w - 1);
    }
}

/// "Over" compositing: painting at alpha 0 keeps the destination, at alpha
/// 255 replaces it, and in between keeps (255 - a) / 255 of the
/// premultiplied destination beside a / 255 of the colour, to within the
/// rounding of one step; so an opaque destination stays opaque, and a
/// brighter destination never gives a darker result.
pub proof fn lemma_blend_is_over(c: int, a: int, d: int, d2: int)
    requires
        0 <= c <= 255,
        0 <= a <= 255,
        0 <= d <= d2 <= 65025,
    ensures
        blend(c, 0, d) == d,
        blend(c, 255, d) == c * 255,
        255 * c * a + d * (255 - a) - 127 <= 255 * blend(c, a, d) <= 255 * c * a + d * (255 - a)
            + 127,
        blend(255, a, 65025) == 65025,
        blend(c, a, d) <= blend(c, a, d2),
{
    vstd::arithmetic::div_mod::lemma_fundamental_div_mod(d * 255 + 127, 255);
    vstd::arithmetic::div_mod::lemma_fundamental_div_mod_converse(d * 255 + 127, 255, d, 127);
    vstd::arithmetic::div_mod::lemma_fundamental_div_mod_converse(127, 255, 0, 127);
    let x = d * (255 - a) + 127;
    vstd::arithmetic::div_mod::lemma_fundamental_div_mod(x, 255);
    assert(0 <= d * (255 - a)) by (nonlinear_arith)
        requires
            0 <= d,
            a <= 255,
    ;
    assert(d * (255 - a) <= d2 * (255 - a)) by (nonlinear_arith)
        requires
            d <= d2,
            a <= 255,
    ;
    vstd::arithmetic::div_mod::lemma_div_is_ordered(x, d2 * (255 - a) + 127, 255);
    assert(65025 * (255 - a) + 127 == 255 * (255 * (255 - a)) + 127) by (nonlinear_arith);
    vstd::arithmetic::div_mod::lemma_fundamental_div_mod_converse(
        65025 * (255 - a) + 127,
        255,
        255 * (255 - a),
        127,
    );
    assert(255 * a + 255 * (255 - a) == 65025) by (nonlinear_arith);
    assert(255 * blend(c, a, d) == 255 * (c * a) + 255 * (x / 255)) by (nonlinear_arith)
        requires
            blend(c, a, d) == c * a + x / 255,
    ;
    assert(255 * c * a == 255 * (c * a)) by (nonlinear_arith);
}

/// Painting a shape over a pixel keeps an opaque pixel opaque, and keeps
/// every channel of the pixel bounded.
pub proof fn lemma_paint_keeps_opaque(
    art: ArtView,
    style: Style,
    m: Mapping,
    cov: u8,
    x: int,
    y: int,
    dst: Acc,
)
    requires
        dst.3 == 65025,
    ensures
        composite_px(art, style, m, cov, x, y, dst) matches Some(p) ==> p.3 == 65025,
{
    if cov != 0 {
        let px = ((x * 4 + 2) * 65536) as i64;
        let py = ((y * 4 + 2) * 65536) as i64;
        if let Some(color) = style_spec(art, style, m, px, py) {
            let a = (color.a * cov + 8) / 16;
            if 1 <= a <= 255 {
                lemma_blend_is_over(255, a, 65025, 65025);
            }
        }
    }
}

/// Painting a whole shape keeps every opaque pixel of the accumulator
/// opaque.
pub proof fn lemma_composite_keeps_opaque(
    art: ArtView,
    style: Style,
    m: Mapping,
    cov: Seq<u8>,
    w: int,
    acc: Seq<Acc>,
    n: nat,
    k: int,
)
    requires
        0 <= k < acc.len(),
        n <= acc.len(),
        acc[k].3 == 65025,
    ensures
        composite_prefix(art, style, m, cov, w, acc, n) matches Some(out) ==> out.len() == acc.len()
            && out[k].3 == 65025,
    decreases n,
{
    if n > 0 {
        lemma_composite_keeps_opaque(art, style, m, cov, w, acc, (n - 1) as nat, k);
        match composite_prefix(art, style, m, cov, w, acc, (n - 1) as nat) {
            Some(a) => {
                let j = n - 1;
                lemma_paint_keeps_opaque(art, style, m, cov[j], j % w, j / w, a[k]);
                match composite_px(art, style, m, cov[j], j % w, j / w, a[j]) {
                    Some(p) => {
                        if j == k {
                            assert(a.update(j, p)[k] == p);
                        } else if 0 <= j < a.len() {
                            assert(a.update(j, p)[k] == a[k]);
                        }
                    },
                    None => {},
                }
            },
            None => {},
        }
    }
}

/// Painting one shape, as the rasterizer does after the first `n - 1`,
/// keeps the size of the accumulator and every opaque pixel opaque.
#[verifier::spinoff_prover]
proof fn lemma_shape_step(art: ArtView, m: Mapping, ow: int, oh: int, n: nat, acc: Seq<Acc>, k: int)
    requires
        n >= 1,
        ow >= 0,
        oh >= 0,
        shapes_prefix(art, m, ow, oh, (n - 1) as nat) == Some(acc),
        acc.len() == ow * oh,
    ensures
        shapes_prefix(art, m, ow, oh, n) matches Some(out) ==> out.len() == ow * oh && (0 <= k
            < acc.len() && acc[k].3 == 65025 ==> out[k].3 == 65025),
{
    let shape = art.shapes[n - 1];
    if shape.path < art.paths.len() && shape.style < art.styles.len() {
        match edges_spec(m, art.paths[shape.path as int]) {
            Some(edges) => match coverage_spec(edges, ow, oh, shape.fill_rule) {
                Some(cov) => {
                    let style = art.styles[shape.style as int];
                    lemma_composite_len(art, style, m, cov, ow, acc, (ow * oh) as nat);
                    if 0 <= k < acc.len() && acc[k].3 == 65025 {
                        lemma_composite_keeps_opaque(art, style, m, cov, ow, acc, (ow * oh) as nat, k);
                    }
                },
                None => {},
            },
            None => {},
        }
    }
}

/// Painting a shape keeps the size of the accumulator.
proof fn lemma_composite_len(
    art: ArtView,
    style: Style,
    m: Mapping,
    cov: Seq<u8>,
    w: int,
    acc: Seq<Acc>,
    n: nat,
)
    requires
        n <= acc.len(),
    ensures
        composite_prefix(art, style, m, cov, w, acc, n) matches Some(out) ==> out.len() == acc.len(),
    decreases n,
{
    if n > 0 {
        lemma_composite_len(art, style, m, cov, w, acc, (n - 1) as nat);
    }
}

/// The rasterizer's accumulator has one entry per output pixel.
proof fn lemma_shapes_len(art: ArtView, m: Mapping, ow: int, oh: int, n: nat)
    requires
        ow >= 0,
        oh >= 0,
    ensures
        shapes_prefix(art, m, ow, oh, n) matches Some(acc) ==> acc.len() == ow * oh,
    decreases n,
{
    if n > 0 {
        lemma_shapes_len(art, m, ow, oh, (n - 1) as nat);
        if let Some(acc) = shapes_prefix(art, m, ow, oh, (n - 1) as nat) {
            lemma_shape_step(art, m, ow, oh, n, acc, 0);
        }
    } else {
        assert(ow * oh >= 0) by (nonlinear_arith)
            requires
                ow >= 0,
                oh >= 0,
        ;
    }
}

/// Once a pixel of the rendering is opaque, every later shape leaves it
/// opaque: shapes are composited "over" what lies beneath.
pub proof fn lemma_shapes_keep_opaque(
    art: ArtView,
    m: Mapping,
    ow: int,
    oh: int,
    n0: nat,
    n: nat,
    k: int,
)
    requires
        n0 <= n,
        ow >= 0,
        oh >= 0,
        shapes_prefix(art, m, ow, oh, n0) matches Some(acc) && 0 <= k < acc.len() && acc[k].3 == 65025,
    ensures
        shapes_prefix(art, m, ow, oh, n) matches Some(acc) ==> 0 <= k < acc.len() && acc[k].3 == 65025,
    decreases n,
{
    if n > n0 {
        lemma_shapes_keep_opaque(art, m, ow, oh, n0, (n - 1) as nat, k);
        lemma_shapes_len(art, m, ow, oh, (n - 1) as nat);
        if let Some(acc) = shapes_prefix(art, m, ow, oh, (n - 1) as nat) {
            lemma_shape_step(art, m, ow, oh, n, acc, k);
        }
    }
}

/// An opaque accumulator pixel comes out with alpha 255.
pub proof fn lemma_opaque_finishes_opaque(p: Acc)
    requires
        p.3 == 65025,
    ensures
        finish_px(p).a == 255,
{
}

/// A shape without edges covers nothing: every row keeps its zero
/// coverage.
pub proof fn lemma_no_edges_no_coverage(out_w: int, out_h: int, rule: FillRule, n: nat)
    ensures
        fill_prefix(Seq::<Edge>::empty(), out_w, out_h, rule, n) == Some(
            Seq::new((out_w * out_h) as nat, |i: int| 0u8),
        ),
    decreases n,
{
    if n > 0 {
        lemma_no_edges_no_coverage(out_w, out_h, rule, (n - 1) as nat);
        let e = Seq::<Edge>::empty();
        let ys = n - 1;
        assert(crossings_prefix(e, ys * 65536 + 32768, 0) == Some(Seq::<Crossing>::empty()));
        assert(sort_spec(Seq::<Crossing>::empty()) == Seq::<Crossing>::empty());
    }
}

} // verus!
