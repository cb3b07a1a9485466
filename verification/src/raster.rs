//! Raster payload codec: the image is cut into 256 x 256 tiles, each coded
//! independently as an op stream; the payload is a tile directory followed by
//! the streams.

use vstd::prelude::*;
use crate::crc::concat_parts;
use crate::error::Error;
use crate::le::{le32, from_le32, put_u32, read_u32, lemma_le32_roundtrip, lemma_from_le32_window};
use crate::pixel::{Rgba, zero_px};
use crate::tile::{
    encode_tile_spec, decode_tile_spec, extract_tile, lemma_encode_tile_roundtrip, encode_tile,
    decode_tile,
};

verus! {

pub const TILE_SIZE: usize = 256;

/// Number of tiles needed to cover `n` pixels along one axis.
pub open spec fn tiles_across(n: int) -> int {
    n / 256 + if n % 256 == 0 { 0int } else { 1int }
}

/// Number of tiles of a `w` x `h` image.
pub open spec fn tile_count(w: int, h: int) -> int {
    tiles_across(w) * tiles_across(h)
}

/// Tile `k` in row-major order: (x, y, width, height) in pixels; edge tiles
/// are cut short by the image border.
pub open spec fn tile_rect(w: int, h: int, k: int) -> (int, int, int, int) {
    let tx = (k % tiles_across(w)) * 256;
    let ty = (k / tiles_across(w)) * 256;
    (tx, ty, if w - tx < 256 { w - tx } else { 256 }, if h - ty < 256 { h - ty } else { 256 })
}

pub open spec fn rect_is(r: (usize, usize, usize, usize), s: (int, int, int, int)) -> bool {
    r.0 as int == s.0 && r.1 as int == s.1 && r.2 as int == s.2 && r.3 as int == s.3
}

/// A tile index below `tiles_across(n)` starts inside the image.
pub proof fn lemma_tiles_across(n: int, i: int)
    requires
        0 <= n,
        0 <= i,
    ensures
        i < tiles_across(n) <==> i * 256 < n,
        tiles_across(n) * 256 < n + 256,
        tiles_across(n) >= 0,
        n > 0 ==> tiles_across(n) >= 1,
{
    let q = n / 256;
    let r = n % 256;
    vstd::arithmetic::div_mod::lemma_fundamental_div_mod(n, 256);
    assert(0 <= r < 256);
    assert(n == 256 * q + r);
    assert(q >= 0) by (nonlinear_arith)
        requires
            n == 256 * q + r,
            0 <= r < 256,
            n >= 0,
    ;
    assert(i < tiles_across(n) <==> i * 256 < n) by (nonlinear_arith)
        requires
            n == 256 * q + r,
            0 <= r < 256,
            tiles_across(n) == q + if r == 0 { 0int } else { 1int },
            i >= 0,
    ;
}

/// Tile rectangles in row-major order: (x, y, width, height) in pixels.
fn tile_rects(width: u32, height: u32) -> (rects: Vec<(usize, usize, usize, usize)>)
    ensures
        rects@.len() == tile_count(width as int, height as int),
        forall|k: int|
            0 <= k < rects@.len() ==> rect_is(
                #[trigger] rects@[k],
                tile_rect(width as int, height as int, k),
            ),
{
    let w = width as usize;
    let h = height as usize;
    let ntx: usize = w / TILE_SIZE + if w % TILE_SIZE != 0 { 1 } else { 0 };
    let nty: usize = h / TILE_SIZE + if h % TILE_SIZE != 0 { 1 } else { 0 };
    let mut rects: Vec<(usize, usize, usize, usize)> = Vec::new();
    let mut j: usize = 0;
    while j < nty
        invariant
            w == width,
            h == height,
            ntx == tiles_across(w as int),
            nty == tiles_across(h as int),
            j <= nty,
            rects@.len() == j * ntx,
            forall|k: int|
                0 <= k < rects@.len() ==> rect_is(#[trigger] rects@[k], tile_rect(w as int, h as int, k)),
        decreases nty - j,
    {
        proof {
            lemma_tiles_across(h as int, j as int);
        }
        let y = j * TILE_SIZE;
        let th = if h - y < TILE_SIZE { h - y } else { TILE_SIZE };
        let mut i: usize = 0;
        while i < ntx
            invariant
                w == width,
                h == height,
                ntx == tiles_across(w as int),
                nty == tiles_across(h as int),
                j < nty,
                y == j * 256,
                y < h,
                th == if h - y < 256 { h - y } else { 256 },
                i <= ntx,
                rects@.len() == j * ntx + i,
                forall|k: int|
                    0 <= k < rects@.len() ==> rect_is(#[trigger] rects@[k], tile_rect(w as int, h as int, k)),
            decreases ntx - i,
        {
            proof {
                lemma_tiles_across(w as int, i as int);
                vstd::arithmetic::div_mod::lemma_fundamental_div_mod_converse(
                    (j * ntx + i) as int,
                    ntx as int,
                    j as int,
                    i as int,
                );
            }
            let x = i * TILE_SIZE;
            let tw = if w - x < TILE_SIZE { w - x } else { TILE_SIZE };
            rects.push((x, y, tw, th));
            i = i + 1;
        }
        proof {
            assert((j + 1) * ntx == j * ntx + ntx) by (nonlinear_arith);
        }
        j = j + 1;
    }
    proof {
        assert(tile_count(width as int, height as int) == nty * ntx) by (nonlinear_arith)
            requires
                tile_count(width as int, height as int) == tiles_across(w as int) * tiles_across(h as int),
                ntx == tiles_across(w as int),
                nty == tiles_across(h as int),
        ;
    }
    rects
}

/// The op stream of every tile, in row-major tile order.
pub open spec fn tile_streams(pixels: Seq<Rgba>, w: int, h: int) -> Seq<Seq<u8>> {
    Seq::new(
        tile_count(w, h) as nat,
        |k: int|
            {
                let r = tile_rect(w, h, k);
                encode_tile_spec(extract_tile(pixels, w, r.0, r.1, r.2, r.3), r.2)
            },
    )
}

/// The tile directory: each stream's byte length as a little-endian u32.
pub open spec fn directory(streams: Seq<Seq<u8>>) -> Seq<u8>
    decreases streams.len(),
{
    if streams.len() == 0 {
        Seq::empty()
    } else {
        directory(streams.drop_last()) + le32(streams.last().len() as u32)
    }
}

/// The RAST payload of a `w` x `h` image: tile count, directory, streams.
pub open spec fn raster_encode_spec(pixels: Seq<Rgba>, w: int, h: int) -> Seq<u8> {
    let streams = tile_streams(pixels, w, h);
    le32(streams.len() as u32) + directory(streams) + concat_parts(streams)
}

/// Append `bytes` to `out`.
pub fn append_bytes(out: &mut Vec<u8>, bytes: &[u8])
    ensures
        final(out)@ == old(out)@ + bytes@,
{
    let mut i: usize = 0;
    while i < bytes.len()
        invariant
            i <= bytes@.len(),
            out@ == old(out)@ + bytes@.take(i as int),
        decreases bytes.len() - i,
    {
        out.push(bytes[i]);
        i = i + 1;
        proof {
            assert(out@ =~= old(out)@ + bytes@.take(i as int));
        }
    }
    proof {
        assert(bytes@.take(bytes@.len() as int) =~= bytes@);
    }
}

proof fn lemma_rect_fits(w: int, h: int, k: int)
    requires
        0 <= w,
        0 <= h,
        0 <= k < tile_count(w, h),
    ensures
        ({
            let r = tile_rect(w, h, k);
            &&& 0 <= r.0
            &&& 0 <= r.1
            &&& 0 < r.2 <= 256
            &&& 0 < r.3 <= 256
            &&& r.0 + r.2 <= w
            &&& r.1 + r.3 <= h
        }),
{
    let ntx = tiles_across(w);
    let nty = tiles_across(h);
    lemma_tiles_across(w, 0);
    lemma_tiles_across(h, 0);
    assert(ntx > 0) by (nonlinear_arith)
        requires
            k < ntx * nty,
            0 <= k,
            ntx >= 0,
            nty >= 0,
    ;
    vstd::arithmetic::div_mod::lemma_fundamental_div_mod(k, ntx);
    let i = k % ntx;
    let j = k / ntx;
    assert(0 <= j < nty) by (nonlinear_arith)
        requires
            k == ntx * j + i,
            0 <= i < ntx,
            0 <= k < ntx * nty,
    ;
    lemma_tiles_across(w, i);
    lemma_tiles_across(h, j);
}

/// Encode a full image into a RAST chunk payload.
pub fn encode(pixels: &[Rgba], width: u32, height: u32) -> (out: Vec<u8>)
    requires
        pixels@.len() >= width * height,
    ensures
        out@ == raster_encode_spec(pixels@, width as int, height as int),
{
    let rects = tile_rects(width, height);
    let w = width as usize;
    let ghost streams_spec = tile_streams(pixels@, width as int, height as int);
    let mut streams: Vec<Vec<u8>> = Vec::new();
    let mut k: usize = 0;
    while k < rects.len()
        invariant
            w == width,
            pixels@.len() >= width * height,
            rects@.len() == tile_count(width as int, height as int),
            forall|k: int|
                0 <= k < rects@.len() ==> rect_is(
                    #[trigger] rects@[k],
                    tile_rect(width as int, height as int, k),
                ),
            streams_spec == tile_streams(pixels@, width as int, height as int),
            k <= rects@.len(),
            streams@.len() == k,
            forall|j: int| 0 <= j < k ==> (#[trigger] streams@[j])@ == streams_spec[j],
        decreases rects.len() - k,
    {
        let (x, y, tw, th) = rects[k];
        proof {
            lemma_rect_fits(width as int, height as int, k as int);
            assert((y + th) * w <= width * height) by (nonlinear_arith)
                requires
                    y + th <= height,
                    w == width,
            ;
        }
        let s = encode_tile(pixels, w, x, y, tw, th);
        streams.push(s);
        k = k + 1;
    }
    let mut out: Vec<u8> = Vec::new();
    put_u32(&mut out, streams.len() as u32);
    let ghost views = streams@.map_values(|v: Vec<u8>| v@);
    proof {
        assert(views =~= streams_spec);
        assert(views.take(0) =~= Seq::<Seq<u8>>::empty());
    }
    let mut k: usize = 0;
    while k < streams.len()
        invariant
            views == streams@.map_values(|v: Vec<u8>| v@),
            k <= streams@.len(),
            out@ == le32(streams@.len() as u32) + directory(views.take(k as int)),
        decreases streams.len() - k,
    {
        put_u32(&mut out, streams[k].len() as u32);
        proof {
            assert(views.take(k + 1).drop_last() =~= views.take(k as int));
            assert(views.take(k + 1).last() == streams@[k as int]@);
        }
        k = k + 1;
    }
    proof {
        assert(views.take(streams@.len() as int) =~= views);
    }
    let ghost head = out@;
    let mut k: usize = 0;
    while k < streams.len()
        invariant
            views == streams@.map_values(|v: Vec<u8>| v@),
            k <= streams@.len(),
            out@ == head + concat_parts(views.take(k as int)),
        decreases streams.len() - k,
    {
        append_bytes(&mut out, streams[k].as_slice());
        proof {
            assert(views.take(k + 1).drop_last() =~= views.take(k as int));
            assert(views.take(k + 1).last() == streams@[k as int]@);
            assert(out@ =~= head + concat_parts(views.take(k + 1)));
        }
        k = k + 1;
    }
    proof {
        assert(views.take(streams@.len() as int) =~= views);
    }
    out
}


// ---- decode ----

/// The tile that holds pixel `p` of an image `w` wide.
pub open spec fn tile_of(w: int, p: int) -> int {
    ((p / w) / 256) * tiles_across(w) + (p % w) / 256
}

/// The position of pixel `p` inside its tile.
pub open spec fn local_of(w: int, h: int, p: int) -> int {
    ((p / w) % 256) * tile_rect(w, h, tile_of(w, p)).2 + (p % w) % 256
}

/// The image put together from its decoded tiles.
pub open spec fn assemble(tiles: Seq<Seq<Rgba>>, w: int, h: int) -> Seq<Rgba> {
    Seq::new((w * h) as nat, |p: int| tiles[tile_of(w, p)][local_of(w, h, p)])
}

/// The first `k` tiles of a RAST payload decoded in order, with the byte
/// position after the last one; or the first error met.
pub open spec fn decode_tiles(data: Seq<u8>, w: int, h: int, k: nat) -> Result<
    (Seq<Seq<Rgba>>, int),
    Error,
>
    decreases k,
{
    if k == 0 {
        Ok((Seq::empty(), 4 + 4 * tile_count(w, h)))
    } else {
        match decode_tiles(data, w, h, (k - 1) as nat) {
            Err(e) => Err(e),
            Ok((ts, cur)) => {
                let len = from_le32(data, 4 + 4 * (k - 1)) as int;
                if cur + len > data.len() {
                    Err(Error::Truncated)
                } else {
                    let r = tile_rect(w, h, k - 1);
                    match decode_tile_spec(data.subrange(cur, cur + len), r.2, r.3) {
                        Err(e) => Err(e),
                        Ok(t) => Ok((ts.push(t), cur + len)),
                    }
                }
            },
        }
    }
}

/// What a RAST payload decodes to for a `w` x `h` image.
pub open spec fn raster_decode_spec(data: Seq<u8>, w: int, h: int) -> Result<Seq<Rgba>, Error> {
    let n = tile_count(w, h);
    if data.len() < 4 {
        Err(Error::Truncated)
    } else if from_le32(data, 0) as int != n {
        Err(Error::BadOpStream("tile count does not match dimensions"))
    } else if data.len() < 4 + 4 * n {
        Err(Error::Truncated)
    } else {
        match decode_tiles(data, w, h, n as nat) {
            Err(e) => Err(e),
            Ok((ts, cur)) => if cur != data.len() {
                Err(Error::BadOpStream("trailing bytes after last tile"))
            } else {
                Ok(assemble(ts, w, h))
            },
        }
    }
}

proof fn lemma_dec_tile_len(s: Seq<u8>, i: int, px: Seq<Rgba>, tw: int, total: int)
    requires
        px.len() <= total,
    ensures
        dec_tile_ok_len(s, i, px, tw, total),
    decreases total - px.len(),
{
    if px.len() < total {
        crate::tile::lemma_op_step_grows(s, i, px, tw, total);
        match crate::tile::op_step(s, i, px, tw, total) {
            Err(e) => {},
            Ok((i2, px2)) => {
                lemma_dec_tile_len(s, i2, px2, tw, total);
            },
        }
    }
}

pub open spec fn dec_tile_ok_len(s: Seq<u8>, i: int, px: Seq<Rgba>, tw: int, total: int) -> bool {
    crate::tile::dec_tile(s, i, px, tw, total) matches Ok(t) ==> t.len() == total
}

/// Where pixel `p` lives: its tile exists and its local position is inside
/// that tile.
proof fn lemma_tile_of(w: int, h: int, p: int)
    requires
        0 < w,
        0 < h,
        0 <= p < w * h,
    ensures
        0 <= tile_of(w, p) < tile_count(w, h),
        ({
            let r = tile_rect(w, h, tile_of(w, p));
            &&& 0 <= local_of(w, h, p) < r.2 * r.3
            &&& r.0 + (p % w) % 256 == p % w
            &&& r.1 + (p / w) % 256 == p / w
            &&& (p % w) % 256 < r.2
            &&& (p / w) % 256 < r.3
        }),
{
    let x = p % w;
    let y = p / w;
    vstd::arithmetic::div_mod::lemma_fundamental_div_mod(p, w);
    assert(0 <= x < w);
    assert(0 <= y < h) by (nonlinear_arith)
        requires
            p == w * y + x,
            0 <= x < w,
            0 <= p < w * h,
    ;
    let ntx = tiles_across(w);
    let nty = tiles_across(h);
    let i = x / 256;
    let j = y / 256;
    vstd::arithmetic::div_mod::lemma_fundamental_div_mod(x, 256);
    vstd::arithmetic::div_mod::lemma_fundamental_div_mod(y, 256);
    assert(0 <= i && 0 <= j) by (nonlinear_arith)
        requires
            x == 256 * i + x % 256,
            0 <= x % 256 < 256,
            y == 256 * j + y % 256,
            0 <= y % 256 < 256,
            x >= 0,
            y >= 0,
    ;
    lemma_tiles_across(w, i);
    lemma_tiles_across(h, j);
    assert(i * 256 <= x);
    assert(j * 256 <= y);
    let k = j * ntx + i;
    assert(0 <= k < ntx * nty) by (nonlinear_arith)
        requires
            k == j * ntx + i,
            0 <= i < ntx,
            0 <= j < nty,
    ;
    vstd::arithmetic::div_mod::lemma_fundamental_div_mod_converse(k, ntx, j, i);
    let r = tile_rect(w, h, k);
    assert(r.0 == i * 256);
    assert(r.1 == j * 256);
    assert(x % 256 < r.2);
    assert(y % 256 < r.3);
    assert(0 <= local_of(w, h, p) < r.2 * r.3) by (nonlinear_arith)
        requires
            local_of(w, h, p) == (y % 256) * r.2 + x % 256,
            0 <= x % 256 < r.2,
            0 <= y % 256 < r.3,
    ;
}

proof fn lemma_decode_tiles_err(data: Seq<u8>, w: int, h: int, k: nat, m: nat)
    requires
        k <= m,
        decode_tiles(data, w, h, k) is Err,
    ensures
        decode_tiles(data, w, h, m) == decode_tiles(data, w, h, k),
    decreases m,
{
    if m > k {
        lemma_decode_tiles_err(data, w, h, k, (m - 1) as nat);
    }
}

/// Decode a RAST chunk payload into pixels for an image of the given size.
pub fn decode(data: &[u8], width: u32, height: u32) -> (res: Result<Vec<Rgba>, Error>)
    requires
        width * height <= usize::MAX,
    ensures
        match res {
            Ok(px) => raster_decode_spec(data@, width as int, height as int) == Ok::<
                Seq<Rgba>,
                Error,
            >(px@),
            Err(e) => raster_decode_spec(data@, width as int, height as int) == Err::<
                Seq<Rgba>,
                Error,
            >(e),
        },
{
    let ghost wi = width as int;
    let ghost hi = height as int;
    let rects = tile_rects(width, height);
    let n = rects.len();
    let mut cursor: usize = 0;
    let declared = read_u32(data, &mut cursor)? as usize;
    if declared != n {
        return Err(Error::BadOpStream("tile count does not match dimensions"));
    }
    let ghost first = from_le32(data@, 0);
    let mut lengths: Vec<usize> = Vec::new();
    let mut i: usize = 0;
    while i < declared
        invariant
            declared == n,
            wi == width,
            hi == height,
            n == tile_count(wi, hi),
            data@.len() >= 4,
            first == from_le32(data@, 0),
            first as int == n,
            i <= n,
            cursor == 4 + 4 * i,
            cursor <= data@.len(),
            lengths@.len() == i,
            forall|j: int| 0 <= j < i ==> #[trigger] lengths@[j] == from_le32(data@, 4 + 4 * j),
        decreases declared - i,
    {
        let len = match read_u32(data, &mut cursor) {
            Ok(v) => v,
            Err(e) => {
                proof {
                    assert(e == Error::Truncated);
                    assert(data@.len() < 4 + 4 * n);
                    assert(raster_decode_spec(data@, wi, hi) == Err::<Seq<Rgba>, Error>(Error::Truncated));
                }
                return Err(e);
            },
        };
        lengths.push(len as usize);
        i = i + 1;
    }
    let dlen = data.len();
    let mut tiles: Vec<Vec<Rgba>> = Vec::new();
    let ghost views: Seq<Seq<Rgba>> = Seq::empty();
    proof {
        assert(decode_tiles(data@, wi, hi, 0) == Ok::<(Seq<Seq<Rgba>>, int), Error>((views, cursor as int)));
    }
    let mut k: usize = 0;
    while k < n
        invariant
            wi == width,
            hi == height,
            n == tile_count(wi, hi),
            rects@.len() == n,
            forall|k: int| 0 <= k < rects@.len() ==> rect_is(#[trigger] rects@[k], tile_rect(wi, hi, k)),
            lengths@.len() == n,
            forall|j: int| 0 <= j < n ==> #[trigger] lengths@[j] == from_le32(data@, 4 + 4 * j),
            k <= n,
            cursor <= data@.len(),
            tiles@.len() == k,
            views.len() == k,
            forall|j: int| 0 <= j < k ==> (#[trigger] tiles@[j])@ == views[j],
            decode_tiles(data@, wi, hi, k as nat) == Ok::<(Seq<Seq<Rgba>>, int), Error>(
                (views, cursor as int),
            ),
            data@.len() >= 4 + 4 * n,
            dlen == data@.len(),
            from_le32(data@, 0) as int == n,
            forall|j: int| 0 <= j < k ==> (#[trigger] views[j]).len() == tile_rect(wi, hi, j).2 * tile_rect(wi, hi, j).3,
        decreases n - k,
    {
        let len = lengths[k];
        let end = match cursor.checked_add(len) {
            Some(e) => e,
            None => {
                proof {
                    lemma_decode_tiles_err(data@, wi, hi, (k + 1) as nat, n as nat);
                }
                return Err(Error::Truncated);
            },
        };
        if end > data.len() {
            proof {
                lemma_decode_tiles_err(data@, wi, hi, (k + 1) as nat, n as nat);
            }
            return Err(Error::Truncated);
        }
        let stream = &data[cursor..end];
        let (_, _, tw, th) = rects[k];
        proof {
            lemma_rect_fits(wi, hi, k as int);
        }
        let tile = match decode_tile(stream, tw, th) {
            Ok(t) => t,
            Err(e) => {
                proof {
                    lemma_decode_tiles_err(data@, wi, hi, (k + 1) as nat, n as nat);
                }
                return Err(e);
            },
        };
        proof {
            lemma_dec_tile_len(stream@, 0, Seq::empty(), tw as int, tw * th);
            views = views.push(tile@);
        }
        tiles.push(tile);
        cursor = end;
        k = k + 1;
    }
    if cursor != data.len() {
        return Err(Error::BadOpStream("trailing bytes after last tile"));
    }
    // Put the tiles together.
    let w = width as usize;
    let h = height as usize;
    let ntx: usize = w / TILE_SIZE + if w % TILE_SIZE != 0 { 1 } else { 0 };
    let total = w * h;
    let mut out: Vec<Rgba> = Vec::new();
    let mut p: usize = 0;
    while p < total
        invariant
            w == width,
            h == height,
            total == w * h,
            ntx == tiles_across(w as int),
            n == tile_count(w as int, h as int),
            rects@.len() == n,
            forall|k: int| 0 <= k < rects@.len() ==> rect_is(#[trigger] rects@[k], tile_rect(w as int, h as int, k)),
            tiles@.len() == n,
            views.len() == n,
            forall|j: int| 0 <= j < n ==> (#[trigger] tiles@[j])@ == views[j],
            forall|j: int| 0 <= j < n ==> (#[trigger] views[j]).len() == tile_rect(w as int, h as int, j).2 * tile_rect(w as int, h as int, j).3,
            p <= total,
            out@ == assemble(views, w as int, h as int).take(p as int),
        decreases total - p,
    {
        proof {
            lemma_tile_of(w as int, h as int, p as int);
        }
        let x = p % w;
        let y = p / w;
        let k = (y / TILE_SIZE) * ntx + x / TILE_SIZE;
        let tw = rects[k].2;
        proof {
            assert((y % 256) * tw <= 255 * 256) by (nonlinear_arith)
                requires y % 256 < 256, tw <= 256;
        }
        let local = (y % TILE_SIZE) * tw + x % TILE_SIZE;
        let v = tiles[k][local];
        out.push(v);
        p = p + 1;
        proof {
            assert(out@ =~= assemble(views, w as int, h as int).take(p as int));
        }
    }
    proof {
        assert(out@ =~= assemble(views, w as int, h as int));
    }
    Ok(out)
}


// ---- the payload round trip ----

proof fn lemma_directory(streams: Seq<Seq<u8>>, j: int)
    requires
        0 <= j < streams.len(),
    ensures
        directory(streams).len() == 4 * streams.len(),
        from_le32(directory(streams), 4 * j) == streams[j].len() as u32,
    decreases streams.len(),
{
    lemma_directory_len(streams);
    let d = directory(streams);
    if j == streams.len() - 1 {
        let x = streams.last().len() as u32;
        lemma_le32_roundtrip(x);
        lemma_directory_len(streams.drop_last());
        lemma_from_le32_window(d, le32(x), 4 * j, 0);
    } else {
        lemma_directory(streams.drop_last(), j);
        lemma_directory_len(streams.drop_last());
        lemma_from_le32_window(d, directory(streams.drop_last()), 4 * j, 4 * j);
    }
}

proof fn lemma_directory_len(streams: Seq<Seq<u8>>)
    ensures
        directory(streams).len() == 4 * streams.len(),
    decreases streams.len(),
{
    if streams.len() > 0 {
        lemma_directory_len(streams.drop_last());
    }
}

/// The concatenation of the first `k` parts is a prefix of the whole.
proof fn lemma_concat_prefix(s: Seq<Seq<u8>>, k: int)
    requires
        0 <= k <= s.len(),
    ensures
        concat_parts(s.take(k)).len() <= concat_parts(s).len(),
        concat_parts(s).subrange(0, concat_parts(s.take(k)).len() as int) == concat_parts(s.take(k)),
    decreases s.len(),
{
    if k == s.len() {
        assert(s.take(k) =~= s);
        assert(concat_parts(s).subrange(0, concat_parts(s).len() as int) =~= concat_parts(s));
    } else {
        lemma_concat_prefix(s.drop_last(), k);
        assert(s.drop_last().take(k) =~= s.take(k));
        let c = concat_parts(s.drop_last());
        assert(concat_parts(s) == c + s.last());
        assert((c + s.last()).subrange(0, concat_parts(s.take(k)).len() as int) =~= c.subrange(
            0,
            concat_parts(s.take(k)).len() as int,
        ));
    }
}

/// The first `k` tiles of an image, cut out of it.
pub open spec fn extracted_tiles(pixels: Seq<Rgba>, w: int, h: int, k: nat) -> Seq<Seq<Rgba>> {
    Seq::new(
        k,
        |j: int|
            {
                let r = tile_rect(w, h, j);
                extract_tile(pixels, w, r.0, r.1, r.2, r.3)
            },
    )
}

/// In a payload, stream `j` sits right after the streams before it.
proof fn lemma_stream_bytes(head: Seq<u8>, streams: Seq<Seq<u8>>, j: int)
    requires
        0 <= j < streams.len(),
    ensures
        ({
            let data = head + concat_parts(streams);
            let cur = (head.len() + concat_parts(streams.take(j)).len()) as int;
            &&& cur + streams[j].len() <= data.len()
            &&& data.subrange(cur, cur + streams[j].len() as int) == streams[j]
            &&& concat_parts(streams.take(j + 1)).len() == concat_parts(streams.take(j)).len()
                + streams[j].len()
        }),
{
    let data = head + concat_parts(streams);
    let cur = (head.len() + concat_parts(streams.take(j)).len()) as int;
    let len = streams[j].len() as int;
    lemma_concat_prefix(streams, j + 1);
    assert(streams.take(j + 1).drop_last() =~= streams.take(j));
    assert(streams.take(j + 1).last() == streams[j]);
    let ck = concat_parts(streams.take(j + 1));
    assert(ck == concat_parts(streams.take(j)) + streams[j]);
    assert forall|i: int| 0 <= i < len implies data.subrange(cur, cur + len)[i] == streams[j][i] by {
        assert(data[cur + i] == concat_parts(streams)[cur + i - head.len()]);
        assert(concat_parts(streams).subrange(0, ck.len() as int)[cur + i - head.len()]
            == ck[cur + i - head.len()]);
    }
    assert(data.subrange(cur, cur + len) =~= streams[j]);
}

/// Decoding the tiles of an encoded payload, one by one.
proof fn lemma_decode_encoded_tiles(pixels: Seq<Rgba>, w: int, h: int, k: nat)
    requires
        0 <= w,
        0 <= h,
        pixels.len() == w * h,
        tile_count(w, h) <= u32::MAX,
        k <= tile_count(w, h),
    ensures
        decode_tiles(raster_encode_spec(pixels, w, h), w, h, k) == Ok::<(Seq<Seq<Rgba>>, int), Error>(
            (
                extracted_tiles(pixels, w, h, k),
                4 + 4 * tile_count(w, h) + concat_parts(tile_streams(pixels, w, h).take(k as int)).len(),
            ),
        ),
    decreases k,
{
    let streams = tile_streams(pixels, w, h);
    let n = tile_count(w, h);
    let data = raster_encode_spec(pixels, w, h);
    let head = le32(n as u32) + directory(streams);
    lemma_directory_len(streams);
    assert(data == head + concat_parts(streams));
    if k == 0 {
        assert(streams.take(0) =~= Seq::<Seq<u8>>::empty());
        assert(extracted_tiles(pixels, w, h, 0) =~= Seq::<Seq<Rgba>>::empty());
    } else {
        let j = k - 1;
        lemma_decode_encoded_tiles(pixels, w, h, (k - 1) as nat);
        let cur = 4 + 4 * n + concat_parts(streams.take(j)).len();
        lemma_rect_fits(w, h, j);
        let r = tile_rect(w, h, j);
        let tile = extract_tile(pixels, w, r.0, r.1, r.2, r.3);
        assert(streams[j] == encode_tile_spec(tile, r.2));
        lemma_length_field(head, streams, n, j);
        crate::tile::lemma_encode_tile_len(tile, r.2);
        assert(r.2 * r.3 <= 65536) by (nonlinear_arith)
            requires
                0 < r.2 <= 256,
                0 < r.3 <= 256,
        ;
        let len = streams[j].len();
        assert(from_le32(data, 4 + 4 * j) as int == len);
        lemma_stream_bytes(head, streams, j);
        lemma_encode_tile_roundtrip(tile, r.2);
        assert(extracted_tiles(pixels, w, h, k) =~= extracted_tiles(pixels, w, h, j as nat).push(tile));
    }
}

proof fn lemma_length_field(head: Seq<u8>, streams: Seq<Seq<u8>>, n: int, j: int)
    requires
        0 <= j < streams.len(),
        n == streams.len(),
        head == le32(n as u32) + directory(streams),
    ensures
        from_le32(head + concat_parts(streams), 4 + 4 * j) == streams[j].len() as u32,
{
    lemma_directory(streams, j);
    lemma_from_le32_window(head + concat_parts(streams), directory(streams), 4 + 4 * j, 4 * j);
}

/// Putting the extracted tiles back together gives the image.
proof fn lemma_assemble_extracted(pixels: Seq<Rgba>, w: int, h: int)
    requires
        0 <= w,
        0 <= h,
        pixels.len() == w * h,
    ensures
        assemble(extracted_tiles(pixels, w, h, tile_count(w, h) as nat), w, h) == pixels,
{
    let tiles = extracted_tiles(pixels, w, h, tile_count(w, h) as nat);
    let a = assemble(tiles, w, h);
    assert forall|p: int| 0 <= p < pixels.len() implies a[p] == pixels[p] by {
        assert(0 < w && 0 < h) by (nonlinear_arith)
            requires
                0 <= p < w * h,
                0 <= w,
                0 <= h,
        ;
        lemma_tile_of(w, h, p);
        let k = tile_of(w, p);
        let r = tile_rect(w, h, k);
        let x = p % w;
        let y = p / w;
        let local = local_of(w, h, p);
        vstd::arithmetic::div_mod::lemma_fundamental_div_mod(p, w);
        vstd::arithmetic::div_mod::lemma_fundamental_div_mod_converse(local, r.2, y % 256, x % 256);
        assert((r.1 + local / r.2) * w + r.0 + local % r.2 == p) by (nonlinear_arith)
            requires
                r.1 + y % 256 == y,
                r.0 + x % 256 == x,
                local / r.2 == y % 256,
                local % r.2 == x % 256,
                p == w * y + x,
        ;
    }
    assert(a =~= pixels);
}

/// Decoding an encoded image gives the image back.
pub proof fn lemma_raster_roundtrip(pixels: Seq<Rgba>, w: u32, h: u32)
    requires
        pixels.len() == w * h,
        tile_count(w as int, h as int) <= u32::MAX,
    ensures
        raster_decode_spec(raster_encode_spec(pixels, w as int, h as int), w as int, h as int)
            == Ok::<Seq<Rgba>, Error>(pixels),
{
    let wi = w as int;
    let hi = h as int;
    let n = tile_count(wi, hi);
    let streams = tile_streams(pixels, wi, hi);
    let data = raster_encode_spec(pixels, wi, hi);
    lemma_directory_len(streams);
    lemma_le32_roundtrip(n as u32);
    let head = le32(n as u32) + directory(streams);
    assert(data == head + concat_parts(streams));
    lemma_from_le32_window(data, le32(n as u32), 0, 0);
    lemma_tiles_across(wi, 0);
    lemma_tiles_across(hi, 0);
    assert(n >= 0) by (nonlinear_arith)
        requires
            n == tiles_across(wi) * tiles_across(hi),
            tiles_across(wi) >= 0,
            tiles_across(hi) >= 0,
    ;
    lemma_decode_encoded_tiles(pixels, wi, hi, n as nat);
    assert(streams.take(n) =~= streams);
    lemma_assemble_extracted(pixels, wi, hi);
}


/// The payload holds at least the tile count and the directory.
pub proof fn lemma_payload_len(pixels: Seq<Rgba>, w: int, h: int)
    requires
        0 <= w,
        0 <= h,
    ensures
        raster_encode_spec(pixels, w, h).len() >= 4 + 4 * tile_count(w, h),
{
    let streams = tile_streams(pixels, w, h);
    lemma_directory_len(streams);
    lemma_tiles_across(w, 0);
    lemma_tiles_across(h, 0);
    assert(tile_count(w, h) >= 0) by (nonlinear_arith)
        requires
            tile_count(w, h) == tiles_across(w) * tiles_across(h),
            tiles_across(w) >= 0,
            tiles_across(h) >= 0,
    ;
}

} // verus!
