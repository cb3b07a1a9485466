//! One tile's op stream: the ops, the decoder state machine and the encoder
//! that drives it.

use vstd::prelude::*;
use crate::error::Error;
use crate::pixel::{Rgba, zero_px, hash_spec, predict_spec, predict_at, lemma_predict_reads_prefix, predict};

verus! {

pub const OP_INDEX: u8 = 0x00;
pub const OP_DIFF: u8 = 0x40;
pub const OP_LUMA: u8 = 0x80;
pub const OP_RUN: u8 = 0xC0;
pub const OP_RGB: u8 = 0xFE;
pub const OP_RGBA: u8 = 0xFF;
pub const MAX_RUN: u32 = 62;

/// The 64-slot index table after every pixel of `px` has been inserted in
/// order, starting from all zeros.
pub open spec fn index_after(px: Seq<Rgba>) -> Seq<Rgba>
    decreases px.len(),
{
    if px.len() == 0 {
        Seq::new(64, |i: int| zero_px())
    } else {
        index_after(px.drop_last()).update(hash_spec(px.last()), px.last())
    }
}

/// `n` more pixels, each equal to its own prediction.
pub open spec fn run_extend(px: Seq<Rgba>, tw: int, n: nat) -> Seq<Rgba>
    decreases n,
{
    if n == 0 {
        px
    } else {
        run_extend(px.push(predict_at(px, tw, px.len() as int)), tw, (n - 1) as nat)
    }
}

/// The pixel a DIFF op byte `b` stands for, given the prediction `p`.
pub open spec fn diff_px(p: Rgba, b: u8) -> Rgba {
    Rgba {
        r: p.r.wrapping_add(((b >> 4u8) & 3u8).wrapping_sub(2)),
        g: p.g.wrapping_add(((b >> 2u8) & 3u8).wrapping_sub(2)),
        b: p.b.wrapping_add((b & 3u8).wrapping_sub(2)),
        a: p.a,
    }
}

/// The pixel a LUMA op (`b`, `b2`) stands for, given the prediction `p`.
pub open spec fn luma_px(p: Rgba, b: u8, b2: u8) -> Rgba {
    let dg = (b & 0x3Fu8).wrapping_sub(32);
    let dr = dg.wrapping_add((b2 >> 4u8).wrapping_sub(8));
    let db = dg.wrapping_add((b2 & 0x0Fu8).wrapping_sub(8));
    Rgba { r: p.r.wrapping_add(dr), g: p.g.wrapping_add(dg), b: p.b.wrapping_add(db), a: p.a }
}

/// Decode the op starting at byte `i` of `s`, given the pixels `px` decoded so
/// far in a tile `tw` wide with `total` pixels: the position after the op and
/// the pixels decoded once it is applied.
pub open spec fn op_step(s: Seq<u8>, i: int, px: Seq<Rgba>, tw: int, total: int) -> Result<
    (int, Seq<Rgba>),
    Error,
> {
    if i < 0 || i >= s.len() {
        Err(Error::Truncated)
    } else {
        let b = s[i];
        let p = predict_at(px, tw, px.len() as int);
        if b == 0xFEu8 {
            if s.len() - i < 4 {
                Err(Error::Truncated)
            } else {
                Ok((i + 4, px.push(Rgba { r: s[i + 1], g: s[i + 2], b: s[i + 3], a: p.a })))
            }
        } else if b == 0xFFu8 {
            if i + 5 > s.len() {
                Err(Error::Truncated)
            } else {
                Ok((i + 5, px.push(Rgba { r: s[i + 1], g: s[i + 2], b: s[i + 3], a: s[i + 4] })))
            }
        } else if b >> 6u8 == 0 {
            Ok((i + 1, px.push(index_after(px)[(b & 0x3Fu8) as int])))
        } else if b >> 6u8 == 1 {
            Ok((i + 1, px.push(diff_px(p, b))))
        } else if b >> 6u8 == 2 {
            if i + 2 > s.len() {
                Err(Error::Truncated)
            } else {
                Ok((i + 2, px.push(luma_px(p, b, s[i + 1]))))
            }
        } else {
            let n = (b & 0x3Fu8) + 1;
            if px.len() + n > total {
                Err(Error::BadOpStream("run past end of tile"))
            } else {
                Ok((i + 1, run_extend(px, tw, n as nat)))
            }
        }
    }
}

/// A run of `n` predicted pixels adds `n` pixels and keeps the ones before it.
pub proof fn lemma_run_extend_len(px: Seq<Rgba>, tw: int, n: nat)
    ensures
        run_extend(px, tw, n).len() == px.len() + n,
        run_extend(px, tw, n).take(px.len() as int) == px,
    decreases n,
{
    if n > 0 {
        let q = px.push(predict_at(px, tw, px.len() as int));
        lemma_run_extend_len(q, tw, (n - 1) as nat);
        assert(run_extend(px, tw, n).take(px.len() as int) =~= q.take(q.len() as int).take(
            px.len() as int,
        ));
        assert(q.take(q.len() as int) =~= q);
        assert(q.take(px.len() as int) =~= px);
    }
}

/// A run of `a + b` predicted pixels is a run of `a` followed by a run of `b`.
pub proof fn lemma_run_extend_split(px: Seq<Rgba>, tw: int, a: nat, b: nat)
    ensures
        run_extend(px, tw, a + b) == run_extend(run_extend(px, tw, a), tw, b),
    decreases a,
{
    if a > 0 {
        let q = px.push(predict_at(px, tw, px.len() as int));
        lemma_run_extend_split(q, tw, (a - 1) as nat, b);
        assert((a + b - 1) as nat == (a - 1) as nat + b);
    }
}

/// A successful op adds at least one pixel and never overfills the tile.
pub proof fn lemma_op_step_grows(s: Seq<u8>, i: int, px: Seq<Rgba>, tw: int, total: int)
    requires
        px.len() < total,
    ensures
        op_step(s, i, px, tw, total) matches Ok((i2, px2)) ==> px.len() < px2.len() <= total && i < i2,
{
    if 0 <= i < s.len() {
        let b = s[i];
        if b != 0xFEu8 && b != 0xFFu8 && b >> 6u8 != 0 && b >> 6u8 != 1 && b >> 6u8 != 2 {
            let n = (b & 0x3Fu8) + 1;
            lemma_run_extend_len(px, tw, n as nat);
        }
    }
}

/// Decode the rest of a tile's op stream from byte `i`, given the pixels `px`
/// decoded so far: the tile's pixels, or the first error met.
pub open spec fn dec_tile(s: Seq<u8>, i: int, px: Seq<Rgba>, tw: int, total: int) -> Result<
    Seq<Rgba>,
    Error,
>
    decreases total - px.len(),
{
    if px.len() >= total {
        if i == s.len() {
            Ok(px)
        } else {
            Err(Error::BadOpStream("trailing bytes in tile stream"))
        }
    } else {
        match op_step(s, i, px, tw, total) {
            Err(e) => Err(e),
            Ok((i2, px2)) => {
                proof {
                    lemma_op_step_grows(s, i, px, tw, total);
                }
                dec_tile(s, i2, px2, tw, total)
            },
        }
    }
}

/// The decoded tile for a whole op stream.
pub open spec fn decode_tile_spec(s: Seq<u8>, tw: int, th: int) -> Result<Seq<Rgba>, Error> {
    dec_tile(s, 0, Seq::empty(), tw, tw * th)
}

proof fn lemma_index_after_len(px: Seq<Rgba>)
    ensures
        index_after(px).len() == 64,
    decreases px.len(),
{
    if px.len() > 0 {
        lemma_index_after_len(px.drop_last());
    }
}

proof fn lemma_pos_split(pos: int, tw: int)
    requires
        0 <= pos,
        0 < tw,
    ensures
        (pos / tw) * tw + pos % tw == pos,
        0 <= pos % tw < tw,
        0 <= pos / tw,
{
    vstd::arithmetic::div_mod::lemma_fundamental_div_mod(pos, tw);
    vstd::arithmetic::mul::lemma_mul_is_commutative(tw, pos / tw);
    vstd::arithmetic::div_mod::lemma_div_pos_is_pos(pos, tw);
}

/// A prediction on the decoder's full buffer equals the prediction on the
/// decoded prefix.
proof fn lemma_predict_buffer(buf: Seq<Rgba>, px: Seq<Rgba>, tw: int)
    requires
        0 < tw,
        px.len() <= buf.len(),
        forall|k: int| 0 <= k < px.len() ==> buf[k] == px[k],
    ensures
        predict_spec(buf, tw, (px.len() as int) % tw, (px.len() as int) / tw) == predict_at(px, tw, px.len() as int),
{
    let pos = px.len() as int;
    lemma_pos_split(pos, tw);
    lemma_predict_reads_prefix(buf, px, tw, pos % tw, pos / tw);
}

pub(crate) fn decode_tile(s: &[u8], tw: usize, th: usize) -> (res: Result<Vec<Rgba>, Error>)
    requires
        0 < tw <= 256,
        0 < th <= 256,
    ensures
        match res {
            Ok(t) => decode_tile_spec(s@, tw as int, th as int) == Ok::<Seq<Rgba>, Error>(t@),
            Err(e) => decode_tile_spec(s@, tw as int, th as int) == Err::<Seq<Rgba>, Error>(e),
        },
{
    proof {
        assert(tw * th <= 65536) by (nonlinear_arith)
            requires tw <= 256, th <= 256;
    }
    let total = tw * th;
    let mut tile: Vec<Rgba> = Vec::new();
    let mut k: usize = 0;
    while k < total
        invariant
            k <= total,
            tile@.len() == k,
            forall|j: int| 0 <= j < k ==> #[trigger] tile@[j] == zero_px(),
        decreases total - k,
    {
        tile.push(Rgba::default());
        k = k + 1;
    }
    let mut index: Vec<Rgba> = Vec::new();
    let mut k: usize = 0;
    while k < 64
        invariant
            k <= 64,
            index@.len() == k,
            forall|j: int| 0 <= j < k ==> #[trigger] index@[j] == zero_px(),
        decreases 64 - k,
    {
        index.push(Rgba::default());
        k = k + 1;
    }
    let mut pos: usize = 0;
    let mut i: usize = 0;
    let ghost px: Seq<Rgba> = Seq::empty();
    proof {
        assert(index@ =~= index_after(px));
    }
    while pos < total
        invariant
            total == tw * th,
            total <= 65536,
            0 < tw <= 256,
            pos == px.len(),
            pos <= total,
            i <= s@.len(),
            tile@.len() == total,
            forall|j: int| 0 <= j < pos ==> #[trigger] tile@[j] == px[j],
            index@ == index_after(px),
            dec_tile(s@, 0, Seq::empty(), tw as int, total as int) == dec_tile(
                s@,
                i as int,
                px,
                tw as int,
                total as int,
            ),
        decreases total - pos,
    {
        proof {
            lemma_index_after_len(px);
        }
        let ghost st = op_step(s@, i as int, px, tw as int, total as int);
        if i >= s.len() {
            return Err(Error::Truncated);
        }
        let b = s[i];
        i = i + 1;
        let ghost old_px = px;
        let x = pos % tw;
        let y = pos / tw;
        proof {
            lemma_pos_split(pos as int, tw as int);
            lemma_predict_buffer(tile@, px, tw as int);
        }

        if b == OP_RGB || b == OP_RGBA {
            let p = predict(tile.as_slice(), tw, x, y);
            let cur = if b == OP_RGB {
                if s.len() - i < 3 {
                    return Err(Error::Truncated);
                }
                let c = Rgba::new(s[i], s[i + 1], s[i + 2], p.a);
                i = i + 3;
                c
            } else {
                if s.len() - i < 4 {
                    return Err(Error::Truncated);
                }
                let c = Rgba::new(s[i], s[i + 1], s[i + 2], s[i + 3]);
                i = i + 4;
                c
            };
            tile.set(pos, cur);
            let slot = cur.hash();
            index.set(slot, cur);
            proof {
                let q = px.push(cur);
                assert(q.drop_last() =~= px);
                px = q;
            }
            pos = pos + 1;
        } else if b >> 6 == 0 {
            proof {
                assert(b & 0x3F < 64) by (bit_vector);
            }
            let cur = index[(b & 0x3F) as usize];
            tile.set(pos, cur);
            let slot = cur.hash();
            index.set(slot, cur);
            proof {
                let q = px.push(cur);
                assert(q.drop_last() =~= px);
                px = q;
            }
            pos = pos + 1;
        } else if b >> 6 == 1 {
            let p = predict(tile.as_slice(), tw, x, y);
            let dr = ((b >> 4) & 0x03).wrapping_sub(2);
            let dg = ((b >> 2) & 0x03).wrapping_sub(2);
            let db = (b & 0x03).wrapping_sub(2);
            let cur = Rgba::new(
                p.r.wrapping_add(dr),
                p.g.wrapping_add(dg),
                p.b.wrapping_add(db),
                p.a,
            );
            tile.set(pos, cur);
            let slot = cur.hash();
            index.set(slot, cur);
            proof {
                let q = px.push(cur);
                assert(q.drop_last() =~= px);
                px = q;
            }
            pos = pos + 1;
        } else if b >> 6 == 2 {
            if i >= s.len() {
                return Err(Error::Truncated);
            }
            let b2 = s[i];
            i = i + 1;
            let p = predict(tile.as_slice(), tw, x, y);
            let dg = (b & 0x3F).wrapping_sub(32);
            let dr = dg.wrapping_add((b2 >> 4).wrapping_sub(8));
            let db = dg.wrapping_add((b2 & 0x0F).wrapping_sub(8));
            let cur = Rgba::new(
                p.r.wrapping_add(dr),
                p.g.wrapping_add(dg),
                p.b.wrapping_add(db),
                p.a,
            );
            tile.set(pos, cur);
            let slot = cur.hash();
            index.set(slot, cur);
            proof {
                let q = px.push(cur);
                assert(q.drop_last() =~= px);
                px = q;
            }
            pos = pos + 1;
        } else {
            let n = (b & 0x3F) as usize + 1;
            if pos + n > total {
                return Err(Error::BadOpStream("run past end of tile"));
            }
            let ghost target = run_extend(old_px, tw as int, n as nat);
            let ghost pos0 = pos;
            let mut m: usize = 0;
            while m < n
                invariant
                    pos == pos0 + m,
                    total == tw * th,
                    0 < tw <= 256,
                    pos == px.len(),
                    pos + (n - m) <= total,
                    m <= n,
                    tile@.len() == total,
                    forall|j: int| 0 <= j < pos ==> #[trigger] tile@[j] == px[j],
                    index@ == index_after(px),
                    index@.len() == 64,
                    target == run_extend(px, tw as int, (n - m) as nat),
                decreases n - m,
            {
                let x = pos % tw;
                let y = pos / tw;
                proof {
                    lemma_pos_split(pos as int, tw as int);
                    lemma_predict_buffer(tile@, px, tw as int);
                }
                let p = predict(tile.as_slice(), tw, x, y);
                tile.set(pos, p);
                let slot = p.hash();
                index.set(slot, p);
                proof {
                    let q = px.push(p);
                    assert(q.drop_last() =~= px);
                    px = q;
                    assert(index@ =~= index_after(px));
                }
                pos = pos + 1;
                m = m + 1;
            }
        }
        proof {
            assert(index@ =~= index_after(px));
            assert(st == Ok::<(int, Seq<Rgba>), Error>((i as int, px)));
        }
    }
    proof {
        assert(tile@ =~= px);
    }
    if i != s.len() {
        return Err(Error::BadOpStream("trailing bytes in tile stream"));
    }
    Ok(tile)
}


// ---- encoder ----

/// The RUN op byte for `n` (1..=62) pixels that equal their predictions.
pub open spec fn run_byte(n: nat) -> u8 {
    0xC0u8 | ((n - 1) as u8)
}

/// The op the encoder emits for a pixel `cur` that differs from its
/// prediction `p`, with index table `idx`: INDEX if the slot holds it, DIFF,
/// LUMA, RGB or RGBA, first match wins.
pub open spec fn pixel_op(cur: Rgba, p: Rgba, idx: Seq<Rgba>) -> Seq<u8> {
    let slot = hash_spec(cur);
    if idx[slot] == cur {
        seq![slot as u8]
    } else if cur.a == p.a {
        let dr = cur.r.wrapping_sub(p.r) as i8;
        let dg = cur.g.wrapping_sub(p.g) as i8;
        let db = cur.b.wrapping_sub(p.b) as i8;
        let dr_dg = dr.wrapping_sub(dg);
        let db_dg = db.wrapping_sub(dg);
        if -2 <= dr <= 1 && -2 <= dg <= 1 && -2 <= db <= 1 {
            seq![0x40u8 | (((dr + 2) as u8) << 4u8) | (((dg + 2) as u8) << 2u8) | ((db + 2) as u8)]
        } else if -32 <= dg <= 31 && -8 <= dr_dg <= 7 && -8 <= db_dg <= 7 {
            seq![0x80u8 | ((dg + 32) as u8), (((dr_dg + 8) as u8) << 4u8) | ((db_dg + 8) as u8)]
        } else {
            seq![0xFEu8, cur.r, cur.g, cur.b]
        }
    } else {
        seq![0xFFu8, cur.r, cur.g, cur.b, cur.a]
    }
}

/// One encoder step on pixel `k` of `tile`: extend the pending run when the
/// pixel equals its prediction (flushing at 62), else flush the run and emit
/// the pixel's op.
pub open spec fn enc_step(st: (Seq<u8>, nat), tile: Seq<Rgba>, tw: int, k: int) -> (Seq<u8>, nat) {
    let out = st.0;
    let run = st.1;
    let cur = tile[k];
    let p = predict_at(tile, tw, k);
    if cur == p {
        if run + 1 == 62 {
            (out.push(run_byte(62)), 0)
        } else {
            (out, run + 1)
        }
    } else {
        let out1 = if run > 0 { out.push(run_byte(run)) } else { out };
        (out1 + pixel_op(cur, p, index_after(tile.take(k))), 0)
    }
}

/// Encoder state (bytes emitted, pending run) after the first `k` pixels.
pub open spec fn enc_prefix(tile: Seq<Rgba>, tw: int, k: nat) -> (Seq<u8>, nat)
    decreases k,
{
    if k == 0 {
        (Seq::empty(), 0)
    } else {
        enc_step(enc_prefix(tile, tw, (k - 1) as nat), tile, tw, k - 1)
    }
}

/// The op stream the encoder produces for a tile `tw` wide.
pub open spec fn encode_tile_spec(tile: Seq<Rgba>, tw: int) -> Seq<u8> {
    let st = enc_prefix(tile, tw, tile.len());
    if st.1 > 0 { st.0.push(run_byte(st.1)) } else { st.0 }
}

/// The pixels of the `tw` x `th` tile at (tx, ty) of an image with row
/// stride `img_w`, row-major.
pub open spec fn extract_tile(image: Seq<Rgba>, img_w: int, tx: int, ty: int, tw: int, th: int) -> Seq<Rgba> {
    Seq::new((tw * th) as nat, |j: int| image[(ty + j / tw) * img_w + tx + j % tw])
}

/// `s` starts with `out`.
pub open spec fn extends(s: Seq<u8>, out: Seq<u8>) -> bool {
    out.len() <= s.len() && s.subrange(0, out.len() as int) == out
}

/// Every stream that starts with `out` decodes, from its start, exactly as it
/// decodes from the end of `out` with `px` already decoded.
pub open spec fn decodes_to(out: Seq<u8>, px: Seq<Rgba>, tw: int, total: int) -> bool {
    forall|s: Seq<u8>| #[trigger] extends(s, out) ==> dec_tile(s, 0, Seq::empty(), tw, total)
        == dec_tile(s, out.len() as int, px, tw, total)
}

proof fn lemma_extends_append(s: Seq<u8>, out: Seq<u8>, op: Seq<u8>)
    requires
        extends(s, out + op),
    ensures
        extends(s, out),
        forall|j: int| 0 <= j < op.len() ==> s[out.len() + j] == op[j],
{
    assert(s.subrange(0, out.len() as int) =~= (out + op).subrange(0, out.len() as int));
    assert((out + op).subrange(0, out.len() as int) =~= out);
    assert forall|j: int| 0 <= j < op.len() implies s[out.len() + j] == op[j] by {
        assert(s.subrange(0, (out + op).len() as int)[out.len() + j] == (out + op)[out.len() + j]);
    }
}

proof fn lemma_diff_chan(c: u8, q: u8)
    requires
        -2 <= (c.wrapping_sub(q) as i8) <= 1,
    ensures
        (((c.wrapping_sub(q) as i8) + 2) as u8) < 4,
        q.wrapping_add((((c.wrapping_sub(q) as i8) + 2) as u8).wrapping_sub(2)) == c,
{
    assert((((c.wrapping_sub(q) as i8) + 2) as u8) < 4 && q.wrapping_add(
        (((c.wrapping_sub(q) as i8) + 2) as u8).wrapping_sub(2),
    ) == c) by (bit_vector)
        requires
            -2 <= (c.wrapping_sub(q) as i8) <= 1,
    ;
}

proof fn lemma_diff_byte(fr: u8, fg: u8, fb: u8)
    requires
        fr < 4,
        fg < 4,
        fb < 4,
    ensures
        ({
            let b = 0x40u8 | (fr << 4u8) | (fg << 2u8) | fb;
            &&& b >> 6u8 == 1
            &&& b != 0xFEu8
            &&& b != 0xFFu8
            &&& (b >> 4u8) & 3u8 == fr
            &&& (b >> 2u8) & 3u8 == fg
            &&& b & 3u8 == fb
        }),
{
    assert({
        let b = 0x40u8 | (fr << 4u8) | (fg << 2u8) | fb;
        &&& b >> 6u8 == 1
        &&& b != 0xFEu8
        &&& b != 0xFFu8
        &&& (b >> 4u8) & 3u8 == fr
        &&& (b >> 2u8) & 3u8 == fg
        &&& b & 3u8 == fb
    }) by (bit_vector)
        requires
            fr < 4,
            fg < 4,
            fb < 4,
    ;
}

proof fn lemma_luma_chans(cr: u8, cg: u8, qr: u8, qg: u8)
    requires
        -32 <= (cg.wrapping_sub(qg) as i8) <= 31,
        -8 <= (cr.wrapping_sub(qr) as i8).wrapping_sub(cg.wrapping_sub(qg) as i8) <= 7,
    ensures
        ({
            let dg = cg.wrapping_sub(qg) as i8;
            let dr_dg = (cr.wrapping_sub(qr) as i8).wrapping_sub(dg);
            let b = 0x80u8 | ((dg + 32) as u8);
            let hi = (dr_dg + 8) as u8;
            let dg2 = (b & 0x3Fu8).wrapping_sub(32);
            &&& b >> 6u8 == 2
            &&& b != 0xFEu8
            &&& b != 0xFFu8
            &&& hi < 16
            &&& qg.wrapping_add(dg2) == cg
            &&& qr.wrapping_add(dg2.wrapping_add(hi.wrapping_sub(8))) == cr
        }),
{
    assert({
        let dg = cg.wrapping_sub(qg) as i8;
        let dr_dg = (cr.wrapping_sub(qr) as i8).wrapping_sub(dg);
        let b = 0x80u8 | ((dg + 32) as u8);
        let hi = (dr_dg + 8) as u8;
        let dg2 = (b & 0x3Fu8).wrapping_sub(32);
        &&& b >> 6u8 == 2
        &&& b != 0xFEu8
        &&& b != 0xFFu8
        &&& hi < 16
        &&& qg.wrapping_add(dg2) == cg
        &&& qr.wrapping_add(dg2.wrapping_add(hi.wrapping_sub(8))) == cr
    }) by (bit_vector)
        requires
            -32 <= (cg.wrapping_sub(qg) as i8) <= 31,
            -8 <= (cr.wrapping_sub(qr) as i8).wrapping_sub(cg.wrapping_sub(qg) as i8) <= 7,
    ;
}

proof fn lemma_luma_second(hi: u8, lo: u8)
    requires
        hi < 16,
        lo < 16,
    ensures
        ((hi << 4u8) | lo) >> 4u8 == hi,
        ((hi << 4u8) | lo) & 0x0Fu8 == lo,
{
    assert(((hi << 4u8) | lo) >> 4u8 == hi && ((hi << 4u8) | lo) & 0x0Fu8 == lo) by (bit_vector)
        requires
            hi < 16,
            lo < 16,
    ;
}

proof fn lemma_small_bytes(slot: u8, n: u8)
    requires
        slot < 64,
        1 <= n <= 62,
    ensures
        slot >> 6u8 == 0,
        slot & 0x3Fu8 == slot,
        (0xC0u8 | (n - 1) as u8) >> 6u8 == 3,
        (0xC0u8 | (n - 1) as u8) != 0xFEu8,
        (0xC0u8 | (n - 1) as u8) != 0xFFu8,
        ((0xC0u8 | (n - 1) as u8) & 0x3Fu8) + 1 == n,
{
    assert(slot >> 6u8 == 0 && slot & 0x3Fu8 == slot) by (bit_vector)
        requires
            slot < 64,
    ;
    assert((0xC0u8 | (n - 1) as u8) >> 6u8 == 3 && (0xC0u8 | (n - 1) as u8) != 0xFEu8 && (0xC0u8
        | (n - 1) as u8) != 0xFFu8 && ((0xC0u8 | (n - 1) as u8) & 0x3Fu8) + 1 == n) by (bit_vector)
        requires
            1 <= n <= 62,
    ;
}

/// A pixel op, read back by the decoder in the state it was written in,
/// yields the pixel.
proof fn lemma_pixel_op_decodes(
    s: Seq<u8>,
    out: Seq<u8>,
    px: Seq<Rgba>,
    tw: int,
    total: int,
    cur: Rgba,
)
    requires
        px.len() < total,
        extends(s, out + pixel_op(cur, predict_at(px, tw, px.len() as int), index_after(px))),
    ensures
        op_step(s, out.len() as int, px, tw, total) == Ok::<(int, Seq<Rgba>), Error>(
            (
                (out.len() + pixel_op(cur, predict_at(px, tw, px.len() as int), index_after(px)).len()) as int,
                px.push(cur),
            ),
        ),
{
    let p = predict_at(px, tw, px.len() as int);
    let idx = index_after(px);
    let op = pixel_op(cur, p, idx);
    lemma_extends_append(s, out, op);
    lemma_index_after_len(px);
    let i = out.len() as int;
    let slot = hash_spec(cur);
    if idx[slot] == cur {
        lemma_small_bytes(slot as u8, 1);
        assert(s[i + 0] == op[0]);
        assert(s[i] == slot as u8);
        assert((slot as u8) as int == slot);
        assert(op_step(s, i, px, tw, total) == Ok::<(int, Seq<Rgba>), Error>((i + 1, px.push(cur))));
    } else if cur.a == p.a {
        let dr = cur.r.wrapping_sub(p.r) as i8;
        let dg = cur.g.wrapping_sub(p.g) as i8;
        let db = cur.b.wrapping_sub(p.b) as i8;
        let dr_dg = dr.wrapping_sub(dg);
        let db_dg = db.wrapping_sub(dg);
        if -2 <= dr <= 1 && -2 <= dg <= 1 && -2 <= db <= 1 {
            lemma_diff_chan(cur.r, p.r);
            lemma_diff_chan(cur.g, p.g);
            lemma_diff_chan(cur.b, p.b);
            lemma_diff_byte((dr + 2) as u8, (dg + 2) as u8, (db + 2) as u8);
            assert(s[i + 0] == op[0]);
            assert(diff_px(p, s[i]) == cur);
            assert(op_step(s, i, px, tw, total) == Ok::<(int, Seq<Rgba>), Error>((i + 1, px.push(cur))));
        } else if -32 <= dg <= 31 && -8 <= dr_dg <= 7 && -8 <= db_dg <= 7 {
            lemma_luma_chans(cur.r, cur.g, p.r, p.g);
            lemma_luma_chans(cur.b, cur.g, p.b, p.g);
            lemma_luma_second((dr_dg + 8) as u8, (db_dg + 8) as u8);
            assert(s[i + 0] == op[0]);
            assert(s[i + 1] == op[1]);
            assert(luma_px(p, s[i], s[i + 1]) == cur);
            assert(op_step(s, i, px, tw, total) == Ok::<(int, Seq<Rgba>), Error>((i + 2, px.push(cur))));
        } else {
            assert(s[i] == op[0]);
            assert(s[i + 1] == op[1]);
            assert(s[i + 2] == op[2]);
            assert(s[i + 3] == op[3]);
        }
    } else {
        assert(s[i] == op[0]);
        assert(s[i + 1] == op[1]);
        assert(s[i + 2] == op[2]);
        assert(s[i + 3] == op[3]);
        assert(s[i + 4] == op[4]);
    }
}

/// A RUN op read back yields the run of predicted pixels.
proof fn lemma_run_op_decodes(s: Seq<u8>, out: Seq<u8>, px: Seq<Rgba>, tw: int, total: int, n: nat)
    requires
        1 <= n <= 62,
        px.len() + n <= total,
        extends(s, out.push(run_byte(n))),
    ensures
        op_step(s, out.len() as int, px, tw, total) == Ok::<(int, Seq<Rgba>), Error>(
            ((out.len() + 1) as int, run_extend(px, tw, n)),
        ),
{
    assert(out.push(run_byte(n)) =~= out + seq![run_byte(n)]);
    lemma_extends_append(s, out, seq![run_byte(n)]);
    lemma_small_bytes(0, n as u8);
    assert(seq![run_byte(n)][0] == run_byte(n));
    assert(s[out.len() as int + 0] == seq![run_byte(n)][0]);
    assert(s[out.len() as int] == run_byte(n));
}

/// Stepping the decoder once along a stream that is known to decode from the
/// start like from `out`.
proof fn lemma_decodes_to_step(
    out: Seq<u8>,
    op: Seq<u8>,
    px: Seq<Rgba>,
    px2: Seq<Rgba>,
    tw: int,
    total: int,
)
    requires
        decodes_to(out, px, tw, total),
        px.len() < total,
        forall|s: Seq<u8>|
            #[trigger] extends(s, out + op) ==> op_step(s, out.len() as int, px, tw, total) == Ok::<
                (int, Seq<Rgba>),
                Error,
            >(((out + op).len() as int, px2)),
    ensures
        decodes_to(out + op, px2, tw, total),
{
    assert forall|s: Seq<u8>| #[trigger] extends(s, out + op) implies dec_tile(
        s,
        0,
        Seq::empty(),
        tw,
        total,
    ) == dec_tile(s, (out + op).len() as int, px2, tw, total) by {
        lemma_extends_append(s, out, op);
        assert(extends(s, out));
    }
}

/// The encoder's state after `k` pixels: its bytes decode to every pixel but
/// the pending run, and the pending run is exactly the predicted pixels.
proof fn lemma_enc_prefix(tile: Seq<Rgba>, tw: int, k: nat)
    requires
        0 < tw,
        k <= tile.len(),
    ensures
        ({
            let st = enc_prefix(tile, tw, k);
            &&& st.1 <= k
            &&& st.1 < 62
            &&& decodes_to(st.0, tile.take(k - st.1), tw, tile.len() as int)
            &&& run_extend(tile.take(k - st.1), tw, st.1) == tile.take(k as int)
        }),
    decreases k,
{
    let total = tile.len() as int;
    if k == 0 {
        assert forall|s: Seq<u8>| #[trigger] extends(s, Seq::<u8>::empty()) implies dec_tile(
            s,
            0,
            Seq::empty(),
            tw,
            total,
        ) == dec_tile(s, 0, tile.take(0), tw, total) by {
            assert(tile.take(0) =~= Seq::<Rgba>::empty());
        }
        assert(tile.take(0) =~= Seq::<Rgba>::empty());
    } else {
        let j = (k - 1) as nat;
        lemma_enc_prefix(tile, tw, j);
        let st = enc_prefix(tile, tw, j);
        let out = st.0;
        let run = st.1;
        let cur = tile[j as int];
        let p = predict_at(tile, tw, j as int);
        let pre = tile.take(j as int);
        let base = tile.take(j - run);
        lemma_pos_split(j as int, tw);
        lemma_predict_reads_prefix(tile, pre, tw, (j as int) % tw, (j as int) / tw);
        assert(p == predict_at(pre, tw, j as int));
        assert(pre.len() == j);
        assert(tile.take(k as int) =~= pre.push(cur));
        lemma_run_extend_len(base, tw, run);
        if cur == p {
            lemma_run_extend_split(base, tw, run, 1);
            assert(run_extend(pre, tw, 1) =~= pre.push(p)) by {
                reveal_with_fuel(run_extend, 2);
            }
            if run + 1 == 62 {
                assert forall|s: Seq<u8>| #[trigger] extends(s, out + seq![run_byte(62)]) implies op_step(
                    s,
                    out.len() as int,
                    base,
                    tw,
                    total,
                ) == Ok::<(int, Seq<Rgba>), Error>(
                    ((out + seq![run_byte(62)]).len() as int, tile.take(k as int)),
                ) by {
                    assert(out.push(run_byte(62)) =~= out + seq![run_byte(62)]);
                    lemma_run_op_decodes(s, out, base, tw, total, 62);
                }
                lemma_decodes_to_step(out, seq![run_byte(62)], base, tile.take(k as int), tw, total);
                assert(out.push(run_byte(62)) =~= out + seq![run_byte(62)]);
                assert(tile.take(k - 0) =~= tile.take(k as int));
                assert(run_extend(tile.take(k as int), tw, 0) == tile.take(k as int));
            } else {
                assert(tile.take(k - (run + 1)) =~= base);
            }
        } else {
            let out1 = if run > 0 { out.push(run_byte(run)) } else { out };
            assert(decodes_to(out1, pre, tw, total)) by {
                if run > 0 {
                    assert forall|s: Seq<u8>| #[trigger] extends(s, out + seq![run_byte(run)]) implies op_step(
                        s,
                        out.len() as int,
                        base,
                        tw,
                        total,
                    ) == Ok::<(int, Seq<Rgba>), Error>(
                        ((out + seq![run_byte(run)]).len() as int, pre),
                    ) by {
                        assert(out.push(run_byte(run)) =~= out + seq![run_byte(run)]);
                        lemma_run_op_decodes(s, out, base, tw, total, run);
                    }
                    lemma_decodes_to_step(out, seq![run_byte(run)], base, pre, tw, total);
                    assert(out.push(run_byte(run)) =~= out + seq![run_byte(run)]);
                } else {
                    assert(base =~= pre);
                }
            }
            let op = pixel_op(cur, p, index_after(pre));
            assert forall|s: Seq<u8>| #[trigger] extends(s, out1 + op) implies op_step(
                s,
                out1.len() as int,
                pre,
                tw,
                total,
            ) == Ok::<(int, Seq<Rgba>), Error>(((out1 + op).len() as int, pre.push(cur))) by {
                lemma_pixel_op_decodes(s, out1, pre, tw, total, cur);
            }
            lemma_decodes_to_step(out1, op, pre, pre.push(cur), tw, total);
            assert(tile.take(k - 0) =~= tile.take(k as int));
        }
    }
}

/// The encoder's output decodes to the tile it encoded.
pub proof fn lemma_encode_tile_roundtrip(tile: Seq<Rgba>, tw: int)
    requires
        0 < tw,
    ensures
        dec_tile(encode_tile_spec(tile, tw), 0, Seq::empty(), tw, tile.len() as int) == Ok::<
            Seq<Rgba>,
            Error,
        >(tile),
{
    let total = tile.len() as int;
    lemma_enc_prefix(tile, tw, tile.len());
    let st = enc_prefix(tile, tw, tile.len());
    let out = st.0;
    let run = st.1;
    let base = tile.take(total - run);
    assert(tile.take(total) =~= tile);
    let fin = encode_tile_spec(tile, tw);
    if run > 0 {
        lemma_run_extend_len(base, tw, run);
        assert forall|s: Seq<u8>| #[trigger] extends(s, out + seq![run_byte(run)]) implies op_step(
            s,
            out.len() as int,
            base,
            tw,
            total,
        ) == Ok::<(int, Seq<Rgba>), Error>(((out + seq![run_byte(run)]).len() as int, tile)) by {
            assert(out.push(run_byte(run)) =~= out + seq![run_byte(run)]);
            lemma_run_op_decodes(s, out, base, tw, total, run);
        }
        lemma_decodes_to_step(out, seq![run_byte(run)], base, tile, tw, total);
        assert(fin =~= out + seq![run_byte(run)]);
        assert(fin.subrange(0, fin.len() as int) =~= fin);
        assert(extends(fin, out + seq![run_byte(run)]));
    } else {
        assert(base =~= tile);
        assert(fin.subrange(0, fin.len() as int) =~= fin);
        assert(extends(fin, out));
    }
}


proof fn lemma_row_in_bounds(ty: int, y: int, th: int, img_w: int, tx: int, x: int, tw: int, len: int)
    requires
        0 <= ty,
        0 <= y < th,
        0 <= tx,
        0 <= x < tw,
        tx + tw <= img_w,
        (ty + th) * img_w <= len,
    ensures
        (ty + y) * img_w + tx + x < len,
        0 <= (ty + y) * img_w,
        ty + y < len,
{
    assert(ty + th <= (ty + th) * img_w) by (nonlinear_arith)
        requires
            img_w >= 1,
            ty + th >= 0,
    ;
    assert((ty + y) * img_w + img_w == (ty + y + 1) * img_w) by (nonlinear_arith);
    assert((ty + y + 1) * img_w <= (ty + th) * img_w) by (nonlinear_arith)
        requires
            ty + y + 1 <= ty + th,
            0 <= img_w,
    ;
    assert(0 <= (ty + y) * img_w) by (nonlinear_arith)
        requires
            0 <= ty + y,
            0 <= img_w,
    ;
}

/// Copy the `tw` x `th` tile at (tx, ty) out of the image.
fn extract(image: &[Rgba], img_w: usize, tx: usize, ty: usize, tw: usize, th: usize) -> (tile: Vec<Rgba>)
    requires
        0 < tw <= 256,
        0 < th <= 256,
        tx + tw <= img_w,
        (ty + th) * img_w <= image@.len(),
    ensures
        tile@ == extract_tile(image@, img_w as int, tx as int, ty as int, tw as int, th as int),
{
    let ilen = image.len();
    let mut tile: Vec<Rgba> = Vec::new();
    let mut y: usize = 0;
    while y < th
        invariant
            ilen == image@.len(),
            0 < tw <= 256,
            0 < th <= 256,
            tx + tw <= img_w,
            (ty + th) * img_w <= image@.len(),
            y <= th,
            tile@.len() == y * tw,
            forall|j: int|
                0 <= j < tile@.len() ==> #[trigger] tile@[j] == image@[(ty + j / (tw as int)) * img_w
                    + tx + j % (tw as int)],
        decreases th - y,
    {
        let mut x: usize = 0;
        while x < tw
            invariant
                ilen == image@.len(),
                0 < tw <= 256,
                0 < th <= 256,
                tx + tw <= img_w,
                (ty + th) * img_w <= image@.len(),
                y < th,
                x <= tw,
                tile@.len() == y * tw + x,
                forall|j: int|
                    0 <= j < tile@.len() ==> #[trigger] tile@[j] == image@[(ty + j / (tw as int))
                        * img_w + tx + j % (tw as int)],
            decreases tw - x,
        {
            proof {
                lemma_row_in_bounds(
                    ty as int,
                    y as int,
                    th as int,
                    img_w as int,
                    tx as int,
                    x as int,
                    tw as int,
                    image@.len() as int,
                );
                vstd::arithmetic::div_mod::lemma_fundamental_div_mod_converse(
                    (y * tw + x) as int,
                    tw as int,
                    y as int,
                    x as int,
                );
            }
            let v = image[(ty + y) * img_w + tx + x];
            tile.push(v);
            x = x + 1;
        }
        proof {
            assert((y + 1) * tw == y * tw + tw) by (nonlinear_arith);
        }
        y = y + 1;
    }
    proof {
        assert(th * tw == tw * th) by (nonlinear_arith);
        assert(tile@ =~= extract_tile(
            image@,
            img_w as int,
            tx as int,
            ty as int,
            tw as int,
            th as int,
        ));
    }
    tile
}

/// Encode the `tw` x `th` tile at (tx, ty) of an image with row stride
/// `img_w` into its op stream.
pub(crate) fn encode_tile(image: &[Rgba], img_w: usize, tx: usize, ty: usize, tw: usize, th: usize) -> (out: Vec<u8>)
    requires
        0 < tw <= 256,
        0 < th <= 256,
        tx + tw <= img_w,
        (ty + th) * img_w <= image@.len(),
    ensures
        out@ == encode_tile_spec(
            extract_tile(image@, img_w as int, tx as int, ty as int, tw as int, th as int),
            tw as int,
        ),
{
    let tile = extract(image, img_w, tx, ty, tw, th);
    proof {
        assert(tw * th <= 65536) by (nonlinear_arith)
            requires tw <= 256, th <= 256;
    }
    let total = tw * th;
    let mut out: Vec<u8> = Vec::new();
    let mut index: Vec<Rgba> = Vec::new();
    let mut k: usize = 0;
    while k < 64
        invariant
            k <= 64,
            index@.len() == k,
            forall|j: int| 0 <= j < k ==> #[trigger] index@[j] == zero_px(),
        decreases 64 - k,
    {
        index.push(Rgba::default());
        k = k + 1;
    }
    proof {
        assert(tile@.take(0) =~= Seq::<Rgba>::empty());
        assert(index@ =~= index_after(tile@.take(0)));
    }
    let mut run: u32 = 0;
    let mut k: usize = 0;
    while k < total
        invariant
            0 < tw <= 256,
            total == tw * th,
            total <= 65536,
            tile@.len() == total,
            k <= total,
            out@ == enc_prefix(tile@, tw as int, k as nat).0,
            run == enc_prefix(tile@, tw as int, k as nat).1,
            run < 62,
            index@ == index_after(tile@.take(k as int)),
        decreases total - k,
    {
        proof {
            lemma_index_after_len(tile@.take(k as int));
            lemma_pos_split(k as int, tw as int);
        }
        let x = k % tw;
        let y = k / tw;
        let cur = tile[k];
        let p = predict(tile.as_slice(), tw, x, y);
        let ghost pre = tile@.take(k as int);
        if cur == p {
            run = run + 1;
            if run == MAX_RUN {
                out.push(OP_RUN | (run - 1) as u8);
                run = 0;
            }
        } else {
            if run > 0 {
                out.push(OP_RUN | (run - 1) as u8);
                run = 0;
            }
            let ghost before = out@;
            let slot = cur.hash();
            if index[slot] == cur {
                out.push(OP_INDEX | slot as u8);
                proof {
                    assert(0u8 | (slot as u8) == slot as u8) by (bit_vector);
                }
            } else if cur.a == p.a {
                let dr = cur.r.wrapping_sub(p.r) as i8;
                let dg = cur.g.wrapping_sub(p.g) as i8;
                let db = cur.b.wrapping_sub(p.b) as i8;
                let dr_dg = dr.wrapping_sub(dg);
                let db_dg = db.wrapping_sub(dg);
                if -2 <= dr && dr <= 1 && -2 <= dg && dg <= 1 && -2 <= db && db <= 1 {
                    out.push(
                        OP_DIFF | (((dr + 2) as u8) << 4) | (((dg + 2) as u8) << 2) | (db + 2) as u8,
                    );
                } else if -32 <= dg && dg <= 31 && -8 <= dr_dg && dr_dg <= 7 && -8 <= db_dg && db_dg
                    <= 7 {
                    out.push(OP_LUMA | (dg + 32) as u8);
                    out.push((((dr_dg + 8) as u8) << 4) | (db_dg + 8) as u8);
                } else {
                    out.push(OP_RGB);
                    out.push(cur.r);
                    out.push(cur.g);
                    out.push(cur.b);
                }
            } else {
                out.push(OP_RGBA);
                out.push(cur.r);
                out.push(cur.g);
                out.push(cur.b);
                out.push(cur.a);
            }
            proof {
                assert(out@ =~= before + pixel_op(cur, p, index_after(pre)));
            }
        }
        let slot = cur.hash();
        index.set(slot, cur);
        proof {
            let q = tile@.take(k + 1);
            assert(q.drop_last() =~= pre);
            assert(q.last() == cur);
            assert(index@ =~= index_after(q));
        }
        k = k + 1;
    }
    if run > 0 {
        out.push(OP_RUN | (run - 1) as u8);
    }
    proof {
        assert(tile@.len() == total);
    }
    out
}


proof fn lemma_enc_prefix_len(tile: Seq<Rgba>, tw: int, k: nat)
    requires
        k <= tile.len(),
    ensures
        enc_prefix(tile, tw, k).1 <= k,
        enc_prefix(tile, tw, k).0.len() <= 5 * (k - enc_prefix(tile, tw, k).1),
    decreases k,
{
    if k > 0 {
        lemma_enc_prefix_len(tile, tw, (k - 1) as nat);
        let st = enc_prefix(tile, tw, (k - 1) as nat);
        let cur = tile[k - 1];
        let p = predict_at(tile, tw, k - 1);
        let op = pixel_op(cur, p, index_after(tile.take(k - 1)));
        assert(op.len() <= 5);
    }
}

/// A tile's op stream takes at most five bytes per pixel.
pub proof fn lemma_encode_tile_len(tile: Seq<Rgba>, tw: int)
    ensures
        encode_tile_spec(tile, tw).len() <= 5 * tile.len(),
{
    lemma_enc_prefix_len(tile, tw, tile.len());
}

} // verus!
