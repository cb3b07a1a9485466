//! Container reader and writer: magic, version, then CRC-checked chunks,
//! HEAD first and END last.

use vstd::prelude::*;
use crate::crc::{
    crc32_parts, crc32_spec, concat_parts, flip_bit, lemma_crc32_detects_byte_change,
    lemma_flip_changes_byte,
};
use crate::error::Error;
use crate::le::{le32, from_le32, put_u32, get_u32, lemma_le32_roundtrip, lemma_from_le32_window};
use crate::pixel::Rgba;
use crate::raster;
use crate::raster::append_bytes;
use crate::vector::{self, VectorImage, ArtView, holds_at};
use crate::render::{rasterize_checked, raster_spec};

verus! {

pub const VERSION: u8 = 1;

/// The magic bytes "PRSM".
pub open spec fn magic() -> Seq<u8> {
    seq![0x50u8, 0x52u8, 0x53u8, 0x4Du8]
}

pub open spec fn head_ty() -> Seq<u8> {
    seq![0x48u8, 0x45u8, 0x41u8, 0x44u8]
}

pub open spec fn rast_ty() -> Seq<u8> {
    seq![0x52u8, 0x41u8, 0x53u8, 0x54u8]
}

pub open spec fn vect_ty() -> Seq<u8> {
    seq![0x56u8, 0x45u8, 0x43u8, 0x54u8]
}

pub open spec fn end_ty() -> Seq<u8> {
    seq![0x45u8, 0x4Eu8, 0x44u8, 0x20u8]
}

pub open spec fn encr_ty() -> Seq<u8> {
    seq![0x45u8, 0x4Eu8, 0x43u8, 0x52u8]
}

/// The magic bytes "PRSM".
pub fn magic_bytes() -> (m: [u8; 4])
    ensures
        m@ == magic(),
{
    let m = [0x50u8, 0x52, 0x53, 0x4D];
    proof {
        assert(m@ =~= magic());
    }
    m
}

/// The chunk type "HEAD".
pub fn head_type() -> (t: [u8; 4])
    ensures
        t@ == head_ty(),
{
    let t = [0x48u8, 0x45, 0x41, 0x44];
    proof {
        assert(t@ =~= head_ty());
    }
    t
}

/// The chunk type "RAST".
pub fn rast_type() -> (t: [u8; 4])
    ensures
        t@ == rast_ty(),
{
    let t = [0x52u8, 0x41, 0x53, 0x54];
    proof {
        assert(t@ =~= rast_ty());
    }
    t
}

/// The chunk type "VECT".
pub fn vect_type() -> (t: [u8; 4])
    ensures
        t@ == vect_ty(),
{
    let t = [0x56u8, 0x45, 0x43, 0x54];
    proof {
        assert(t@ =~= vect_ty());
    }
    t
}

/// The chunk type "END ".
pub fn end_type() -> (t: [u8; 4])
    ensures
        t@ == end_ty(),
{
    let t = [0x45u8, 0x4E, 0x44, 0x20];
    proof {
        assert(t@ =~= end_ty());
    }
    t
}

/// The chunk type "ENCR".
pub fn encr_type() -> (t: [u8; 4])
    ensures
        t@ == encr_ty(),
{
    let t = [0x45u8, 0x4E, 0x43, 0x52];
    proof {
        assert(t@ =~= encr_ty());
    }
    t
}

/// Whether two chunk types are the same.
pub fn same_type(a: &[u8; 4], b: &[u8; 4]) -> (r: bool)
    ensures
        r == (a@ == b@),
{
    let r = a[0] == b[0] && a[1] == b[1] && a[2] == b[2] && a[3] == b[3];
    proof {
        if r {
            assert(a@ =~= b@);
        }
    }
    r
}

#[derive(Clone, Copy, PartialEq, Eq, Debug, Structural)]
pub enum PayloadKind {
    Raster,
    Vector,
}

#[derive(Clone, Copy, Debug)]
pub struct Header {
    pub width: u32,
    pub height: u32,
    pub payload_kind: PayloadKind,
    pub bit_depth: u8,
    pub colorspace: u8,
    pub alpha_mode: u8,
    pub tile_size_log2: u8,
    pub kernel: u8,
}

/// A decoded image: 8-bit RGBA, row-major.
#[derive(Clone, PartialEq, Eq, Debug)]
pub struct Image {
    pub width: u32,
    pub height: u32,
    pub pixels: Vec<Rgba>,
}

/// One chunk of a file: its type and its payload.
pub struct Chunk<'a> {
    pub ty: [u8; 4],
    pub payload: &'a [u8],
}

/// The bytes of a chunk: type, payload length, payload, CRC over type and
/// payload.
pub open spec fn chunk_bytes(ty: Seq<u8>, payload: Seq<u8>) -> Seq<u8> {
    ty + le32(payload.len() as u32) + payload + le32(crc32_spec(ty + payload))
}

proof fn lemma_crc_two_parts(a: Seq<u8>, b: Seq<u8>)
    ensures
        concat_parts(seq![a, b]) == a + b,
{
    let s = seq![a, b];
    assert(s.drop_last() =~= seq![a]);
    assert(seq![a].drop_last() =~= Seq::<Seq<u8>>::empty());
    reveal_with_fuel(concat_parts, 3);
    assert(concat_parts(seq![a]) =~= a);
}

/// Append one chunk to `out`.
pub fn write_chunk(out: &mut Vec<u8>, ty: &[u8; 4], payload: &[u8])
    ensures
        final(out)@ == old(out)@ + chunk_bytes(ty@, payload@),
{
    append_bytes(out, ty.as_slice());
    put_u32(out, payload.len() as u32);
    append_bytes(out, payload);
    let parts: [&[u8]; 2] = [ty.as_slice(), payload];
    let crc = crc32_parts(&parts);
    proof {
        assert(parts@.map_values(|p: &[u8]| p@) =~= seq![ty@, payload@]);
        lemma_crc_two_parts(ty@, payload@);
    }
    put_u32(out, crc);
    proof {
        assert(final(out)@ =~= old(out)@ + chunk_bytes(ty@, payload@));
    }
}

/// The HEAD payload for the given size and payload kind (0 raster, 1 vector).
pub open spec fn head_payload(width: u32, height: u32, kind: u8) -> Seq<u8> {
    le32(width) + le32(height) + seq![kind, 8u8, 0u8, 0u8, 8u8, 0u8]
}

/// A whole file: magic, version, HEAD, one payload chunk, END.
pub open spec fn file_bytes(head: Seq<u8>, ty: Seq<u8>, payload: Seq<u8>) -> Seq<u8> {
    magic() + seq![1u8] + chunk_bytes(head_ty(), head) + chunk_bytes(ty, payload) + chunk_bytes(
        end_ty(),
        Seq::empty(),
    )
}

fn head_bytes(width: u32, height: u32, kind: u8) -> (head: Vec<u8>)
    ensures
        head@ == head_payload(width, height, kind),
{
    let mut head: Vec<u8> = Vec::new();
    put_u32(&mut head, width);
    put_u32(&mut head, height);
    head.push(kind);
    head.push(8);
    head.push(0);
    head.push(0);
    head.push(8);
    head.push(0);
    proof {
        assert(head@ =~= head_payload(width, height, kind));
    }
    head
}

fn assemble_file(head: &[u8], ty: &[u8; 4], payload: &[u8]) -> (out: Vec<u8>)
    ensures
        out@ == file_bytes(head@, ty@, payload@),
{
    let mut out: Vec<u8> = Vec::new();
    let m = magic_bytes();
    append_bytes(&mut out, m.as_slice());
    out.push(VERSION);
    write_chunk(&mut out, &head_type(), head);
    write_chunk(&mut out, ty, payload);
    let empty: [u8; 0] = [];
    write_chunk(&mut out, &end_type(), empty.as_slice());
    proof {
        assert(empty@ =~= Seq::<u8>::empty());
        assert(out@ =~= file_bytes(head@, ty@, payload@));
    }
    out
}

/// The file `encode_file` writes for an image.
pub open spec fn encode_file_spec(width: u32, height: u32, pixels: Seq<Rgba>) -> Seq<u8> {
    file_bytes(
        head_payload(width, height, 0),
        rast_ty(),
        raster::raster_encode_spec(pixels, width as int, height as int),
    )
}

/// Encode an image as a raster-payload PRISM file.
pub fn encode_file(image: &Image) -> (out: Vec<u8>)
    requires
        image.pixels@.len() == image.width * image.height,
    ensures
        out@ == encode_file_spec(image.width, image.height, image.pixels@),
{
    let head = head_bytes(image.width, image.height, 0);
    let payload = raster::encode(image.pixels.as_slice(), image.width, image.height);
    assemble_file(head.as_slice(), &rast_type(), payload.as_slice())
}

/// The file `encode_vector_file` writes for vector art and its design size.
pub open spec fn encode_vector_file_spec(art: ArtView, width: u32, height: u32) -> Seq<u8> {
    file_bytes(head_payload(width, height, 1), vect_ty(), vector::vector_encode_spec(art))
}

/// Encode vector art as a vector-payload PRISM file with the given design size.
pub fn encode_vector_file(art: &VectorImage, width: u32, height: u32) -> (out: Vec<u8>)
    requires
        vector::encodable(art@),
    ensures
        out@ == encode_vector_file_spec(art@, width, height),
{
    let head = head_bytes(width, height, 1);
    let payload = vector::encode(art);
    assemble_file(head.as_slice(), &vect_type(), payload.as_slice())
}


// ---- reading ----

/// The error for a chunk whose CRC does not match, naming its type.
pub open spec fn crc_error(ty: Seq<u8>) -> Error {
    Error::CrcMismatch { chunk: choose|a: [u8; 4]| a@ == ty }
}

/// The chunk at `cur`: its type, its payload and the position after it.
pub open spec fn parse_chunk(data: Seq<u8>, cur: int) -> Result<(Seq<u8>, Seq<u8>, int), Error> {
    if cur < 0 || cur + 8 > data.len() {
        Err(Error::Truncated)
    } else {
        let ty = data.subrange(cur, cur + 4);
        let be = cur + 8 + from_le32(data, cur + 4) as int;
        if be + 4 > data.len() {
            Err(Error::Truncated)
        } else {
            let payload = data.subrange(cur + 8, be);
            if crc32_spec(ty + payload) != from_le32(data, be) {
                Err(crc_error(ty))
            } else {
                Ok((ty, payload, be + 4))
            }
        }
    }
}

/// A chunk read moves the cursor forward, never past the end of the data.
pub proof fn lemma_parse_chunk_advances(data: Seq<u8>, cur: int)
    ensures
        parse_chunk(data, cur) matches Ok((t, p, c)) ==> cur < c <= data.len(),
{
}

/// The chunks from `cur` up to END, END excluded; END must be empty and end
/// the file.
pub open spec fn chunks_from(data: Seq<u8>, cur: int) -> Result<Seq<(Seq<u8>, Seq<u8>)>, Error>
    decreases data.len() - cur,
{
    if cur < 0 || cur >= data.len() {
        Err(Error::MissingChunk("END "))
    } else {
        match parse_chunk(data, cur) {
            Err(e) => Err(e),
            Ok((ty, p, c)) => if ty == end_ty() {
                if p.len() != 0 {
                    Err(Error::BadHeader("END chunk must be empty"))
                } else if c != data.len() {
                    Err(Error::BadHeader("data after END chunk"))
                } else {
                    Ok(Seq::empty())
                }
            } else {
                proof {
                    lemma_parse_chunk_advances(data, cur);
                }
                match chunks_from(data, c) {
                    Err(e) => Err(e),
                    Ok(rest) => Ok(seq![(ty, p)] + rest),
                }
            },
        }
    }
}

/// The header a HEAD payload describes, or why it is refused.
pub open spec fn parse_header_spec(p: Seq<u8>) -> Result<Header, Error> {
    if p.len() != 14 {
        Err(Error::BadHeader("HEAD must be 14 bytes in version 1"))
    } else {
        let w = from_le32(p, 0);
        let h = from_le32(p, 4);
        if w == 0 || h == 0 {
            Err(Error::BadHeader("zero dimension"))
        } else if w * h > 0x1_0000_0000 {
            Err(Error::BadHeader("image too large"))
        } else if p[8] != 0 && p[8] != 1 {
            Err(Error::BadHeader("unknown payload kind"))
        } else if p[9] != 8 {
            Err(Error::BadHeader("only 8-bit depth in version 1"))
        } else if p[10] != 0 {
            Err(Error::BadHeader("only sRGB in version 1"))
        } else if p[11] != 0 {
            Err(Error::BadHeader("only straight alpha in version 1"))
        } else if p[12] != 8 {
            Err(Error::BadHeader("tile_size_log2 must be 8 in version 1"))
        } else if p[13] != 0 {
            Err(Error::BadHeader("unknown reconstruction kernel"))
        } else {
            Ok(
                Header {
                    width: w,
                    height: h,
                    payload_kind: if p[8] == 0 { PayloadKind::Raster } else { PayloadKind::Vector },
                    bit_depth: 8,
                    colorspace: 0,
                    alpha_mode: 0,
                    tile_size_log2: 8,
                    kernel: 0,
                },
            )
        }
    }
}

/// The header and every chunk before END of a file, or the first error.
pub open spec fn read_chunks_spec(data: Seq<u8>) -> Result<(Header, Seq<(Seq<u8>, Seq<u8>)>), Error> {
    if data.len() < 5 {
        Err(Error::Truncated)
    } else if data.subrange(0, 4) != magic() {
        Err(Error::BadMagic)
    } else if data[4] != 1 {
        Err(Error::UnsupportedVersion(data[4]))
    } else {
        match chunks_from(data, 5) {
            Err(e) => Err(e),
            Ok(cs) => if cs.len() == 0 || cs[0].0 != head_ty() {
                Err(Error::MissingChunk("HEAD"))
            } else {
                match parse_header_spec(cs[0].1) {
                    Err(e) => Err(e),
                    Ok(h) => Ok((h, cs)),
                }
            },
        }
    }
}

/// Read the chunk at the cursor and move the cursor past it.
fn read_chunk<'a>(data: &'a [u8], cursor: &mut usize) -> (res: Result<Chunk<'a>, Error>)
    ensures
        match parse_chunk(data@, *old(cursor) as int) {
            Ok((t, p, c)) => res matches Ok(ch) && ch.ty@ == t && ch.payload@ == p && *final(cursor)
                as int == c,
            Err(e) => res == Err::<Chunk<'a>, Error>(e),
        },
{
    let cur = *cursor;
    if cur > data.len() || data.len() - cur < 8 {
        return Err(Error::Truncated);
    }
    let ty: [u8; 4] = [data[cur], data[cur + 1], data[cur + 2], data[cur + 3]];
    proof {
        assert(ty@ =~= data@.subrange(cur as int, cur + 4));
    }
    let len = get_u32(data, cur + 4) as usize;
    let body_start = cur + 8;
    let body_end = match body_start.checked_add(len) {
        Some(e) => e,
        None => {
            return Err(Error::Truncated);
        },
    };
    if body_end > data.len() || data.len() - body_end < 4 {
        return Err(Error::Truncated);
    }
    let payload = &data[body_start..body_end];
    let stored = get_u32(data, body_end);
    let parts: [&[u8]; 2] = [ty.as_slice(), payload];
    let crc = crc32_parts(&parts);
    proof {
        assert(parts@.map_values(|p: &[u8]| p@) =~= seq![ty@, payload@]);
        lemma_crc_two_parts(ty@, payload@);
    }
    if crc != stored {
        proof {
            let c = choose|a: [u8; 4]| a@ == ty@;
            assert(c@ == ty@);
            assert(c =~= ty);
        }
        return Err(Error::CrcMismatch { chunk: ty });
    }
    *cursor = body_end + 4;
    Ok(Chunk { ty, payload })
}

fn parse_header(payload: &[u8]) -> (res: Result<Header, Error>)
    ensures
        match parse_header_spec(payload@) {
            Ok(h) => res matches Ok(r) && r == h,
            Err(e) => res == Err::<Header, Error>(e),
        },
{
    if payload.len() != 14 {
        return Err(Error::BadHeader("HEAD must be 14 bytes in version 1"));
    }
    let width = get_u32(payload, 0);
    let height = get_u32(payload, 4);
    if width == 0 || height == 0 {
        return Err(Error::BadHeader("zero dimension"));
    }
    proof {
        assert((width as u64) * (height as u64) <= 0xFFFF_FFFFu64 * 0xFFFF_FFFFu64) by (nonlinear_arith)
            requires width <= 0xFFFF_FFFFu32, height <= 0xFFFF_FFFFu32;
    }
    let n = (width as u64) * (height as u64);
    if n > 0x1_0000_0000 {
        return Err(Error::BadHeader("image too large"));
    }
    let payload_kind = if payload[8] == 0 {
        PayloadKind::Raster
    } else if payload[8] == 1 {
        PayloadKind::Vector
    } else {
        return Err(Error::BadHeader("unknown payload kind"));
    };
    if payload[9] != 8 {
        return Err(Error::BadHeader("only 8-bit depth in version 1"));
    }
    if payload[10] != 0 {
        return Err(Error::BadHeader("only sRGB in version 1"));
    }
    if payload[11] != 0 {
        return Err(Error::BadHeader("only straight alpha in version 1"));
    }
    if payload[12] != 8 {
        return Err(Error::BadHeader("tile_size_log2 must be 8 in version 1"));
    }
    if payload[13] != 0 {
        return Err(Error::BadHeader("unknown reconstruction kernel"));
    }
    Ok(
        Header {
            width,
            height,
            payload_kind,
            bit_depth: 8,
            colorspace: 0,
            alpha_mode: 0,
            tile_size_log2: 8,
            kernel: 0,
        },
    )
}

/// The chunks of a read, as (type, payload) pairs.
pub open spec fn chunk_views<'a>(chunks: Seq<Chunk<'a>>) -> Seq<(Seq<u8>, Seq<u8>)> {
    chunks.map_values(|c: Chunk<'a>| (c.ty@, c.payload@))
}

/// Parse and validate the file, returning the header and all chunks after HEAD.
pub fn read_chunks<'a>(data: &'a [u8]) -> (res: Result<(Header, Vec<Chunk<'a>>), Error>)
    ensures
        match read_chunks_spec(data@) {
            Ok((h, cs)) => res matches Ok((rh, rc)) && rh == h && chunk_views(rc@) == cs,
            Err(e) => res matches Err(re) && re == e,
        },
{
    if data.len() < 5 {
        return Err(Error::Truncated);
    }
    let m = magic_bytes();
    if data[0] != m[0] || data[1] != m[1] || data[2] != m[2] || data[3] != m[3] {
        proof {
            if data@.subrange(0, 4) == magic() {
                assert(data@.subrange(0, 4)[0] == data@[0]);
                assert(data@.subrange(0, 4)[1] == data@[1]);
                assert(data@.subrange(0, 4)[2] == data@[2]);
                assert(data@.subrange(0, 4)[3] == data@[3]);
            }
        }
        return Err(Error::BadMagic);
    }
    proof {
        assert(data@.subrange(0, 4) =~= magic());
    }
    if data[4] != VERSION {
        return Err(Error::UnsupportedVersion(data[4]));
    }

    let mut cursor: usize = 5;
    let mut chunks: Vec<Chunk<'a>> = Vec::new();
    let ghost all = chunks_from(data@, 5);
    let mut saw_end = false;
    let end = end_type();
    proof {
        match chunks_from(data@, 5) {
            Ok(r) => {
                assert(chunk_views(chunks@) + r =~= r);
            },
            Err(e) => {},
        }
    }
    while cursor < data.len()
        invariant_except_break
            data@.len() >= 5,
            data@.subrange(0, 4) == magic(),
            data@[4] == 1,
            cursor <= data@.len(),
            !saw_end,
            end@ == end_ty(),
            all == chunks_from(data@, 5),
            all == match chunks_from(data@, cursor as int) {
                Err(e) => Err(e),
                Ok(rest) => Ok::<Seq<(Seq<u8>, Seq<u8>)>, Error>(chunk_views(chunks@) + rest),
            },
        ensures
            data@.len() >= 5,
            data@.subrange(0, 4) == magic(),
            data@[4] == 1,
            saw_end ==> all == Ok::<Seq<(Seq<u8>, Seq<u8>)>, Error>(chunk_views(chunks@)),
            !saw_end ==> cursor >= data@.len() && all == match chunks_from(data@, cursor as int) {
                Err(e) => Err(e),
                Ok(rest) => Ok::<Seq<(Seq<u8>, Seq<u8>)>, Error>(chunk_views(chunks@) + rest),
            },
        decreases data@.len() - cursor,
    {
        let ghost before = chunk_views(chunks@);
        let ghost c0 = cursor as int;
        let chunk = read_chunk(data, &mut cursor)?;
        proof {
            lemma_parse_chunk_advances(data@, c0);
        }
        if same_type(&chunk.ty, &end) {
            saw_end = true;
            if chunk.payload.len() != 0 {
                return Err(Error::BadHeader("END chunk must be empty"));
            }
            if cursor != data.len() {
                return Err(Error::BadHeader("data after END chunk"));
            }
            proof {
                assert(chunk_views(chunks@) + Seq::empty() =~= chunk_views(chunks@));
            }
            break;
        }
        chunks.push(chunk);
        proof {
            match chunks_from(data@, cursor as int) {
                Ok(rest) => {
                    assert(chunk_views(chunks@) =~= before.push((chunk.ty@, chunk.payload@)));
                    assert(before + (seq![(chunk.ty@, chunk.payload@)] + rest) =~= chunk_views(chunks@)
                        + rest);
                },
                Err(e) => {},
            }
        }
    }
    if !saw_end {
        return Err(Error::MissingChunk("END "));
    }
    let head_t = head_type();
    if chunks.len() == 0 || !same_type(&chunks[0].ty, &head_t) {
        return Err(Error::MissingChunk("HEAD"));
    }
    let header = parse_header(chunks[0].payload)?;
    Ok((header, chunks))
}


// ---- payload ----

/// A decoded payload: raster pixels, or vector art plus its design size.
pub enum FilePayload {
    Raster(Image),
    Vector { art: VectorImage, width: u32, height: u32 },
}

/// The mathematical content of a `FilePayload`.
pub enum PayloadView {
    Raster { width: u32, height: u32, pixels: Seq<Rgba> },
    Vector { art: ArtView, width: u32, height: u32 },
}

impl View for FilePayload {
    type V = PayloadView;

    open spec fn view(&self) -> PayloadView {
        match self {
            FilePayload::Raster(img) => PayloadView::Raster {
                width: img.width,
                height: img.height,
                pixels: img.pixels@,
            },
            FilePayload::Vector { art, width, height } => PayloadView::Vector {
                art: art@,
                width: *width,
                height: *height,
            },
        }
    }
}

/// Index of the first chunk of type `ty` at or after `from`.
pub open spec fn first_of(cs: Seq<(Seq<u8>, Seq<u8>)>, ty: Seq<u8>, from: int) -> Option<int>
    decreases cs.len() - from,
{
    if from < 0 || from >= cs.len() {
        None
    } else if cs[from].0 == ty {
        Some(from)
    } else {
        first_of(cs, ty, from + 1)
    }
}

/// The VECT payload a vector file would decode, if it gets that far.
pub open spec fn vect_payload(data: Seq<u8>) -> Option<Seq<u8>> {
    match read_chunks_spec(data) {
        Ok((h, cs)) => if h.payload_kind == PayloadKind::Vector {
            match first_of(cs, vect_ty(), 0) {
                Some(i) => Some(cs[i].1),
                None => None,
            }
        } else {
            None
        },
        Err(e) => None,
    }
}

/// A file whose vector payload, if any, decodes without leaving the i64
/// range for path coordinates.
pub open spec fn payload_decodable(data: Seq<u8>) -> bool {
    match vect_payload(data) {
        Some(p) => vector::decodable(p),
        None => true,
    }
}

/// What a file decodes to, without rasterizing.
pub open spec fn payload_spec(data: Seq<u8>) -> Result<PayloadView, Error> {
    match read_chunks_spec(data) {
        Err(e) => Err(e),
        Ok((h, cs)) => if h.payload_kind == PayloadKind::Raster {
            match first_of(cs, rast_ty(), 0) {
                None => Err(Error::MissingChunk("RAST")),
                Some(i) => if h.width * h.height > usize::MAX {
                    Err(Error::BadHeader("image too large for this platform"))
                } else {
                    match raster::raster_decode_spec(cs[i].1, h.width as int, h.height as int) {
                        Err(e) => Err(e),
                        Ok(px) => Ok(PayloadView::Raster { width: h.width, height: h.height, pixels: px }),
                    }
                },
            }
        } else {
            match first_of(cs, vect_ty(), 0) {
                None => Err(Error::MissingChunk("VECT")),
                Some(i) => match vector::vector_decode_spec(cs[i].1) {
                    Err(e) => Err(e.unwrap()),
                    Ok(a) => Ok(PayloadView::Vector { art: a, width: h.width, height: h.height }),
                },
            }
        }
    }
}

/// A decoded raster payload has a nonempty size and one pixel per position.
pub proof fn lemma_raster_payload_wf(data: Seq<u8>)
    ensures
        payload_spec(data) matches Ok(PayloadView::Raster { width, height, pixels }) ==> width >= 1
            && height >= 1 && width * height <= 0x1_0000_0000 && pixels.len() == width * height,
{
    match read_chunks_spec(data) {
        Ok((h, cs)) => {
            assert(parse_header_spec(cs[0].1) == Ok::<Header, Error>(h));
        },
        Err(_) => {},
    }
}

/// A file with neither a RAST nor a VECT chunk does not decode.
pub proof fn lemma_no_payload_chunk(data: Seq<u8>)
    requires
        read_chunks_spec(data) matches Ok((h, cs)) && first_of(cs, rast_ty(), 0) is None
            && first_of(cs, vect_ty(), 0) is None,
    ensures
        payload_spec(data) is Err,
{
}

/// The first chunk of a type found at or after `from` has that type.
pub proof fn lemma_first_of(cs: Seq<(Seq<u8>, Seq<u8>)>, ty: Seq<u8>, from: int)
    ensures
        first_of(cs, ty, from) matches Some(i) ==> from <= i < cs.len() && cs[i].0 == ty,
    decreases cs.len() - from,
{
    if 0 <= from < cs.len() && cs[from].0 != ty {
        lemma_first_of(cs, ty, from + 1);
    }
}

/// Index of the first chunk of type `ty`.
pub(crate) fn find_chunk(chunks: &Vec<Chunk>, ty: &[u8; 4]) -> (res: Option<usize>)
    ensures
        res matches Some(i) ==> first_of(chunk_views(chunks@), ty@, 0) == Some(i as int) && i
            < chunks@.len(),
        res is None ==> first_of(chunk_views(chunks@), ty@, 0) is None,
{
    let ghost cs = chunk_views(chunks@);
    let mut i: usize = 0;
    while i < chunks.len()
        invariant
            cs == chunk_views(chunks@),
            i <= chunks@.len(),
            first_of(cs, ty@, 0) == first_of(cs, ty@, i as int),
        decreases chunks.len() - i,
    {
        if same_type(&chunks[i].ty, ty) {
            return Some(i);
        }
        i = i + 1;
    }
    None
}

/// Decode a PRISM file to its payload without rasterizing; `None` where a
/// vector path coordinate would leave i64.
pub fn decode_payload_checked(data: &[u8]) -> (res: Option<Result<FilePayload, Error>>)
    ensures
        !payload_decodable(data@) <==> res is None,
        match res {
            Some(Ok(p)) => payload_spec(data@) == Ok::<PayloadView, Error>(p@),
            Some(Err(e)) => payload_spec(data@) == Err::<PayloadView, Error>(e),
            None => true,
        },
{
    let (header, chunks) = match read_chunks(data) {
        Ok(r) => r,
        Err(e) => {
            return Some(Err(e));
        },
    };
    match header.payload_kind {
        PayloadKind::Raster => {
            let i = match find_chunk(&chunks, &rast_type()) {
                Some(i) => i,
                None => {
                    return Some(Err(Error::MissingChunk("RAST")));
                },
            };
            if header.width as u64 * header.height as u64 > usize::MAX as u64 {
                return Some(Err(Error::BadHeader("image too large for this platform")));
            }
            match raster::decode(chunks[i].payload, header.width, header.height) {
                Ok(pixels) => Some(
                    Ok(FilePayload::Raster(Image { width: header.width, height: header.height, pixels })),
                ),
                Err(e) => Some(Err(e)),
            }
        },
        PayloadKind::Vector => {
            let i = match find_chunk(&chunks, &vect_type()) {
                Some(i) => i,
                None => {
                    return Some(Err(Error::MissingChunk("VECT")));
                },
            };
            match vector::decode_checked(chunks[i].payload) {
                Ok(art) => Some(Ok(FilePayload::Vector { art, width: header.width, height: header.height })),
                Err(Some(e)) => Some(Err(e)),
                Err(None) => None,
            }
        },
    }
}

/// Decode a PRISM file to its payload without rasterizing.
pub fn decode_payload(data: &[u8]) -> (res: Result<FilePayload, Error>)
    requires
        payload_decodable(data@),
    ensures
        match res {
            Ok(p) => payload_spec(data@) == Ok::<PayloadView, Error>(p@),
            Err(e) => payload_spec(data@) == Err::<PayloadView, Error>(e),
        },
{
    match decode_payload_checked(data) {
        Some(r) => r,
        None => {
            proof {
                assert(false);
            }
            Err(Error::Truncated)
        },
    }
}


// ---- the file round trip ----

proof fn lemma_holds_split2(data: Seq<u8>, cur: int, a: Seq<u8>, b: Seq<u8>)
    requires
        holds_at(data, cur, a + b),
    ensures
        holds_at(data, cur, a),
        holds_at(data, cur + a.len(), b),
{
    assert(data.subrange(cur, cur + a.len()) =~= data.subrange(cur, cur + (a + b).len()).subrange(
        0,
        a.len() as int,
    ));
    assert((a + b).subrange(0, a.len() as int) =~= a);
    assert(data.subrange(cur + a.len(), cur + a.len() + b.len()) =~= data.subrange(
        cur,
        cur + (a + b).len(),
    ).subrange(a.len() as int, (a + b).len() as int));
    assert((a + b).subrange(a.len() as int, (a + b).len() as int) =~= b);
}

/// A written chunk reads back as itself.
proof fn lemma_chunk_at(data: Seq<u8>, cur: int, ty: Seq<u8>, p: Seq<u8>, rest: Seq<u8>)
    requires
        ty.len() == 4,
        p.len() <= u32::MAX,
        holds_at(data, cur, chunk_bytes(ty, p) + rest),
    ensures
        parse_chunk(data, cur) == Ok::<(Seq<u8>, Seq<u8>, int), Error>(
            (ty, p, cur + chunk_bytes(ty, p).len()),
        ),
        holds_at(data, cur + chunk_bytes(ty, p).len(), rest),
        chunk_bytes(ty, p).len() == 12 + p.len(),
{
    let l = le32(p.len() as u32);
    let c = le32(crc32_spec(ty + p));
    lemma_le32_roundtrip(p.len() as u32);
    lemma_le32_roundtrip(crc32_spec(ty + p));
    assert(chunk_bytes(ty, p) + rest =~= ty + (l + (p + (c + rest))));
    lemma_holds_split2(data, cur, ty, l + (p + (c + rest)));
    lemma_holds_split2(data, cur + 4, l, p + (c + rest));
    lemma_holds_split2(data, cur + 8, p, c + rest);
    lemma_holds_split2(data, cur + 8 + p.len(), c, rest);
    lemma_holds_split2(data, cur, chunk_bytes(ty, p), rest);
    assert(data.subrange(cur + 4, cur + 8) == l);
    assert(data[cur + 4] == data.subrange(cur + 4, cur + 8)[0]);
    assert(data[cur + 5] == data.subrange(cur + 4, cur + 8)[1]);
    assert(data[cur + 6] == data.subrange(cur + 4, cur + 8)[2]);
    assert(data[cur + 7] == data.subrange(cur + 4, cur + 8)[3]);
    lemma_from_le32_window(data, l, cur + 4, 0);
    let be = cur + 8 + p.len();
    assert(data[be] == data.subrange(be, be + 4)[0]);
    assert(data[be + 1] == data.subrange(be, be + 4)[1]);
    assert(data[be + 2] == data.subrange(be, be + 4)[2]);
    assert(data[be + 3] == data.subrange(be, be + 4)[3]);
    lemma_from_le32_window(data, c, be, 0);
}

/// The HEAD payload written for a size and kind reads back as that header.
pub(crate) proof fn lemma_head_roundtrip(w: u32, h: u32, kind: u8)
    requires
        w > 0,
        h > 0,
        w * h <= 0x1_0000_0000,
        kind <= 1,
    ensures
        parse_header_spec(head_payload(w, h, kind)) == Ok::<Header, Error>(
            Header {
                width: w,
                height: h,
                payload_kind: if kind == 0 { PayloadKind::Raster } else { PayloadKind::Vector },
                bit_depth: 8,
                colorspace: 0,
                alpha_mode: 0,
                tile_size_log2: 8,
                kernel: 0,
            },
        ),
{
    let p = head_payload(w, h, kind);
    lemma_le32_roundtrip(w);
    lemma_le32_roundtrip(h);
    lemma_from_le32_window(p, le32(w), 0, 0);
    lemma_from_le32_window(p, le32(h), 4, 0);
}

/// A file of HEAD, one payload chunk and END reads back as those chunks.
proof fn lemma_chunks_step(data: Seq<u8>, cur: int, ty: Seq<u8>, p: Seq<u8>, rest: Seq<u8>)
    requires
        ty.len() == 4,
        ty != end_ty(),
        p.len() <= u32::MAX,
        holds_at(data, cur, chunk_bytes(ty, p) + rest),
    ensures
        chunks_from(data, cur) == match chunks_from(data, cur + 12 + p.len()) {
            Err(e) => Err(e),
            Ok(r) => Ok::<Seq<(Seq<u8>, Seq<u8>)>, Error>(seq![(ty, p)] + r),
        },
        holds_at(data, cur + 12 + p.len(), rest),
{
    lemma_chunk_at(data, cur, ty, p, rest);
}

proof fn lemma_chunks_end(data: Seq<u8>, cur: int)
    requires
        holds_at(data, cur, chunk_bytes(end_ty(), Seq::empty())),
        data.len() == cur + 12,
    ensures
        chunks_from(data, cur) == Ok::<Seq<(Seq<u8>, Seq<u8>)>, Error>(Seq::empty()),
{
    assert(chunk_bytes(end_ty(), Seq::empty()) + Seq::<u8>::empty() =~= chunk_bytes(end_ty(), Seq::empty()));
    lemma_chunk_at(data, cur, end_ty(), Seq::empty(), Seq::empty());
}

/// A file of HEAD, one payload chunk and END reads back as those chunks.
#[verifier::spinoff_prover]
pub(crate) proof fn lemma_file_chunks(head: Seq<u8>, ty: Seq<u8>, payload: Seq<u8>)
    requires
        head.len() == 14,
        ty.len() == 4,
        ty != end_ty(),
        payload.len() <= u32::MAX,
    ensures
        chunks_from(file_bytes(head, ty, payload), 5) == Ok::<Seq<(Seq<u8>, Seq<u8>)>, Error>(
            seq![(head_ty(), head), (ty, payload)],
        ),
        file_bytes(head, ty, payload).subrange(0, 4) == magic(),
        file_bytes(head, ty, payload)[4] == 1,
        file_bytes(head, ty, payload).len() >= 5,
{
    let data = file_bytes(head, ty, payload);
    let ch = chunk_bytes(head_ty(), head);
    let cp = chunk_bytes(ty, payload);
    let ce = chunk_bytes(end_ty(), Seq::empty());
    let mv = magic() + seq![1u8];
    assert(data == mv + ch + cp + ce);
    assert(mv + ch + cp + ce =~= mv + (ch + (cp + ce)));
    assert(holds_at(data, 0, data)) by {
        assert(data.subrange(0, data.len() as int) =~= data);
    }
    lemma_holds_split2(data, 0, mv, ch + (cp + ce));
    assert(data.subrange(0, 4) =~= magic());
    assert(data[4] == mv[4]);
    assert(head_ty() != end_ty()) by {
        assert(head_ty()[0] != end_ty()[0]);
    }
    lemma_file_chunks_tail(data, head, ty, payload, ch, cp, ce);
}

#[verifier::spinoff_prover]
proof fn lemma_file_chunks_tail(
    data: Seq<u8>,
    head: Seq<u8>,
    ty: Seq<u8>,
    payload: Seq<u8>,
    ch: Seq<u8>,
    cp: Seq<u8>,
    ce: Seq<u8>,
)
    requires
        head.len() == 14,
        ty.len() == 4,
        ty != end_ty(),
        head_ty() != end_ty(),
        payload.len() <= u32::MAX,
        ch == chunk_bytes(head_ty(), head),
        cp == chunk_bytes(ty, payload),
        ce == chunk_bytes(end_ty(), Seq::empty()),
        holds_at(data, 5, ch + (cp + ce)),
        data.len() == 5 + ch.len() + cp.len() + ce.len(),
    ensures
        chunks_from(data, 5) == Ok::<Seq<(Seq<u8>, Seq<u8>)>, Error>(
            seq![(head_ty(), head), (ty, payload)],
        ),
{
    lemma_chunks_step(data, 5, head_ty(), head, cp + ce);
    lemma_chunks_step(data, 31int, ty, payload, ce);
    let c2 = 43int + payload.len();
    assert(data.len() == c2 + 12);
    lemma_chunks_end(data, c2);
    assert(seq![(ty, payload)] + Seq::<(Seq<u8>, Seq<u8>)>::empty() =~= seq![(ty, payload)]);
    assert(seq![(head_ty(), head)] + seq![(ty, payload)] =~= seq![(head_ty(), head), (ty, payload)]);
}

/// Decoding a file written by `encode_file` gives the image back.
#[verifier::spinoff_prover]
#[verifier::rlimit(60)]
pub proof fn lemma_raster_file_roundtrip(width: u32, height: u32, pixels: Seq<Rgba>)
    requires
        width * height <= usize::MAX,
        pixels.len() == width * height,
        width > 0,
        height > 0,
        width * height <= 0x1_0000_0000,
        raster::raster_encode_spec(pixels, width as int, height as int).len() <= u32::MAX,
    ensures
        payload_spec(encode_file_spec(width, height, pixels)) == Ok::<PayloadView, Error>(
            PayloadView::Raster { width, height, pixels },
        ),
{
    let payload = raster::raster_encode_spec(pixels, width as int, height as int);
    let head = head_payload(width, height, 0);
    let data = encode_file_spec(width, height, pixels);
    assert(rast_ty()[0] != end_ty()[0]);
    lemma_file_chunks(head, rast_ty(), payload);
    lemma_head_roundtrip(width, height, 0);
    let cs = seq![(head_ty(), head), (rast_ty(), payload)];
    let hd = parse_header_spec(head)->Ok_0;
    assert(cs[0].0 == head_ty());
    assert(read_chunks_spec(data) == Ok::<(Header, Seq<(Seq<u8>, Seq<u8>)>), Error>((hd, cs)));
    assert(hd.width == width && hd.height == height && hd.payload_kind == PayloadKind::Raster);
    assert(head_ty() != rast_ty()) by {
        assert(head_ty()[0] != rast_ty()[0]);
    }
    assert(cs[1].0 == rast_ty());
    assert(first_of(cs, rast_ty(), 0) == Some(1int)) by {
        reveal_with_fuel(first_of, 3);
    }
    let n = raster::tile_count(width as int, height as int);
    assert(payload.len() >= 4 + 4 * n) by {
        raster::lemma_payload_len(pixels, width as int, height as int);
    }
    raster::lemma_raster_roundtrip(pixels, width, height);
    assert(!(hd.width * hd.height > usize::MAX));
}

/// Decoding a file written by `encode_vector_file` gives the art and its
/// design size back.
#[verifier::rlimit(60)]
pub proof fn lemma_vector_file_roundtrip(art: ArtView, width: u32, height: u32)
    requires
        vector::wire_ok(art),
        width > 0,
        height > 0,
        width * height <= 0x1_0000_0000,
        vector::vector_encode_spec(art).len() <= u32::MAX,
    ensures
        payload_spec(encode_vector_file_spec(art, width, height)) == Ok::<PayloadView, Error>(
            PayloadView::Vector { art, width, height },
        ),
{
    let payload = vector::vector_encode_spec(art);
    let head = head_payload(width, height, 1);
    let data = encode_vector_file_spec(art, width, height);
    assert(vect_ty()[0] != end_ty()[0]);
    lemma_file_chunks(head, vect_ty(), payload);
    lemma_head_roundtrip(width, height, 1);
    let cs = seq![(head_ty(), head), (vect_ty(), payload)];
    let hd = parse_header_spec(head)->Ok_0;
    assert(cs[0].0 == head_ty());
    assert(read_chunks_spec(data) == Ok::<(Header, Seq<(Seq<u8>, Seq<u8>)>), Error>((hd, cs)));
    assert(hd.width == width && hd.height == height && hd.payload_kind == PayloadKind::Vector);
    assert(head_ty() != vect_ty()) by {
        assert(head_ty()[0] != vect_ty()[0]);
    }
    assert(cs[1].0 == vect_ty());
    assert(first_of(cs, vect_ty(), 0) == Some(1int)) by {
        reveal_with_fuel(first_of, 3);
    }
    vector::lemma_vector_roundtrip(art);
}

/// Decoding a file written by `encode_file` to pixels gives the image back.
pub proof fn lemma_raster_file_decodes(width: u32, height: u32, pixels: Seq<Rgba>)
    requires
        width * height <= usize::MAX,
        pixels.len() == width * height,
        width > 0,
        height > 0,
        width * height <= 0x1_0000_0000,
        raster::raster_encode_spec(pixels, width as int, height as int).len() <= u32::MAX,
    ensures
        decode_file_spec(encode_file_spec(width, height, pixels)) == Some(
            Ok::<(u32, u32, Seq<Rgba>), Error>((width, height, pixels)),
        ),
{
    lemma_raster_file_roundtrip(width, height, pixels);
}

/// Decoding a file written by `encode_vector_file` to pixels gives the art
/// rasterized at its design size.
pub proof fn lemma_vector_file_decodes(art: ArtView, width: u32, height: u32)
    requires
        vector::wire_ok(art),
        width > 0,
        height > 0,
        width * height <= 0x1_0000_0000,
        vector::vector_encode_spec(art).len() <= u32::MAX,
    ensures
        decode_file_spec(encode_vector_file_spec(art, width, height)) == match raster_spec(
            art,
            width,
            height,
            width,
            height,
        ) {
            Some(Ok(px)) => Some(Ok::<(u32, u32, Seq<Rgba>), Error>((width, height, px))),
            Some(Err(e)) => Some(Err::<(u32, u32, Seq<Rgba>), Error>(e)),
            None => None,
        },
{
    lemma_vector_file_roundtrip(art, width, height);
}

/// What a file decodes to once a vector payload is rasterized at its design
/// size: (width, height, pixels), or the error; `None` where rasterizing
/// would overflow the rasterizer's fixed-width arithmetic.
pub open spec fn decode_file_spec(data: Seq<u8>) -> Option<Result<(u32, u32, Seq<Rgba>), Error>> {
    match payload_spec(data) {
        Err(e) => Some(Err(e)),
        Ok(PayloadView::Raster { width, height, pixels }) => Some(Ok((width, height, pixels))),
        Ok(PayloadView::Vector { art, width, height }) => match raster_spec(art, width, height, width, height) {
            Some(Ok(px)) => Some(Ok((width, height, px))),
            Some(Err(e)) => Some(Err(e)),
            None => None,
        },
    }
}

/// Decode a PRISM file to pixels, or `None` where the fixed-width arithmetic
/// would overflow (a vector coordinate leaving i64 while decoding or
/// rasterizing).
pub fn decode_file_checked(data: &[u8]) -> (res: Option<Result<Image, Error>>)
    ensures
        res is None <==> !(payload_decodable(data@) && decode_file_spec(data@) is Some),
        match res {
            Some(Ok(img)) => decode_file_spec(data@) == Some(
                Ok::<(u32, u32, Seq<Rgba>), Error>((img.width, img.height, img.pixels@)),
            ),
            Some(Err(e)) => decode_file_spec(data@) == Some(Err::<(u32, u32, Seq<Rgba>), Error>(e)),
            None => true,
        },
{
    match decode_payload_checked(data)? {
        Err(e) => Some(Err(e)),
        Ok(FilePayload::Raster(img)) => Some(Ok(img)),
        Ok(FilePayload::Vector { art, width, height }) => {
            match rasterize_checked(&art, width, height, width, height)? {
                Ok(pixels) => Some(Ok(Image { width, height, pixels })),
                Err(e) => Some(Err(e)),
            }
        },
    }
}

/// Decode a PRISM file to pixels. Verifies every chunk CRC; skips unknown
/// chunk types; vector payloads rasterize at their design size.
pub fn decode_file(data: &[u8]) -> (res: Result<Image, Error>)
    requires
        payload_decodable(data@),
        decode_file_spec(data@) is Some,
    ensures
        match decode_file_spec(data@) {
            Some(Ok((w, h, px))) => res matches Ok(img) && img.width == w && img.height == h
                && img.pixels@ == px,
            Some(Err(e)) => res == Err::<Image, Error>(e),
            None => false,
        },
{
    match decode_file_checked(data) {
        Some(r) => r,
        None => {
            proof {
                assert(false);
            }
            Err(Error::Truncated)
        },
    }
}

// ---- unknown chunks ----

/// A chunk read at `cb` in `b` reads as the one at `ca` in `a` where `b`
/// holds the same bytes as `a` from there on to the end.
#[verifier::spinoff_prover]
proof fn lemma_parse_chunk_shift(a: Seq<u8>, ca: int, b: Seq<u8>, cb: int)
    requires
        0 <= ca <= a.len(),
        0 <= cb,
        b.len() - cb == a.len() - ca,
        forall|i: int| ca <= i < a.len() ==> #[trigger] a[i] == b[cb + (i - ca)],
    ensures
        parse_chunk(b, cb) == match parse_chunk(a, ca) {
            Ok((t, p, c)) => Ok::<(Seq<u8>, Seq<u8>, int), Error>((t, p, c - ca + cb)),
            Err(e) => Err(e),
        },
{
    if ca + 8 <= a.len() {
        assert(b.subrange(cb, cb + 4) =~= a.subrange(ca, ca + 4)) by {
            assert forall|i: int| 0 <= i < 4 implies #[trigger] b.subrange(cb, cb + 4)[i] == a.subrange(ca, ca + 4)[i] by {
                assert(b[cb + i] == a[ca + i]);
            }
        }
        assert(b[cb + 4] == a[ca + 4]);
        assert(b[cb + 5] == a[ca + 5]);
        assert(b[cb + 6] == a[ca + 6]);
        assert(b[cb + 7] == a[ca + 7]);
        lemma_from_le32_window(b, a, cb + 4, ca + 4);
        let l = from_le32(a, ca + 4) as int;
        if ca + 8 + l + 4 <= a.len() {
            let be = ca + 8 + l;
            assert(b.subrange(cb + 8, cb + 8 + l) =~= a.subrange(ca + 8, be)) by {
                assert forall|i: int| 0 <= i < l implies #[trigger] b.subrange(cb + 8, cb + 8 + l)[i] == a.subrange(
                    ca + 8,
                    be,
                )[i] by {
                    assert(b[cb + 8 + i] == a[ca + 8 + i]);
                }
            }
            assert(b[cb + 8 + l] == a[be]);
            assert(b[cb + 8 + l + 1] == a[be + 1]);
            assert(b[cb + 8 + l + 2] == a[be + 2]);
            assert(b[cb + 8 + l + 3] == a[be + 3]);
            lemma_from_le32_window(b, a, cb + 8 + l, be);
        }
    }
}

/// A chunk that reads at `ca` in `a` reads the same at `cb` in `b` where `b`
/// holds the chunk's bytes there.
#[verifier::spinoff_prover]
proof fn lemma_parse_chunk_copy(
    a: Seq<u8>,
    ca: int,
    b: Seq<u8>,
    cb: int,
    t: Seq<u8>,
    p: Seq<u8>,
    c: int,
)
    requires
        parse_chunk(a, ca) == Ok::<(Seq<u8>, Seq<u8>, int), Error>((t, p, c)),
        0 <= cb,
        cb + (c - ca) <= b.len(),
        forall|i: int| ca <= i < c ==> #[trigger] a[i] == b[cb + (i - ca)],
    ensures
        parse_chunk(b, cb) == Ok::<(Seq<u8>, Seq<u8>, int), Error>((t, p, c - ca + cb)),
{
    let n = c - ca;
    assert(b[cb + 4] == a[ca + 4]);
    assert(b[cb + 5] == a[ca + 5]);
    assert(b[cb + 6] == a[ca + 6]);
    assert(b[cb + 7] == a[ca + 7]);
    lemma_from_le32_window(b, a, cb + 4, ca + 4);
    let l = from_le32(a, ca + 4) as int;
    let be = ca + 8 + l;
    assert(n == l + 12);
    assert(b.subrange(cb, cb + 4) =~= a.subrange(ca, ca + 4)) by {
        assert forall|i: int| 0 <= i < 4 implies #[trigger] b.subrange(cb, cb + 4)[i] == a.subrange(ca, ca + 4)[i] by {
            assert(b[cb + i] == a[ca + i]);
        }
    }
    assert(b.subrange(cb + 8, cb + 8 + l) =~= a.subrange(ca + 8, be)) by {
        assert forall|i: int| 0 <= i < l implies #[trigger] b.subrange(cb + 8, cb + 8 + l)[i] == a.subrange(
            ca + 8,
            be,
        )[i] by {
            assert(b[cb + (8 + i)] == a[ca + (8 + i)]);
        }
    }
    assert(b[cb + 8 + l] == a[be]) by {
        assert(b[cb + (8 + l)] == a[ca + (8 + l)]);
    }
    assert(b[cb + 8 + l + 1] == a[be + 1]) by {
        assert(b[cb + (8 + l + 1)] == a[ca + (8 + l + 1)]);
    }
    assert(b[cb + 8 + l + 2] == a[be + 2]) by {
        assert(b[cb + (8 + l + 2)] == a[ca + (8 + l + 2)]);
    }
    assert(b[cb + 8 + l + 3] == a[be + 3]) by {
        assert(b[cb + (8 + l + 3)] == a[ca + (8 + l + 3)]);
    }
    lemma_from_le32_window(b, a, cb + 8 + l, be);
}

/// The chunks read from `cb` in `b` are those read from `ca` in `a` where
/// `b` holds the same bytes as `a` from there on to the end.
#[verifier::spinoff_prover]
proof fn lemma_chunks_from_shift(a: Seq<u8>, ca: int, b: Seq<u8>, cb: int)
    requires
        0 <= ca <= a.len(),
        0 <= cb,
        b.len() - cb == a.len() - ca,
        forall|i: int| ca <= i < a.len() ==> #[trigger] a[i] == b[cb + (i - ca)],
    ensures
        chunks_from(b, cb) == chunks_from(a, ca),
    decreases a.len() - ca,
{
    if ca < a.len() {
        lemma_parse_chunk_shift(a, ca, b, cb);
        match parse_chunk(a, ca) {
            Ok((t, p, c)) => {
                if t != end_ty() {
                    lemma_parse_chunk_advances(a, ca);
                    let cb2 = c - ca + cb;
                    assert forall|i: int| c <= i < a.len() implies #[trigger] a[i] == b[cb2 + (i - c)] by {
                        assert(a[i] == b[cb + (i - ca)]);
                    }
                    lemma_chunks_from_shift(a, c, b, cb2);
                }
            },
            Err(_) => {},
        }
    }
}

/// `first_of` over chunks with one more chunk put in before index `j`.
proof fn lemma_first_of_shift(
    cs: Seq<(Seq<u8>, Seq<u8>)>,
    cs2: Seq<(Seq<u8>, Seq<u8>)>,
    ty: Seq<u8>,
    j: int,
)
    requires
        0 <= j,
        cs2.len() == cs.len() + 1,
        forall|i: int| j <= i < cs.len() ==> cs2[i + 1] == cs[i],
    ensures
        first_of(cs2, ty, j + 1) == (match first_of(cs, ty, j) {
            Some(i) => Some(i + 1),
            None => None::<int>,
        }),
    decreases cs.len() - j,
{
    if j < cs.len() && cs[j].0 != ty {
        lemma_first_of_shift(cs, cs2, ty, j + 1);
    }
}

/// `data` with the chunk `t`/`p` put in at `k`.
pub open spec fn spliced(data: Seq<u8>, k: int, t: Seq<u8>, p: Seq<u8>) -> Seq<u8> {
    data.subrange(0, k) + chunk_bytes(t, p) + data.subrange(k, data.len() as int)
}

/// A file with the chunk `t`/`p` put in right after its HEAD chunk.
pub open spec fn with_chunk_after_head(data: Seq<u8>, t: Seq<u8>, p: Seq<u8>) -> Seq<u8> {
    match read_chunks_spec(data) {
        Ok((h, cs)) => spliced(data, 17 + cs[0].1.len() as int, t, p),
        Err(_) => data,
    }
}

/// The chunks `cs` with `(t, p)` put in right after the first.
pub open spec fn chunks_with_second(cs: Seq<(Seq<u8>, Seq<u8>)>, t: Seq<u8>, p: Seq<u8>) -> Seq<
    (Seq<u8>, Seq<u8>),
> {
    seq![cs[0], (t, p)] + cs.drop_first()
}

/// The HEAD chunk of a file that reads is the chunk at 5; the others follow it.
#[verifier::spinoff_prover]
proof fn lemma_head_chunk(data: Seq<u8>, h: Header, cs: Seq<(Seq<u8>, Seq<u8>)>)
    requires
        read_chunks_spec(data) == Ok::<(Header, Seq<(Seq<u8>, Seq<u8>)>), Error>((h, cs)),
    ensures
        cs.len() >= 1,
        cs[0].0 == head_ty(),
        parse_chunk(data, 5) == Ok::<(Seq<u8>, Seq<u8>, int), Error>(
            (head_ty(), cs[0].1, 17 + cs[0].1.len() as int),
        ),
        chunks_from(data, 17 + cs[0].1.len() as int) == Ok::<Seq<(Seq<u8>, Seq<u8>)>, Error>(
            cs.drop_first(),
        ),
        17 + cs[0].1.len() <= data.len(),
        parse_header_spec(cs[0].1) == Ok::<Header, Error>(h),
{
    assert(chunks_from(data, 5) == Ok::<Seq<(Seq<u8>, Seq<u8>)>, Error>(cs));
    assert(head_ty() != end_ty()) by {
        assert(head_ty()[0] != end_ty()[0]);
    }
    lemma_parse_chunk_advances(data, 5);
    match chunks_from(data, 17 + cs[0].1.len() as int) {
        Ok(r) => {
            assert(cs =~= seq![(head_ty(), cs[0].1)] + r);
            assert(r =~= cs.drop_first());
        },
        Err(_) => {},
    }
}

/// The chunk read at 5 reads the same once a chunk is put in after it.
#[verifier::spinoff_prover]
proof fn lemma_splice_head(data: Seq<u8>, k: int, hp: Seq<u8>, t: Seq<u8>, p: Seq<u8>)
    requires
        parse_chunk(data, 5) == Ok::<(Seq<u8>, Seq<u8>, int), Error>((head_ty(), hp, k)),
        5 <= k <= data.len(),
    ensures
        parse_chunk(spliced(data, k, t, p), 5) == Ok::<(Seq<u8>, Seq<u8>, int), Error>(
            (head_ty(), hp, k),
        ),
{
    let data2 = spliced(data, k, t, p);
    let pre = data.subrange(0, k);
    assert(data2 == pre + (chunk_bytes(t, p) + data.subrange(k, data.len() as int)));
    assert forall|i: int| 5 <= i < k implies #[trigger] data[i] == data2[5 + (i - 5)] by {
        assert(data2[i] == pre[i]);
    }
    lemma_parse_chunk_copy(data, 5, data2, 5, head_ty(), hp, k);
}

/// The chunk put in at `k` reads there.
#[verifier::spinoff_prover]
proof fn lemma_splice_new(data: Seq<u8>, k: int, t: Seq<u8>, p: Seq<u8>)
    requires
        0 <= k <= data.len(),
        t.len() == 4,
        p.len() <= u32::MAX,
    ensures
        parse_chunk(spliced(data, k, t, p), k) == Ok::<(Seq<u8>, Seq<u8>, int), Error>(
            (t, p, k + 12 + p.len()),
        ),
{
    let cb = chunk_bytes(t, p);
    let rest = data.subrange(k, data.len() as int);
    let pre = data.subrange(0, k);
    lemma_holds_middle(pre, cb, rest);
    lemma_chunk_reads(spliced(data, k, t, p), k, t, p, rest);
}

/// A written chunk reads back as itself, 12 bytes longer than its payload.
#[verifier::spinoff_prover]
proof fn lemma_chunk_reads(data: Seq<u8>, cur: int, ty: Seq<u8>, p: Seq<u8>, rest: Seq<u8>)
    requires
        ty.len() == 4,
        p.len() <= u32::MAX,
        holds_at(data, cur, chunk_bytes(ty, p) + rest),
    ensures
        parse_chunk(data, cur) == Ok::<(Seq<u8>, Seq<u8>, int), Error>((ty, p, cur + 12 + p.len())),
{
    lemma_chunk_at(data, cur, ty, p, rest);
}

/// The middle of three joined sequences stands right after the first.
proof fn lemma_holds_middle(a: Seq<u8>, b: Seq<u8>, c: Seq<u8>)
    ensures
        holds_at(a + b + c, a.len() as int, b + c),
{
    assert((a + b + c).subrange(a.len() as int, (a + b + c).len() as int) =~= b + c);
}

/// After the chunk put in at `k`, the chunks read are those read from `k`
/// before.
#[verifier::spinoff_prover]
proof fn lemma_splice_rest(data: Seq<u8>, k: int, t: Seq<u8>, p: Seq<u8>)
    requires
        0 <= k <= data.len(),
        t.len() == 4,
    ensures
        chunks_from(spliced(data, k, t, p), k + 12 + p.len()) == chunks_from(data, k),
{
    let cb = chunk_bytes(t, p);
    let rest = data.subrange(k, data.len() as int);
    let data2 = spliced(data, k, t, p);
    lemma_chunk_at_len(t, p);
    let k2 = k + 12 + p.len();
    assert(data2 == data.subrange(0, k) + cb + rest);
    assert forall|i: int| k <= i < data.len() implies #[trigger] data[i] == data2[k2 + (i - k)] by {
        assert(data2[k2 + (i - k)] == rest[i - k]);
    }
    lemma_chunks_from_shift(data, k, data2, k2);
}

/// A chunk other than END read at `cur` heads the chunks read from there.
proof fn lemma_chunks_cons(d: Seq<u8>, cur: int, t: Seq<u8>, p: Seq<u8>, c: int)
    requires
        parse_chunk(d, cur) == Ok::<(Seq<u8>, Seq<u8>, int), Error>((t, p, c)),
        t != end_ty(),
        0 <= cur < d.len(),
    ensures
        chunks_from(d, cur) == match chunks_from(d, c) {
            Err(e) => Err(e),
            Ok(r) => Ok::<Seq<(Seq<u8>, Seq<u8>)>, Error>(seq![(t, p)] + r),
        },
{
}

/// Putting a chunk in right after the first one puts it second among the
/// chunks read.
#[verifier::spinoff_prover]
#[verifier::rlimit(40)]
proof fn lemma_splice_chunks(
    data: Seq<u8>,
    k: int,
    hp: Seq<u8>,
    r: Seq<(Seq<u8>, Seq<u8>)>,
    t: Seq<u8>,
    p: Seq<u8>,
)
    requires
        parse_chunk(data, 5) == Ok::<(Seq<u8>, Seq<u8>, int), Error>((head_ty(), hp, k)),
        chunks_from(data, k) == Ok::<Seq<(Seq<u8>, Seq<u8>)>, Error>(r),
        5 <= k <= data.len(),
        t.len() == 4,
        t != end_ty(),
        p.len() <= u32::MAX,
    ensures
        chunks_from(spliced(data, k, t, p), 5) == Ok::<Seq<(Seq<u8>, Seq<u8>)>, Error>(
            seq![(head_ty(), hp)] + (seq![(t, p)] + r),
        ),
{
    let data2 = spliced(data, k, t, p);
    assert(head_ty() != end_ty()) by {
        assert(head_ty()[0] != end_ty()[0]);
    }
    lemma_splice_head(data, k, hp, t, p);
    lemma_splice_new(data, k, t, p);
    lemma_splice_rest(data, k, t, p);
    lemma_chunk_at_len(t, p);
    assert(data2.len() == data.len() + 12 + p.len());
    lemma_chunks_cons(data2, k, t, p, k + 12 + p.len());
    lemma_chunks_cons(data2, 5, head_ty(), hp, k);
}

/// A written chunk is 12 bytes longer than its payload.
proof fn lemma_chunk_at_len(t: Seq<u8>, p: Seq<u8>)
    requires
        t.len() == 4,
    ensures
        chunk_bytes(t, p).len() == 12 + p.len(),
{
    lemma_le32_roundtrip(p.len() as u32);
    lemma_le32_roundtrip(crc32_spec(t + p));
}

/// The file with a chunk put in after HEAD reads to the same header and to
/// the chunks with that one second.
#[verifier::spinoff_prover]
proof fn lemma_insert_reads(data: Seq<u8>, h: Header, cs: Seq<(Seq<u8>, Seq<u8>)>, t: Seq<u8>, p: Seq<u8>)
    requires
        read_chunks_spec(data) == Ok::<(Header, Seq<(Seq<u8>, Seq<u8>)>), Error>((h, cs)),
        t.len() == 4,
        t != end_ty(),
        p.len() <= u32::MAX,
    ensures
        read_chunks_spec(with_chunk_after_head(data, t, p)) == Ok::<
            (Header, Seq<(Seq<u8>, Seq<u8>)>),
            Error,
        >((h, chunks_with_second(cs, t, p))),
{
    lemma_head_chunk(data, h, cs);
    let hp = cs[0].1;
    let k = 17 + hp.len() as int;
    let data2 = spliced(data, k, t, p);
    assert(data2 == with_chunk_after_head(data, t, p));
    lemma_splice_chunks(data, k, hp, cs.drop_first(), t, p);
    let cs2 = chunks_with_second(cs, t, p);
    assert(seq![(head_ty(), hp)] + (seq![(t, p)] + cs.drop_first()) =~= cs2);
    assert(data2.subrange(0, 4) =~= data.subrange(0, 4));
    assert(data2[4] == data.subrange(0, k)[4]);
    assert(cs2[0] == cs[0]);
}

/// Files whose chunks differ only by a chunk of another type than RAST and
/// VECT, second, decode alike.
#[verifier::spinoff_prover]
proof fn lemma_insert_payload(
    d1: Seq<u8>,
    d2: Seq<u8>,
    h: Header,
    cs: Seq<(Seq<u8>, Seq<u8>)>,
    t: Seq<u8>,
    p: Seq<u8>,
)
    requires
        read_chunks_spec(d1) == Ok::<(Header, Seq<(Seq<u8>, Seq<u8>)>), Error>((h, cs)),
        read_chunks_spec(d2) == Ok::<(Header, Seq<(Seq<u8>, Seq<u8>)>), Error>(
            (h, chunks_with_second(cs, t, p)),
        ),
        t != rast_ty(),
        t != vect_ty(),
    ensures
        payload_spec(d2) == payload_spec(d1),
        vect_payload(d2) == vect_payload(d1),
{
    lemma_head_chunk(d1, h, cs);
    let cs2 = chunks_with_second(cs, t, p);
    assert(head_ty() != rast_ty()) by {
        assert(head_ty()[0] != rast_ty()[0]);
    }
    assert(head_ty() != vect_ty()) by {
        assert(head_ty()[0] != vect_ty()[0]);
    }
    assert(cs2[0] == cs[0]);
    assert(cs2[1] == (t, p));
    assert forall|i: int| 1 <= i < cs.len() implies cs2[i + 1] == cs[i] by {}
    lemma_first_of_step(cs, cs2, rast_ty(), t);
    lemma_first_of_step(cs, cs2, vect_ty(), t);
    match first_of(cs, rast_ty(), 0) {
        Some(i) => {
            assert(cs2[i + 1].1 == cs[i].1);
        },
        None => {},
    }
    match first_of(cs, vect_ty(), 0) {
        Some(i) => {
            assert(cs2[i + 1].1 == cs[i].1);
        },
        None => {},
    }
}

/// Where a type other than the first chunk's and `t` is found once `t` is
/// put in second.
proof fn lemma_first_of_step(
    cs: Seq<(Seq<u8>, Seq<u8>)>,
    cs2: Seq<(Seq<u8>, Seq<u8>)>,
    ty: Seq<u8>,
    t: Seq<u8>,
)
    requires
        cs.len() >= 1,
        cs2.len() == cs.len() + 1,
        cs2[0] == cs[0],
        cs2[1].0 == t,
        forall|i: int| 1 <= i < cs.len() ==> cs2[i + 1] == cs[i],
        cs[0].0 != ty,
        t != ty,
    ensures
        first_of(cs2, ty, 0) == (match first_of(cs, ty, 0) {
            Some(i) => Some(i + 1),
            None => None::<int>,
        }),
        first_of(cs, ty, 0) matches Some(i) ==> 1 <= i < cs.len() && cs2[i + 1] == cs[i],
{
    lemma_first_of_shift(cs, cs2, ty, 1);
    lemma_first_of(cs, ty, 1);
    assert(first_of(cs2, ty, 0) == first_of(cs2, ty, 1));
    assert(first_of(cs2, ty, 1) == first_of(cs2, ty, 2));
    assert(first_of(cs, ty, 0) == first_of(cs, ty, 1));
}

/// Forward compatibility: a chunk of a type this version does not use
/// (anything but RAST, VECT and END), put in right after HEAD, is skipped:
/// the file reads to the same header, payload and pixels as before.
pub proof fn lemma_unknown_chunk_skipped(data: Seq<u8>, t: Seq<u8>, p: Seq<u8>)
    requires
        read_chunks_spec(data) is Ok,
        t.len() == 4,
        t != rast_ty(),
        t != vect_ty(),
        t != end_ty(),
        p.len() <= u32::MAX,
    ensures
        read_chunks_spec(data) matches Ok((h, _)) ==> read_chunks_spec(
            with_chunk_after_head(data, t, p),
        ) matches Ok((h2, _)) && h2 == h,
        payload_spec(with_chunk_after_head(data, t, p)) == payload_spec(data),
        payload_decodable(with_chunk_after_head(data, t, p)) == payload_decodable(data),
        decode_file_spec(with_chunk_after_head(data, t, p)) == decode_file_spec(data),
{
    let (h, cs) = read_chunks_spec(data)->Ok_0;
    let data2 = with_chunk_after_head(data, t, p);
    lemma_insert_reads(data, h, cs, t, p);
    lemma_insert_payload(data, data2, h, cs, t, p);
}

// ---- single-bit errors ----

/// Whether byte `pos` lies in the length field of one of the chunks read
/// from `cur`.
pub open spec fn in_length_field(data: Seq<u8>, cur: int, pos: int) -> bool
    decreases data.len() - cur,
{
    if cur < 0 || cur >= data.len() {
        false
    } else {
        match parse_chunk(data, cur) {
            Err(_) => false,
            Ok((t, p, c)) => if t == end_ty() {
                cur + 4 <= pos < cur + 8
            } else {
                proof {
                    lemma_parse_chunk_advances(data, cur);
                }
                (cur + 4 <= pos < cur + 8) || in_length_field(data, c, pos)
            },
        }
    }
}

/// A u32 read little-endian changes when one of its four bytes does.
proof fn lemma_from_le32_byte_change(s: Seq<u8>, at: int, j: int, v: u8)
    requires
        0 <= at,
        at + 4 <= s.len(),
        0 <= j < 4,
        v != s[at + j],
    ensures
        from_le32(s.update(at + j, v), at) != from_le32(s, at),
{
    let s2 = s.update(at + j, v);
    let (a0, a1, a2, a3) = (s[at], s[at + 1], s[at + 2], s[at + 3]);
    let (b0, b1, b2, b3) = (s2[at], s2[at + 1], s2[at + 2], s2[at + 3]);
    assert(from_le32(s, at) == (a0 as u32) | ((a1 as u32) << 8u32) | ((a2 as u32) << 16u32) | ((a3
        as u32) << 24u32));
    assert(from_le32(s2, at) == (b0 as u32) | ((b1 as u32) << 8u32) | ((b2 as u32) << 16u32) | ((b3
        as u32) << 24u32));
    assert(a0 != b0 || a1 != b1 || a2 != b2 || a3 != b3);
    assert((a0 != b0 || a1 != b1 || a2 != b2 || a3 != b3) ==> (a0 as u32) | ((a1 as u32) << 8u32)
        | ((a2 as u32) << 16u32) | ((a3 as u32) << 24u32) != (b0 as u32) | ((b1 as u32) << 8u32) | ((
    b2 as u32) << 16u32) | ((b3 as u32) << 24u32)) by (bit_vector);
}

/// A flipped bit in the type, payload or CRC of a chunk makes that chunk's
/// CRC check fail, naming the type as it now reads.
#[verifier::spinoff_prover]
proof fn lemma_flip_in_chunk(data: Seq<u8>, cur: int, pos: int, bit: u8, t: Seq<u8>, p: Seq<u8>, c: int)
    requires
        parse_chunk(data, cur) == Ok::<(Seq<u8>, Seq<u8>, int), Error>((t, p, c)),
        cur <= pos < c,
        !(cur + 4 <= pos < cur + 8),
        bit < 8,
    ensures
        parse_chunk(flip_bit(data, pos, bit), cur) == Err::<(Seq<u8>, Seq<u8>, int), Error>(
            crc_error(flip_bit(data, pos, bit).subrange(cur, cur + 4)),
        ),
{
    let d2 = flip_bit(data, pos, bit);
    let v = d2[pos];
    lemma_flip_changes_byte(data[pos], bit);
    lemma_parse_chunk_advances(data, cur);
    let l = from_le32(data, cur + 4) as int;
    let be = cur + 8 + l;
    assert(d2[cur + 4] == data[cur + 4]);
    assert(d2[cur + 5] == data[cur + 5]);
    assert(d2[cur + 6] == data[cur + 6]);
    assert(d2[cur + 7] == data[cur + 7]);
    lemma_from_le32_window(d2, data, cur + 4, cur + 4);
    let ty2 = d2.subrange(cur, cur + 4);
    let p2 = d2.subrange(cur + 8, be);
    if pos < be {
        let tp = t + p;
        let j = if pos < cur + 4 { pos - cur } else { pos - cur - 4 };
        assert(tp[j] == data[pos]);
        assert(ty2 + p2 =~= tp.update(j, v));
        lemma_crc32_detects_byte_change(tp, j, v);
        assert(d2[be] == data[be]);
        assert(d2[be + 1] == data[be + 1]);
        assert(d2[be + 2] == data[be + 2]);
        assert(d2[be + 3] == data[be + 3]);
        lemma_from_le32_window(d2, data, be, be);
    } else {
        assert(ty2 =~= t);
        assert(p2 =~= p);
        lemma_from_le32_byte_change(data, be, pos - be, v);
        assert(data.update(be + (pos - be), v) =~= d2);
    }
}

/// The chunks read from `cur` stop at a CRC mismatch once a bit outside the
/// length fields is flipped.
#[verifier::spinoff_prover]
proof fn lemma_flip_in_chunks(data: Seq<u8>, cur: int, pos: int, bit: u8)
    requires
        0 <= cur,
        chunks_from(data, cur) is Ok,
        cur <= pos < data.len(),
        !in_length_field(data, cur, pos),
        bit < 8,
    ensures
        exists|k: int|
            cur <= k <= pos && chunks_from(flip_bit(data, pos, bit), cur) == Err::<
                Seq<(Seq<u8>, Seq<u8>)>,
                Error,
            >(crc_error(#[trigger] flip_bit(data, pos, bit).subrange(k, k + 4))),
    decreases data.len() - cur,
{
    let d2 = flip_bit(data, pos, bit);
    match parse_chunk(data, cur) {
        Ok((t, p, c)) => {
            lemma_parse_chunk_advances(data, cur);
            if pos < c {
                lemma_flip_in_chunk(data, cur, pos, bit, t, p, c);
                assert(d2.subrange(cur, cur + 4) == flip_bit(data, pos, bit).subrange(cur, cur + 4));
            } else {
                assert(t != end_ty());
                assert forall|i: int| cur <= i < c implies #[trigger] data[i] == d2[cur + (i - cur)] by {
                    assert(i != pos);
                }
                lemma_parse_chunk_copy(data, cur, d2, cur, t, p, c);
                lemma_flip_in_chunks(data, c, pos, bit);
                let k = choose|k: int|
                    c <= k <= pos && chunks_from(flip_bit(data, pos, bit), c) == Err::<
                        Seq<(Seq<u8>, Seq<u8>)>,
                        Error,
                    >(crc_error(#[trigger] flip_bit(data, pos, bit).subrange(k, k + 4)));
                lemma_chunks_cons(d2, cur, t, p, c);
                assert(chunks_from(d2, cur) == Err::<Seq<(Seq<u8>, Seq<u8>)>, Error>(
                    crc_error(flip_bit(data, pos, bit).subrange(k, k + 4)),
                ));
            }
        },
        Err(_) => {},
    }
}

/// A single flipped bit anywhere in a file that reads, outside the chunk
/// length fields (so in a chunk's type, payload or CRC, END included), is
/// caught: reading the file stops at a CRC mismatch, which names the type
/// bytes of a chunk at or before the flipped bit as they now read; so the
/// file does not decode either.
pub proof fn lemma_bit_flip_caught(data: Seq<u8>, pos: int, bit: u8)
    requires
        read_chunks_spec(data) is Ok,
        5 <= pos < data.len(),
        !in_length_field(data, 5, pos),
        bit < 8,
    ensures
        exists|k: int|
            5 <= k <= pos && read_chunks_spec(flip_bit(data, pos, bit)) == Err::<
                (Header, Seq<(Seq<u8>, Seq<u8>)>),
                Error,
            >(crc_error(#[trigger] flip_bit(data, pos, bit).subrange(k, k + 4))),
        read_chunks_spec(flip_bit(data, pos, bit)) matches Err(Error::CrcMismatch { .. }),
        payload_spec(flip_bit(data, pos, bit)) matches Err(Error::CrcMismatch { .. }),
        decode_file_spec(flip_bit(data, pos, bit)) matches Some(Err(Error::CrcMismatch { .. })),
{
    let d2 = flip_bit(data, pos, bit);
    lemma_flip_in_chunks(data, 5, pos, bit);
    let k = choose|k: int|
        5 <= k <= pos && chunks_from(flip_bit(data, pos, bit), 5) == Err::<
            Seq<(Seq<u8>, Seq<u8>)>,
            Error,
        >(crc_error(#[trigger] flip_bit(data, pos, bit).subrange(k, k + 4)));
    assert(d2.subrange(0, 4) =~= data.subrange(0, 4));
    assert(d2[4] == data[4]);
    assert(read_chunks_spec(d2) == Err::<(Header, Seq<(Seq<u8>, Seq<u8>)>), Error>(
        crc_error(d2.subrange(k, k + 4)),
    ));
}


} // verus!
