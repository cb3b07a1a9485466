//! ENCR wrapper: ChaCha20-Poly1305 over the serialized payload chunk,
//! authenticated against the HEAD payload.

use vstd::prelude::*;
use chacha20poly1305::aead::rand_core::RngCore;
use chacha20poly1305::aead::{Aead, KeyInit, OsRng, Payload};
use chacha20poly1305::{ChaCha20Poly1305, Key, Nonce};
use crate::container::{
    chunk_bytes, chunk_views, chunks_from, file_bytes, first_of, find_chunk, head_ty, magic,
    magic_bytes, parse_chunk, payload_spec, read_chunks, read_chunks_spec, rast_ty, vect_ty, encr_ty,
    end_ty, head_type, end_type, encr_type, rast_type, vect_type, same_type, write_chunk, Chunk,
    VERSION, lemma_file_chunks, parse_header_spec, encode_file_spec, head_payload,
    lemma_head_roundtrip, Header, decode_file_spec,
};
use crate::pixel::Rgba;
use crate::raster;
use crate::error::Error;
use crate::raster::append_bytes;

verus! {

/// Algorithm byte of ChaCha20-Poly1305 in an ENCR payload.
pub const ALG_CHACHA20_POLY1305: u8 = 0;

/// The ciphertext followed by the tag that ChaCha20-Poly1305 produces for
/// `msg` under `key` and `nonce`, authenticating `aad`.
pub uninterp spec fn chacha_seal(key: Seq<u8>, nonce: Seq<u8>, msg: Seq<u8>, aad: Seq<u8>) -> Seq<u8>;

/// The plaintext ChaCha20-Poly1305 recovers from ciphertext-and-tag `ct`
/// under `key` and `nonce` with `aad`, or `None` when authentication fails.
pub uninterp spec fn chacha_open(key: Seq<u8>, nonce: Seq<u8>, ct: Seq<u8>, aad: Seq<u8>) -> Option<
    Seq<u8>,
>;

/// `Aead::encrypt` of `ChaCha20Poly1305` (chacha20poly1305 crate). The crate
/// refuses a message of 2^32 - 1 blocks of 64 bytes or more, and otherwise
/// returns the ciphertext, as long as the message, followed by the 16-byte
/// tag; opening that output with the same key, nonce and associated data
/// gives the message back.
#[verifier::external_body]
fn aead_seal(key: &[u8; 32], nonce: &[u8; 12], msg: &[u8], aad: &[u8]) -> (r: Option<Vec<u8>>)
    requires
        msg@.len() + 16 <= usize::MAX,
    ensures
        r is Some <==> msg@.len() / 64 < 0xFFFF_FFFF,
        r matches Some(c) ==> c@ == chacha_seal(key@, nonce@, msg@, aad@),
        r matches Some(c) ==> c@.len() == msg@.len() + 16,
        r matches Some(c) ==> chacha_open(key@, nonce@, c@, aad@) == Some(msg@),
{
    let cipher = ChaCha20Poly1305::new(Key::from_slice(key));
    cipher.encrypt(Nonce::from_slice(nonce), Payload { msg, aad }).ok()
}

/// `Aead::decrypt` of `ChaCha20Poly1305` (chacha20poly1305 crate): the
/// plaintext when the tag at the end of `ct` authenticates it, else nothing;
/// anything shorter than a tag is refused.
#[verifier::external_body]
fn aead_open(key: &[u8; 32], nonce: &[u8], ct: &[u8], aad: &[u8]) -> (r: Option<Vec<u8>>)
    requires
        nonce@.len() == 12,
    ensures
        match chacha_open(key@, nonce@, ct@, aad@) {
            Some(p) => r matches Some(v) && v@ == p,
            None => r is None,
        },
        ct@.len() < 16 ==> r is None,
{
    let cipher = ChaCha20Poly1305::new(Key::from_slice(key));
    cipher.decrypt(Nonce::from_slice(nonce), Payload { msg: ct, aad }).ok()
}

/// Twelve random bytes from the operating system (`RngCore::try_fill_bytes`
/// of `OsRng`), or `None` when the operating system cannot supply them.
/// Nothing is promised of their value, nor of when the generator fails.
#[verifier::external_body]
fn random_nonce() -> (n: Option<[u8; 12]>) {
    let mut n = [0u8; 12];
    match OsRng.try_fill_bytes(&mut n) {
        Ok(()) => Some(n),
        Err(_) => None,
    }
}

/// Index of the first payload chunk (RAST or VECT) at or after `from`.
pub open spec fn payload_index(cs: Seq<(Seq<u8>, Seq<u8>)>, from: int) -> Option<int>
    decreases cs.len() - from,
{
    if from < 0 || from >= cs.len() {
        None
    } else if cs[from].0 == rast_ty() || cs[from].0 == vect_ty() {
        Some(from)
    } else {
        payload_index(cs, from + 1)
    }
}

proof fn lemma_payload_index(cs: Seq<(Seq<u8>, Seq<u8>)>, from: int)
    ensures
        payload_index(cs, from) matches Some(i) ==> from <= i < cs.len(),
    decreases cs.len() - from,
{
    if 0 <= from < cs.len() && !(cs[from].0 == rast_ty() || cs[from].0 == vect_ty()) {
        lemma_payload_index(cs, from + 1);
    }
}

/// HEAD payload, payload chunk type and payload chunk payload of a file
/// that reads and has a payload chunk.
pub open spec fn file_parts(data: Seq<u8>) -> Option<(Seq<u8>, Seq<u8>, Seq<u8>)> {
    match read_chunks_spec(data) {
        Ok((_, cs)) => match payload_index(cs, 0) {
            Some(i) => Some((cs[0].1, cs[i].0, cs[i].1)),
            None => None,
        },
        Err(_) => None,
    }
}

/// The ENCR payload: algorithm byte, nonce, ciphertext with tag.
pub open spec fn encr_payload(nonce: Seq<u8>, ct: Seq<u8>) -> Seq<u8> {
    seq![0u8] + nonce + ct
}

/// The encrypted file for `data` under `key` and `nonce`: HEAD kept in the
/// clear, the payload chunk sealed inside ENCR, authenticated against the
/// HEAD payload.
pub open spec fn seal_spec(data: Seq<u8>, key: Seq<u8>, nonce: Seq<u8>) -> Result<Seq<u8>, Error> {
    match read_chunks_spec(data) {
        Err(e) => Err(e),
        Ok(_) => match file_parts(data) {
            None => Err(Error::MissingChunk("RAST or VECT")),
            Some((head, ty, p)) => {
                let plain = chunk_bytes(ty, p);
                if plain.len() / 64 >= 0xFFFF_FFFF {
                    Err(Error::CryptoFailed)
                } else {
                    Ok(
                        file_bytes(
                            head,
                            encr_ty(),
                            encr_payload(nonce, chacha_seal(key, nonce, plain, head)),
                        ),
                    )
                }
            },
        },
    }
}

/// The plain file recovered from an encrypted one under `key`.
pub open spec fn open_spec(data: Seq<u8>, key: Seq<u8>) -> Result<Seq<u8>, Error> {
    match read_chunks_spec(data) {
        Err(e) => Err(e),
        Ok((_, cs)) => match first_of(cs, encr_ty(), 0) {
            None => Err(Error::MissingChunk("ENCR")),
            Some(i) => {
                let p = cs[i].1;
                if p.len() < 13 {
                    Err(Error::Truncated)
                } else if p[0] != 0 {
                    Err(Error::BadHeader("unknown encryption algorithm"))
                } else {
                    match chacha_open(key, p.subrange(1, 13), p.subrange(13, p.len() as int), cs[0].1) {
                        None => Err(Error::CryptoFailed),
                        Some(plain) => Ok(
                            magic() + seq![1u8] + chunk_bytes(head_ty(), cs[0].1) + plain
                                + chunk_bytes(end_ty(), Seq::empty()),
                        ),
                    }
                }
            },
        },
    }
}

/// Every chunk read from a file has a four-byte type and a payload whose
/// length fits the u32 length field.
proof fn lemma_chunks_bounded(data: Seq<u8>, cur: int)
    ensures
        chunks_from(data, cur) matches Ok(cs) ==> forall|k: int|
            0 <= k < cs.len() ==> (#[trigger] cs[k]).1.len() <= u32::MAX && cs[k].0.len() == 4
                && 12 + cs[k].1.len() <= data.len() - cur && (k >= 1 ==> 24 + cs[0].1.len()
                + cs[k].1.len() <= data.len() - cur),
    decreases data.len() - cur,
{
    if 0 <= cur < data.len() {
        match parse_chunk(data, cur) {
            Ok((ty, p, c)) => {
                if ty != end_ty() {
                    crate::container::lemma_parse_chunk_advances(data, cur);
                    assert(c == cur + 12 + p.len());
                    lemma_chunks_bounded(data, c);
                    if let Ok(rest) = chunks_from(data, c) {
                        let cs = seq![(ty, p)] + rest;
                        assert forall|k: int| 0 <= k < cs.len() implies (#[trigger] cs[k]).1.len()
                            <= u32::MAX && cs[k].0.len() == 4 && 12 + cs[k].1.len() <= data.len()
                            - cur && (k >= 1 ==> 24 + cs[0].1.len() + cs[k].1.len() <= data.len()
                            - cur) by {
                            if k > 0 {
                                assert(cs[k] == rest[k - 1]);
                            }
                        }
                    }
                }
            },
            Err(_) => {},
        }
    }
}

/// Index of the first payload chunk.
fn find_payload(chunks: &Vec<Chunk>) -> (res: Option<usize>)
    ensures
        res matches Some(i) ==> payload_index(chunk_views(chunks@), 0) == Some(i as int) && i
            < chunks@.len(),
        res is None ==> payload_index(chunk_views(chunks@), 0) is None,
{
    let ghost cs = chunk_views(chunks@);
    let rast = rast_type();
    let vect = vect_type();
    let mut i: usize = 0;
    while i < chunks.len()
        invariant
            cs == chunk_views(chunks@),
            rast@ == rast_ty(),
            vect@ == vect_ty(),
            i <= chunks@.len(),
            payload_index(cs, 0) == payload_index(cs, i as int),
        decreases chunks.len() - i,
    {
        if same_type(&chunks[i].ty, &rast) || same_type(&chunks[i].ty, &vect) {
            return Some(i);
        }
        i = i + 1;
    }
    None
}

/// The files on which sealing round-trips: they read, have a payload chunk,
/// and that chunk sealed still fits an ENCR chunk's u32 length field.
pub open spec fn sealable(data: Seq<u8>) -> bool {
    file_parts(data) matches Some((_, _, p)) && p.len() + 41 <= u32::MAX
}

/// The plain file an encrypted one stands for: HEAD, the payload chunk,
/// END.
pub open spec fn plain_of(data: Seq<u8>) -> Seq<u8> {
    match file_parts(data) {
        Some((head, ty, p)) => file_bytes(head, ty, p),
        None => Seq::empty(),
    }
}

/// Write magic, version, HEAD, the given ENCR payload and END.
fn write_sealed(head: &[u8], encr: &[u8]) -> (out: Vec<u8>)
    ensures
        out@ == file_bytes(head@, encr_ty(), encr@),
{
    let mut out: Vec<u8> = Vec::new();
    let m = magic_bytes();
    append_bytes(&mut out, m.as_slice());
    out.push(VERSION);
    write_chunk(&mut out, &head_type(), head);
    write_chunk(&mut out, &encr_type(), encr);
    let empty: [u8; 0] = [];
    write_chunk(&mut out, &end_type(), empty.as_slice());
    proof {
        assert(empty@ =~= Seq::<u8>::empty());
        assert(out@ =~= file_bytes(head@, encr_ty(), encr@));
    }
    out
}

/// A file of HEAD and ENCR reads back as those two chunks.
proof fn lemma_sealed_chunks(head: Seq<u8>, encr: Seq<u8>)
    requires
        parse_header_spec(head) is Ok,
        encr.len() <= u32::MAX,
    ensures
        read_chunks_spec(file_bytes(head, encr_ty(), encr)) == Ok::<
            (crate::container::Header, Seq<(Seq<u8>, Seq<u8>)>),
            Error,
        >((parse_header_spec(head).unwrap(), seq![(head_ty(), head), (encr_ty(), encr)])),
{
    assert(head.len() == 14);
    assert(encr_ty()[3] != end_ty()[3]);
    lemma_file_chunks(head, encr_ty(), encr);
}

/// Opening a sealed file gives back HEAD, the sealed chunk and END.
#[verifier::spinoff_prover]
proof fn lemma_open_sealed(
    head: Seq<u8>,
    ty: Seq<u8>,
    p: Seq<u8>,
    key: Seq<u8>,
    nonce: Seq<u8>,
    ct: Seq<u8>,
)
    requires
        parse_header_spec(head) is Ok,
        ty.len() == 4,
        p.len() + 41 <= u32::MAX,
        nonce.len() == 12,
        chacha_open(key, nonce, ct, head) == Some(chunk_bytes(ty, p)),
        ct.len() == chunk_bytes(ty, p).len() + 16,
    ensures
        open_spec(file_bytes(head, encr_ty(), encr_payload(nonce, ct)), key) == Ok::<Seq<u8>, Error>(
            file_bytes(head, ty, p),
        ),
{
    let encr = encr_payload(nonce, ct);
    assert(encr.len() == 13 + ct.len());
    lemma_sealed_chunks(head, encr);
    let cs2 = seq![(head_ty(), head), (encr_ty(), encr)];
    assert(head_ty() != encr_ty()) by {
        assert(head_ty()[0] != encr_ty()[0]);
    }
    assert(cs2[0].0 == head_ty());
    assert(cs2[1].0 == encr_ty());
    reveal_with_fuel(first_of, 3);
    assert(first_of(cs2, encr_ty(), 0) == Some(1int));
    assert(encr.subrange(1, 13) =~= nonce);
    assert(encr.subrange(13, encr.len() as int) =~= ct);
    assert(encr[0] == 0);
    assert(magic() + seq![1u8] + chunk_bytes(head_ty(), head) + chunk_bytes(ty, p) + chunk_bytes(
        end_ty(),
        Seq::empty(),
    ) == file_bytes(head, ty, p));
}

proof fn lemma_first_of_pair(a: Seq<u8>, x: Seq<u8>, b: Seq<u8>, y: Seq<u8>, ty: Seq<u8>)
    requires
        a != ty,
        b != ty,
    ensures
        first_of(seq![(a, x), (b, y)], ty, 0) is None,
{
    let cs = seq![(a, x), (b, y)];
    assert(cs[0].0 == a);
    assert(cs[1].0 == b);
    reveal_with_fuel(first_of, 3);
}

/// A sealed file has no payload chunk, so it does not decode.
#[verifier::spinoff_prover]
proof fn lemma_sealed_no_payload(head: Seq<u8>, encr: Seq<u8>)
    requires
        parse_header_spec(head) is Ok,
        encr.len() <= u32::MAX,
    ensures
        payload_spec(file_bytes(head, encr_ty(), encr)) is Err,
{
    lemma_sealed_chunks(head, encr);
    assert(head_ty() != rast_ty()) by {
        assert(head_ty()[0] != rast_ty()[0]);
    }
    assert(encr_ty() != rast_ty()) by {
        assert(encr_ty()[0] != rast_ty()[0]);
    }
    assert(head_ty() != vect_ty()) by {
        assert(head_ty()[0] != vect_ty()[0]);
    }
    assert(encr_ty() != vect_ty()) by {
        assert(encr_ty()[0] != vect_ty()[0]);
    }
    lemma_first_of_pair(head_ty(), head, encr_ty(), encr, rast_ty());
    lemma_first_of_pair(head_ty(), head, encr_ty(), encr, vect_ty());
    crate::container::lemma_no_payload_chunk(file_bytes(head, encr_ty(), encr));
}

/// Rewrite a plain PRISM file as an encrypted one under `key` and `nonce`:
/// the payload chunk moves inside an ENCR chunk, authenticated against the
/// HEAD payload. An encrypted file does not decode; opening it with the
/// same key gives back the plain file (HEAD, payload chunk, END).
pub fn seal_file(data: &[u8], key: &[u8; 32], nonce: &[u8; 12]) -> (res: Result<Vec<u8>, Error>)
    ensures
        match seal_spec(data@, key@, nonce@) {
            Ok(s) => res matches Ok(v) && v@ == s,
            Err(e) => res == Err::<Vec<u8>, Error>(e),
        },
        sealable(data@) ==> (res matches Ok(v) && payload_spec(v@) is Err && open_spec(v@, key@)
            == Ok::<Seq<u8>, Error>(plain_of(data@))),
{
    let (_, chunks) = read_chunks(data)?;
    let ghost cs = chunk_views(chunks@);
    proof {
        lemma_chunks_bounded(data@, 5);
    }
    let i = match find_payload(&chunks) {
        Some(i) => i,
        None => {
            return Err(Error::MissingChunk("RAST or VECT"));
        },
    };
    let head = chunks[0].payload;
    let n = data.len();
    proof {
        assert(cs[0].0 == head_ty());
        assert(head_ty() != rast_ty()) by {
            assert(head_ty()[0] != rast_ty()[0]);
        }
        assert(head_ty() != vect_ty()) by {
            assert(head_ty()[0] != vect_ty()[0]);
        }
        assert(payload_index(cs, 0) == payload_index(cs, 1));
        lemma_payload_index(cs, 1);
        assert(i >= 1);
        assert(parse_header_spec(cs[0].1) is Ok);
        assert(24 + cs[0].1.len() + cs[i as int].1.len() <= n - 5);
        assert(cs[i as int].1.len() <= u32::MAX);
        assert(cs[0].1 == head@);
        assert(cs[i as int] == (chunks@[i as int].ty@, chunks@[i as int].payload@));
    }
    let mut plain: Vec<u8> = Vec::new();
    write_chunk(&mut plain, &chunks[i].ty, chunks[i].payload);
    let ct = match aead_seal(key, nonce, plain.as_slice(), head) {
        Some(c) => c,
        None => {
            return Err(Error::CryptoFailed);
        },
    };
    let mut encr: Vec<u8> = Vec::new();
    encr.push(ALG_CHACHA20_POLY1305);
    append_bytes(&mut encr, nonce.as_slice());
    append_bytes(&mut encr, ct.as_slice());
    proof {
        assert(encr@ =~= encr_payload(nonce@, ct@));
    }
    let out = write_sealed(head, encr.as_slice());
    proof {
        if sealable(data@) {
            assert(cs[i as int].0.len() == 4);
            assert(file_parts(data@) == Some((head@, cs[i as int].0, cs[i as int].1)));
            lemma_open_sealed(head@, cs[i as int].0, cs[i as int].1, key@, nonce@, ct@);
            lemma_sealed_no_payload(head@, encr@);
        }
    }
    Ok(out)
}

/// Rewrite a plain PRISM file as an encrypted one under `key`, with a fresh
/// random nonce. A file that does not read, or has no payload chunk, is
/// refused before any randomness is drawn. After that, when the operating
/// system supplies no randomness the result is `CryptoFailed`; otherwise,
/// whatever nonce came out of the generator, the result is `seal_file` with
/// it.
pub fn encrypt_file(data: &[u8], key: &[u8; 32]) -> (res: Result<Vec<u8>, Error>)
    ensures
        match read_chunks_spec(data@) {
            Err(e) => res == Err::<Vec<u8>, Error>(e),
            Ok(_) => file_parts(data@) is None ==> res == Err::<Vec<u8>, Error>(
                Error::MissingChunk("RAST or VECT"),
            ),
        },
        res == Err::<Vec<u8>, Error>(Error::CryptoFailed) || exists|nonce: Seq<u8>|
            nonce.len() == 12 && match #[trigger] seal_spec(data@, key@, nonce) {
                Ok(s) => res matches Ok(v) && v@ == s,
                Err(e) => res == Err::<Vec<u8>, Error>(e),
            },
        sealable(data@) ==> (res == Err::<Vec<u8>, Error>(Error::CryptoFailed) || (res matches Ok(
            v,
        ) && payload_spec(v@) is Err && (decode_file_spec(v@) matches Some(Err(_))) && open_spec(
            v@,
            key@,
        ) == Ok::<Seq<u8>, Error>(plain_of(data@)))),
{
    let ghost any_nonce = Seq::new(12, |i: int| 0u8);
    let chunks = match read_chunks(data) {
        Ok((_, c)) => c,
        Err(e) => {
            proof {
                assert(seal_spec(data@, key@, any_nonce) == Err::<Seq<u8>, Error>(e));
            }
            return Err(e);
        },
    };
    if find_payload(&chunks).is_none() {
        proof {
            assert(file_parts(data@) is None);
            assert(seal_spec(data@, key@, any_nonce) == Err::<Seq<u8>, Error>(
                Error::MissingChunk("RAST or VECT"),
            ));
        }
        return Err(Error::MissingChunk("RAST or VECT"));
    }
    let nonce = match random_nonce() {
        Some(n) => n,
        None => {
            return Err(Error::CryptoFailed);
        },
    };
    let res = seal_file(data, key, &nonce);
    proof {
        assert(nonce@.len() == 12);
    }
    res
}

/// Reverse of `encrypt_file`: the plain PRISM file bytes.
pub fn decrypt_file(data: &[u8], key: &[u8; 32]) -> (res: Result<Vec<u8>, Error>)
    ensures
        match open_spec(data@, key@) {
            Ok(s) => res matches Ok(v) && v@ == s,
            Err(e) => res == Err::<Vec<u8>, Error>(e),
        },
{
    let (_, chunks) = read_chunks(data)?;
    let ghost cs = chunk_views(chunks@);
    let head = chunks[0].payload;
    let i = match find_chunk(&chunks, &encr_type()) {
        Some(i) => i,
        None => {
            return Err(Error::MissingChunk("ENCR"));
        },
    };
    let p = chunks[i].payload;
    proof {
        assert(cs[0].1 == head@);
        assert(cs[i as int] == (chunks@[i as int].ty@, chunks@[i as int].payload@));
    }
    if p.len() < 13 {
        return Err(Error::Truncated);
    }
    if p[0] != ALG_CHACHA20_POLY1305 {
        return Err(Error::BadHeader("unknown encryption algorithm"));
    }
    let nonce = &p[1..13];
    let ct = &p[13..p.len()];
    let plain = match aead_open(key, nonce, ct, head) {
        Some(v) => v,
        None => {
            return Err(Error::CryptoFailed);
        },
    };
    let mut out: Vec<u8> = Vec::new();
    let m = magic_bytes();
    append_bytes(&mut out, m.as_slice());
    out.push(VERSION);
    write_chunk(&mut out, &head_type(), head);
    append_bytes(&mut out, plain.as_slice());
    let empty: [u8; 0] = [];
    write_chunk(&mut out, &end_type(), empty.as_slice());
    proof {
        assert(empty@ =~= Seq::<u8>::empty());
        assert(out@ =~= magic() + seq![1u8] + chunk_bytes(head_ty(), head@) + plain@ + chunk_bytes(
            end_ty(),
            Seq::empty(),
        ));
    }
    Ok(out)
}

/// A file written by `encode_file` is sealable, and the plain file its
/// encryption opens to is the file itself: decrypting an encrypted raster
/// file gives back exactly the bytes that were encrypted.
#[verifier::spinoff_prover]
#[verifier::rlimit(40)]
pub proof fn lemma_raster_file_sealable(width: u32, height: u32, pixels: Seq<Rgba>)
    requires
        width > 0,
        height > 0,
        width * height <= 0x1_0000_0000,
        raster::raster_encode_spec(pixels, width as int, height as int).len() + 41 <= u32::MAX,
    ensures
        sealable(encode_file_spec(width, height, pixels)),
        plain_of(encode_file_spec(width, height, pixels)) == encode_file_spec(width, height, pixels),
{
    let payload = raster::raster_encode_spec(pixels, width as int, height as int);
    let head = head_payload(width, height, 0);
    let data = encode_file_spec(width, height, pixels);
    assert(rast_ty()[0] != end_ty()[0]);
    lemma_file_chunks(head, rast_ty(), payload);
    lemma_head_roundtrip(width, height, 0);
    let cs = seq![(head_ty(), head), (rast_ty(), payload)];
    let hd = parse_header_spec(head)->Ok_0;
    assert(cs[0].0 == head_ty());
    assert(cs[1].0 == rast_ty());
    assert(read_chunks_spec(data) == Ok::<(Header, Seq<(Seq<u8>, Seq<u8>)>), Error>((hd, cs)));
    assert(head_ty() != rast_ty()) by {
        assert(head_ty()[0] != rast_ty()[0]);
    }
    assert(head_ty() != vect_ty()) by {
        assert(head_ty()[0] != vect_ty()[0]);
    }
    assert(payload_index(cs, 0) == Some(1int)) by {
        reveal_with_fuel(payload_index, 3);
    }
    assert(file_parts(data) == Some((head, rast_ty(), payload)));
}

} // verus!
