use prism_core::container::{
    decode_file_checked, decode_payload_checked, magic_bytes, read_chunks, write_chunk, VERSION,
};
use prism_core::varint::{put_varint, put_varuint};
use prism_core::{decode_file, decode_payload, encode_file, Error, Image, Rgba};

fn file_with_head(head: &[u8], rest: &[(&[u8; 4], &[u8])]) -> Vec<u8> {
    let mut f = Vec::new();
    f.extend_from_slice(&magic_bytes());
    f.push(VERSION);
    write_chunk(&mut f, b"HEAD", head);
    for (ty, p) in rest {
        write_chunk(&mut f, ty, p);
    }
    write_chunk(&mut f, b"END ", &[]);
    f
}

fn head(w: u32, h: u32, kind: u8) -> Vec<u8> {
    let mut v = Vec::new();
    v.extend_from_slice(&w.to_le_bytes());
    v.extend_from_slice(&h.to_le_bytes());
    v.extend_from_slice(&[kind, 8, 0, 0, 8, 0]);
    v
}

#[test]
fn short_file_is_truncated() {
    assert_eq!(decode_file(b"PRSM"), Err(Error::Truncated));
}

#[test]
fn unknown_version_is_refused() {
    assert_eq!(decode_file(b"PRSM\x02"), Err(Error::UnsupportedVersion(2)));
}

#[test]
fn missing_end_is_reported() {
    let mut f = Vec::new();
    f.extend_from_slice(&magic_bytes());
    f.push(VERSION);
    write_chunk(&mut f, b"HEAD", &head(1, 1, 0));
    assert_eq!(decode_file(&f), Err(Error::MissingChunk("END ")));
}

#[test]
fn crc_mismatch_names_the_chunk() {
    let img = Image { width: 1, height: 1, pixels: vec![Rgba::new(1, 2, 3, 4)] };
    let mut f = encode_file(&img);
    // the HEAD payload starts after magic, version, type and length
    f[5 + 8] ^= 0xFF;
    assert_eq!(decode_file(&f), Err(Error::CrcMismatch { chunk: *b"HEAD" }));
}

#[test]
fn header_rules() {
    let mut bad = head(1, 1, 0);
    bad[9] = 16;
    assert_eq!(decode_file(&file_with_head(&bad, &[])), Err(Error::BadHeader("only 8-bit depth in version 1")));
    assert_eq!(decode_file(&file_with_head(&head(0, 1, 0), &[])), Err(Error::BadHeader("zero dimension")));
    assert_eq!(
        decode_file(&file_with_head(&head(0x10000, 0x10001, 0), &[])),
        Err(Error::BadHeader("image too large"))
    );
    assert_eq!(decode_file(&file_with_head(&head(1, 1, 5), &[])), Err(Error::BadHeader("unknown payload kind")));
    assert_eq!(
        decode_file(&file_with_head(&head(1, 1, 0)[..13], &[])),
        Err(Error::BadHeader("HEAD must be 14 bytes in version 1"))
    );
}

#[test]
fn missing_payload_chunk_is_reported() {
    assert_eq!(decode_file(&file_with_head(&head(1, 1, 0), &[])), Err(Error::MissingChunk("RAST")));
    assert_eq!(decode_payload(&file_with_head(&head(1, 1, 1), &[])).err(), Some(Error::MissingChunk("VECT")));
}

#[test]
fn data_after_end_is_refused() {
    let img = Image { width: 1, height: 1, pixels: vec![Rgba::new(1, 2, 3, 4)] };
    let mut f = encode_file(&img);
    f.push(0);
    assert_eq!(decode_file(&f), Err(Error::BadHeader("data after END chunk")));
}

#[test]
fn unknown_chunks_are_skipped() {
    let img = Image { width: 2, height: 1, pixels: vec![Rgba::new(1, 2, 3, 4), Rgba::new(5, 6, 7, 8)] };
    let f = encode_file(&img);
    let (_, chunks) = read_chunks(&f).unwrap();
    let extra = file_with_head(chunks[0].payload, &[(b"NOTE", b"hello"), (b"RAST", chunks[1].payload)]);
    assert_eq!(decode_file(&extra), Ok(img));
}

#[test]
fn raster_tile_count_must_match() {
    let f = file_with_head(&head(1, 1, 0), &[(b"RAST", &[2, 0, 0, 0, 0, 0, 0, 0])]);
    assert_eq!(decode_file(&f), Err(Error::BadOpStream("tile count does not match dimensions")));
}

#[test]
fn messages_read_as_before() {
    assert_eq!(Error::BadMagic.describe(), "not a PRISM file (bad magic bytes)");
    assert_eq!(Error::UnsupportedVersion(7).describe(), "unsupported format version 7");
    assert_eq!(Error::UnsupportedVersion(42).describe(), "unsupported format version 42");
    assert_eq!(Error::UnsupportedVersion(255).describe(), "unsupported format version 255");
    assert_eq!(Error::Truncated.describe(), "file ends before the data it declares");
    assert_eq!(Error::CrcMismatch { chunk: *b"RAST" }.describe(), "CRC mismatch in chunk RAST");
    assert_eq!(Error::MissingChunk("END ").describe(), "required chunk END  missing");
    assert_eq!(Error::BadHeader("zero dimension").describe(), "invalid header: zero dimension");
    assert_eq!(Error::BadOpStream("x").describe(), "invalid raster op stream: x");
    assert_eq!(Error::BadVector("y").describe(), "invalid vector payload: y");
    assert_eq!(Error::Encrypted.describe(), "file is encrypted; decrypt it with the key first");
    assert_eq!(Error::CryptoFailed.describe(), "decryption failed: wrong key or tampered data");
}

#[test]
fn overflowing_vector_coordinates_are_reported_by_the_checked_forms() {
    // scale 0, no colors, no styles, one path: move_to by i64::MAX, then by 1 more
    let mut vect = vec![0u8];
    put_varuint(&mut vect, 0);
    put_varuint(&mut vect, 0);
    put_varuint(&mut vect, 1);
    put_varuint(&mut vect, 2);
    vect.push(0);
    put_varint(&mut vect, i64::MAX);
    put_varint(&mut vect, 0);
    vect.push(0);
    put_varint(&mut vect, 1);
    put_varint(&mut vect, 0);
    put_varuint(&mut vect, 0);
    let f = file_with_head(&head(4, 4, 1), &[(b"VECT", &vect)]);
    assert!(decode_payload_checked(&f).is_none());
    assert!(decode_file_checked(&f).is_none());
    let plain = encode_file(&Image { width: 1, height: 1, pixels: vec![Rgba::new(1, 2, 3, 4)] });
    assert!(matches!(decode_file_checked(&plain), Some(Ok(_))));
}

#[test]
fn end_chunk_with_a_payload_is_refused() {
    let img = Image { width: 1, height: 1, pixels: vec![Rgba::new(1, 2, 3, 4)] };
    let f = encode_file(&img);
    let (_, chunks) = read_chunks(&f).unwrap();
    let mut g = Vec::new();
    g.extend_from_slice(&magic_bytes());
    g.push(VERSION);
    write_chunk(&mut g, b"HEAD", chunks[0].payload);
    write_chunk(&mut g, b"RAST", chunks[1].payload);
    write_chunk(&mut g, b"END ", &[0]);
    assert_eq!(decode_file(&g), Err(Error::BadHeader("END chunk must be empty")));
}

#[test]
fn every_single_bit_flip_outside_length_fields_is_a_crc_mismatch() {
    let img = Image { width: 2, height: 1, pixels: vec![Rgba::new(1, 2, 3, 4), Rgba::new(5, 6, 7, 8)] };
    let f = encode_file(&img);
    let mut length_bytes = Vec::new();
    let mut cur = 5usize;
    while cur < f.len() {
        let len = u32::from_le_bytes([f[cur + 4], f[cur + 5], f[cur + 6], f[cur + 7]]) as usize;
        length_bytes.extend(cur + 4..cur + 8);
        cur += 12 + len;
    }
    assert_eq!(cur, f.len());
    for pos in 5..f.len() {
        if length_bytes.contains(&pos) {
            continue;
        }
        for bit in 0..8 {
            let mut g = f.clone();
            g[pos] ^= 1 << bit;
            assert!(matches!(read_chunks(&g), Err(Error::CrcMismatch { .. })), "pos {} bit {}", pos, bit);
            assert!(matches!(decode_file(&g), Err(Error::CrcMismatch { .. })));
        }
    }
}
