use prism_core::container::{magic_bytes, read_chunks, write_chunk, VERSION};
use prism_core::crypto::{decrypt_file, encrypt_file, seal_file};
use prism_core::{decode_file, encode_file, Error, Image, Rgba};

fn sample() -> Image {
    let mut pixels = Vec::new();
    for y in 0..40u32 {
        for x in 0..40u32 {
            pixels.push(Rgba::new(x as u8 * 6, y as u8 * 6, 99, 255));
        }
    }
    Image { width: 40, height: 40, pixels }
}

#[test]
fn encrypt_decrypt_roundtrip() {
    let img = sample();
    let plain = encode_file(&img);
    let key = [7u8; 32];
    let enc = encrypt_file(&plain, &key).unwrap();
    assert!(decode_file(&enc).is_err(), "encrypted file must not decode");
    let dec = decrypt_file(&enc, &key).unwrap();
    assert_eq!(decode_file(&dec).unwrap(), img);
}

#[test]
fn wrong_key_fails() {
    let plain = encode_file(&sample());
    let enc = encrypt_file(&plain, &[7u8; 32]).unwrap();
    assert_eq!(decrypt_file(&enc, &[8u8; 32]), Err(Error::CryptoFailed));
}

#[test]
fn tampered_header_fails_authentication() {
    let plain = encode_file(&sample());
    let key = [7u8; 32];
    let enc = encrypt_file(&plain, &key).unwrap();
    // Re-sign a modified HEAD so the CRC passes and only AEAD can object.
    let (_, chunks) = read_chunks(&enc).unwrap();
    let mut head = chunks[0].payload.to_vec();
    head[0] ^= 1;
    let encr = chunks.iter().find(|c| c.ty == *b"ENCR").unwrap();
    let mut forged = Vec::new();
    forged.extend_from_slice(&magic_bytes());
    forged.push(VERSION);
    write_chunk(&mut forged, b"HEAD", &head);
    write_chunk(&mut forged, b"ENCR", encr.payload);
    write_chunk(&mut forged, b"END ", &[]);
    assert_eq!(decrypt_file(&forged, &key), Err(Error::CryptoFailed));
}

#[test]
fn decrypting_gives_back_the_encrypted_bytes() {
    let plain = encode_file(&sample());
    let key = [3u8; 32];
    let enc = encrypt_file(&plain, &key).unwrap();
    assert_eq!(decrypt_file(&enc, &key).unwrap(), plain);
}

#[test]
fn sealing_is_deterministic_for_a_given_nonce() {
    let plain = encode_file(&sample());
    let key = [1u8; 32];
    let nonce = [9u8; 12];
    let a = seal_file(&plain, &key, &nonce).unwrap();
    let b = seal_file(&plain, &key, &nonce).unwrap();
    assert_eq!(a, b);
    let (_, chunks) = read_chunks(&a).unwrap();
    assert_eq!(chunks.len(), 2);
    assert_eq!(&chunks[1].ty, b"ENCR");
    assert_eq!(chunks[1].payload[0], 0);
    assert_eq!(&chunks[1].payload[1..13], &nonce);
    // algorithm byte, nonce, the sealed RAST chunk and its 16-byte tag
    let (_, plain_chunks) = read_chunks(&plain).unwrap();
    assert_eq!(chunks[1].payload.len(), 13 + 12 + plain_chunks[1].payload.len() + 16);
}

#[test]
fn plain_file_without_payload_cannot_be_encrypted() {
    let mut f = Vec::new();
    f.extend_from_slice(&magic_bytes());
    f.push(VERSION);
    let mut head = Vec::new();
    head.extend_from_slice(&1u32.to_le_bytes());
    head.extend_from_slice(&1u32.to_le_bytes());
    head.extend_from_slice(&[0, 8, 0, 0, 8, 0]);
    write_chunk(&mut f, b"HEAD", &head);
    write_chunk(&mut f, b"END ", &[]);
    assert_eq!(encrypt_file(&f, &[0u8; 32]), Err(Error::MissingChunk("RAST or VECT")));
}

#[test]
fn decrypt_errors() {
    let plain = encode_file(&sample());
    assert_eq!(decrypt_file(&plain, &[0u8; 32]), Err(Error::MissingChunk("ENCR")));
    let key = [5u8; 32];
    let enc = encrypt_file(&plain, &key).unwrap();
    let (_, chunks) = read_chunks(&enc).unwrap();
    let rebuild = |encr: &[u8]| {
        let mut f = Vec::new();
        f.extend_from_slice(&magic_bytes());
        f.push(VERSION);
        write_chunk(&mut f, b"HEAD", chunks[0].payload);
        write_chunk(&mut f, b"ENCR", encr);
        write_chunk(&mut f, b"END ", &[]);
        f
    };
    assert_eq!(decrypt_file(&rebuild(&chunks[1].payload[..12]), &key), Err(Error::Truncated));
    let mut other_alg = chunks[1].payload.to_vec();
    other_alg[0] = 1;
    assert_eq!(
        decrypt_file(&rebuild(&other_alg), &key),
        Err(Error::BadHeader("unknown encryption algorithm"))
    );
}

#[test]
fn unreadable_file_is_refused_before_encryption() {
    assert_eq!(encrypt_file(b"NOPE\x01rest", &[0u8; 32]), Err(Error::BadMagic));
    assert_eq!(encrypt_file(b"PRSM", &[0u8; 32]), Err(Error::Truncated));
    let mut f = encode_file(&sample());
    f[5 + 8] ^= 0xFF;
    assert_eq!(encrypt_file(&f, &[0u8; 32]), Err(Error::CrcMismatch { chunk: *b"HEAD" }));
}
