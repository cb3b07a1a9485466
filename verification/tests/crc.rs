use prism_core::crc::{crc32, crc32_parts};

#[test]
fn known_check_value() {
    assert_eq!(crc32(b"123456789"), 0xCBF4_3926);
}

#[test]
fn parts_equal_concatenation() {
    assert_eq!(crc32_parts(&[b"1234", b"56789"]), crc32(b"123456789"));
}

#[test]
fn empty_input_has_zero_crc() {
    assert_eq!(crc32(b""), 0);
}

#[test]
fn parts_split_anywhere_agree() {
    let data = b"The quick brown fox jumps over the lazy dog";
    let whole = crc32(data);
    assert_eq!(whole, 0x414F_A339);
    for cut in 0..=data.len() {
        assert_eq!(crc32_parts(&[&data[..cut], &data[cut..]]), whole);
    }
}

#[test]
fn every_single_byte_change_changes_the_crc() {
    let data = b"PRISM chunk".to_vec();
    let base = crc32(&data);
    for i in 0..data.len() {
        for bit in 0..8 {
            let mut d = data.clone();
            d[i] ^= 1 << bit;
            assert_ne!(crc32(&d), base);
        }
    }
}
