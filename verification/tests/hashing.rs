use crc_check::checksum::hash_bytes;
use crc_check::hex::{crc_hex_upper, hex_value8, is_hex_digit_byte};

#[test]
fn empty_input_hashes_to_zero() {
    assert_eq!(hash_bytes(&[]), 0x00000000);
}

#[test]
fn hash_matches_standard_crc32_check_value() {
    // The classic CRC32 check input: zlib-family CRC32 of "123456789".
    assert_eq!(hash_bytes(&b"123456789"[..]), 0xCBF43926);
}

#[test]
fn hash_is_deterministic() {
    let a = hash_bytes(&b"some file content"[..]);
    let b = hash_bytes(&b"some file content"[..]);
    assert_eq!(a, b);
}

#[test]
fn hash_distinguishes_contents() {
    assert_ne!(hash_bytes(&b"aaa"[..]), hash_bytes(&b"bbb"[..]));
}

#[test]
fn hex_rendering_is_fixed_width_uppercase() {
    assert_eq!(crc_hex_upper(0x1A2B3C4D), b"1A2B3C4D".to_vec());
    assert_eq!(crc_hex_upper(0x00000000), b"00000000".to_vec());
    assert_eq!(crc_hex_upper(0xFFFFFFFF), b"FFFFFFFF".to_vec());
    assert_eq!(crc_hex_upper(0x0000007B), b"0000007B".to_vec());
}

#[test]
fn hex_parsing_is_case_insensitive() {
    assert_eq!(hex_value8(&b"1a2B3c4D"[..]), 0x1A2B3C4D);
    assert_eq!(hex_value8(&b"deadbeef"[..]), 0xDEADBEEF);
    assert_eq!(hex_value8(&b"00000000"[..]), 0);
}

#[test]
fn hex_round_trip_on_values() {
    for v in [0u32, 1, 0x1A2B3C4D, 0xCBF43926, u32::MAX] {
        let digits = crc_hex_upper(v);
        assert_eq!(hex_value8(&digits), v);
    }
}

#[test]
fn hex_digit_classification() {
    for b in b"0123456789abcdefABCDEF" {
        assert!(is_hex_digit_byte(*b));
    }
    for b in b"gGzZ_.-/ \t" {
        assert!(!is_hex_digit_byte(*b));
    }
}
