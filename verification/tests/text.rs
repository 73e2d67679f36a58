use casier::loopback::fallback_state_bytes;
use casier::text::{decimal_string, hex_lower, signed_decimal_string, zero_padded_string};

#[test]
fn numbers() {
    assert_eq!(decimal_string(0), "0");
    assert_eq!(decimal_string(18_446_744_073_709_551_615), "18446744073709551615");
    assert_eq!(signed_decimal_string(-2_147_483_648), "-2147483648");
    assert_eq!(zero_padded_string(7, 2), "07");
    assert_eq!(zero_padded_string(1970, 4), "1970");
    assert_eq!(zero_padded_string(12345, 4), "12345");
    assert_eq!(zero_padded_string(0, 0), "0");
}

#[test]
fn random_state_text_is_url_safe_hex() {
    let state = hex_lower(&[0x00, 0x0f, 0xa0, 0xff, 0x12, 0x34, 0x56, 0x78, 0x9a, 0xbc, 0xde, 0xf0, 1, 2, 3, 4]);
    assert_eq!(state, "000fa0ff123456789abcdef001020304");
    assert_eq!(state.len(), 32);
    assert!(state.chars().all(|c| c.is_ascii_hexdigit()));
}

#[test]
fn fallback_bytes_are_little_endian() {
    let bytes = fallback_state_bytes(0x0102, 0xAABBCCDD);
    assert_eq!(bytes.len(), 16);
    assert_eq!(bytes[0], 0x02);
    assert_eq!(bytes[1], 0x01);
    assert_eq!(&bytes[12..16], &[0xDD, 0xCC, 0xBB, 0xAA]);
    let expected = (0x0102u128 ^ ((0xAABBCCDDu128) << 96)).to_le_bytes();
    assert_eq!(bytes.as_slice(), &expected[..]);
}
