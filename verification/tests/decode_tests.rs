use slide_shrink::decode::decode_utf16_bytes;
use slide_shrink::extract::label_from_fields;

#[test]
fn utf16be_label_decodes_to_twelve() {
    let bytes: [u8; 6] = [0xFE, 0xFF, 0x00, 0x31, 0x00, 0x32];
    assert_eq!(decode_utf16_bytes(&bytes), Some(12));
}

#[test]
fn ascii_label_with_spaces_decodes_to_twelve() {
    assert_eq!(decode_utf16_bytes(b" 12 "), Some(12));
}

#[test]
fn plus_sign_is_accepted() {
    assert_eq!(decode_utf16_bytes(b"+7"), Some(7));
}

#[test]
fn non_numeric_label_fails() {
    assert_eq!(decode_utf16_bytes(b"abc"), None);
    assert_eq!(decode_utf16_bytes(b"12a"), None);
    assert_eq!(decode_utf16_bytes(b""), None);
    assert_eq!(decode_utf16_bytes(b"   "), None);
}

#[test]
fn utf16be_whitespace_is_trimmed() {
    // BOM, space, '4', '2', newline
    let bytes: [u8; 8] = [0xFE, 0xFF, 0x00, 0x20, 0x00, 0x34, 0x00, 0x32];
    assert_eq!(decode_utf16_bytes(&bytes), Some(42));
    let bytes2: [u8; 8] = [0xFE, 0xFF, 0x00, 0x34, 0x00, 0x32, 0x00, 0x0A];
    assert_eq!(decode_utf16_bytes(&bytes2), Some(42));
}

#[test]
fn lone_surrogate_fails() {
    let bytes: [u8; 4] = [0xFE, 0xFF, 0xD8, 0x00];
    assert_eq!(decode_utf16_bytes(&bytes), None);
}

#[test]
fn utf16be_odd_trailing_byte_is_dropped() {
    // "12" followed by half a code unit
    let bytes: [u8; 7] = [0xFE, 0xFF, 0x00, 0x31, 0x00, 0x32, 0x00];
    assert_eq!(decode_utf16_bytes(&bytes), Some(12));
}

#[test]
fn value_bounds() {
    assert_eq!(decode_utf16_bytes(b"4294967295"), Some(u32::MAX));
    assert_eq!(decode_utf16_bytes(b"4294967296"), None);
    assert_eq!(decode_utf16_bytes(b"0"), Some(0));
    assert_eq!(decode_utf16_bytes(b"007"), Some(7));
}

#[test]
fn prefix_takes_priority_over_start_value() {
    assert_eq!(label_from_fields(Some(b"3"), Some(9)), Some(3));
}

#[test]
fn bad_prefix_falls_through_to_start_value() {
    assert_eq!(label_from_fields(Some(b"x"), Some(9)), Some(9));
    assert_eq!(label_from_fields(None, Some(9)), Some(9));
}

#[test]
fn out_of_range_start_value_yields_nothing() {
    assert_eq!(label_from_fields(None, Some(-1)), None);
    assert_eq!(label_from_fields(None, Some(1 << 40)), None);
    assert_eq!(label_from_fields(None, None), None);
    assert_eq!(label_from_fields(Some(b"zz"), None), None);
}
