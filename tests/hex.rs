use algorithms::hex::convert_hex_string_to_vec;

#[test]
fn hex_header_bytes() {
    assert_eq!(
        convert_hex_string_to_vec("42 4d 36 10 0e 00"),
        Some(vec![0x42, 0x4d, 0x36, 0x10, 0x0e, 0x00])
    );
}

#[test]
fn hex_whitespace_and_forms() {
    assert_eq!(convert_hex_string_to_vec("  ff\tA\n+7  0010 "), Some(vec![255, 10, 7, 16]));
    assert_eq!(convert_hex_string_to_vec(""), Some(vec![]));
    assert_eq!(convert_hex_string_to_vec("   "), Some(vec![]));
}

#[test]
fn hex_rejects_bad_tokens() {
    assert_eq!(convert_hex_string_to_vec("42 zz"), None);
    assert_eq!(convert_hex_string_to_vec("100"), None);
    assert_eq!(convert_hex_string_to_vec("+"), None);
    assert_eq!(convert_hex_string_to_vec("-1"), None);
    assert_eq!(convert_hex_string_to_vec("4g 01"), None);
}
