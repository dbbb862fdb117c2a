use treehash::from_hex_string;
use treehash::to_hex_string;

#[test]
fn empty_input_encodes_to_empty_string() {
    assert_eq!(to_hex_string(&[]), "");
}

#[test]
fn known_bytes_encode_to_lowercase_hex() {
    assert_eq!(to_hex_string(&[0x00]), "00");
    assert_eq!(to_hex_string(&[0xff]), "ff");
    assert_eq!(to_hex_string(&[0x00, 0xff, 0x1a, 0x2b]), "00ff1a2b");
    assert_eq!(to_hex_string(&[0x01, 0x23, 0x45, 0x67, 0x89, 0xab, 0xcd, 0xef]), "0123456789abcdef");
}

#[test]
fn output_length_is_twice_input_length() {
    for n in 0..64usize {
        let bytes: Vec<u8> = (0..n).map(|i| (i * 7) as u8).collect();
        assert_eq!(to_hex_string(&bytes).len(), 2 * n);
    }
}

#[test]
fn output_uses_only_hex_digit_characters() {
    let bytes: Vec<u8> = (0..=255u8).collect();
    let s = to_hex_string(&bytes);
    assert!(s.chars().all(|c| c.is_ascii_digit() || ('a'..='f').contains(&c)));
}

#[test]
fn decoding_inverts_encoding() {
    let cases: Vec<Vec<u8>> = vec![
        vec![],
        vec![0x00],
        vec![0xff],
        vec![0xde, 0xad, 0xbe, 0xef],
        (0..=255u8).collect(),
    ];
    for bytes in cases {
        let encoded = to_hex_string(&bytes);
        assert_eq!(from_hex_string(&encoded), Some(bytes));
    }
}

#[test]
fn odd_length_input_does_not_decode() {
    assert_eq!(from_hex_string("0"), None);
    assert_eq!(from_hex_string("abc"), None);
}

#[test]
fn non_hex_characters_do_not_decode() {
    assert_eq!(from_hex_string("0g"), None);
    assert_eq!(from_hex_string("zz"), None);
    assert_eq!(from_hex_string("00xx11"), None);
    // only lowercase output is accepted back
    assert_eq!(from_hex_string("FF"), None);
}

#[test]
fn empty_string_decodes_to_empty_bytes() {
    assert_eq!(from_hex_string(""), Some(vec![]));
}
