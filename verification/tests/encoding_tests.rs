use btc_multisig::encoding::{bytes_equal, hex_decode, hex_encode, is_bytes_less, push_compact_size, push_le};

#[test]
fn hex_encode_is_lower_case() {
    assert_eq!(hex_encode(&[0x00, 0x0f, 0xa5, 0xff]), b"000fa5ff".to_vec());
    assert_eq!(hex_encode(&[]), Vec::<u8>::new());
}

#[test]
fn hex_decode_reads_lower_case_only() {
    assert_eq!(hex_decode(b"000fa5ff"), Some(vec![0x00, 0x0f, 0xa5, 0xff]));
    assert_eq!(hex_decode(b""), Some(vec![]));
    assert_eq!(hex_decode(b"0F"), None);
    assert_eq!(hex_decode(b"abc"), None);
    assert_eq!(hex_decode(b"zz"), None);
}

#[test]
fn hex_round_trip_on_every_byte() {
    let all: Vec<u8> = (0..=255u8).collect();
    assert_eq!(hex_decode(&hex_encode(&all)), Some(all));
}

#[test]
fn little_endian_integers() {
    let mut out = vec![0xaa];
    push_le(&mut out, 0x0102_0304, 4);
    assert_eq!(out, vec![0xaa, 0x04, 0x03, 0x02, 0x01]);
    let mut wide = Vec::new();
    push_le(&mut wide, 10_000, 8);
    assert_eq!(wide, vec![0x10, 0x27, 0, 0, 0, 0, 0, 0]);
    let mut none = Vec::new();
    push_le(&mut none, 77, 0);
    assert_eq!(none, Vec::<u8>::new());
}

#[test]
fn compact_size_takes_the_shortest_form() {
    let cases: Vec<(u64, Vec<u8>)> = vec![
        (0, vec![0x00]),
        (0xfc, vec![0xfc]),
        (0xfd, vec![0xfd, 0xfd, 0x00]),
        (0xffff, vec![0xfd, 0xff, 0xff]),
        (0x1_0000, vec![0xfe, 0x00, 0x00, 0x01, 0x00]),
        (0xffff_ffff, vec![0xfe, 0xff, 0xff, 0xff, 0xff]),
        (0x1_0000_0000, vec![0xff, 0, 0, 0, 0, 1, 0, 0, 0]),
    ];
    for (n, expected) in cases {
        let mut out = Vec::new();
        push_compact_size(&mut out, n);
        assert_eq!(out, expected);
    }
}

#[test]
fn byte_strings_compare_like_words() {
    assert!(bytes_equal(b"abc", b"abc"));
    assert!(!bytes_equal(b"abc", b"abd"));
    assert!(!bytes_equal(b"abc", b"ab"));
    assert!(is_bytes_less(b"", b"a"));
    assert!(is_bytes_less(b"ab", b"abc"));
    assert!(is_bytes_less(b"abc", b"abd"));
    assert!(!is_bytes_less(b"abd", b"abc"));
    assert!(!is_bytes_less(b"abc", b"abc"));
    assert!(!is_bytes_less(b"b", b"abc"));
}
