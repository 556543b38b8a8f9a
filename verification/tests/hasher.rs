use delia::hasher::Sha256;

#[test]
fn masked_hash_of_empty_input() {
    // SHA-256 of the empty string, with the top two bits of the last byte
    // cleared (0x55 becomes 0x15).
    let h = Sha256::hash(&[]);
    let expected: Vec<u8> = vec![
        0xe3, 0xb0, 0xc4, 0x42, 0x98, 0xfc, 0x1c, 0x14, 0x9a, 0xfb, 0xf4, 0xc8, 0x99, 0x6f, 0xb9,
        0x24, 0x27, 0xae, 0x41, 0xe4, 0x64, 0x9b, 0x93, 0x4c, 0xa4, 0x95, 0x99, 0x1b, 0x78, 0x52,
        0xb8, 0x15,
    ];
    assert_eq!(h, expected);
}

#[test]
fn masked_hash_of_abc() {
    // SHA-256 of `abc`, with the last byte masked (0xad becomes 0x2d).
    let h = Sha256::hash(b"abc");
    let expected: Vec<u8> = vec![
        0xba, 0x78, 0x16, 0xbf, 0x8f, 0x01, 0xcf, 0xea, 0x41, 0x41, 0x40, 0xde, 0x5d, 0xae, 0x22,
        0x23, 0xb0, 0x03, 0x61, 0xa3, 0x96, 0x17, 0x7a, 0x9c, 0xb4, 0x10, 0xff, 0x61, 0xf2, 0x00,
        0x15, 0x2d,
    ];
    assert_eq!(h, expected);
}

#[test]
fn masked_hash_top_bits_clear() {
    // The top two bits of byte 31 are clear for every input.
    for input in [&b""[..], b"a", b"polka", &[0xFFu8; 200][..]] {
        let h = Sha256::hash(input);
        assert_eq!(h.len(), 32);
        assert_eq!(h[31] & 0xC0, 0);
    }
}
