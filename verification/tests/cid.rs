use delia::cid::FIL_COMMITMENT_UNSEALED;
use delia::cid::SHA2_256_TRUNC254_PADDED;
use delia::cid::base32_lower;
use delia::cid::cid_ascii_bytes;
use delia::cid::varint;

#[test]
fn varint_encodes_the_header_constants() {
    assert_eq!(varint(1), vec![0x01]);
    assert_eq!(varint(32), vec![0x20]);
    assert_eq!(varint(FIL_COMMITMENT_UNSEALED), vec![0x81, 0xE2, 0x03]);
    assert_eq!(varint(SHA2_256_TRUNC254_PADDED), vec![0x92, 0x20]);
    assert_eq!(varint(127), vec![0x7F]);
    assert_eq!(varint(128), vec![0x80, 0x01]);
}

#[test]
fn base32_matches_known_vectors() {
    // RFC 4648 vectors, lower-case and unpadded.
    assert_eq!(base32_lower(&b"".to_vec()), b"".to_vec());
    assert_eq!(base32_lower(&b"f".to_vec()), b"my".to_vec());
    assert_eq!(base32_lower(&b"fo".to_vec()), b"mzxq".to_vec());
    assert_eq!(base32_lower(&b"foo".to_vec()), b"mzxw6".to_vec());
    assert_eq!(base32_lower(&b"foob".to_vec()), b"mzxw6yq".to_vec());
    assert_eq!(base32_lower(&b"fooba".to_vec()), b"mzxw6ytb".to_vec());
    assert_eq!(base32_lower(&b"foobar".to_vec()), b"mzxw6ytboi".to_vec());
}

#[test]
fn cid_text_has_the_piece_prefix() {
    let ascii = cid_ascii_bytes(&vec![0u8; 32]);
    assert_eq!(ascii.len(), 64);
    assert_eq!(&ascii[..12], b"baga6ea4seaq");
    let ascii2 = cid_ascii_bytes(&vec![0x3Fu8; 32]);
    assert_eq!(ascii2.len(), 64);
    assert_eq!(&ascii2[..4], b"baga");
    assert_ne!(ascii, ascii2);
}
