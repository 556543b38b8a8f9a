use delia::commp::CommPError;
use delia::commp::commp_from_bytes;
use delia::commp::padded_piece_size;

#[test]
fn padded_127_bytes() {
    // Just below the 128 threshold: rounds up to 128.
    let data = vec![0; 127];
    assert_eq!(padded_piece_size(&data), "128");
}

#[test]
fn padded_128_bytes() {
    // The `n + ceil(n/127)` rule lifts 128 past 128, so the next power of
    // two is 256.
    let data = vec![0; 128];
    assert_eq!(padded_piece_size(&data), "256");
}

#[test]
fn padded_254_bytes() {
    // 254 becomes exactly 256, already a power of two.
    let data = vec![0; 254];
    assert_eq!(padded_piece_size(&data), "256");
}

#[test]
fn padded_1024_bytes() {
    // 1024 becomes 1032, rounded up to 2048.
    let data = vec![0; 1024];
    assert_eq!(padded_piece_size(&data), "2048");
}

#[test]
fn padded_3000_bytes() {
    // 3000 becomes 3024, rounded up to 4096.
    let data = vec![0; 3000];
    assert_eq!(padded_piece_size(&data), "4096");
}

#[test]
fn padded_4096_bytes() {
    // 4096 becomes 4129, rounded up to 8192.
    let data = vec![0; 4096];
    assert_eq!(padded_piece_size(&data), "8192");
}

#[test]
fn same_input_same_cid() {
    let cid = commp_from_bytes(&vec![0x42; 127]).unwrap();
    let cid2 = commp_from_bytes(&vec![0x42; 127]).unwrap();
    assert_eq!(cid, cid2, "CID must be identical across same input");
}

#[test]
fn different_input_different_cid() {
    let cid = commp_from_bytes(&vec![0x00; 127]).unwrap();
    let cid2 = commp_from_bytes(&vec![0xFF; 127]).unwrap();
    assert_ne!(cid, cid2, "Different input should yield different CID");
}

#[test]
fn cid_has_expected_prefix() {
    let cid = commp_from_bytes(&vec![0x42; 127]).unwrap();
    assert!(cid.starts_with("baga"), "CID should start with baga");
}

#[test]
fn cid_length_is_consistent() {
    let cid = commp_from_bytes(&vec![0x42; 127]).unwrap();
    assert_eq!(cid.len(), 64, "CID length should match 64");
}

#[test]
fn commp_rejects_empty_input() {
    let result = commp_from_bytes(&[]);
    assert!(result.is_err(), "Empty input should result in error");
    assert_eq!(result.unwrap_err(), CommPError::EmptyInput);
}

#[test]
fn cid_shape_for_various_sizes() {
    // The shape holds for inputs needing zero-padding and several blocks.
    for n in [1usize, 64, 126, 200, 1000] {
        let cid = commp_from_bytes(&vec![0xA5; n]).unwrap();
        assert!(cid.starts_with("baga"));
        assert_eq!(cid.len(), 64);
    }
}
