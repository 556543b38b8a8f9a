use delia::piece::PaddedPieceSize;

#[test]
fn padded_sizes_from_arbitrary_lengths() {
    for (input, expected) in
        [(1u64, 128u64), (127, 128), (128, 256), (254, 256), (1024, 2048), (3000, 4096), (
            4096,
            8192,
        )] {
        let padded = PaddedPieceSize::from_arbitrary_size(input);
        assert_eq!(padded.get(), expected, "input {}", input);
    }
}

#[test]
fn unpadded_is_127_of_128() {
    assert_eq!(PaddedPieceSize::from_arbitrary_size(127).unpadded(), 127);
    assert_eq!(PaddedPieceSize::from_arbitrary_size(128).unpadded(), 254);
    assert_eq!(PaddedPieceSize::from_arbitrary_size(1024).unpadded(), 2032);
}
