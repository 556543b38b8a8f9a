use delia::zero_reader::ChunkSource;
use delia::zero_reader::ZeroPaddingReader;

#[test]
fn test_zero_padding_reader_with_not_full_reads() {
    let r = ChunkSource::new(vec![vec![1, 2, 3, 4], vec![5, 6], vec![7, 8, 9], vec![10]]);
    let total_size_with_padding = 12;
    let mut reader = ZeroPaddingReader::new(r, total_size_with_padding);
    let mut buffer = vec![0u8; 4];

    let mut total_read = 0;
    let read = reader.read(&mut buffer);
    total_read += read;
    assert_eq!(read, 4);
    assert_eq!(buffer, [1, 2, 3, 4]);

    let read = reader.read(&mut buffer);
    total_read += read;
    assert_eq!(read, 2);
    assert_eq!(buffer, [5, 6, 3, 4]);

    let read = reader.read(&mut buffer);
    total_read += read;
    assert_eq!(read, 3);
    assert_eq!(buffer, [7, 8, 9, 4]);

    let read = reader.read(&mut buffer);
    total_read += read;
    assert_eq!(read, 1);
    assert_eq!(buffer, [10, 8, 9, 4]);

    let read = reader.read(&mut buffer);
    total_read += read;
    assert_eq!(read, 2);
    assert_eq!(buffer, [0, 0, 9, 4]);

    assert_eq!(total_size_with_padding as usize, total_read);
}

#[test]
fn test_zero_padding_reader() {
    let data = vec![1, 2, 3, 4, 5, 6];
    let total_size = 10;
    let mut reader = ZeroPaddingReader::new(ChunkSource::from_bytes(data), total_size);

    let mut buffer = vec![0u8; 4];
    // First read
    let read = reader.read(&mut buffer);
    assert_eq!(read, 4);
    assert_eq!(buffer, [1, 2, 3, 4]);
    // Second read
    let read = reader.read(&mut buffer);
    assert_eq!(read, 2);
    assert_eq!(buffer, [5, 6, 3, 4]);
    // Third read
    let read = reader.read(&mut buffer);
    assert_eq!(read, 4);
    assert_eq!(buffer, [0, 0, 0, 0]);
    // Fourth read
    let read = reader.read(&mut buffer);
    assert_eq!(read, 0);
    assert_eq!(buffer, [0, 0, 0, 0]);
}

#[test]
fn zero_padding_reader_delivers_exactly_total_then_eof() {
    // Any interleaving of short inner reads still yields exactly `total`
    // bytes, then every further read returns zero.
    let r = ChunkSource::new(vec![vec![9], vec![], vec![8, 7, 6, 5], vec![4]]);
    let mut reader = ZeroPaddingReader::new(r, 9);
    let mut collected: Vec<u8> = Vec::new();
    let mut buffer = vec![0u8; 3];
    loop {
        let read = reader.read(&mut buffer);
        if read == 0 {
            break;
        }
        collected.extend_from_slice(&buffer[..read]);
    }
    assert_eq!(collected, vec![9, 8, 7, 6, 5, 4, 0, 0, 0]);
    assert_eq!(reader.read(&mut buffer), 0);
    assert_eq!(reader.read(&mut buffer), 0);
}

#[test]
fn zero_padding_reader_never_over_delivers() {
    // The destination is clamped to the remaining quota.
    let mut reader = ZeroPaddingReader::new(ChunkSource::from_bytes(vec![1, 2]), 3);
    let mut buffer = vec![0u8; 8];
    assert_eq!(reader.read(&mut buffer), 2);
    assert_eq!(reader.read(&mut buffer), 1);
    assert_eq!(buffer[0], 0);
    assert_eq!(reader.read(&mut buffer), 0);
}
