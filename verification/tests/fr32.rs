use delia::fr32_reader::Fr32Reader;
use delia::fr32_reader::div_ceil;
use delia::zero_reader::ChunkSource;
use delia::zero_reader::ZeroPaddingReader;

fn fr32_over(data: Vec<u8>) -> Fr32Reader {
    let total = data.len() as u64;
    Fr32Reader::new(ZeroPaddingReader::new(ChunkSource::from_bytes(data), total))
}

#[test]
fn fr32_all_ones_block() {
    // A full block of 0xFF: 127 bytes in, 128 bytes out. Every field
    // element ends with its top two bits cleared, so bytes 31, 63, 95 and
    // 127 are 0x3F and bit 254 of the first element is the first zero.
    let mut reader = fr32_over(vec![0xFF; 127]);
    let mut out = vec![0u8; 128];
    assert_eq!(reader.read(&mut out), 128);
    for i in 0..128 {
        if i % 32 == 31 {
            assert_eq!(out[i], 0x3F, "byte {} should be masked", i);
        } else {
            assert_eq!(out[i], 0xFF, "byte {} should be payload", i);
        }
    }
    for off in [31usize, 63, 95, 127] {
        assert_eq!(out[off] & 0xC0, 0);
    }
    assert_eq!(reader.read(&mut out), 0);
}

#[test]
fn fr32_partial_block() {
    // One input byte fills only the first field element: 32 bytes out.
    let mut reader = fr32_over(vec![0x01]);
    let mut out = vec![0u8; 128];
    assert_eq!(reader.read(&mut out), 32);
    assert_eq!(out[0], 0x01);
    for i in 1..32 {
        assert_eq!(out[i], 0);
    }
    assert_eq!(reader.read(&mut out), 0);
}

#[test]
fn fr32_low_bytes_pass_through() {
    // A block whose bytes stay below the masked bits is re-framed with
    // two zero bits inserted every 254 bits: the first 31 bytes pass
    // through unchanged.
    let mut data = vec![0u8; 127];
    for (i, b) in data.iter_mut().enumerate() {
        *b = (i % 100) as u8;
    }
    let mut reader = fr32_over(data.clone());
    let mut out = vec![0u8; 128];
    assert_eq!(reader.read(&mut out), 128);
    assert_eq!(&out[..31], &data[..31]);
    for off in [31usize, 63, 95, 127] {
        assert_eq!(out[off] & 0xC0, 0);
    }
}

#[test]
fn fr32_short_destination_reads() {
    // The caller may pass any buffer; output bytes span calls.
    let mut reader = fr32_over(vec![0xFF; 127]);
    let mut collected: Vec<u8> = Vec::new();
    let mut buf = vec![0u8; 7];
    loop {
        let n = reader.read(&mut buf);
        if n == 0 {
            break;
        }
        collected.extend_from_slice(&buf[..n]);
    }
    assert_eq!(collected.len(), 128);
    for off in [31usize, 63, 95, 127] {
        assert_eq!(collected[off] & 0xC0, 0);
    }
}

#[test]
fn div_ceil_rounds_up() {
    assert_eq!(div_ceil(1016, 254), 4);
    assert_eq!(div_ceil(8, 254), 1);
    assert_eq!(div_ceil(255, 254), 2);
    assert_eq!(div_ceil(254, 254), 1);
}
