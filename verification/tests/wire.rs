use delia::wire::PeerId;
use delia::wire::Request;
use delia::wire::Response;
use delia::wire::WireAddr;
use delia::wire::decode_record;
use delia::wire::decode_request;
use delia::wire::decode_response;
use delia::wire::encode_record;
use delia::wire::encode_request;
use delia::wire::encode_response;

fn addr(bytes: &[u8]) -> WireAddr {
    WireAddr { bytes: bytes.to_vec() }
}

#[test]
fn record_roundtrip() {
    let maddrs = vec![addr(&[1, 2, 3]), addr(&[4, 5]), addr(&[])];
    let encoded = encode_record(&maddrs);
    let decoded = decode_record(&encoded).unwrap();
    assert_eq!(decoded.len(), 3);
    assert_eq!(decoded[0].bytes, vec![1, 2, 3]);
    assert_eq!(decoded[1].bytes, vec![4, 5]);
    assert_eq!(decoded[2].bytes, Vec::<u8>::new());
}

#[test]
fn record_exact_bytes() {
    // array(2) [ bytes(3) 01 02 03, bytes(2) 04 05 ]
    let maddrs = vec![addr(&[1, 2, 3]), addr(&[4, 5])];
    let encoded = encode_record(&maddrs);
    assert_eq!(encoded, vec![0x82, 0x43, 1, 2, 3, 0x42, 4, 5]);
}

#[test]
fn record_roundtrip_long_items() {
    // Items long enough to need a one-byte length argument.
    let maddrs = vec![addr(&[0xAB; 40]), addr(&[0xCD; 300])];
    let encoded = encode_record(&maddrs);
    let decoded = decode_record(&encoded).unwrap();
    assert_eq!(decoded[0].bytes, vec![0xAB; 40]);
    assert_eq!(decoded[1].bytes, vec![0xCD; 300]);
}

#[test]
fn record_rejects_truncation_and_junk() {
    let maddrs = vec![addr(&[1, 2, 3])];
    let mut encoded = encode_record(&maddrs);
    encoded.pop();
    assert!(decode_record(&encoded).is_err());
    let mut padded = encode_record(&maddrs);
    padded.push(0);
    assert!(decode_record(&padded).is_err());
    assert!(decode_record(&vec![]).is_err());
    assert!(decode_record(&vec![0xA1]).is_err());
}

#[test]
fn record_rejects_non_minimal_length() {
    // array(1) [ bytes with a needlessly wide length argument ]
    let non_canonical = vec![0x81, 0x58, 0x01, 0x07];
    assert!(decode_record(&non_canonical).is_err());
    // The canonical form of the same value decodes.
    let canonical = vec![0x81, 0x41, 0x07];
    let decoded = decode_record(&canonical).unwrap();
    assert_eq!(decoded[0].bytes, vec![7]);
}

#[test]
fn request_exact_bytes_and_roundtrip() {
    // map(1) { text(4) "peer": bytes(2) AB CD }
    let request = Request { peer: PeerId { bytes: vec![0xAB, 0xCD] } };
    let encoded = encode_request(&request);
    assert_eq!(encoded, vec![0xA1, 0x64, 0x70, 0x65, 0x65, 0x72, 0x42, 0xAB, 0xCD]);
    let decoded = decode_request(&encoded).unwrap();
    assert_eq!(decoded.peer.bytes, vec![0xAB, 0xCD]);
}

#[test]
fn response_found_roundtrip() {
    let response = Response::Found { maddrs: vec![addr(&[1, 2]), addr(&[3])] };
    let encoded = encode_response(&response);
    match decode_response(&encoded).unwrap() {
        Response::Found { maddrs } => {
            assert_eq!(maddrs.len(), 2);
            assert_eq!(maddrs[0].bytes, vec![1, 2]);
            assert_eq!(maddrs[1].bytes, vec![3]);
        },
        Response::NotFound { .. } => panic!("wrong variant"),
    }
}

#[test]
fn response_not_found_roundtrip() {
    let response = Response::NotFound { peer: PeerId { bytes: vec![7, 8, 9] } };
    let encoded = encode_response(&response);
    match decode_response(&encoded).unwrap() {
        Response::NotFound { peer } => assert_eq!(peer.bytes, vec![7, 8, 9]),
        Response::Found { .. } => panic!("wrong variant"),
    }
}

#[test]
fn response_found_exact_bytes() {
    // {"Found": {"maddrs": [bytes(1) 09]}}
    let response = Response::Found { maddrs: vec![addr(&[9])] };
    let encoded = encode_response(&response);
    let expected = vec![
        0xA1, 0x65, b'F', b'o', b'u', b'n', b'd', 0xA1, 0x66, b'm', b'a', b'd', b'd', b'r', b's',
        0x81, 0x41, 9,
    ];
    assert_eq!(encoded, expected);
}

#[test]
fn response_rejects_foreign_tag() {
    // {"Missing": ...} is neither variant.
    let bytes = vec![0xA1, 0x67, b'M', b'i', b's', b's', b'i', b'n', b'g', 0xA0];
    assert!(decode_response(&bytes).is_err());
}
