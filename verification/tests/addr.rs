use std::str::FromStr;

use delia::addr::Multiaddr;
use delia::addr::P2P_PROTOCOL_CODE;
use delia::addr::Part;
use delia::addr::extract_peer_id;
use delia::addr::seedable_bootnodes;
use delia::wire::PeerId;

#[test]
fn terminal_p2p_component_yields_the_peer() {
    let maddr = Multiaddr {
        parts: vec![
            Part { code: 4, data: vec![127, 0, 0, 1] },
            Part { code: 6, data: vec![0x30, 0x39] },
            Part { code: P2P_PROTOCOL_CODE, data: vec![0x12, 0x20, 0xAB] },
        ],
    };
    let peer = extract_peer_id(&maddr).unwrap();
    assert_eq!(peer.bytes, vec![0x12, 0x20, 0xAB]);
}

#[test]
fn missing_or_nonterminal_p2p_yields_nothing() {
    let empty = Multiaddr { parts: vec![] };
    assert!(extract_peer_id(&empty).is_none());
    let no_p2p = Multiaddr { parts: vec![Part { code: 4, data: vec![127, 0, 0, 1] }] };
    assert!(extract_peer_id(&no_p2p).is_none());
    let p2p_not_last = Multiaddr {
        parts: vec![
            Part { code: P2P_PROTOCOL_CODE, data: vec![1] },
            Part { code: 6, data: vec![0, 80] },
        ],
    };
    assert!(extract_peer_id(&p2p_not_last).is_none());
}

#[test]
fn seed_list_keeps_order_and_indices() {
    let a = Multiaddr { parts: vec![Part { code: P2P_PROTOCOL_CODE, data: vec![1] }] };
    let b = Multiaddr { parts: vec![Part { code: 4, data: vec![10, 0, 0, 1] }] };
    let c = Multiaddr { parts: vec![Part { code: P2P_PROTOCOL_CODE, data: vec![2] }] };
    let seeds = seedable_bootnodes(&vec![a, b, c]);
    let view: Vec<(Vec<u8>, usize)> =
        seeds.into_iter().map(|(p, i): (PeerId, usize)| (p.bytes, i)).collect();
    assert_eq!(view, vec![(vec![1], 0), (vec![2], 2)]);
}

/// Convert a parsed multiaddress into the crate's component model, keeping
/// the protocols this test uses.
fn model_of(maddr: &multiaddr::Multiaddr) -> Multiaddr {
    let parts = maddr
        .iter()
        .map(|p| match p {
            multiaddr::Protocol::Ip4(ip) => Part { code: 4, data: ip.octets().to_vec() },
            multiaddr::Protocol::Tcp(port) => Part { code: 6, data: port.to_be_bytes().to_vec() },
            multiaddr::Protocol::P2p(peer) => {
                Part { code: P2P_PROTOCOL_CODE, data: peer.to_bytes() }
            },
            other => panic!("protocol not modelled by this test: {other}"),
        })
        .collect();
    Multiaddr { parts }
}

#[test]
fn extraction_agrees_with_the_multiaddr_crate() {
    let text = "/ip4/104.131.131.82/tcp/4001/p2p/QmYyQSo1c1Ym7orWxLYvCrM2EmxFTANf8wXmmE7DWjhx5N";
    let parsed = multiaddr::Multiaddr::from_str(text).unwrap();
    let expected = match parsed.iter().last().unwrap() {
        multiaddr::Protocol::P2p(peer) => peer.to_bytes(),
        _ => panic!("the example address ends in /p2p"),
    };
    let peer = extract_peer_id(&model_of(&parsed)).unwrap();
    assert_eq!(peer.bytes, expected);

    let plain = multiaddr::Multiaddr::from_str("/ip4/127.0.0.1/tcp/1234").unwrap();
    assert!(extract_peer_id(&model_of(&plain)).is_none());
}
