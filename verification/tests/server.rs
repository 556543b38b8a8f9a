use delia::addr::Multiaddr;
use delia::addr::Part;
use delia::server::Config;
use delia::server::KadEvent;
use delia::server::KadOutcome;
use delia::server::QueryReply;
use delia::server::Swarm;
use delia::server::SwarmRequest;
use delia::wire::PeerId;
use delia::wire::WireAddr;
use delia::wire::encode_record;

fn new_swarm() -> Swarm {
    let (swarm, _) = Swarm::new(Config { bootnodes: vec![] });
    swarm
}

fn query(peer: &[u8], token: u64) -> SwarmRequest {
    SwarmRequest::QueryPeerId { peer_id: PeerId { bytes: peer.to_vec() }, response_tx: token }
}

#[test]
fn record_key_is_the_peer_bytes() {
    let request = query(&[1, 2, 3], 7);
    assert_eq!(Swarm::record_key(&request), vec![1, 2, 3]);
}

#[test]
fn found_record_answers_the_waiting_caller() {
    let mut swarm = new_swarm();
    swarm.handle_swarm_request(&query(&[1], 42), 100);
    let value = encode_record(&vec![WireAddr { bytes: vec![5, 6] }]);
    match swarm.handle_kad_event(KadEvent::FoundRecord { id: 100, value }) {
        KadOutcome::Reply { token, reply } => {
            assert_eq!(token, 42);
            match reply {
                QueryReply::Found { maddrs } => assert_eq!(maddrs[0].bytes, vec![5, 6]),
                _ => panic!("expected addresses"),
            }
        },
        KadOutcome::Nothing => panic!("the caller must be answered"),
    }
}

#[test]
fn each_query_is_answered_exactly_once() {
    let mut swarm = new_swarm();
    swarm.handle_swarm_request(&query(&[1], 42), 100);
    let value = encode_record(&vec![WireAddr { bytes: vec![5] }]);
    match swarm.handle_kad_event(KadEvent::FoundRecord { id: 100, value: value.clone() }) {
        KadOutcome::Reply { .. } => {},
        KadOutcome::Nothing => panic!("first event must answer"),
    }
    match swarm.handle_kad_event(KadEvent::FoundRecord { id: 100, value }) {
        KadOutcome::Nothing => {},
        KadOutcome::Reply { .. } => panic!("second event must be dropped"),
    }
}

#[test]
fn unknown_query_ids_are_dropped() {
    let mut swarm = new_swarm();
    let value = encode_record(&vec![]);
    match swarm.handle_kad_event(KadEvent::FoundRecord { id: 5, value }) {
        KadOutcome::Nothing => {},
        KadOutcome::Reply { .. } => panic!("no caller is waiting"),
    }
    match swarm.handle_kad_event(KadEvent::GetRecordFailed { id: 5 }) {
        KadOutcome::Nothing => {},
        KadOutcome::Reply { .. } => panic!("no caller is waiting"),
    }
}

#[test]
fn malformed_record_reports_a_decode_failure() {
    let mut swarm = new_swarm();
    swarm.handle_swarm_request(&query(&[1], 9), 3);
    match swarm.handle_kad_event(KadEvent::FoundRecord { id: 3, value: vec![0xFF, 0x00] }) {
        KadOutcome::Reply { token, reply } => {
            assert_eq!(token, 9);
            assert!(matches!(reply, QueryReply::MalformedRecord));
        },
        KadOutcome::Nothing => panic!("the caller must still be answered"),
    }
}

#[test]
fn failed_lookup_reports_the_failure() {
    let mut swarm = new_swarm();
    swarm.handle_swarm_request(&query(&[1], 8), 4);
    match swarm.handle_kad_event(KadEvent::GetRecordFailed { id: 4 }) {
        KadOutcome::Reply { token, reply } => {
            assert_eq!(token, 8);
            assert!(matches!(reply, QueryReply::LookupFailed));
        },
        KadOutcome::Nothing => panic!("the caller must be answered"),
    }
}

#[test]
fn bootnodes_without_p2p_are_skipped_in_the_seed_list() {
    let with_p2p = Multiaddr {
        parts: vec![
            Part { code: 4, data: vec![127, 0, 0, 1] },
            Part { code: 421, data: vec![0xAA, 0xBB] },
        ],
    };
    let without_p2p = Multiaddr { parts: vec![Part { code: 4, data: vec![127, 0, 0, 1] }] };
    let (_, seeds) = Swarm::new(Config { bootnodes: vec![without_p2p, with_p2p] });
    assert_eq!(seeds.len(), 1);
    assert_eq!(seeds[0].0.bytes, vec![0xAA, 0xBB]);
    assert_eq!(seeds[0].1, 1);
}
