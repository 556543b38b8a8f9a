use delia::resolver::Resolver;
use delia::resolver::ResolverAction;
use delia::resolver::ResolverEvent;
use delia::resolver::response_to_result;
use delia::wire::PeerId;
use delia::wire::Response;
use delia::wire::WireAddr;

fn peer(bytes: &[u8]) -> PeerId {
    PeerId { bytes: bytes.to_vec() }
}

#[test]
fn connection_established_sends_request() {
    let mut resolver = Resolver::new(peer(&[1, 2, 3]), 2);
    let action = resolver.on_swarm_event(ResolverEvent::ConnectionEstablished {
        peer: peer(&[9, 9]),
    });
    match action {
        ResolverAction::SendRequest { peer: to, request } => {
            assert_eq!(to.bytes, vec![9, 9]);
            assert_eq!(request.peer.bytes, vec![1, 2, 3]);
        },
        _ => panic!("expected a request"),
    }
}

#[test]
fn first_response_completes_then_later_responses_are_dropped() {
    let mut resolver = Resolver::new(peer(&[1]), 2);
    let first = Response::Found { maddrs: vec![WireAddr { bytes: vec![4, 5] }] };
    match resolver.on_swarm_event(ResolverEvent::ResponseReceived { response: first }) {
        ResolverAction::Complete { response } => match response {
            Response::Found { maddrs } => assert_eq!(maddrs[0].bytes, vec![4, 5]),
            _ => panic!("wrong response"),
        },
        _ => panic!("expected completion"),
    }
    let second = Response::NotFound { peer: peer(&[1]) };
    match resolver.on_swarm_event(ResolverEvent::ResponseReceived { response: second }) {
        ResolverAction::Ignore => {},
        _ => panic!("a second response must be dropped"),
    }
}

#[test]
fn failures_and_other_events_are_tolerated() {
    let mut resolver = Resolver::new(peer(&[1]), 2);
    match resolver.on_swarm_event(ResolverEvent::OutboundFailure) {
        ResolverAction::Ignore => {},
        _ => panic!("an outbound failure must not terminate the resolution"),
    }
    match resolver.on_swarm_event(ResolverEvent::Other) {
        ResolverAction::Ignore => {},
        _ => panic!("unrelated events are ignored"),
    }
    // The resolver still answers afterwards.
    let response = Response::NotFound { peer: peer(&[1]) };
    match resolver.on_swarm_event(ResolverEvent::ResponseReceived { response }) {
        ResolverAction::Complete { .. } => {},
        _ => panic!("expected completion"),
    }
}

#[test]
fn found_response_becomes_addresses() {
    let response = Response::Found {
        maddrs: vec![WireAddr { bytes: vec![1] }, WireAddr { bytes: vec![2] }],
    };
    let result = response_to_result(response).unwrap();
    assert_eq!(result.len(), 2);
    assert_eq!(result[0].bytes, vec![1]);
    assert_eq!(result[1].bytes, vec![2]);
}

#[test]
fn not_found_response_becomes_error() {
    let response = Response::NotFound { peer: peer(&[7]) };
    let err = response_to_result(response).unwrap_err();
    assert_eq!(err.bytes, vec![7]);
}

#[test]
fn losing_every_dial_fails_the_resolution() {
    // One unreachable bootnode: its dial failure is the last attempt.
    let mut resolver = Resolver::new(peer(&[1]), 1);
    match resolver.on_swarm_event(ResolverEvent::DialFailed) {
        ResolverAction::Fail => {},
        _ => panic!("the resolution must fail"),
    }

    // Two bootnodes: the first dial failure is tolerated, the second
    // exhausts the attempts.
    let mut resolver = Resolver::new(peer(&[1]), 2);
    match resolver.on_swarm_event(ResolverEvent::DialFailed) {
        ResolverAction::Ignore => {},
        _ => panic!("one dial attempt is still open"),
    }
    match resolver.on_swarm_event(ResolverEvent::DialFailed) {
        ResolverAction::Fail => {},
        _ => panic!("every dial attempt failed"),
    }
}

#[test]
fn outbound_failures_never_terminate_the_resolution() {
    // Even when the last dial attempt would otherwise be the one left,
    // an outbound failure only loses a request, not the resolution.
    let mut resolver = Resolver::new(peer(&[1]), 1);
    match resolver.on_swarm_event(ResolverEvent::OutboundFailure) {
        ResolverAction::Ignore => {},
        _ => panic!("an outbound failure must be tolerated"),
    }
    match resolver.on_swarm_event(ResolverEvent::OutboundFailure) {
        ResolverAction::Ignore => {},
        _ => panic!("repeated outbound failures must be tolerated"),
    }
    // The resolver still answers afterwards.
    let response = Response::Found { maddrs: vec![WireAddr { bytes: vec![1] }] };
    match resolver.on_swarm_event(ResolverEvent::ResponseReceived { response }) {
        ResolverAction::Complete { .. } => {},
        _ => panic!("expected completion"),
    }
}
