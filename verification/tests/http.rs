use delia::http::HttpBody;
use delia::http::ResolveOutcome;
use delia::http::failed_to_resolve_peer_id;
use delia::http::resolve_peer_id_reply;

#[test]
fn internal_failure_names_the_peer() {
    let peer = b"12D3KooWExample".to_vec();
    let (status, message) = failed_to_resolve_peer_id(&peer);
    assert_eq!(status, 500);
    assert_eq!(message, "Failed to resolve PeerId: 12D3KooWExample");
}

#[test]
fn found_addresses_reply_with_200() {
    let reply = resolve_peer_id_reply(
        &b"p".to_vec(),
        ResolveOutcome::Found {
            maddrs: vec!["/ip4/10.0.0.1/tcp/1".to_string(), "/ip4/10.0.0.2/tcp/2".to_string()],
        },
    );
    assert_eq!(reply.status, 200);
    match reply.body {
        HttpBody::AddressList { maddrs } => {
            assert_eq!(maddrs, vec!["/ip4/10.0.0.1/tcp/1", "/ip4/10.0.0.2/tcp/2"]);
        },
        HttpBody::Text { .. } => panic!("expected the address list"),
    }
}

#[test]
fn decode_failure_replies_with_500() {
    let reply = resolve_peer_id_reply(
        &b"p".to_vec(),
        ResolveOutcome::DecodeFailed { message: "unexpected tag".to_string() },
    );
    assert_eq!(reply.status, 500);
    match reply.body {
        HttpBody::Text { message } => assert_eq!(message, "unexpected tag"),
        HttpBody::AddressList { .. } => panic!("expected text"),
    }
}

#[test]
fn worker_failure_replies_with_404() {
    let reply = resolve_peer_id_reply(
        &b"p".to_vec(),
        ResolveOutcome::Failed { message: "no record".to_string() },
    );
    assert_eq!(reply.status, 404);
    match reply.body {
        HttpBody::Text { message } => assert_eq!(message, "no record"),
        HttpBody::AddressList { .. } => panic!("expected text"),
    }
}

#[test]
fn transport_failures_reply_with_500() {
    for outcome in [ResolveOutcome::SendFailed, ResolveOutcome::ChannelClosed] {
        let reply = resolve_peer_id_reply(&b"peer-x".to_vec(), outcome);
        assert_eq!(reply.status, 500);
        match reply.body {
            HttpBody::Text { message } => {
                assert_eq!(message, "Failed to resolve PeerId: peer-x");
            },
            HttpBody::AddressList { .. } => panic!("expected text"),
        }
    }
}
