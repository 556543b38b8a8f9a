//! The HTTP front-end's reply decisions.
//!
//! One route answers `resolve_peer_id` queries. The handler forwards the
//! query to the swarm worker and waits on a single-shot reply channel;
//! what it observes decides the reply: the addresses with status 200,
//! the worker's no-record text with status 404, a record-decode failure
//! with status 500 and the decoder's diagnostic, or — when the worker
//! could not be reached or its reply channel closed — status 500 with a
//! message naming the peer. Serving the body over the socket, like
//! receiving the query, is the driver's work.

use vstd::prelude::*;

use crate::text::ascii_chars;
use crate::text::ascii_to_string;
use crate::text::is_ascii_bytes;

verus! {

/// The ASCII bytes of `Failed to resolve PeerId: `.
pub open spec fn failed_prefix() -> Seq<u8> {
    seq![
        70u8, 97u8, 105u8, 108u8, 101u8, 100u8, 32u8, 116u8, 111u8, 32u8, 114u8, 101u8, 115u8,
        111u8, 108u8, 118u8, 101u8, 32u8, 80u8, 101u8, 101u8, 114u8, 73u8, 100u8, 58u8, 32u8,
    ]
}

/// The message of a reply that could not be resolved: the failure prefix
/// followed by the peer's textual form.
pub open spec fn failed_msg(peer_text: Seq<u8>) -> Seq<u8> {
    failed_prefix() + peer_text
}

/// The internal-failure reply: status 500 and a message naming the peer.
pub fn failed_to_resolve_peer_id(peer_text: &Vec<u8>) -> (r: (u16, String))
    requires
        is_ascii_bytes(peer_text@),
    ensures
        r.0 == 500,
        r.1@ == ascii_chars(failed_msg(peer_text@)),
{
    let mut body: Vec<u8> = Vec::new();
    body.push(70u8);
    body.push(97u8);
    body.push(105u8);
    body.push(108u8);
    body.push(101u8);
    body.push(100u8);
    body.push(32u8);
    body.push(116u8);
    body.push(111u8);
    body.push(32u8);
    body.push(114u8);
    body.push(101u8);
    body.push(115u8);
    body.push(111u8);
    body.push(108u8);
    body.push(118u8);
    body.push(101u8);
    body.push(32u8);
    body.push(80u8);
    body.push(101u8);
    body.push(101u8);
    body.push(114u8);
    body.push(73u8);
    body.push(100u8);
    body.push(58u8);
    body.push(32u8);
    let mut rest = peer_text.clone();
    body.append(&mut rest);
    proof {
        assert(body@ =~= failed_msg(peer_text@));
    }
    (500, ascii_to_string(body))
}

/// What the handler observed for one query.
pub enum ResolveOutcome {
    /// The request could not be sent to the swarm worker.
    SendFailed,
    /// The worker found the peer's addresses, already in textual form.
    Found { maddrs: Vec<String> },
    /// The worker reported that the record could not be had, described
    /// by `message`.
    Failed { message: String },
    /// The stored record could not be decoded; `message` is the
    /// decoder's diagnostic.
    DecodeFailed { message: String },
    /// The reply channel closed before an answer arrived.
    ChannelClosed,
}

/// The body of an HTTP reply: a JSON address list, or plain text.
pub enum HttpBody {
    AddressList { maddrs: Vec<String> },
    Text { message: String },
}

/// An HTTP reply: the status code and the body to serve.
pub struct HttpReply {
    pub status: u16,
    pub body: HttpBody,
}

/// Decide the HTTP reply for one query's outcome: the addresses with
/// status 200; the worker's no-record text with status 404; a decode
/// failure's diagnostic with status 500; and when the worker could not
/// be reached, or the reply channel closed, status 500 with a message
/// naming the peer.
pub fn resolve_peer_id_reply(peer_text: &Vec<u8>, outcome: ResolveOutcome) -> (r: HttpReply)
    requires
        is_ascii_bytes(peer_text@),
    ensures
        (outcome is SendFailed ==> r.status == 500 && (r.body matches HttpBody::Text { message }
            && message@ == ascii_chars(failed_msg(peer_text@)))),
        (outcome matches ResolveOutcome::Found { maddrs } ==> r.status == 200 && (
        r.body matches HttpBody::AddressList { maddrs: sent } && sent@ == maddrs@)),
        (outcome matches ResolveOutcome::Failed { message } ==> r.status == 404 && (
        r.body matches HttpBody::Text { message: sent } && sent@ == message@)),
        (outcome matches ResolveOutcome::DecodeFailed { message } ==> r.status == 500 && (
        r.body matches HttpBody::Text { message: sent } && sent@ == message@)),
        (outcome is ChannelClosed ==> r.status == 500 && (r.body matches HttpBody::Text { message }
            && message@ == ascii_chars(failed_msg(peer_text@)))),
{
    match outcome {
        ResolveOutcome::SendFailed => {
            let (status, message) = failed_to_resolve_peer_id(peer_text);
            HttpReply { status, body: HttpBody::Text { message } }
        },
        ResolveOutcome::Found { maddrs } => {
            HttpReply { status: 200, body: HttpBody::AddressList { maddrs } }
        },
        ResolveOutcome::Failed { message } => {
            HttpReply { status: 404, body: HttpBody::Text { message } }
        },
        ResolveOutcome::DecodeFailed { message } => {
            HttpReply { status: 500, body: HttpBody::Text { message } }
        },
        ResolveOutcome::ChannelClosed => {
            let (status, message) = failed_to_resolve_peer_id(peer_text);
            HttpReply { status, body: HttpBody::Text { message } }
        },
    }
}

} // verus!
