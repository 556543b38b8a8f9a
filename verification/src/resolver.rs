//! The edge resolver's decisions.
//!
//! The resolver dials its bootnodes and waits. Its driver polls the swarm
//! and hands every event to `on_swarm_event`, which decides what to do:
//! send the resolution request on each newly established connection, and
//! complete the resolution with the first response received. Outbound
//! failures are logged and tolerated — another connection may still
//! answer; only the exhaustion of every dial attempt reports failure.
//! The protocol is outbound-only, so inbound events cannot occur. The
//! completion channel is consumed exactly once: later responses are
//! dropped.

use vstd::prelude::*;

use crate::wire::PeerId;
use crate::wire::Request;
use crate::wire::RespView;
use crate::wire::Response;
use crate::wire::WireAddr;

verus! {

/// What the network reported to the resolver.
pub enum ResolverEvent {
    /// A connection to `peer` was established.
    ConnectionEstablished { peer: PeerId },
    /// A response message arrived on some connection.
    ResponseReceived { response: Response },
    /// Dialing one bootnode failed; that dial attempt is gone.
    DialFailed,
    /// An outbound request failed; other connections may still answer.
    OutboundFailure,
    /// Any other swarm event, logged and otherwise ignored.
    Other,
}

/// What the resolver asks its driver to do next.
pub enum ResolverAction {
    /// Send `request` to `peer` over the new connection.
    SendRequest { peer: PeerId, request: Request },
    /// The resolution is complete: hand `response` to the caller.
    Complete { response: Response },
    /// Every dial attempt failed: the resolution failed.
    Fail,
    /// Nothing; the event is tolerated.
    Ignore,
}

/// The decision core of the edge resolver: one query, completed by the
/// first response, failed only when every dial attempt has failed.
pub struct Resolver {
    /// The peer being resolved.
    query: PeerId,
    /// How many dial attempts have not failed yet. An established
    /// connection keeps its attempt alive, so the count only reaches
    /// zero when no bootnode could be reached at all.
    paths: usize,
    /// Whether a response has already completed the resolution.
    completed: bool,
}

impl Resolver {
    pub closed spec fn query(&self) -> Seq<u8> {
        self.query.bytes@
    }

    pub closed spec fn paths(&self) -> nat {
        self.paths as nat
    }

    pub closed spec fn is_completed(&self) -> bool {
        self.completed
    }

    /// A resolver that has dialed `bootnodes` addresses.
    pub fn new(query: PeerId, bootnodes: usize) -> (r: Self)
        ensures
            r.query() == query.bytes@,
            r.paths() == bootnodes,
            !r.is_completed(),
    {
        Resolver { query, paths: bootnodes, completed: false }
    }

    /// Decide what to do about one swarm event: request on every new
    /// connection, complete on the first response, fail once the last
    /// dial attempt has failed, tolerate the rest — in particular, an
    /// outbound failure never terminates the resolution. A completion
    /// can only happen once; responses after it are dropped.
    pub fn on_swarm_event(&mut self, event: ResolverEvent) -> (r: ResolverAction)
        ensures
            final(self).query() == old(self).query(),
            (event matches ResolverEvent::ConnectionEstablished { peer } ==> (
            r matches ResolverAction::SendRequest { peer: p, request } && p.bytes@ == peer.bytes@
                && request.peer.bytes@ == old(self).query()) && final(self).is_completed() == old(
                self,
            ).is_completed() && final(self).paths() == old(self).paths()),
            (event matches ResolverEvent::ResponseReceived { response } ==> (if old(
                self,
            ).is_completed() {
                (r is Ignore) && final(self).is_completed()
            } else {
                (r matches ResolverAction::Complete { response: sent } && sent.view()
                    == response.view()) && final(self).is_completed()
            }) && final(self).paths() == old(self).paths()),
            (event is DialFailed ==> final(self).is_completed() == old(self).is_completed() && (
            if old(self).paths() > 0 {
                final(self).paths() == old(self).paths() - 1
            } else {
                final(self).paths() == 0
            }) && (if !old(self).is_completed() && old(self).paths() == 1 {
                r is Fail
            } else {
                r is Ignore
            })),
            (event is OutboundFailure ==> (r is Ignore) && final(self).is_completed() == old(
                self,
            ).is_completed() && final(self).paths() == old(self).paths()),
            (event is Other ==> (r is Ignore) && final(self).is_completed() == old(
                self,
            ).is_completed() && final(self).paths() == old(self).paths()),
            (r is Complete) ==> !old(self).is_completed() && final(self).is_completed(),
    {
        match event {
            ResolverEvent::ConnectionEstablished { peer } => {
                let request = Request { peer: PeerId { bytes: self.query.bytes.clone() } };
                ResolverAction::SendRequest { peer, request }
            },
            ResolverEvent::ResponseReceived { response } => {
                if self.completed {
                    // The single-shot completion channel was already
                    // consumed; this response is dropped.
                    ResolverAction::Ignore
                } else {
                    self.completed = true;
                    ResolverAction::Complete { response }
                }
            },
            ResolverEvent::DialFailed => {
                if self.paths > 0 {
                    self.paths = self.paths - 1;
                    if !self.completed && self.paths == 0 {
                        // The last dial attempt failed without a response.
                        ResolverAction::Fail
                    } else {
                        ResolverAction::Ignore
                    }
                } else {
                    ResolverAction::Ignore
                }
            },
            ResolverEvent::OutboundFailure => {
                // Logged and tolerated: the resolver keeps waiting on
                // other connections.
                ResolverAction::Ignore
            },
            ResolverEvent::Other => ResolverAction::Ignore,
        }
    }
}

/// The result a completed resolution hands to its caller: the addresses
/// of a `Found` response; a `NotFound` response becomes an error naming
/// the peer that could not be resolved.
pub fn response_to_result(response: Response) -> (r: Result<Vec<WireAddr>, PeerId>)
    ensures
        (response.view() matches RespView::Found(items) ==> r matches Ok(v)
            && crate::wire::addrs_view(v@) == items),
        (response.view() matches RespView::NotFound(p) ==> r matches Err(e) && e.bytes@ == p),
{
    match response {
        Response::Found { maddrs } => Ok(maddrs),
        Response::NotFound { peer } => Err(peer),
    }
}

} // verus!
