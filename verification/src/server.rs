//! The indexing server's swarm worker decisions.
//!
//! The worker owns the in-flight table: for every outstanding DHT
//! `get_record` query, the reply token of the caller waiting on it. A
//! query is entered when the caller's request is submitted and removed by
//! the first progress event of interest, so each caller is answered
//! exactly once; events for unknown queries are dropped.
//!
//! The driver performs the outside work: it submits `get_record` to the
//! DHT and obtains the query id, and it delivers each outcome's reply on
//! the channel its token names.

use std::collections::HashMap;

use vstd::prelude::*;

use crate::addr::Multiaddr;
use crate::wire::PeerId;
use crate::wire::WireAddr;
use crate::wire::addrs_view;
use crate::wire::dec_record;
use crate::wire::decode_record;

verus! {

broadcast use vstd::std_specs::hash::group_hash_axioms;

/// Configuration of the swarm worker: the bootnodes that seed its
/// Kademlia routing table.
pub struct Config {
    pub bootnodes: Vec<Multiaddr>,
}

/// A request to the swarm worker. The reply token stands for the caller's
/// single-shot reply channel, which the driver holds.
pub enum SwarmRequest {
    QueryPeerId { peer_id: PeerId, response_tx: u64 },
}

/// The DHT events the worker reacts to. Only the first found record of a
/// query is reported; everything else is `Other`.
pub enum KadEvent {
    /// `get_record` progressed with a found record: its raw value bytes.
    FoundRecord { id: u64, value: Vec<u8> },
    /// `get_record` failed.
    GetRecordFailed { id: u64 },
    /// Any other event, logged and otherwise ignored.
    Other,
}

/// The reply owed to the caller of one query.
pub enum QueryReply {
    /// The record decoded to these addresses.
    Found { maddrs: Vec<WireAddr> },
    /// The record's bytes are not a canonical address array.
    MalformedRecord,
    /// The DHT reported the lookup failed.
    LookupFailed,
}

/// What one event obliges the worker to do.
pub enum KadOutcome {
    /// Send `reply` on the channel that `token` names.
    Reply { token: u64, reply: QueryReply },
    /// The event did not belong to an outstanding query; drop it.
    Nothing,
}

/// The verified state of the swarm worker.
pub struct Swarm {
    /// In-flight queries: the reply token for each outstanding query id.
    inflight_kad_queries: HashMap<u64, u64>,
}

impl Swarm {
    /// The in-flight table: which reply token each outstanding query owes.
    pub closed spec fn inflight(&self) -> Map<u64, u64> {
        self.inflight_kad_queries@
    }

    /// A fresh worker with no outstanding queries, together with the seed
    /// list of the routing table: each bootnode with a terminal `p2p`
    /// component, as its peer id and its index in the configuration.
    pub fn new(config: Config) -> (r: (Swarm, Vec<(PeerId, usize)>))
        ensures
            r.0.inflight() == Map::<u64, u64>::empty(),
            crate::addr::seeds_view(r.1@) == crate::addr::seed_from(config.bootnodes@, 0),
    {
        let seeds = crate::addr::seedable_bootnodes(&config.bootnodes);
        let swarm = Swarm { inflight_kad_queries: HashMap::new() };
        (swarm, seeds)
    }

    /// The DHT key a query looks up: the raw bytes of the peer id.
    pub fn record_key(request: &SwarmRequest) -> (r: Vec<u8>)
        ensures
            request matches SwarmRequest::QueryPeerId { peer_id, .. } ==> r@ == peer_id.bytes@,
    {
        match request {
            SwarmRequest::QueryPeerId { peer_id, .. } => peer_id.bytes.clone(),
        }
    }

    /// Note a submitted query: the driver has called `get_record` for the
    /// request's key and obtained `query_id`; remember which caller it
    /// belongs to.
    pub fn handle_swarm_request(&mut self, request: &SwarmRequest, query_id: u64)
        ensures
            request matches SwarmRequest::QueryPeerId { peer_id, response_tx } ==> final(self).inflight() == old(self).inflight().insert(query_id, *response_tx),
    {
        match request {
            SwarmRequest::QueryPeerId { peer_id: _, response_tx } => {
                self.inflight_kad_queries.insert(query_id, *response_tx);
            },
        }
    }

    /// React to one DHT event. The first event of interest for a query
    /// resolves it: the entry is removed and its caller is owed exactly
    /// one reply — the decoded addresses, a decode failure, or the
    /// lookup failure. Events for unknown queries oblige nothing.
    pub fn handle_kad_event(&mut self, event: KadEvent) -> (r: KadOutcome)
        ensures
            (event matches KadEvent::FoundRecord { id, value } ==> (if old(self).inflight().contains_key(id) {
                &&& final(self).inflight() == old(self).inflight().remove(id)
                &&& (r matches KadOutcome::Reply { token, reply } && token == old(self).inflight()[id] && (match dec_record(value@) {
                    Some(items) => reply matches QueryReply::Found { maddrs } && addrs_view(
                        maddrs@,
                    ) == items,
                    None => reply is MalformedRecord,
                }))
            } else {
                (r is Nothing) && final(self).inflight() == old(self).inflight()
            })),
            (event matches KadEvent::GetRecordFailed { id } ==> (if old(self).inflight().contains_key(id) {
                &&& final(self).inflight() == old(self).inflight().remove(id)
                &&& (r matches KadOutcome::Reply { token, reply } && token == old(self).inflight()[id] && reply is LookupFailed)
            } else {
                (r is Nothing) && final(self).inflight() == old(self).inflight()
            })),
            (event is Other ==> (r is Nothing) && final(self).inflight() == old(self).inflight()),
    {
        match event {
            KadEvent::FoundRecord { id, value } => {
                match self.inflight_kad_queries.remove(&id) {
                    Some(token) => {
                        let reply = match decode_record(&value) {
                            Ok(maddrs) => QueryReply::Found { maddrs },
                            Err(_) => QueryReply::MalformedRecord,
                        };
                        KadOutcome::Reply { token, reply }
                    },
                    None => KadOutcome::Nothing,
                }
            },
            KadEvent::GetRecordFailed { id } => {
                match self.inflight_kad_queries.remove(&id) {
                    Some(token) => KadOutcome::Reply { token, reply: QueryReply::LookupFailed },
                    None => KadOutcome::Nothing,
                }
            },
            KadEvent::Other => KadOutcome::Nothing,
        }
    }
}

/// Law: an in-flight entry is resolved exactly once. Handling a query's
/// first event removes its entry, and a removed query is no longer in
/// flight, so a second event for the same query obliges nothing.
pub proof fn lemma_entry_resolved_once(inflight: Map<u64, u64>, id: u64)
    ensures
        !inflight.remove(id).contains_key(id),
{
}

} // verus!
