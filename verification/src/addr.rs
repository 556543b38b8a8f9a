//! Multiaddresses as layered protocol components.
//!
//! A multiaddress is a list of components, each a protocol code with its
//! value bytes. The last component may be `p2p`, whose value is a peer's
//! multihash; bootstrapping needs exactly that terminal peer id, so the
//! utilities here extract it and select the bootnodes that carry one.

use vstd::prelude::*;

use crate::wire::PeerId;

verus! {

/// The protocol code of a `p2p` component.
pub const P2P_PROTOCOL_CODE: u64 = 421;

/// One component of a multiaddress: a protocol code and the component's
/// value bytes (for `p2p`, the peer's multihash).
pub struct Part {
    pub code: u64,
    pub data: Vec<u8>,
}

/// A network address as a layered list of protocol components.
pub struct Multiaddr {
    pub parts: Vec<Part>,
}

impl Multiaddr {
    /// The peer id of the last component, if that component is `p2p`.
    pub open spec fn terminal_peer(&self) -> Option<Seq<u8>> {
        if self.parts@.len() > 0 && self.parts@.last().code == P2P_PROTOCOL_CODE {
            Some(self.parts@.last().data@)
        } else {
            None
        }
    }
}

/// The peer id at the end of an address whose last component is `p2p`.
pub fn extract_peer_id(maddr: &Multiaddr) -> (r: Option<PeerId>)
    ensures
        (r is Some) == (maddr.terminal_peer() is Some),
        r matches Some(p) ==> maddr.terminal_peer() == Some(p.bytes@),
{
    if maddr.parts.len() == 0 {
        return None;
    }
    let last = &maddr.parts[maddr.parts.len() - 1];
    if last.code == P2P_PROTOCOL_CODE {
        Some(PeerId { bytes: last.data.clone() })
    } else {
        None
    }
}

/// The terminal peer ids of `s[i..]`, each paired with the index of its
/// address; addresses without a terminal `p2p` component are skipped.
pub open spec fn seed_from(s: Seq<Multiaddr>, i: int) -> Seq<(Seq<u8>, int)>
    decreases s.len() - i,
{
    if i < 0 || i >= s.len() {
        Seq::<(Seq<u8>, int)>::empty()
    } else if s[i].terminal_peer() is Some {
        seq![(s[i].terminal_peer().unwrap(), i)] + seed_from(s, i + 1)
    } else {
        seed_from(s, i + 1)
    }
}

/// The view of a seed list: each peer's bytes with its address index.
pub open spec fn seeds_view(s: Seq<(PeerId, usize)>) -> Seq<(Seq<u8>, int)> {
    s.map_values(|t: (PeerId, usize)| (t.0.bytes@, t.1 as int))
}

/// The bootnodes that can seed a routing table: each address with a
/// terminal `p2p` component yields its peer id and its index; the others
/// are dropped, since the routing table cannot hold an address without a
/// peer.
pub fn seedable_bootnodes(bootnodes: &Vec<Multiaddr>) -> (r: Vec<(PeerId, usize)>)
    ensures
        seeds_view(r@) == seed_from(bootnodes@, 0),
{
    let ghost s = bootnodes@;
    let mut r: Vec<(PeerId, usize)> = Vec::new();
    let mut i: usize = 0;
    while i < bootnodes.len()
        invariant
            i <= s.len(),
            s == bootnodes@,
            seed_from(s, 0) == seeds_view(r@) + seed_from(s, i as int),
        decreases s.len() - i,
    {
        let ghost r_pre = r@;
        match extract_peer_id(&bootnodes[i]) {
            Some(peer) => {
                let ghost pv = peer.bytes@;
                r.push((peer, i));
                proof {
                    assert(seeds_view(r@) =~= seeds_view(r_pre) + seq![(pv, i as int)]);
                    assert(seed_from(s, i as int) == seq![(pv, i as int)] + seed_from(
                        s,
                        i as int + 1,
                    ));
                    assert(seeds_view(r_pre) + (seq![(pv, i as int)] + seed_from(s, i as int + 1))
                        =~= seeds_view(r@) + seed_from(s, i as int + 1));
                }
            },
            None => {
                proof {
                    assert(seed_from(s, i as int) == seed_from(s, i as int + 1));
                }
            },
        }
        i = i + 1;
    }
    proof {
        assert(seed_from(s, s.len() as int) =~= Seq::<(Seq<u8>, int)>::empty());
        assert(seeds_view(r@) + Seq::<(Seq<u8>, int)>::empty() =~= seeds_view(r@));
    }
    r
}

} // verus!
