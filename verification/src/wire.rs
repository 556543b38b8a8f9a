//! The CBOR wire format of the resolve-peer-id protocol.
//!
//! Three message shapes share one canonical CBOR subset (definite lengths,
//! minimally-encoded length arguments):
//!
//! - a request, the map `{"peer": <peer-bytes>}`;
//! - a response, either `{"Found": {"maddrs": [<addr-bytes>...]}}` or
//!   `{"NotFound": {"peer": <peer-bytes>}}`;
//! - a stored record, the array `[<addr-bytes>...]` of a peer's addresses.
//!
//! Peer ids and multiaddresses travel as byte strings: a peer id is its
//! multihash bytes, an address its binary multiaddr form. The decoders
//! accept exactly what the encoders produce.

use vstd::prelude::*;

verus! {

/// A peer identifier, as its multihash bytes.
#[derive(Clone, Debug)]
pub struct PeerId {
    pub bytes: Vec<u8>,
}

impl PeerId {
    pub open spec fn view(&self) -> Seq<u8> {
        self.bytes@
    }
}

/// A network address in its binary multiaddr form, as carried on the wire.
#[derive(Clone, Debug)]
pub struct WireAddr {
    pub bytes: Vec<u8>,
}

impl WireAddr {
    pub open spec fn view(&self) -> Seq<u8> {
        self.bytes@
    }
}

/// The element-wise view of a list of wire addresses.
pub open spec fn addrs_view(s: Seq<WireAddr>) -> Seq<Seq<u8>> {
    s.map_values(|a: WireAddr| a.bytes@)
}

/// A resolution request: the peer whose addresses are asked for.
#[derive(Clone, Debug)]
pub struct Request {
    pub peer: PeerId,
}

/// A resolution response: the peer's addresses, or word that no record is
/// known for it.
#[derive(Clone, Debug)]
pub enum Response {
    Found { maddrs: Vec<WireAddr> },
    NotFound { peer: PeerId },
}

/// The value of a response, for specifications.
pub enum RespView {
    Found(Seq<Seq<u8>>),
    NotFound(Seq<u8>),
}

impl Response {
    pub open spec fn view(&self) -> RespView {
        match self {
            Response::Found { maddrs } => RespView::Found(addrs_view(maddrs@)),
            Response::NotFound { peer } => RespView::NotFound(peer.bytes@),
        }
    }
}

/// A CBOR head: the major type in the top three bits, then the length or
/// value argument in its shortest form.
pub open spec fn head_spec(major: u8, n: nat) -> Seq<u8> {
    if n < 24 {
        seq![(32 * major + n) as u8]
    } else if n < 256 {
        seq![(32 * major + 24) as u8, n as u8]
    } else if n < 65536 {
        seq![(32 * major + 25) as u8, (n / 256) as u8, (n % 256) as u8]
    } else if n < 4294967296 {
        seq![
            (32 * major + 26) as u8,
            (n / 16777216) as u8,
            ((n / 65536) % 256) as u8,
            ((n / 256) % 256) as u8,
            (n % 256) as u8,
        ]
    } else {
        seq![
            (32 * major + 27) as u8,
            (n / 0x100000000000000) as u8,
            ((n / 0x1000000000000) % 256) as u8,
            ((n / 0x10000000000) % 256) as u8,
            ((n / 0x100000000) % 256) as u8,
            ((n / 0x1000000) % 256) as u8,
            ((n / 0x10000) % 256) as u8,
            ((n / 256) % 256) as u8,
            (n % 256) as u8,
        ]
    }
}

/// Append the CBOR head for `(major, n)` to `out`.
fn encode_head(major: u8, n: u64, out: &mut Vec<u8>)
    requires
        major < 8,
    ensures
        final(out)@ == old(out)@ + head_spec(major, n as nat),
{
    if n < 24 {
        out.push(32 * major + n as u8);
    } else if n < 256 {
        out.push(32 * major + 24);
        out.push(n as u8);
    } else if n < 65536 {
        out.push(32 * major + 25);
        out.push((n / 256) as u8);
        out.push((n % 256) as u8);
    } else if n < 4294967296 {
        out.push(32 * major + 26);
        out.push((n / 16777216) as u8);
        out.push(((n / 65536) % 256) as u8);
        out.push(((n / 256) % 256) as u8);
        out.push((n % 256) as u8);
    } else {
        out.push(32 * major + 27);
        out.push((n / 0x100000000000000) as u8);
        out.push(((n / 0x1000000000000) % 256) as u8);
        out.push(((n / 0x10000000000) % 256) as u8);
        out.push(((n / 0x100000000) % 256) as u8);
        out.push(((n / 0x1000000) % 256) as u8);
        out.push(((n / 0x10000) % 256) as u8);
        out.push(((n / 256) % 256) as u8);
        out.push((n % 256) as u8);
    }
    proof {
        assert(out@ =~= old(out)@ + head_spec(major, n as nat));
    }
}

/// The ASCII bytes of the map key `peer`.
pub open spec fn key_peer() -> Seq<u8> {
    seq![112u8, 101u8, 101u8, 114u8]
}

/// The ASCII bytes of the variant tag `Found`.
pub open spec fn key_found() -> Seq<u8> {
    seq![70u8, 111u8, 117u8, 110u8, 100u8]
}

/// The ASCII bytes of the map key `maddrs`.
pub open spec fn key_maddrs() -> Seq<u8> {
    seq![109u8, 97u8, 100u8, 100u8, 114u8, 115u8]
}

/// The ASCII bytes of the variant tag `NotFound`.
pub open spec fn key_notfound() -> Seq<u8> {
    seq![78u8, 111u8, 116u8, 70u8, 111u8, 117u8, 110u8, 100u8]
}

/// A CBOR byte string.
pub open spec fn enc_bytes(b: Seq<u8>) -> Seq<u8> {
    head_spec(2, b.len()) + b
}

/// A CBOR text string.
pub open spec fn enc_text(t: Seq<u8>) -> Seq<u8> {
    head_spec(3, t.len()) + t
}

/// The concatenated byte-string items of an address array.
pub open spec fn enc_addr_items(items: Seq<Seq<u8>>) -> Seq<u8>
    decreases items.len(),
{
    if items.len() == 0 {
        Seq::<u8>::empty()
    } else {
        enc_bytes(items[0]) + enc_addr_items(items.drop_first())
    }
}

/// The CBOR encoding of a stored record: an array of address byte strings.
pub open spec fn enc_record(items: Seq<Seq<u8>>) -> Seq<u8> {
    head_spec(4, items.len()) + enc_addr_items(items)
}

/// The CBOR encoding of a request: `{"peer": <peer-bytes>}`.
pub open spec fn enc_request(peer: Seq<u8>) -> Seq<u8> {
    head_spec(5, 1) + enc_text(key_peer()) + enc_bytes(peer)
}

/// The CBOR encoding of a response: a one-entry map whose key is the
/// variant tag and whose value is the variant's own one-entry map.
pub open spec fn enc_response(v: RespView) -> Seq<u8> {
    match v {
        RespView::Found(items) => head_spec(5, 1) + enc_text(key_found()) + head_spec(5, 1)
            + enc_text(key_maddrs()) + enc_record(items),
        RespView::NotFound(peer) => head_spec(5, 1) + enc_text(key_notfound()) + head_spec(5, 1)
            + enc_text(key_peer()) + enc_bytes(peer),
    }
}

fn push_key_peer(out: &mut Vec<u8>)
    ensures
        final(out)@ == old(out)@ + enc_text(key_peer()),
{
    encode_head(3, 4, out);
    out.push(112u8);
    out.push(101u8);
    out.push(101u8);
    out.push(114u8);
    proof {
        assert(out@ =~= old(out)@ + enc_text(key_peer()));
    }
}

fn push_bytes(b: &Vec<u8>, out: &mut Vec<u8>)
    ensures
        final(out)@ == old(out)@ + enc_bytes(b@),
{
    proof {
        assert(b@.len() == b.len());
    }
    encode_head(2, b.len() as u64, out);
    let mut copy = b.clone();
    out.append(&mut copy);
    proof {
        assert(out@ =~= old(out)@ + enc_bytes(b@));
    }
}

/// Encode a request as canonical CBOR.
pub fn encode_request(request: &Request) -> (r: Vec<u8>)
    ensures
        r@ == enc_request(request.peer@),
{
    let mut out: Vec<u8> = Vec::new();
    encode_head(5, 1, &mut out);
    push_key_peer(&mut out);
    push_bytes(&request.peer.bytes, &mut out);
    proof {
        assert(out@ =~= enc_request(request.peer@));
    }
    out
}

/// Encode a record: the CBOR array of address byte strings.
pub fn encode_record(maddrs: &Vec<WireAddr>) -> (r: Vec<u8>)
    ensures
        r@ == enc_record(addrs_view(maddrs@)),
{
    proof {
        assert(maddrs@.len() == maddrs.len());
    }
    let mut out: Vec<u8> = Vec::new();
    encode_head(4, maddrs.len() as u64, &mut out);
    let ghost items = addrs_view(maddrs@);
    let mut i: usize = 0;
    while i < maddrs.len()
        invariant
            i <= maddrs@.len(),
            items == addrs_view(maddrs@),
            items.len() == maddrs@.len(),
            out@ == head_spec(4, maddrs@.len()) + enc_addr_items(items.take(i as int)),
        decreases maddrs@.len() - i,
    {
        push_bytes(&maddrs[i].bytes, &mut out);
        proof {
            lemma_enc_addr_items_snoc(items, i as int);
            assert(out@ =~= head_spec(4, maddrs@.len()) + enc_addr_items(items.take(i + 1)));
        }
        i = i + 1;
    }
    proof {
        assert(items.take(items.len() as int) =~= items);
    }
    out
}

/// Appending one more item to an encoded prefix of an address array.
proof fn lemma_enc_addr_items_snoc(items: Seq<Seq<u8>>, i: int)
    requires
        0 <= i < items.len(),
    ensures
        enc_addr_items(items.take(i + 1)) == enc_addr_items(items.take(i)) + enc_bytes(items[i]),
    decreases i,
{
    if i == 0 {
        assert(items.take(1).drop_first() =~= Seq::<Seq<u8>>::empty());
        assert(items.take(1).len() == 1);
        assert(items.take(1)[0] == items[0]);
        assert(enc_addr_items(items.take(1)) == enc_bytes(items[0]) + enc_addr_items(
            Seq::<Seq<u8>>::empty(),
        ));
        assert(enc_addr_items(Seq::<Seq<u8>>::empty()) == Seq::<u8>::empty());
        assert(items.take(0).len() == 0);
        assert(enc_addr_items(items.take(0)) == Seq::<u8>::empty());
        assert(enc_bytes(items[0]) + Seq::<u8>::empty() =~= Seq::<u8>::empty() + enc_bytes(
            items[0],
        ));
    } else {
        lemma_enc_addr_items_snoc(items.drop_first(), i - 1);
        assert(items.take(i + 1).drop_first() =~= items.drop_first().take(i));
        assert(items.take(i).drop_first() =~= items.drop_first().take(i - 1));
        assert(items.drop_first()[i - 1] == items[i]);
        assert(enc_addr_items(items.take(i + 1)) == enc_bytes(items[0]) + enc_addr_items(
            items.drop_first().take(i),
        ));
        assert(enc_addr_items(items.take(i)) == enc_bytes(items[0]) + enc_addr_items(
            items.drop_first().take(i - 1),
        ));
        assert((enc_bytes(items[0]) + enc_addr_items(items.drop_first().take(i - 1))) + enc_bytes(
            items[i],
        ) =~= enc_bytes(items[0]) + (enc_addr_items(items.drop_first().take(i - 1)) + enc_bytes(
            items[i],
        )));
    }
}

/// Encode a response as canonical CBOR.
pub fn encode_response(response: &Response) -> (r: Vec<u8>)
    ensures
        r@ == enc_response(response.view()),
{
    let mut out: Vec<u8> = Vec::new();
    encode_head(5, 1, &mut out);
    match response {
        Response::Found { maddrs } => {
            encode_head(3, 5, &mut out);
            out.push(70u8);
            out.push(111u8);
            out.push(117u8);
            out.push(110u8);
            out.push(100u8);
            encode_head(5, 1, &mut out);
            encode_head(3, 6, &mut out);
            out.push(109u8);
            out.push(97u8);
            out.push(100u8);
            out.push(100u8);
            out.push(114u8);
            out.push(115u8);
            let mut rec = encode_record(maddrs);
            out.append(&mut rec);
            proof {
                assert(out@ =~= enc_response(response.view()));
            }
        },
        Response::NotFound { peer } => {
            encode_head(3, 8, &mut out);
            out.push(78u8);
            out.push(111u8);
            out.push(116u8);
            out.push(70u8);
            out.push(111u8);
            out.push(117u8);
            out.push(110u8);
            out.push(100u8);
            encode_head(5, 1, &mut out);
            push_key_peer(&mut out);
            push_bytes(&peer.bytes, &mut out);
            proof {
                assert(out@ =~= enc_response(response.view()));
            }
        },
    }
    out
}

/// Why a wire message failed to decode.
#[derive(Clone, Copy, Debug, PartialEq, Eq, Structural)]
pub enum DecodeError {
    /// The bytes are not a canonical encoding of the expected shape.
    Malformed,
}

/// Parse a CBOR head at `pos`: the major type, the length or value
/// argument, and the position after the head. Only minimally-encoded
/// arguments are accepted.
pub open spec fn parse_head(s: Seq<u8>, pos: int) -> Option<(u8, nat, int)> {
    if pos < 0 || pos >= s.len() {
        None
    } else {
        let b = s[pos] as int;
        let major = (b / 32) as u8;
        let info = b % 32;
        if info < 24 {
            Some((major, info as nat, pos + 1))
        } else if info == 24 {
            if pos + 1 < s.len() && s[pos + 1] >= 24 {
                Some((major, s[pos + 1] as nat, pos + 2))
            } else {
                None
            }
        } else if info == 25 {
            if pos + 2 < s.len() {
                let v = (s[pos + 1] as int) * 256 + (s[pos + 2] as int);
                if v >= 256 {
                    Some((major, v as nat, pos + 3))
                } else {
                    None
                }
            } else {
                None
            }
        } else if info == 26 {
            if pos + 4 < s.len() {
                let v = (s[pos + 1] as int) * 16777216 + (s[pos + 2] as int) * 65536 + (s[pos
                    + 3] as int) * 256 + (s[pos + 4] as int);
                if v >= 65536 {
                    Some((major, v as nat, pos + 5))
                } else {
                    None
                }
            } else {
                None
            }
        } else if info == 27 {
            if pos + 8 < s.len() {
                let v = (s[pos + 1] as int) * 0x100000000000000 + (s[pos + 2] as int)
                    * 0x1000000000000 + (s[pos + 3] as int) * 0x10000000000 + (s[pos + 4] as int)
                    * 0x100000000 + (s[pos + 5] as int) * 0x1000000 + (s[pos + 6] as int) * 0x10000
                    + (s[pos + 7] as int) * 256 + (s[pos + 8] as int);
                if v >= 4294967296 {
                    Some((major, v as nat, pos + 9))
                } else {
                    None
                }
            } else {
                None
            }
        } else {
            None
        }
    }
}

/// Parse a byte string at `pos`: its contents and the position after it.
pub open spec fn parse_bytes_spec(s: Seq<u8>, pos: int) -> Option<(Seq<u8>, int)> {
    match parse_head(s, pos) {
        Some((major, n, p)) => if major == 2 && p + n <= s.len() {
            Some((s.subrange(p, p + n as int), p + n))
        } else {
            None
        },
        None => None,
    }
}

/// Parse `count` byte-string items starting at `pos`.
pub open spec fn parse_addrs(s: Seq<u8>, pos: int, count: nat) -> Option<(Seq<Seq<u8>>, int)>
    decreases count,
{
    if count == 0 {
        Some((Seq::<Seq<u8>>::empty(), pos))
    } else {
        match parse_bytes_spec(s, pos) {
            Some((b, p)) => match parse_addrs(s, p, (count - 1) as nat) {
                Some((items, p2)) => Some((seq![b] + items, p2)),
                None => None,
            },
            None => None,
        }
    }
}

/// Parse a one-entry map head at `pos`.
pub open spec fn parse_map1(s: Seq<u8>, pos: int) -> Option<int> {
    match parse_head(s, pos) {
        Some((major, n, p)) => if major == 5 && n == 1 {
            Some(p)
        } else {
            None
        },
        None => None,
    }
}

/// Parse the exact text string `key` at `pos`.
pub open spec fn parse_key(s: Seq<u8>, pos: int, key: Seq<u8>) -> Option<int> {
    match parse_head(s, pos) {
        Some((major, n, p)) => if major == 3 && n == key.len() && p + n <= s.len() && s.subrange(
            p,
            p + n as int,
        ) == key {
            Some(p + n)
        } else {
            None
        },
        None => None,
    }
}

/// Decode a stored record: the whole input must be one address array.
pub open spec fn dec_record(s: Seq<u8>) -> Option<Seq<Seq<u8>>> {
    match parse_head(s, 0) {
        Some((major, cnt, p)) => if major == 4 {
            match parse_addrs(s, p, cnt) {
                Some((items, p2)) => if p2 == s.len() {
                    Some(items)
                } else {
                    None
                },
                None => None,
            }
        } else {
            None
        },
        None => None,
    }
}

/// Decode a request: the whole input must be `{"peer": <peer-bytes>}`.
pub open spec fn dec_request(s: Seq<u8>) -> Option<Seq<u8>> {
    match parse_map1(s, 0) {
        Some(p0) => match parse_key(s, p0, key_peer()) {
            Some(p1) => match parse_bytes_spec(s, p1) {
                Some((peer, p2)) => if p2 == s.len() {
                    Some(peer)
                } else {
                    None
                },
                None => None,
            },
            None => None,
        },
        None => None,
    }
}

/// Decode a response: the whole input must be one of the two tagged maps.
pub open spec fn dec_response(s: Seq<u8>) -> Option<RespView> {
    match parse_map1(s, 0) {
        Some(p0) => match parse_key(s, p0, key_found()) {
            Some(p1) => match parse_map1(s, p1) {
                Some(p2) => match parse_key(s, p2, key_maddrs()) {
                    Some(p3) => match parse_head(s, p3) {
                        Some((major, cnt, p4)) => if major == 4 {
                            match parse_addrs(s, p4, cnt) {
                                Some((items, p5)) => if p5 == s.len() {
                                    Some(RespView::Found(items))
                                } else {
                                    None
                                },
                                None => None,
                            }
                        } else {
                            None
                        },
                        None => None,
                    },
                    None => None,
                },
                None => None,
            },
            None => match parse_key(s, p0, key_notfound()) {
                Some(p1) => match parse_map1(s, p1) {
                    Some(p2) => match parse_key(s, p2, key_peer()) {
                        Some(p3) => match parse_bytes_spec(s, p3) {
                            Some((peer, p4)) => if p4 == s.len() {
                                Some(RespView::NotFound(peer))
                            } else {
                                None
                            },
                            None => None,
                        },
                        None => None,
                    },
                    None => None,
                },
                None => None,
            },
        },
        None => None,
    }
}

fn parse_head_at(s: &Vec<u8>, pos: usize) -> (r: Option<(u8, u64, usize)>)
    ensures
        (r is Some) == (parse_head(s@, pos as int) is Some),
        r matches Some(t) ==> parse_head(s@, pos as int) == Some((t.0, t.1 as nat, t.2 as int))
            && t.2 <= s@.len() && pos < t.2,
{
    if pos >= s.len() {
        return None;
    }
    let rem = s.len() - pos;
    let b = s[pos];
    let major = b / 32;
    let info = b % 32;
    if info < 24 {
        Some((major, info as u64, pos + 1))
    } else if info == 24 {
        if rem > 1 && s[pos + 1] >= 24 {
            Some((major, s[pos + 1] as u64, pos + 2))
        } else {
            None
        }
    } else if info == 25 {
        if rem > 2 {
            let v = (s[pos + 1] as u64) * 256 + (s[pos + 2] as u64);
            if v >= 256 {
                Some((major, v, pos + 3))
            } else {
                None
            }
        } else {
            None
        }
    } else if info == 26 {
        if rem > 4 {
            let v = (s[pos + 1] as u64) * 16777216 + (s[pos + 2] as u64) * 65536 + (s[pos
                + 3] as u64) * 256 + (s[pos + 4] as u64);
            if v >= 65536 {
                Some((major, v, pos + 5))
            } else {
                None
            }
        } else {
            None
        }
    } else if info == 27 {
        if rem > 8 {
            let v = (s[pos + 1] as u64) * 0x100000000000000 + (s[pos + 2] as u64) * 0x1000000000000
                + (s[pos + 3] as u64) * 0x10000000000 + (s[pos + 4] as u64) * 0x100000000 + (s[pos
                + 5] as u64) * 0x1000000 + (s[pos + 6] as u64) * 0x10000 + (s[pos + 7] as u64) * 256
                + (s[pos + 8] as u64);
            if v >= 4294967296 {
                Some((major, v, pos + 9))
            } else {
                None
            }
        } else {
            None
        }
    } else {
        None
    }
}

fn parse_bytes_at(s: &Vec<u8>, pos: usize) -> (r: Option<(Vec<u8>, usize)>)
    ensures
        (r is Some) == (parse_bytes_spec(s@, pos as int) is Some),
        r matches Some(t) ==> parse_bytes_spec(s@, pos as int) == Some((t.0@, t.1 as int)) && t.1
            <= s@.len() && pos < t.1,
{
    match parse_head_at(s, pos) {
        Some((major, n, p)) => {
            if major == 2 && n <= (s.len() - p) as u64 {
                let n_us = n as usize;
                let end = p + n_us;
                let contents = vstd::slice::slice_to_vec(
                    vstd::slice::slice_subrange(s.as_slice(), p, end),
                );
                Some((contents, end))
            } else {
                None
            }
        },
        None => None,
    }
}

fn parse_map1_at(s: &Vec<u8>, pos: usize) -> (r: Option<usize>)
    ensures
        (r is Some) == (parse_map1(s@, pos as int) is Some),
        r matches Some(p) ==> parse_map1(s@, pos as int) == Some(p as int) && p <= s@.len() && pos
            < p,
{
    match parse_head_at(s, pos) {
        Some((major, n, p)) => {
            if major == 5 && n == 1 {
                Some(p)
            } else {
                None
            }
        },
        None => None,
    }
}

fn parse_key_at(s: &Vec<u8>, pos: usize, key: &Vec<u8>) -> (r: Option<usize>)
    ensures
        (r is Some) == (parse_key(s@, pos as int, key@) is Some),
        r matches Some(p) ==> parse_key(s@, pos as int, key@) == Some(p as int) && p <= s@.len()
            && pos < p,
{
    match parse_head_at(s, pos) {
        Some((major, n, p)) => {
            if major == 3 && n == key.len() as u64 && key.len() <= s.len() - p {
                let mut i: usize = 0;
                while i < key.len()
                    invariant
                        i <= key@.len(),
                        p + key@.len() <= s.len(),
                        forall|k: int| 0 <= k < i ==> s@[p + k] == key@[k],
                        parse_key(s@, pos as int, key@) == (if s@.subrange(
                            p as int,
                            p + key@.len(),
                        ) == key@ {
                            Some((p + key@.len()) as int)
                        } else {
                            Option::<int>::None
                        }),
                    decreases key@.len() - i,
                {
                    if s[p + i] != key[i] {
                        proof {
                            let ki = i as int;
                            assert(s@.subrange(p as int, p + key@.len())[ki] != key@[ki]);
                        }
                        return None;
                    }
                    i = i + 1;
                }
                proof {
                    assert(s@.subrange(p as int, p + key@.len()) =~= key@);
                }
                Some(p + key.len())
            } else {
                None
            }
        },
        None => None,
    }
}

/// Decode a stored record. Succeeds exactly on canonical encodings of an
/// address array, and returns the addresses the bytes encode.
pub fn decode_record(bytes: &Vec<u8>) -> (r: Result<Vec<WireAddr>, DecodeError>)
    ensures
        (r is Ok) == (dec_record(bytes@) is Some),
        r matches Ok(v) ==> dec_record(bytes@) == Some(addrs_view(v@)),
        r matches Err(e) ==> e == DecodeError::Malformed,
{
    match decode_addr_array(bytes, 0) {
        Some((items, pos)) => {
            if pos == bytes.len() {
                Ok(items)
            } else {
                Err(DecodeError::Malformed)
            }
        },
        None => Err(DecodeError::Malformed),
    }
}

/// Decode a request. Succeeds exactly on canonical encodings of
/// `{"peer": <peer-bytes>}`, and returns the peer the bytes encode.
pub fn decode_request(bytes: &Vec<u8>) -> (r: Result<Request, DecodeError>)
    ensures
        (r is Ok) == (dec_request(bytes@) is Some),
        r matches Ok(v) ==> dec_request(bytes@) == Some(v.peer@),
        r matches Err(e) ==> e == DecodeError::Malformed,
{
    let key: Vec<u8> = key_peer_vec();
    match parse_map1_at(bytes, 0) {
        Some(p0) => match parse_key_at(bytes, p0, &key) {
            Some(p1) => match parse_bytes_at(bytes, p1) {
                Some((peer, p2)) => {
                    if p2 == bytes.len() {
                        Ok(Request { peer: PeerId { bytes: peer } })
                    } else {
                        Err(DecodeError::Malformed)
                    }
                },
                None => Err(DecodeError::Malformed),
            },
            None => Err(DecodeError::Malformed),
        },
        None => Err(DecodeError::Malformed),
    }
}

fn key_peer_vec() -> (r: Vec<u8>)
    ensures
        r@ == key_peer(),
{
    let mut v: Vec<u8> = Vec::new();
    v.push(112u8);
    v.push(101u8);
    v.push(101u8);
    v.push(114u8);
    proof {
        assert(v@ =~= key_peer());
    }
    v
}

fn key_found_vec() -> (r: Vec<u8>)
    ensures
        r@ == key_found(),
{
    let mut v: Vec<u8> = Vec::new();
    v.push(70u8);
    v.push(111u8);
    v.push(117u8);
    v.push(110u8);
    v.push(100u8);
    proof {
        assert(v@ =~= key_found());
    }
    v
}

fn key_maddrs_vec() -> (r: Vec<u8>)
    ensures
        r@ == key_maddrs(),
{
    let mut v: Vec<u8> = Vec::new();
    v.push(109u8);
    v.push(97u8);
    v.push(100u8);
    v.push(100u8);
    v.push(114u8);
    v.push(115u8);
    proof {
        assert(v@ =~= key_maddrs());
    }
    v
}

fn key_notfound_vec() -> (r: Vec<u8>)
    ensures
        r@ == key_notfound(),
{
    let mut v: Vec<u8> = Vec::new();
    v.push(78u8);
    v.push(111u8);
    v.push(116u8);
    v.push(70u8);
    v.push(111u8);
    v.push(117u8);
    v.push(110u8);
    v.push(100u8);
    proof {
        assert(v@ =~= key_notfound());
    }
    v
}

/// Decode a response. Succeeds exactly on canonical encodings of the two
/// tagged variants, and returns the variant the bytes encode.
pub fn decode_response(bytes: &Vec<u8>) -> (r: Result<Response, DecodeError>)
    ensures
        (r is Ok) == (dec_response(bytes@) is Some),
        r matches Ok(v) ==> dec_response(bytes@) == Some(v.view()),
        r matches Err(e) ==> e == DecodeError::Malformed,
{
    match parse_map1_at(bytes, 0) {
        Some(p0) => {
            let found_key = key_found_vec();
            match parse_key_at(bytes, p0, &found_key) {
                Some(p1) => {
                    let maddrs_key = key_maddrs_vec();
                    match parse_map1_at(bytes, p1) {
                        Some(p2) => match parse_key_at(bytes, p2, &maddrs_key) {
                            Some(p3) => match decode_addr_array(bytes, p3) {
                                Some((maddrs, p5)) => {
                                    if p5 == bytes.len() {
                                        Ok(Response::Found { maddrs })
                                    } else {
                                        Err(DecodeError::Malformed)
                                    }
                                },
                                None => Err(DecodeError::Malformed),
                            },
                            None => Err(DecodeError::Malformed),
                        },
                        None => Err(DecodeError::Malformed),
                    }
                },
                None => {
                    let notfound_key = key_notfound_vec();
                    match parse_key_at(bytes, p0, &notfound_key) {
                        Some(p1) => {
                            let peer_key = key_peer_vec();
                            match parse_map1_at(bytes, p1) {
                                Some(p2) => match parse_key_at(bytes, p2, &peer_key) {
                                    Some(p3) => match parse_bytes_at(bytes, p3) {
                                        Some((peer, p4)) => {
                                            if p4 == bytes.len() {
                                                Ok(
                                                    Response::NotFound {
                                                        peer: PeerId { bytes: peer },
                                                    },
                                                )
                                            } else {
                                                Err(DecodeError::Malformed)
                                            }
                                        },
                                        None => Err(DecodeError::Malformed),
                                    },
                                    None => Err(DecodeError::Malformed),
                                },
                                None => Err(DecodeError::Malformed),
                            }
                        },
                        None => Err(DecodeError::Malformed),
                    }
                },
            }
        },
        None => Err(DecodeError::Malformed),
    }
}

/// Parse an address array (head plus items) at `pos`.
fn decode_addr_array(bytes: &Vec<u8>, at: usize) -> (r: Option<(Vec<WireAddr>, usize)>)
    ensures
        r is None ==> (match parse_head(bytes@, at as int) {
            Some((major, cnt, p)) => major != 4 || parse_addrs(bytes@, p, cnt) is None,
            None => true,
        }),
        r matches Some(t) ==> (match parse_head(bytes@, at as int) {
            Some((major, cnt, p)) => major == 4 && parse_addrs(bytes@, p, cnt) == Some(
                (addrs_view(t.0@), t.1 as int),
            ) && t.1 <= bytes@.len(),
            None => false,
        }),
{
    match parse_head_at(bytes, at) {
        Some((major, cnt, p)) => {
            if major != 4 {
                return None;
            }
            let ghost s = bytes@;
            let mut items: Vec<WireAddr> = Vec::new();
            let mut pos: usize = p;
            let mut i: u64 = 0;
            while i < cnt
                invariant
                    i <= cnt,
                    pos <= s.len(),
                    s == bytes@,
                    parse_head(s, at as int) == Some((4u8, cnt as nat, p as int)),
                    parse_addrs(s, p as int, cnt as nat) == (match parse_addrs(
                        s,
                        pos as int,
                        (cnt - i) as nat,
                    ) {
                        Some(t) => Some((addrs_view(items@) + t.0, t.1)),
                        None => None,
                    }),
                decreases cnt - i,
            {
                let ghost items_pre = items@;
                let ghost pos_pre = pos as int;
                match parse_bytes_at(bytes, pos) {
                    Some((b, p2)) => {
                        let ghost bview = b@;
                        items.push(WireAddr { bytes: b });
                        pos = p2;
                        i = i + 1;
                        proof {
                            assert(addrs_view(items@) =~= addrs_view(items_pre) + seq![bview]);
                            let tail = parse_addrs(s, pos as int, (cnt - i) as nat);
                            if tail is Some {
                                let t = tail.unwrap();
                                assert(parse_addrs(s, pos_pre, (cnt - i + 1) as nat) == Some((
                                    seq![bview] + t.0,
                                    t.1,
                                )));
                                assert(addrs_view(items_pre) + (seq![bview] + t.0) =~= addrs_view(
                                    items@,
                                ) + t.0);
                            } else {
                                assert(parse_addrs(s, pos_pre, (cnt - i + 1) as nat) is None);
                            }
                        }
                    },
                    None => {
                        proof {
                            assert(parse_addrs(s, pos as int, (cnt - i) as nat) is None);
                        }
                        return None;
                    },
                }
            }
            proof {
                assert(parse_addrs(s, pos as int, 0) == Some((
                    Seq::<Seq<u8>>::empty(),
                    pos as int,
                )));
                assert(addrs_view(items@) + Seq::<Seq<u8>>::empty() =~= addrs_view(items@));
            }
            Some((items, pos))
        },
        None => None,
    }
}


/// A subrange equal to a concatenation splits into two subranges.
proof fn lemma_subrange_split2(s: Seq<u8>, pos: int, x: Seq<u8>, y: Seq<u8>)
    requires
        0 <= pos,
        pos + x.len() + y.len() <= s.len(),
        s.subrange(pos, pos + x.len() + y.len()) == x + y,
    ensures
        s.subrange(pos, pos + x.len()) == x,
        s.subrange(pos + x.len(), pos + x.len() + y.len()) == y,
{
    assert forall|k: int| 0 <= k < x.len() implies s.subrange(pos, pos + x.len())[k] == x[k] by {
        assert(s.subrange(pos, pos + x.len() + y.len())[k] == (x + y)[k]);
    }
    assert(s.subrange(pos, pos + x.len()) =~= x);
    assert forall|k: int|
        0 <= k < y.len() implies s.subrange(pos + x.len(), pos + x.len() + y.len())[k] == y[k] by {
        assert(s.subrange(pos, pos + x.len() + y.len())[x.len() + k] == (x + y)[x.len() + k]);
        assert(s.subrange(pos, pos + x.len() + y.len())[x.len() + k] == s[pos + x.len() + k]);
        assert(s.subrange(pos + x.len(), pos + x.len() + y.len())[k] == s[pos + x.len() + k]);
        assert((x + y)[x.len() + k] == y[k]);
    }
    assert(s.subrange(pos + x.len(), pos + x.len() + y.len()) =~= y);
}

/// Parsing a head that was written by `head_spec` recovers the major type,
/// the argument, and the position after the head.
proof fn lemma_head_parse(s: Seq<u8>, pos: int, major: u8, n: nat)
    requires
        0 < major < 8,
        n < 0x1_0000_0000_0000_0000,
        0 <= pos,
        pos + head_spec(major, n).len() <= s.len(),
        s.subrange(pos, pos + head_spec(major, n).len()) == head_spec(major, n),
    ensures
        parse_head(s, pos) == Some((major, n, pos + head_spec(major, n).len())),
{
    let h = head_spec(major, n);
    let hl = h.len() as int;
    assert forall|k: int| 0 <= k < hl implies s[pos + k] == h[k] by {
        assert(s.subrange(pos, pos + hl)[k] == h[k]);
    }
    assert(s[pos + 0] == h[0]);
    if n < 24 {
        assert(s[pos] == (32 * major + n) as u8);
        let b = s[pos] as int;
        assert(b == 32 * major + n);
        assert(b / 32 == major && b % 32 == n) by (nonlinear_arith)
            requires
                b == 32 * major + n,
                0 <= n < 24,
                0 < major < 8,
        ;
    } else if n < 256 {
        assert(s[pos] == (32 * major + 24) as u8);
        let b = s[pos] as int;
        assert(b == 32 * major + 24);
        assert(b / 32 == major && b % 32 == 24) by (nonlinear_arith)
            requires
                b == 32 * major + 24,
                0 < major < 8,
        ;
        assert(s[pos + 1] == n as u8);
        assert(s[pos + 1] as nat == n);
    } else if n < 65536 {
        let b = s[pos] as int;
        assert(b == 32 * major + 25);
        assert(b / 32 == major && b % 32 == 25) by (nonlinear_arith)
            requires
                b == 32 * major + 25,
                0 < major < 8,
        ;
        assert(s[pos + 1] == (n / 256) as u8);
        assert(s[pos + 2] == (n % 256) as u8);
        assert(n / 256 < 256);
        assert((s[pos + 1] as int) * 256 + (s[pos + 2] as int) == n);
    } else if n < 4294967296 {
        let b = s[pos] as int;
        assert(b == 32 * major + 26);
        assert(b / 32 == major && b % 32 == 26) by (nonlinear_arith)
            requires
                b == 32 * major + 26,
                0 < major < 8,
        ;
        assert(n / 16777216 < 256);
        assert((n / 65536) / 256 == n / 16777216 && (n / 256) / 256 == n / 65536)
            by (nonlinear_arith);
        assert((n / 16777216) * 16777216 + ((n / 65536) % 256) * 65536 + ((n / 256) % 256) * 256 + (
        n % 256) == n) by (nonlinear_arith);
        assert((s[pos + 1] as int) * 16777216 + (s[pos + 2] as int) * 65536 + (s[pos + 3] as int)
            * 256 + (s[pos + 4] as int) == n);
    } else {
        let b = s[pos] as int;
        assert(b == 32 * major + 27);
        assert(b / 32 == major && b % 32 == 27) by (nonlinear_arith)
            requires
                b == 32 * major + 27,
                0 < major < 8,
        ;
        assert(n / 0x100000000000000 < 256);
        assert((n / 0x1000000000000) / 256 == n / 0x100000000000000 && (n / 0x10000000000) / 256
            == n / 0x1000000000000 && (n / 0x100000000) / 256 == n / 0x10000000000 && (n
            / 0x1000000) / 256 == n / 0x100000000 && (n / 0x10000) / 256 == n / 0x1000000 && (n
            / 256) / 256 == n / 0x10000) by (nonlinear_arith);
        let d1 = n / 256;
        let d2 = n / 0x10000;
        let d3 = n / 0x1000000;
        let d4 = n / 0x100000000;
        let d5 = n / 0x10000000000;
        let d6 = n / 0x1000000000000;
        let d7 = n / 0x100000000000000;
        assert(n == 256 * d1 + n % 256);
        assert(d1 == 256 * d2 + d1 % 256);
        assert(d2 == 256 * d3 + d2 % 256);
        assert(d3 == 256 * d4 + d3 % 256);
        assert(d4 == 256 * d5 + d4 % 256);
        assert(d5 == 256 * d6 + d5 % 256);
        assert(d6 == 256 * d7 + d6 % 256);
        assert(d7 * 0x100000000000000 + (d6 % 256) * 0x1000000000000 + (d5 % 256) * 0x10000000000
            + (d4 % 256) * 0x100000000 + (d3 % 256) * 0x1000000 + (d2 % 256) * 0x10000 + (d1 % 256)
            * 256 + (n % 256) == n);
        assert((s[pos + 1] as int) * 0x100000000000000 + (s[pos + 2] as int) * 0x1000000000000 + (
        s[pos + 3] as int) * 0x10000000000 + (s[pos + 4] as int) * 0x100000000 + (s[pos
            + 5] as int) * 0x1000000 + (s[pos + 6] as int) * 0x10000 + (s[pos + 7] as int) * 256 + (
        s[pos + 8] as int) == n);
    }
}

/// Parsing a byte string that was written by `enc_bytes` recovers it.
proof fn lemma_bytes_parse(s: Seq<u8>, pos: int, b: Seq<u8>)
    requires
        b.len() < 0x1_0000_0000_0000_0000,
        0 <= pos,
        pos + enc_bytes(b).len() <= s.len(),
        s.subrange(pos, pos + enc_bytes(b).len()) == enc_bytes(b),
    ensures
        parse_bytes_spec(s, pos) == Some((b, pos + enc_bytes(b).len())),
{
    let h = head_spec(2, b.len());
    lemma_subrange_split2(s, pos, h, b);
    lemma_head_parse(s, pos, 2, b.len());
}

/// Parsing a one-entry map head that was written by `head_spec(5, 1)`.
proof fn lemma_map1_parse(s: Seq<u8>, pos: int)
    requires
        0 <= pos,
        pos + 1 <= s.len(),
        s.subrange(pos, pos + 1) == head_spec(5, 1),
    ensures
        parse_map1(s, pos) == Some(pos + 1),
{
    lemma_head_parse(s, pos, 5, 1);
}

/// Parsing a text key that was written by `enc_text(key)` recovers the
/// position after it.
proof fn lemma_key_parse(s: Seq<u8>, pos: int, key: Seq<u8>)
    requires
        key.len() < 24,
        0 <= pos,
        pos + enc_text(key).len() <= s.len(),
        s.subrange(pos, pos + enc_text(key).len()) == enc_text(key),
    ensures
        parse_key(s, pos, key) == Some(pos + enc_text(key).len()),
{
    let h = head_spec(3, key.len());
    lemma_subrange_split2(s, pos, h, key);
    lemma_head_parse(s, pos, 3, key.len());
}

/// Parsing the items written by `enc_addr_items` recovers them.
proof fn lemma_addrs_parse(s: Seq<u8>, pos: int, items: Seq<Seq<u8>>)
    requires
        forall|k: int| 0 <= k < items.len() ==> (#[trigger] items[k]).len() < 0x1_0000_0000_0000_0000,
        0 <= pos,
        pos + enc_addr_items(items).len() <= s.len(),
        s.subrange(pos, pos + enc_addr_items(items).len()) == enc_addr_items(items),
    ensures
        parse_addrs(s, pos, items.len()) == Some((items, pos + enc_addr_items(items).len())),
    decreases items.len(),
{
    if items.len() == 0 {
        assert(items =~= Seq::<Seq<u8>>::empty());
    } else {
        let first = enc_bytes(items[0]);
        let rest = enc_addr_items(items.drop_first());
        lemma_subrange_split2(s, pos, first, rest);
        lemma_bytes_parse(s, pos, items[0]);
        lemma_addrs_parse(s, pos + first.len(), items.drop_first());
        assert(seq![items[0]] + items.drop_first() =~= items);
    }
}

/// Law: decoding the canonical encoding of a stored record yields the
/// same address list.
pub proof fn lemma_record_roundtrip(items: Seq<Seq<u8>>)
    requires
        items.len() < 0x1_0000_0000_0000_0000,
        forall|k: int| 0 <= k < items.len() ==> (#[trigger] items[k]).len() < 0x1_0000_0000_0000_0000,
    ensures
        dec_record(enc_record(items)) == Some(items),
{
    let s = enc_record(items);
    let h = head_spec(4, items.len());
    let body = enc_addr_items(items);
    crate::bytes::lemma_subrange_whole(s);
    lemma_subrange_split2(s, 0, h, body);
    lemma_head_parse(s, 0, 4, items.len());
    lemma_addrs_parse(s, h.len() as int, items);
}

/// Law: decoding the canonical encoding of a request yields the same peer.
pub proof fn lemma_request_roundtrip(peer: Seq<u8>)
    requires
        peer.len() < 0x1_0000_0000_0000_0000,
    ensures
        dec_request(enc_request(peer)) == Some(peer),
{
    let s = enc_request(peer);
    let a = head_spec(5, 1);
    let b = enc_text(key_peer());
    let c = enc_bytes(peer);
    assert(s =~= a + (b + c));
    crate::bytes::lemma_subrange_whole(s);
    lemma_subrange_split2(s, 0, a, b + c);
    lemma_subrange_split2(s, a.len() as int, b, c);
    lemma_map1_parse(s, 0);
    lemma_key_parse(s, a.len() as int, key_peer());
    lemma_bytes_parse(s, a.len() + b.len() as int, peer);
}

/// Law: decoding the canonical encoding of a response yields the same
/// variant with the same fields.
#[verifier::rlimit(100)]
#[verifier::spinoff_prover]
proof fn lemma_response_roundtrip_found(items: Seq<Seq<u8>>)
    requires
        items.len() < 0x1_0000_0000_0000_0000,
        forall|k: int| 0 <= k < items.len() ==> (#[trigger] items[k]).len() < 0x1_0000_0000_0000_0000,
    ensures
        dec_response(enc_response(RespView::Found(items))) == Some(RespView::Found(items)),
{
    let s = enc_response(RespView::Found(items));
    crate::bytes::lemma_subrange_whole(s);
    let a = head_spec(5, 1);
    let b = enc_text(key_found());
    let c = head_spec(5, 1);
    let d = enc_text(key_maddrs());
    let e = head_spec(4, items.len());
    let f = enc_addr_items(items);
    let p0 = a.len() as int;
    let p1 = p0 + b.len();
    let p2 = p1 + c.len();
    let p3 = p2 + d.len();
    let p4 = p3 + e.len();
    assert(s == (((a + b + c + d) + e) + f));
    lemma_subrange_split2(s, 0, (a + b + c + d) + e, f);
    lemma_subrange_split2(s, 0, a + b + c + d, e);
    lemma_subrange_split2(s, 0, a + b + c, d);
    lemma_subrange_split2(s, 0, a + b, c);
    lemma_subrange_split2(s, 0, a, b);
    lemma_map1_parse(s, 0);
    lemma_key_parse(s, p0, key_found());
    lemma_map1_parse(s, p1);
    lemma_key_parse(s, p2, key_maddrs());
    lemma_head_parse(s, p3, 4, items.len());
    lemma_addrs_parse(s, p4, items);
}

#[verifier::rlimit(100)]
#[verifier::spinoff_prover]
proof fn lemma_response_roundtrip_notfound(peer: Seq<u8>)
    requires
        peer.len() < 0x1_0000_0000_0000_0000,
    ensures
        dec_response(enc_response(RespView::NotFound(peer))) == Some(RespView::NotFound(peer)),
{
    let s = enc_response(RespView::NotFound(peer));
    crate::bytes::lemma_subrange_whole(s);
    let a = head_spec(5, 1);
    let b = enc_text(key_notfound());
    let c = head_spec(5, 1);
    let d = enc_text(key_peer());
    let e = enc_bytes(peer);
    let p0 = a.len() as int;
    let p1 = p0 + b.len();
    let p2 = p1 + c.len();
    let p3 = p2 + d.len();
    assert(s == ((a + b + c + d) + e));
    lemma_subrange_split2(s, 0, a + b + c + d, e);
    lemma_subrange_split2(s, 0, a + b + c, d);
    lemma_subrange_split2(s, 0, a + b, c);
    lemma_subrange_split2(s, 0, a, b);
    lemma_map1_parse(s, 0);
    lemma_key_parse(s, p0, key_notfound());
    lemma_map1_parse(s, p1);
    lemma_key_parse(s, p2, key_peer());
    lemma_bytes_parse(s, p3, peer);
    // A NotFound encoding does not begin with the Found tag: its key
    // length differs, so the Found branch of the decoder is not taken.
    assert(parse_key(s, p0, key_found()) is None);
}

/// Law: decoding the canonical encoding of a response yields the same
/// variant with the same fields.
pub proof fn lemma_response_roundtrip(v: RespView)
    requires
        (v matches RespView::Found(items) ==> items.len() < 0x1_0000_0000_0000_0000 && (forall|
            k: int,
        |
            0 <= k < items.len() ==> (#[trigger] items[k]).len() < 0x1_0000_0000_0000_0000)),
        (v matches RespView::NotFound(peer) ==> peer.len() < 0x1_0000_0000_0000_0000),
    ensures
        dec_response(enc_response(v)) == Some(v),
{
    match v {
        RespView::Found(items) => {
            lemma_response_roundtrip_found(items);
        },
        RespView::NotFound(peer) => {
            lemma_response_roundtrip_notfound(peer);
        },
    }
}

} // verus!
