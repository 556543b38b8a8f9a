//! Piece-commitment (CommP) computation and peer-resolution logic.
//!
//! The crate has two independent cores:
//!
//! - the CommP pipeline: zero-padding of the input bytes, Fr32 re-framing
//!   (254 payload bits extended to 256 bits with two zero high bits),
//!   SHA-256 with the top two bits of the last byte cleared, balanced binary
//!   Merkle aggregation, and CIDv1 text encoding;
//! - peer resolution: the CBOR wire format for the resolve-peer-id
//!   request/response protocol and for stored address records, the edge
//!   resolver's event loop decisions, and the indexing server's in-flight
//!   query bookkeeping and HTTP reply selection.

pub mod addr;
pub mod bytes;
pub mod cid;
pub mod commp;
pub mod fr32_reader;
pub mod hasher;
pub mod http;
pub mod piece;
pub mod resolver;
pub mod server;
pub mod text;
pub mod wire;
pub mod zero_reader;
