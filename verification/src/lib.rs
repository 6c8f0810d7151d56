//! A verified core for a BitTorrent-style peer-to-peer file-transfer client.
//!
//! The crate covers the canonical bencode serialization format used for
//! torrent metadata and tracker replies, the typed metainfo model with its
//! SHA-1 info hash, the fixed 68-byte peer handshake, the length-prefixed
//! peer wire message framing, and the piece-acquisition engine that requests,
//! reassembles and verifies file pieces over a single peer connection.
//!
//! All transport I/O (tracker HTTP round trips, TCP reads and writes) lives
//! outside this crate; the functions here work on plain byte buffers and
//! values, with their behaviour stated in `requires`/`ensures` contracts.

pub mod bencode;
pub mod digest;
pub mod engine;
pub mod errors;
pub mod handshake;
pub mod message;
pub mod metainfo;
pub mod tracker;
