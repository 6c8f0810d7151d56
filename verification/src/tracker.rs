//! The tracker exchange, response side: the bencoded reply dictionary
//! `{interval, peers}` and the compact peer list it carries.
//!
//! The HTTP round trip itself happens outside this crate; these functions
//! work on the reply bytes it produced.

use vstd::prelude::*;

use crate::bencode;
use crate::bencode::BValue;
use crate::bencode::BencodeValue;
use crate::errors::DecodeError;
use crate::errors::MetainfoError;
use crate::metainfo::dict_get;

verus! {

/// One peer's address from a compact tracker reply: four IPv4 bytes in
/// network order and a port.
#[derive(Clone, Copy, Debug, PartialEq, Eq)]
pub struct PeerAddr {
    /// The IPv4 address bytes, network order.
    pub ip: [u8; 4],
    /// The TCP port.
    pub port: u16,
}

/// A parsed tracker reply: the poll interval and the raw compact peer
/// bytes, six per peer.
#[derive(Debug, PartialEq, Eq)]
pub struct TrackerResponse {
    /// Seconds the tracker asks clients to wait between requests.
    pub interval: i64,
    /// The compact peer list: 6 bytes per peer.
    pub peers: Vec<u8>,
}

/// The bytes of `interval`.
pub open spec fn key_interval() -> Seq<u8> {
    seq![105u8, 110u8, 116u8, 101u8, 114u8, 118u8, 97u8, 108u8]
}

/// The bytes of `peers`.
pub open spec fn key_peers() -> Seq<u8> {
    seq![112u8, 101u8, 101u8, 114u8, 115u8]
}

/// The two raw fields a well-shaped tracker reply decodes to.
pub open spec fn spec_tracker_fields(s: Seq<u8>) -> Option<(int, Seq<u8>)> {
    match bencode::spec_decode(s) {
        Some(BValue::Dict(top)) => match (dict_get(top, key_interval()), dict_get(
            top,
            key_peers(),
        )) {
            (Some(BValue::Int(i)), Some(BValue::Bytes(p))) => Some((i, p)),
            _ => None,
        },
        _ => None,
    }
}

/// The port at entry `i` of a compact peer list: two big-endian bytes.
pub open spec fn spec_peer_port(p: Seq<u8>, i: int) -> u16 {
    (p[6 * i + 4] as u16) << 8 | (p[6 * i + 5] as u16)
}

impl TrackerResponse {
    /// Parses a tracker reply: a bencoded dictionary whose `interval` is
    /// an integer and whose `peers` is a byte string. Fails exactly when
    /// the bytes are not such a document.
    pub fn from_bytes(bytes: &[u8]) -> (r: Result<TrackerResponse, MetainfoError>)
        ensures
            r matches Ok(t) ==> spec_tracker_fields(bytes@) == Some((t.interval as int, t.peers@)),
            r is Err <==> spec_tracker_fields(bytes@) is None,
    {
        let top = match bencode::decode(bytes) {
            Ok(v) => v,
            Err(e) => {
                return Err(MetainfoError::Decode(e));
            },
        };
        let entries = match &top {
            BencodeValue::Dictionary(d) => d,
            _ => {
                return Err(MetainfoError::Structure);
            },
        };
        let interval = match crate::metainfo::dict_find(
            entries,
            vec![105u8, 110, 116, 101, 114, 118, 97, 108].as_slice(),
        ) {
            Some(BencodeValue::Integer(i)) => *i,
            _ => {
                return Err(MetainfoError::Structure);
            },
        };
        let peers_vec = match crate::metainfo::dict_find(
            entries,
            vec![112u8, 101, 101, 114, 115].as_slice(),
        ) {
            Some(BencodeValue::ByteString(b)) => b,
            _ => {
                return Err(MetainfoError::Structure);
            },
        };
        let mut peers: Vec<u8> = Vec::new();
        crate::bencode::push_bytes(&mut peers, peers_vec.as_slice());
        Ok(TrackerResponse { interval, peers })
    }
}

/// Splits a compact `peers` byte string into addresses: each 6-byte entry
/// is four IPv4 address bytes in network order followed by a big-endian
/// port. Fails, with a truncation error, exactly when the length is not a
/// multiple of six.
pub fn parse_compact_peers(peers: &[u8]) -> (r: Result<Vec<PeerAddr>, DecodeError>)
    ensures
        r is Ok <==> peers@.len() % 6 == 0,
        r is Err ==> r == Err::<Vec<PeerAddr>, DecodeError>(DecodeError::Truncated),
        r matches Ok(v) ==> v@.len() == peers@.len() / 6 && forall|i: int|
            0 <= i < v@.len() ==> (#[trigger] v@[i]).ip@ == peers@.subrange(6 * i, 6 * i + 4)
                && v@[i].port == spec_peer_port(peers@, i),
{
    let n = peers.len();
    if n % 6 != 0 {
        return Err(DecodeError::Truncated);
    }
    let count = n / 6;
    let mut out: Vec<PeerAddr> = Vec::new();
    let mut i: usize = 0;
    while i < count
        invariant
            0 <= i <= count,
            count == peers@.len() / 6,
            peers@.len() % 6 == 0,
            peers@.len() <= usize::MAX,
            out@.len() == i,
            forall|m: int|
                0 <= m < i ==> (#[trigger] out@[m]).ip@ == peers@.subrange(6 * m, 6 * m + 4)
                    && out@[m].port == spec_peer_port(peers@, m),
        decreases count - i,
    {
        proof {
            assert(6 * (i as int) + 6 <= peers@.len()) by {
                assert(peers@.len() as int / 6 * 6 == peers@.len());
            }
        }
        let base = 6 * i;
        let mut ip: [u8; 4] = vstd::array::array_fill_for_copy_types(0u8);
        ip[0] = peers[base];
        ip[1] = peers[base + 1];
        ip[2] = peers[base + 2];
        ip[3] = peers[base + 3];
        let port: u16 = (peers[base + 4] as u16) << 8 | (peers[base + 5] as u16);
        proof {
            assert(ip@ =~= peers@.subrange(6 * (i as int), 6 * (i as int) + 4));
        }
        out.push(PeerAddr { ip, port });
        i += 1;
    }
    Ok(out)
}

} // verus!
