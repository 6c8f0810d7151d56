//! The peer wire message framer: length-prefixed messages exchanged after
//! the handshake.
//!
//! A frame is a 4-byte big-endian length field followed by that many bytes;
//! a zero length is a keep-alive with no id and no payload, otherwise the
//! first byte is the message id (0 through 8) and the rest the payload.

use vstd::prelude::*;

use crate::errors::ProtocolError;

verus! {

/// The big-endian bytes of a 32-bit value, most significant first.
pub open spec fn spec_u32_to_be(x: u32) -> Seq<u8> {
    seq![
        ((x >> 24) & 0xff) as u8,
        ((x >> 16) & 0xff) as u8,
        ((x >> 8) & 0xff) as u8,
        (x & 0xff) as u8,
    ]
}

/// The 32-bit value read from four big-endian bytes.
pub open spec fn spec_u32_from_be(s: Seq<u8>) -> u32
    recommends
        s.len() == 4,
{
    (s[0] as u32) << 24 | (s[1] as u32) << 16 | (s[2] as u32) << 8 | (s[3] as u32)
}

/// The two big-endian conversions invert each other.
pub proof fn lemma_u32_be_round_trip(x: u32)
    ensures
        spec_u32_from_be(spec_u32_to_be(x)) == x,
{
    let s = spec_u32_to_be(x);
    let b0 = ((x >> 24) & 0xff) as u8;
    let b1 = ((x >> 16) & 0xff) as u8;
    let b2 = ((x >> 8) & 0xff) as u8;
    let b3 = (x & 0xff) as u8;
    assert((b0 as u32) << 24 | (b1 as u32) << 16 | (b2 as u32) << 8 | (b3 as u32) == x) by {
        assert(b0 == ((x >> 24) & 0xff) as u8 && b1 == ((x >> 16) & 0xff) as u8 && b2 == ((x >> 8)
            & 0xff) as u8 && b3 == (x & 0xff) as u8 ==> (b0 as u32) << 24 | (b1 as u32) << 16 | (
        b2 as u32) << 8 | (b3 as u32) == x) by (bit_vector);
    }
}

/// Appends the four big-endian bytes of `x`.
pub fn push_u32_be(out: &mut Vec<u8>, x: u32)
    ensures
        final(out)@ == old(out)@ + spec_u32_to_be(x),
{
    proof {
        assert((x >> 24) & 0xff < 256 && (x >> 16) & 0xff < 256 && (x >> 8) & 0xff < 256 && x & 0xff
            < 256) by (bit_vector);
    }
    out.push(((x >> 24) & 0xff) as u8);
    out.push(((x >> 16) & 0xff) as u8);
    out.push(((x >> 8) & 0xff) as u8);
    out.push((x & 0xff) as u8);
    proof {
        assert(final(out)@ =~= old(out)@ + spec_u32_to_be(x));
    }
}

/// Reads the big-endian 32-bit value at `pos`.
pub fn u32_from_be_at(s: &[u8], pos: usize) -> (r: u32)
    requires
        pos + 4 <= s@.len(),
    ensures
        r == spec_u32_from_be(s@.subrange(pos as int, pos as int + 4)),
{
    let r = (s[pos] as u32) << 24 | (s[pos + 1] as u32) << 16 | (s[pos + 2] as u32) << 8 | (s[pos
        + 3] as u32);
    proof {
        let t = s@.subrange(pos as int, pos as int + 4);
        assert(t[0] == s@[pos as int] && t[1] == s@[pos as int + 1] && t[2] == s@[pos as int + 2]
            && t[3] == s@[pos as int + 3]);
    }
    r
}

/// The identity of a peer message, one for each wire id 0 through 8.
#[derive(Clone, Copy, Debug, PartialEq, Eq, Structural)]
pub enum MessageType {
    Choke,
    Unchoke,
    Interested,
    NotInterested,
    Have,
    Bitfield,
    Request,
    Piece,
    Cancel,
}

/// The wire id of a message type.
pub open spec fn spec_id(t: MessageType) -> u8 {
    match t {
        MessageType::Choke => 0,
        MessageType::Unchoke => 1,
        MessageType::Interested => 2,
        MessageType::NotInterested => 3,
        MessageType::Have => 4,
        MessageType::Bitfield => 5,
        MessageType::Request => 6,
        MessageType::Piece => 7,
        MessageType::Cancel => 8,
    }
}

/// The message type of a wire id, defined exactly for 0 through 8.
pub open spec fn spec_msg_type(value: u8) -> Option<MessageType> {
    if value == 0 {
        Some(MessageType::Choke)
    } else if value == 1 {
        Some(MessageType::Unchoke)
    } else if value == 2 {
        Some(MessageType::Interested)
    } else if value == 3 {
        Some(MessageType::NotInterested)
    } else if value == 4 {
        Some(MessageType::Have)
    } else if value == 5 {
        Some(MessageType::Bitfield)
    } else if value == 6 {
        Some(MessageType::Request)
    } else if value == 7 {
        Some(MessageType::Piece)
    } else if value == 8 {
        Some(MessageType::Cancel)
    } else {
        None
    }
}

impl MessageType {
    /// The wire id this type is sent as.
    pub fn id(&self) -> (r: u8)
        ensures
            r == spec_id(*self),
    {
        match self {
            MessageType::Choke => 0,
            MessageType::Unchoke => 1,
            MessageType::Interested => 2,
            MessageType::NotInterested => 3,
            MessageType::Have => 4,
            MessageType::Bitfield => 5,
            MessageType::Request => 6,
            MessageType::Piece => 7,
            MessageType::Cancel => 8,
        }
    }

    /// The message type of a wire id: defined for ids 0 through 8 and an
    /// `UnknownMessageId` error for every other value, never a panic.
    pub fn from_u8(value: u8) -> (r: Result<MessageType, ProtocolError>)
        ensures
            r matches Ok(t) ==> spec_msg_type(value) == Some(t),
            r is Err <==> spec_msg_type(value) is None,
            r is Err ==> r == Err::<MessageType, ProtocolError>(ProtocolError::UnknownMessageId),
    {
        match value {
            0 => Ok(MessageType::Choke),
            1 => Ok(MessageType::Unchoke),
            2 => Ok(MessageType::Interested),
            3 => Ok(MessageType::NotInterested),
            4 => Ok(MessageType::Have),
            5 => Ok(MessageType::Bitfield),
            6 => Ok(MessageType::Request),
            7 => Ok(MessageType::Piece),
            8 => Ok(MessageType::Cancel),
            _ => Err(ProtocolError::UnknownMessageId),
        }
    }
}

/// One peer message: its id and its payload bytes. The payload's shape
/// depends on the id: empty for Choke, Unchoke, Interested and
/// NotInterested; a 4-byte piece index for Have; the bit-per-piece map for
/// Bitfield; index, begin and length for Request and Cancel; index, begin
/// and block bytes for Piece.
#[derive(Debug, PartialEq, Eq)]
pub struct Message {
    /// Which message this is.
    pub id: MessageType,
    /// The payload bytes after the id byte.
    pub payload: Vec<u8>,
}

/// One incoming frame: either a keep-alive, which carries nothing, or a
/// message. A zero-length frame is a keep-alive and must never reach id
/// dispatch.
#[derive(Debug, PartialEq, Eq)]
pub enum Frame {
    /// A zero-length frame.
    KeepAlive,
    /// A message frame.
    Msg(Message),
}

/// The mathematical shape of a frame.
pub enum GFrame {
    KeepAlive,
    Msg(MessageType, Seq<u8>),
}

impl View for Frame {
    type V = GFrame;

    open spec fn view(&self) -> GFrame {
        match self {
            Frame::KeepAlive => GFrame::KeepAlive,
            Frame::Msg(m) => GFrame::Msg(m.id, m.payload@),
        }
    }
}

/// The wire bytes of a message: big-endian length `1 + payload length`,
/// the id byte, then the payload.
pub open spec fn spec_serialize_msg(t: MessageType, p: Seq<u8>) -> Seq<u8> {
    spec_u32_to_be((p.len() + 1) as u32) + seq![spec_id(t)] + p
}

/// The length field announced by a frame's first four bytes.
pub open spec fn spec_frame_len(s: Seq<u8>) -> int {
    spec_u32_from_be(s.take(4)) as int
}

/// A byte buffer holding exactly one whole frame: the four length bytes
/// and as many bytes as they announce.
pub open spec fn well_framed(s: Seq<u8>) -> bool {
    s.len() >= 4 && s.len() == 4 + spec_frame_len(s)
}

/// The frame a whole frame buffer deserializes to: a keep-alive for a zero
/// length, a message for a known id, nothing for an unknown id.
pub open spec fn spec_deserialize(s: Seq<u8>) -> Option<GFrame> {
    if spec_frame_len(s) == 0 {
        Some(GFrame::KeepAlive)
    } else {
        match spec_msg_type(s[4]) {
            Some(t) => Some(GFrame::Msg(t, s.skip(5))),
            None => None,
        }
    }
}

impl Message {
    /// The wire bytes of this message: a 4-byte big-endian length field
    /// equal to one more than the payload length, the id byte, then the
    /// payload.
    pub fn serialize(&self) -> (r: Vec<u8>)
        requires
            self.payload@.len() + 1 <= u32::MAX,
        ensures
            r@ == spec_serialize_msg(self.id, self.payload@),
            r@.len() == self.payload@.len() + 5,
    {
        let mut out: Vec<u8> = Vec::new();
        let len: u32 = (self.payload.len() + 1) as u32;
        push_u32_be(&mut out, len);
        out.push(self.id.id());
        crate::bencode::push_bytes(&mut out, self.payload.as_slice());
        proof {
            assert(out@ =~= spec_serialize_msg(self.id, self.payload@));
        }
        out
    }

    /// Deserializes one whole frame: a keep-alive for a zero length field,
    /// otherwise the message whose id is the first body byte and whose
    /// payload is the rest; an `UnknownMessageId` error exactly when the id
    /// byte lies outside 0 through 8.
    pub fn deserialize(bytes: &[u8]) -> (r: Result<Frame, ProtocolError>)
        requires
            well_framed(bytes@),
        ensures
            r matches Ok(f) ==> spec_deserialize(bytes@) == Some(f@),
            r is Err <==> spec_deserialize(bytes@) is None,
            r is Err ==> r == Err::<Frame, ProtocolError>(ProtocolError::UnknownMessageId),
    {
        let len = u32_from_be_at(bytes, 0);
        proof {
            assert(bytes@.subrange(0, 4) =~= bytes@.take(4));
        }
        if len == 0 {
            return Ok(Frame::KeepAlive);
        }
        let id = bytes[4];
        match MessageType::from_u8(id) {
            Ok(t) => {
                let mut payload: Vec<u8> = Vec::new();
                let mut i: usize = 5;
                let n = bytes.len();
                while i < n
                    invariant
                        5 <= i <= n,
                        n == bytes@.len(),
                        payload@ == bytes@.subrange(5, i as int),
                    decreases n - i,
                {
                    payload.push(bytes[i]);
                    proof {
                        assert(bytes@.subrange(5, i + 1 as int) =~= bytes@.subrange(
                            5,
                            i as int,
                        ).push(bytes@[i as int]));
                    }
                    i += 1;
                }
                proof {
                    assert(payload@ =~= bytes@.skip(5));
                }
                Ok(Frame::Msg(Message { id: t, payload }))
            },
            Err(_) => Err(ProtocolError::UnknownMessageId),
        }
    }

    /// An Interested message: id 2, empty payload.
    pub fn interested() -> (r: Message)
        ensures
            r.id == MessageType::Interested,
            r.payload@ == Seq::<u8>::empty(),
    {
        Message { id: MessageType::Interested, payload: Vec::new() }
    }

    /// A Request message for one block: id 6, payload of index, begin and
    /// length, each as four big-endian bytes.
    pub fn request(index: u32, begin: u32, length: u32) -> (r: Message)
        ensures
            r.id == MessageType::Request,
            r.payload@ == spec_u32_to_be(index) + spec_u32_to_be(begin) + spec_u32_to_be(length),
            r.payload@.len() == 12,
    {
        let mut payload: Vec<u8> = Vec::new();
        push_u32_be(&mut payload, index);
        push_u32_be(&mut payload, begin);
        push_u32_be(&mut payload, length);
        proof {
            assert(payload@ =~= spec_u32_to_be(index) + spec_u32_to_be(begin) + spec_u32_to_be(
                length,
            ));
        }
        Message { id: MessageType::Request, payload }
    }

    /// A Have message for one piece index: id 4, the index as four
    /// big-endian bytes.
    pub fn have(index: u32) -> (r: Message)
        ensures
            r.id == MessageType::Have,
            r.payload@ == spec_u32_to_be(index),
    {
        let mut payload: Vec<u8> = Vec::new();
        push_u32_be(&mut payload, index);
        proof {
            assert(payload@ =~= spec_u32_to_be(index));
        }
        Message { id: MessageType::Have, payload }
    }
}

/// The index, begin and block fields of a Piece message payload, or an
/// `InvalidBlock` error when the payload is shorter than its two fixed
/// fields.
pub fn parse_piece_payload(p: &[u8]) -> (r: Result<(u32, u32, Vec<u8>), ProtocolError>)
    ensures
        p@.len() >= 8 ==> (r matches Ok(x) && x.0 == spec_u32_from_be(p@.subrange(0, 4)) && x.1
            == spec_u32_from_be(p@.subrange(4, 8)) && x.2@ == p@.skip(8)),
        p@.len() < 8 ==> r == Err::<(u32, u32, Vec<u8>), ProtocolError>(ProtocolError::InvalidBlock),
{
    let n = p.len();
    if n < 8 {
        return Err(ProtocolError::InvalidBlock);
    }
    let index = u32_from_be_at(p, 0);
    let begin = u32_from_be_at(p, 4);
    let mut block: Vec<u8> = Vec::new();
    let mut i: usize = 8;
    while i < n
        invariant
            8 <= i <= n,
            n == p@.len(),
            block@ == p@.subrange(8, i as int),
        decreases n - i,
    {
        block.push(p[i]);
        proof {
            assert(p@.subrange(8, i + 1 as int) =~= p@.subrange(8, i as int).push(p@[i as int]));
        }
        i += 1;
    }
    proof {
        assert(block@ =~= p@.skip(8));
    }
    Ok((index, begin, block))
}

/// Whether the bit for `index` is set in a bit-per-piece map, most
/// significant bit of each byte first.
pub open spec fn spec_has_piece(bf: Seq<u8>, index: u32) -> bool {
    (bf[index as int / 8] >> ((7 - index % 8) as u8)) & 1 != 0
}

/// Whether a peer's Bitfield payload says it holds the piece at `index`.
pub fn _has_piece(bf: &Vec<u8>, index: u32) -> (r: bool)
    requires
        index as int / 8 < bf@.len(),
    ensures
        r == spec_has_piece(bf@, index),
{
    let byte = bf[(index / 8) as usize];
    let val = (byte >> ((7 - index % 8) as u8)) & 1;
    val != 0
}

/// Law: every message round-trips through the framer: serializing any id
/// with any payload and deserializing the resulting frame gives the same
/// id and payload back.
pub proof fn lemma_message_round_trip(t: MessageType, p: Seq<u8>)
    requires
        p.len() + 1 <= u32::MAX,
    ensures
        well_framed(spec_serialize_msg(t, p)),
        spec_deserialize(spec_serialize_msg(t, p)) == Some(GFrame::Msg(t, p)),
{
    let s = spec_serialize_msg(t, p);
    let len: u32 = (p.len() + 1) as u32;
    lemma_u32_be_round_trip(len);
    assert(s.take(4) =~= spec_u32_to_be(len));
    assert(spec_frame_len(s) == len as int);
    assert(len >= 1) by (bit_vector)
        requires
            len as int >= 1,
    ;
    assert(s[4] == spec_id(t));
    assert(spec_msg_type(spec_id(t)) == Some(t));
    assert(s.skip(5) =~= p);
}

/// Law: a zero length field alone is a whole frame and deserializes to a
/// keep-alive, reaching no message id at all.
pub proof fn lemma_keep_alive_round_trip()
    ensures
        well_framed(spec_u32_to_be(0)),
        spec_deserialize(spec_u32_to_be(0)) == Some(GFrame::KeepAlive),
{
    lemma_u32_be_round_trip(0);
    assert(spec_u32_to_be(0).take(4) =~= spec_u32_to_be(0));
}

} // verus!
