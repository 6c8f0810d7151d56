//! The fixed 68-byte peer handshake exchanged immediately after
//! connecting: a length byte of 19, the protocol name
//! `BitTorrent protocol`, eight reserved extension bytes, the 20-byte info
//! hash and the 20-byte peer id.

use vstd::prelude::*;

use crate::errors::ProtocolError;

verus! {

/// The 19 bytes of `BitTorrent protocol`.
pub open spec fn protocol_name() -> Seq<u8> {
    seq![
        66u8,
        105u8,
        116u8,
        84u8,
        111u8,
        114u8,
        114u8,
        101u8,
        110u8,
        116u8,
        32u8,
        112u8,
        114u8,
        111u8,
        116u8,
        111u8,
        99u8,
        111u8,
        108u8,
    ]
}

/// The one fixed 68-byte record each side sends once per connection.
#[derive(Clone, Copy, Debug, PartialEq, Eq)]
pub struct Handshake {
    /// The declared length of the protocol name; 19 for this protocol.
    pub length: u8,
    /// The protocol name bytes.
    pub pstr: [u8; 19],
    /// Extension flag bytes; all zero in the baseline protocol.
    pub extensions: [u8; 8],
    /// The info hash of the torrent this connection is about.
    pub info_hash: [u8; 20],
    /// The identifier the sending client chose for itself.
    pub peer_id: [u8; 20],
}

/// The mathematical shape of a handshake record.
pub struct GHandshake {
    pub length: u8,
    pub pstr: Seq<u8>,
    pub extensions: Seq<u8>,
    pub info_hash: Seq<u8>,
    pub peer_id: Seq<u8>,
}

impl View for Handshake {
    type V = GHandshake;

    open spec fn view(&self) -> GHandshake {
        GHandshake {
            length: self.length,
            pstr: self.pstr@,
            extensions: self.extensions@,
            info_hash: self.info_hash@,
            peer_id: self.peer_id@,
        }
    }
}

/// The fixed wire layout: length byte, name, extensions, info hash, peer
/// id, in that order with no gaps.
pub open spec fn spec_hs_serialize(g: GHandshake) -> Seq<u8> {
    seq![g.length] + g.pstr + g.extensions + g.info_hash + g.peer_id
}

/// The record read back from 68 wire bytes; parsing is total on 68 bytes.
pub open spec fn spec_hs_parse(s: Seq<u8>) -> GHandshake
    recommends
        s.len() == 68,
{
    GHandshake {
        length: s[0],
        pstr: s.subrange(1, 20),
        extensions: s.subrange(20, 28),
        info_hash: s.subrange(28, 48),
        peer_id: s.subrange(48, 68),
    }
}

/// Fills a fixed-size array from the bytes of `v` starting at `start`.
fn sub_array<const N: usize>(bytes: &[u8; 68], start: usize) -> (r: [u8; N])
    requires
        start + N <= 68,
    ensures
        r@ == bytes@.subrange(start as int, start as int + N as int),
{
    let mut a: [u8; N] = vstd::array::array_fill_for_copy_types(0u8);
    let mut i: usize = 0;
    while i < N
        invariant
            0 <= i <= N,
            start + N <= 68,
            a@.len() == N,
            forall|m: int| 0 <= m < i ==> a@[m] == bytes@[start + m],
        decreases N - i,
    {
        a[i] = bytes[start + i];
        i += 1;
    }
    proof {
        assert(a@ =~= bytes@.subrange(start as int, start as int + N as int));
    }
    a
}

impl Handshake {
    /// A handshake naming this protocol, carrying the given info hash and
    /// peer id, with all extension flags clear.
    pub fn new(info_hash: [u8; 20], peer_id: [u8; 20]) -> (r: Handshake)
        ensures
            r.length == 19,
            r.pstr@ == protocol_name(),
            r.extensions@ == Seq::new(8, |i: int| 0u8),
            r.info_hash@ == info_hash@,
            r.peer_id@ == peer_id@,
    {
        let mut pstr: [u8; 19] = vstd::array::array_fill_for_copy_types(0u8);
        pstr[0] = 66;
        pstr[1] = 105;
        pstr[2] = 116;
        pstr[3] = 84;
        pstr[4] = 111;
        pstr[5] = 114;
        pstr[6] = 114;
        pstr[7] = 101;
        pstr[8] = 110;
        pstr[9] = 116;
        pstr[10] = 32;
        pstr[11] = 112;
        pstr[12] = 114;
        pstr[13] = 111;
        pstr[14] = 116;
        pstr[15] = 111;
        pstr[16] = 99;
        pstr[17] = 111;
        pstr[18] = 108;
        proof {
            assert(pstr@ =~= protocol_name());
        }
        let extensions: [u8; 8] = vstd::array::array_fill_for_copy_types(0u8);
        proof {
            assert(extensions@ =~= Seq::new(8, |i: int| 0u8));
        }
        Handshake { length: 19, pstr, extensions, info_hash, peer_id }
    }

    /// The 68 wire bytes of this handshake, in the fixed layout.
    pub fn serialize(&self) -> (r: [u8; 68])
        ensures
            r@ == spec_hs_serialize(self@),
            r@.len() == 68,
    {
        let mut out: Vec<u8> = Vec::new();
        out.push(self.length);
        crate::bencode::push_bytes(&mut out, self.pstr.as_slice());
        crate::bencode::push_bytes(&mut out, self.extensions.as_slice());
        crate::bencode::push_bytes(&mut out, self.info_hash.as_slice());
        crate::bencode::push_bytes(&mut out, self.peer_id.as_slice());
        proof {
            assert(out@ =~= spec_hs_serialize(self@));
        }
        let mut a: [u8; 68] = vstd::array::array_fill_for_copy_types(0u8);
        let mut i: usize = 0;
        while i < 68
            invariant
                0 <= i <= 68,
                out@.len() == 68,
                out@ == spec_hs_serialize(self@),
                a@.len() == 68,
                forall|m: int| 0 <= m < i ==> a@[m] == out@[m],
            decreases 68 - i,
        {
            a[i] = out[i];
            i += 1;
        }
        proof {
            assert(a@ =~= out@);
        }
        a
    }

    /// The handshake read from 68 received bytes. This is total at the
    /// byte level: every field is taken from its fixed position, and the
    /// protocol checks of [`Handshake::validate`] come after.
    pub fn deserialize(bytes: &[u8; 68]) -> (r: Handshake)
        ensures
            r@ == spec_hs_parse(bytes@),
            spec_hs_serialize(r@) == bytes@,
    {
        let length = bytes[0];
        let pstr: [u8; 19] = sub_array(bytes, 1);
        let extensions: [u8; 8] = sub_array(bytes, 20);
        let info_hash: [u8; 20] = sub_array(bytes, 28);
        let peer_id: [u8; 20] = sub_array(bytes, 48);
        let r = Handshake { length, pstr, extensions, info_hash, peer_id };
        proof {
            assert(spec_hs_serialize(r@) =~= bytes@);
        }
        r
    }

    /// Checks a received handshake against this protocol and the info
    /// hash this side sent: `UnsupportedProtocol` unless the length byte
    /// is 19 and the name is `BitTorrent protocol`, otherwise
    /// `InfoHashMismatch` unless the echoed info hash is the expected one.
    pub fn validate(&self, expected_info_hash: &[u8; 20]) -> (r: Result<(), ProtocolError>)
        ensures
            r is Ok <==> self.length == 19 && self.pstr@ == protocol_name() && self.info_hash@
                == expected_info_hash@,
            r == Err::<(), ProtocolError>(ProtocolError::UnsupportedProtocol) <==> !(self.length
                == 19 && self.pstr@ == protocol_name()),
            r == Err::<(), ProtocolError>(ProtocolError::InfoHashMismatch) <==> (self.length == 19
                && self.pstr@ == protocol_name() && self.info_hash@ != expected_info_hash@),
    {
        let expected = Handshake::new(*expected_info_hash, self.peer_id);
        if self.length != 19 || !eq_bytes(self.pstr.as_slice(), expected.pstr.as_slice()) {
            return Err(ProtocolError::UnsupportedProtocol);
        }
        if !eq_bytes(self.info_hash.as_slice(), expected_info_hash.as_slice()) {
            return Err(ProtocolError::InfoHashMismatch);
        }
        Ok(())
    }
}

/// Whether two byte slices hold the same bytes.
pub fn eq_bytes(a: &[u8], b: &[u8]) -> (r: bool)
    ensures
        r == (a@ == b@),
{
    if a.len() != b.len() {
        return false;
    }
    let n = a.len();
    let mut i: usize = 0;
    while i < n
        invariant
            0 <= i <= n,
            n == a@.len(),
            n == b@.len(),
            forall|m: int| 0 <= m < i ==> a@[m] == b@[m],
        decreases n - i,
    {
        if a[i] != b[i] {
            return false;
        }
        i += 1;
    }
    proof {
        assert(a@ =~= b@);
    }
    true
}

/// Law: a serialized handshake is exactly 68 bytes, and parsing those
/// bytes gives back exactly the record that was serialized, for any
/// handshake whose fields have the fixed widths.
pub proof fn lemma_handshake_round_trip(g: GHandshake)
    requires
        g.pstr.len() == 19,
        g.extensions.len() == 8,
        g.info_hash.len() == 20,
        g.peer_id.len() == 20,
    ensures
        spec_hs_serialize(g).len() == 68,
        spec_hs_parse(spec_hs_serialize(g)) == g,
{
    let s = spec_hs_serialize(g);
    assert(spec_hs_parse(s).pstr =~= g.pstr);
    assert(spec_hs_parse(s).extensions =~= g.extensions);
    assert(spec_hs_parse(s).info_hash =~= g.info_hash);
    assert(spec_hs_parse(s).peer_id =~= g.peer_id);
}

} // verus!
