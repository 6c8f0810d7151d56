//! The piece download engine: the per-connection state machine that
//! requests blocks, reassembles them into pieces, verifies each piece
//! against its expected SHA-1 digest and hands verified pieces on.
//!
//! The engine is pure: it consumes events (connected, handshake received,
//! frame received) and produces actions (bytes to send, pieces to commit).
//! The I/O loop around it performs each action and feeds back what arrives.

use vstd::prelude::*;

use crate::digest::{sha1, sha1_of};
use crate::errors::{ProtocolError, VerificationError};

verus! {

/// The transient accumulator for one piece: which piece, what its digest
/// must be, how long it is, and the blocks received so far, keyed by byte
/// offset and kept sorted and disjoint.
pub struct PieceBuffer {
    /// The piece index this buffer collects.
    pub index: u32,
    /// The 20-byte digest the assembled piece must hash to.
    pub expected_hash: [u8; 20],
    /// The byte length of this piece; the last piece of a file may be
    /// shorter than the file's nominal piece length.
    pub piece_length: u32,
    /// The received blocks: offset and bytes, sorted ascending by offset,
    /// pairwise disjoint, each non-empty and within the piece.
    pub received: Vec<(u32, Vec<u8>)>,
}

/// The buffer invariant on its block entries: non-empty, within the
/// piece, sorted ascending and pairwise disjoint.
pub open spec fn entries_wf(r: Seq<(u32, Vec<u8>)>, target: int) -> bool {
    &&& forall|i: int| 0 <= i < r.len() ==> (#[trigger] r[i]).1@.len() >= 1
    &&& forall|i: int| 0 <= i < r.len() ==> (#[trigger] r[i]).0 + r[i].1@.len() <= target
    &&& forall|i: int, j: int|
        0 <= i < j < r.len() ==> (#[trigger] r[i]).0 + r[i].1@.len() <= (#[trigger] r[j]).0
}

/// The buffer invariant.
pub open spec fn buf_wf(b: PieceBuffer) -> bool {
    entries_wf(b.received@, b.piece_length as int)
}

/// The byte count received so far.
pub open spec fn sum_lens(r: Seq<(u32, Vec<u8>)>) -> int
    decreases r.len(),
{
    if r.len() == 0 {
        0
    } else {
        r[0].1@.len() + sum_lens(r.drop_first())
    }
}

/// Insertion of a block in front of the first entry at a larger offset.
pub open spec fn spec_insert_block(r: Seq<(u32, Vec<u8>)>, e: (u32, Vec<u8>)) -> Seq<
    (u32, Vec<u8>),
>
    decreases r.len(),
{
    if r.len() == 0 {
        seq![e]
    } else if e.0 < r[0].0 {
        seq![e] + r
    } else {
        seq![r[0]] + spec_insert_block(r.drop_first(), e)
    }
}

/// Whether a block at `begin` of `len` bytes may join the entries: it is
/// non-empty, lies within the piece, and overlaps no received block.
pub open spec fn block_fits(r: Seq<(u32, Vec<u8>)>, target: int, begin: int, len: int) -> bool {
    &&& len >= 1
    &&& begin + len <= target
    &&& forall|i: int|
        0 <= i < r.len() ==> (begin + len <= (#[trigger] r[i]).0 || r[i].0 + r[i].1@.len()
            <= begin)
}

/// The blocks concatenated in ascending offset order.
pub open spec fn spec_assemble(r: Seq<(u32, Vec<u8>)>) -> Seq<u8>
    decreases r.len(),
{
    if r.len() == 0 {
        Seq::empty()
    } else {
        r[0].1@ + spec_assemble(r.drop_first())
    }
}

/// Disjoint sorted entries within a piece never hold more bytes than the
/// part of the piece from the first entry's offset on.
pub proof fn lemma_sum_bound(r: Seq<(u32, Vec<u8>)>, target: int)
    requires
        entries_wf(r, target),
        target >= 0,
    ensures
        0 <= sum_lens(r),
        sum_lens(r) <= target,
        r.len() > 0 ==> sum_lens(r) <= target - r[0].0,
    decreases r.len(),
{
    if r.len() > 0 {
        assert(entries_wf(r.drop_first(), target)) by {
            assert(forall|i: int|
                0 <= i < r.drop_first().len() ==> #[trigger] r.drop_first()[i] == r[i + 1]);
        }
        lemma_sum_bound(r.drop_first(), target);
        if r.len() > 1 {
            assert(r.drop_first()[0] == r[1]);
            assert(r[0].0 + r[0].1@.len() <= r[1].0);
        }
    }
}

/// The received total grows by each appended entry.
pub proof fn lemma_sum_push(r: Seq<(u32, Vec<u8>)>, e: (u32, Vec<u8>))
    ensures
        sum_lens(r.push(e)) == sum_lens(r) + e.1@.len(),
    decreases r.len(),
{
    if r.len() == 0 {
        assert(r.push(e)[0] == e);
        assert(r.push(e).drop_first() =~= Seq::<(u32, Vec<u8>)>::empty());
        assert(r.push(e).len() == 1);
        assert(sum_lens(r.push(e)) == e.1@.len() + sum_lens(r.push(e).drop_first()));
        assert(sum_lens(Seq::<(u32, Vec<u8>)>::empty()) == 0);
        assert(sum_lens(r) == 0);
    } else {
        lemma_sum_push(r.drop_first(), e);
        assert(r.push(e).drop_first() =~= r.drop_first().push(e));
        assert(r.push(e)[0] == r[0]);
        assert(sum_lens(r.push(e)) == r[0].1@.len() + sum_lens(r.drop_first().push(e)));
        assert(sum_lens(r) == r[0].1@.len() + sum_lens(r.drop_first()));
    }
}

/// The received total splits over any prefix.
pub proof fn lemma_sum_split(r: Seq<(u32, Vec<u8>)>, i: int)
    requires
        0 <= i <= r.len(),
    ensures
        sum_lens(r) == sum_lens(r.take(i)) + sum_lens(r.skip(i)),
    decreases i,
{
    if i == 0 {
        assert(r.take(0) =~= Seq::<(u32, Vec<u8>)>::empty());
        assert(r.skip(0) =~= r);
    } else {
        lemma_sum_split(r.drop_first(), i - 1);
        assert(r.take(i)[0] == r[0]);
        assert(r.take(i).drop_first() =~= r.drop_first().take(i - 1));
        assert(r.skip(i) =~= r.drop_first().skip(i - 1));
    }
}

/// Insertion adds exactly the inserted entry's bytes to the total.
pub proof fn lemma_insert_block_sum(r: Seq<(u32, Vec<u8>)>, e: (u32, Vec<u8>))
    ensures
        sum_lens(spec_insert_block(r, e)) == sum_lens(r) + e.1@.len(),
    decreases r.len(),
{
    if r.len() == 0 {
        assert(seq![e][0] == e);
        assert(seq![e].drop_first() =~= Seq::<(u32, Vec<u8>)>::empty());
        assert(sum_lens(seq![e]) == e.1@.len() + sum_lens(Seq::<(u32, Vec<u8>)>::empty()));
        assert(sum_lens(Seq::<(u32, Vec<u8>)>::empty()) == 0);
    } else if e.0 < r[0].0 {
        assert((seq![e] + r)[0] == e);
        assert((seq![e] + r).drop_first() =~= r);
        assert(sum_lens(seq![e] + r) == e.1@.len() + sum_lens(r));
    } else {
        lemma_insert_block_sum(r.drop_first(), e);
        let t = spec_insert_block(r.drop_first(), e);
        assert((seq![r[0]] + t)[0] == r[0]);
        assert((seq![r[0]] + t).drop_first() =~= t);
        assert(sum_lens(seq![r[0]] + t) == r[0].1@.len() + sum_lens(t));
        assert(sum_lens(r) == r[0].1@.len() + sum_lens(r.drop_first()));
    }
}

/// The recursive insertion equals a positional insertion at the first
/// strictly larger offset.
pub proof fn lemma_insert_block_at(e: (u32, Vec<u8>), r: Seq<(u32, Vec<u8>)>, pos: int)
    requires
        0 <= pos <= r.len(),
        forall|m: int| 0 <= m < pos ==> (#[trigger] r[m]).0 <= e.0,
        pos < r.len() ==> e.0 < r[pos].0,
    ensures
        spec_insert_block(r, e) == r.insert(pos, e),
    decreases r.len(),
{
    if r.len() == 0 {
        assert(r.insert(0, e) =~= seq![e]);
    } else if e.0 < r[0].0 {
        assert(pos == 0);
        assert(r.insert(0, e) =~= seq![e] + r);
    } else {
        assert(pos >= 1);
        lemma_insert_block_at(e, r.drop_first(), pos - 1);
        assert(r.insert(pos, e) =~= seq![r[0]] + r.drop_first().insert(pos - 1, e));
    }
}

/// Concatenation of blocks grows by each appended entry's bytes.
pub proof fn lemma_assemble_push(r: Seq<(u32, Vec<u8>)>, e: (u32, Vec<u8>))
    ensures
        spec_assemble(r.push(e)) == spec_assemble(r) + e.1@,
    decreases r.len(),
{
    if r.len() == 0 {
        assert(r.push(e)[0] == e);
        assert(r.push(e).drop_first() =~= Seq::<(u32, Vec<u8>)>::empty());
        assert(e.1@ + spec_assemble(Seq::<(u32, Vec<u8>)>::empty()) =~= e.1@);
        assert(spec_assemble(r) + e.1@ =~= e.1@);
    } else {
        lemma_assemble_push(r.drop_first(), e);
        assert(r.push(e).drop_first() =~= r.drop_first().push(e));
        assert(r.push(e)[0] == r[0]);
        assert(r[0].1@ + (spec_assemble(r.drop_first()) + e.1@) =~= (r[0].1@ + spec_assemble(
            r.drop_first(),
        )) + e.1@);
    }
}

/// Blocks cut from one data sequence, covering the stretch from `base` to
/// its end without gaps, reassemble to exactly that stretch.
pub proof fn lemma_reassembly_from(r: Seq<(u32, Vec<u8>)>, d: Seq<u8>, base: int)
    requires
        entries_wf(r, d.len() as int),
        0 <= base <= d.len(),
        forall|i: int| 0 <= i < r.len() ==> base <= (#[trigger] r[i]).0,
        sum_lens(r) == d.len() - base,
        forall|i: int|
            0 <= i < r.len() ==> (#[trigger] r[i]).1@ == d.subrange(
                r[i].0 as int,
                r[i].0 + r[i].1@.len(),
            ),
    ensures
        spec_assemble(r) == d.subrange(base, d.len() as int),
    decreases r.len(),
{
    if r.len() == 0 {
        assert(d.subrange(base, d.len() as int) =~= Seq::<u8>::empty());
    } else {
        lemma_sum_bound(r, d.len() as int);
        assert(r[0].0 == base);
        let len0 = r[0].1@.len() as int;
        let rest = r.drop_first();
        assert(entries_wf(rest, d.len() as int)) by {
            assert(forall|i: int| 0 <= i < rest.len() ==> #[trigger] rest[i] == r[i + 1]);
        }
        assert(forall|i: int| 0 <= i < rest.len() ==> #[trigger] rest[i] == r[i + 1]);
        assert(sum_lens(rest) == sum_lens(r) - len0);
        lemma_reassembly_from(rest, d, base + len0);
        assert(spec_assemble(r) == r[0].1@ + spec_assemble(rest));
        assert(d.subrange(base, base + len0) + d.subrange(base + len0, d.len() as int)
            =~= d.subrange(base, d.len() as int));
    }
}

/// Law: blocks cut from one piece of data, received in any order but
/// covering its full length with no gaps and no overlaps, reassemble by
/// offset to exactly that data, so their digest is the data's digest.
pub proof fn lemma_block_verification(r: Seq<(u32, Vec<u8>)>, d: Seq<u8>)
    requires
        entries_wf(r, d.len() as int),
        sum_lens(r) == d.len(),
        forall|i: int|
            0 <= i < r.len() ==> (#[trigger] r[i]).1@ == d.subrange(
                r[i].0 as int,
                r[i].0 + r[i].1@.len(),
            ),
    ensures
        spec_assemble(r) == d,
        sha1_of(spec_assemble(r)) == sha1_of(d),
{
    lemma_reassembly_from(r, d, 0);
    assert(d.subrange(0, d.len() as int) =~= d);
}

/// Whether `data` hashes to the expected 20-byte SHA-1 digest.
pub fn verify_piece(data: &[u8], expected: &[u8; 20]) -> (r: bool)
    ensures
        r == (sha1_of(data@) == expected@),
{
    let h = sha1(data);
    crate::handshake::eq_bytes(h.as_slice(), expected.as_slice())
}

impl PieceBuffer {
    /// An empty buffer for one piece.
    pub fn new(index: u32, expected_hash: [u8; 20], piece_length: u32) -> (r: PieceBuffer)
        ensures
            r.index == index,
            r.expected_hash@ == expected_hash@,
            r.piece_length == piece_length,
            r.received@ == Seq::<(u32, Vec<u8>)>::empty(),
            buf_wf(r),
    {
        PieceBuffer { index, expected_hash, piece_length, received: Vec::new() }
    }

    /// Inserts one received block, keyed by its offset. Succeeds exactly
    /// when the block is non-empty, lies within the piece and overlaps no
    /// block received before; a block that does not fit, a duplicate
    /// offset included, is refused and changes nothing.
    pub fn insert_block(&mut self, begin: u32, data: Vec<u8>) -> (r: Result<(), ProtocolError>)
        requires
            buf_wf(*old(self)),
        ensures
            buf_wf(*final(self)),
            final(self).index == old(self).index,
            final(self).expected_hash == old(self).expected_hash,
            final(self).piece_length == old(self).piece_length,
            r is Ok <==> block_fits(
                old(self).received@,
                old(self).piece_length as int,
                begin as int,
                data@.len() as int,
            ),
            r is Ok ==> final(self).received@ == spec_insert_block(
                old(self).received@,
                (begin, data),
            ),
            r is Err ==> *final(self) == *old(self) && r == Err::<(), ProtocolError>(
                ProtocolError::InvalidBlock,
            ),
    {
        let ghost r0 = self.received@;
        let ghost target = self.piece_length as int;
        let len = data.len();
        if len == 0 {
            return Err(ProtocolError::InvalidBlock);
        }
        if len as u64 > self.piece_length as u64 {
            return Err(ProtocolError::InvalidBlock);
        }
        if begin as u64 + len as u64 > self.piece_length as u64 {
            return Err(ProtocolError::InvalidBlock);
        }
        let n = self.received.len();
        let mut pos: usize = 0;
        while pos < n && self.received[pos].0 <= begin
            invariant
                0 <= pos <= n,
                n == self.received@.len(),
                r0 == self.received@,
                forall|m: int| 0 <= m < pos ==> (#[trigger] r0[m]).0 <= begin,
            decreases n - pos,
        {
            pos += 1;
        }
        if pos > 0 {
            let prev_end = self.received[pos - 1].0 as u64 + self.received[pos - 1].1.len() as u64;
            if prev_end > begin as u64 {
                proof {
                    assert(!(begin as int + len as int <= r0[pos - 1].0));
                }
                return Err(ProtocolError::InvalidBlock);
            }
        }
        if pos < n {
            if begin as u64 + len as u64 > self.received[pos].0 as u64 {
                proof {
                    assert(!(r0[pos as int].0 + r0[pos as int].1@.len() <= begin as int));
                }
                return Err(ProtocolError::InvalidBlock);
            }
        }
        proof {
            assert forall|i: int|
                0 <= i < r0.len() implies (begin as int + len as int <= (#[trigger] r0[i]).0
                || r0[i].0 + r0[i].1@.len() <= begin as int) by {
                if i < pos - 1 {
                    assert(r0[i].0 + r0[i].1@.len() <= r0[pos - 1].0);
                } else if i >= pos {
                    if pos < i {
                        assert(r0[pos as int].0 + r0[pos as int].1@.len() <= r0[i].0);
                    }
                }
            }
            lemma_insert_block_at((begin, data), r0, pos as int);
        }
        let ghost e = (begin, data);
        self.received.insert(pos, (begin, data));
        proof {
            let rn = self.received@;
            assert(rn == r0.insert(pos as int, e));
            assert(forall|k: int| 0 <= k < pos ==> #[trigger] rn[k] == r0[k]);
            assert(rn[pos as int] == e);
            assert(forall|k: int| pos < k < rn.len() ==> #[trigger] rn[k] == r0[k - 1]);
            assert forall|i: int, j: int|
                0 <= i < j < rn.len() implies (#[trigger] rn[i]).0 + rn[i].1@.len() <= (
            #[trigger] rn[j]).0 by {
                if i < pos && j == pos {
                    assert(r0[i].0 <= begin);
                    assert(begin as int + len as int <= r0[i].0 || r0[i].0 + r0[i].1@.len()
                        <= begin as int);
                } else if i == pos && j > pos {
                    assert(e.0 < r0[pos as int].0);
                    if j - 1 > pos {
                        assert(r0[pos as int].0 + r0[pos as int].1@.len() <= r0[j - 1].0);
                    }
                    assert(begin as int + len as int <= r0[j - 1].0 || r0[j - 1].0 + r0[j
                        - 1].1@.len() <= begin as int);
                }
            }
            assert(entries_wf(rn, target)) by {
                assert(forall|i: int|
                    0 <= i < rn.len() ==> (#[trigger] rn[i]).1@.len() >= 1 && rn[i].0
                        + rn[i].1@.len() <= target);
            }
        }
        Ok(())
    }

    /// How many bytes of the piece have arrived.
    pub fn total_received(&self) -> (r: u32)
        requires
            buf_wf(*self),
        ensures
            r as int == sum_lens(self.received@),
    {
        proof {
            lemma_sum_bound(self.received@, self.piece_length as int);
        }
        let n = self.received.len();
        let mut acc: u32 = 0;
        let mut i: usize = 0;
        while i < n
            invariant
                0 <= i <= n,
                n == self.received@.len(),
                buf_wf(*self),
                acc as int == sum_lens(self.received@.take(i as int)),
            decreases n - i,
        {
            proof {
                let r = self.received@;
                lemma_sum_split(r, i as int);
                lemma_sum_split(r, i as int + 1);
                assert(r.take(i as int + 1) =~= r.take(i as int).push(r[i as int]));
                lemma_sum_push(r.take(i as int), r[i as int]);
                lemma_sum_bound(r, self.piece_length as int);
                assert(sum_lens(r.skip(i as int + 1)) >= 0) by {
                    assert(entries_wf(r.skip(i as int + 1), self.piece_length as int)) by {
                        assert(forall|m: int|
                            0 <= m < r.skip(i as int + 1).len() ==> #[trigger] r.skip(
                                i as int + 1,
                            )[m] == r[m + i + 1]);
                    }
                    lemma_sum_bound(r.skip(i as int + 1), self.piece_length as int);
                }
            }
            acc = acc + self.received[i].1.len() as u32;
            i += 1;
        }
        proof {
            assert(self.received@.take(n as int) =~= self.received@);
        }
        acc
    }

    /// Whether every byte of the piece is accounted for: with sorted,
    /// disjoint, in-bounds blocks this holds exactly when they cover the
    /// piece without gaps.
    pub fn is_complete(&self) -> (r: bool)
        requires
            buf_wf(*self),
        ensures
            r == (sum_lens(self.received@) == self.piece_length as int),
    {
        let t = self.total_received();
        t == self.piece_length
    }

    /// The piece bytes reassembled in ascending offset order.
    pub fn assemble(&self) -> (r: Vec<u8>)
        requires
            buf_wf(*self),
        ensures
            r@ == spec_assemble(self.received@),
    {
        let n = self.received.len();
        let mut out: Vec<u8> = Vec::new();
        proof {
            assert(self.received@.take(0) =~= Seq::<(u32, Vec<u8>)>::empty());
        }
        let mut i: usize = 0;
        while i < n
            invariant
                0 <= i <= n,
                n == self.received@.len(),
                out@ == spec_assemble(self.received@.take(i as int)),
            decreases n - i,
        {
            crate::bencode::push_bytes(&mut out, self.received[i].1.as_slice());
            proof {
                let r = self.received@;
                assert(r.take(i as int + 1) =~= r.take(i as int).push(r[i as int]));
                lemma_assemble_push(r.take(i as int), r[i as int]);
            }
            i += 1;
        }
        proof {
            assert(self.received@.take(n as int) =~= self.received@);
        }
        out
    }
}


/// The block size requested over the wire: 16384 bytes.
pub const BLOCK_SIZE: u32 = 16384;

/// How far the connection has come. `Ready` and the transient
/// `RequestingBlock` and `Verifying` stages of the protocol collapse into
/// `AwaitingBlock`: the engine sends the next request or verifies the
/// piece in the same step that completes the previous one, so it is never
/// observed between them.
#[derive(Clone, Copy, Debug, PartialEq, Eq, Structural)]
pub enum EngineState {
    /// No transport yet.
    Connecting,
    /// Handshake sent, peer's handshake not yet received.
    Handshaking,
    /// Handshake validated; expecting the peer's Bitfield or Unchoke.
    AwaitingBitfield,
    /// Bitfield recorded; expecting Unchoke.
    AwaitingUnchoke,
    /// One block request outstanding; expecting a Piece frame.
    AwaitingBlock,
    /// Every piece committed.
    Done,
    /// A protocol violation or a failed verification; terminal.
    Failed,
}

/// What the transport layer reports to the engine.
#[derive(Debug)]
pub enum Event {
    /// The TCP connection is up.
    Connected,
    /// The peer's 68-byte handshake arrived.
    HandshakeReceived(crate::handshake::Handshake),
    /// A whole frame arrived.
    FrameReceived(crate::message::Frame),
}

/// Why a transfer stopped.
#[derive(Clone, Copy, Debug, PartialEq, Eq, Structural)]
pub enum EngineError {
    /// The peer broke the wire protocol.
    Protocol(ProtocolError),
    /// A piece hashed to the wrong digest.
    Verification(VerificationError),
}

/// What the transport layer must do after a step, in order.
#[derive(Debug, PartialEq, Eq)]
pub enum Action {
    /// Send these 68 handshake bytes.
    SendHandshake(crate::handshake::Handshake),
    /// Send an Interested message.
    SendInterested,
    /// Send a Request message for this block.
    SendRequest { index: u32, begin: u32, length: u32 },
    /// Send a Have message for this piece.
    SendHave(u32),
    /// Hand this verified piece to the storage sink.
    Commit { index: u32, data: Vec<u8> },
    /// Every piece is committed; the transfer is over.
    Finished,
    /// The transfer failed; drop the connection.
    Fail(EngineError),
}

/// The per-connection download engine: the torrent's fixed parameters and
/// the connection's changing state.
pub struct Engine {
    /// The info hash every handshake must echo.
    pub info_hash: [u8; 20],
    /// This client's own peer id.
    pub peer_id: [u8; 20],
    /// The nominal piece length from the metainfo.
    pub piece_length: u32,
    /// The total file length from the metainfo.
    pub total_length: u32,
    /// The concatenated 20-byte expected piece hashes.
    pub pieces: Vec<u8>,
    /// Where the connection stands.
    pub state: EngineState,
    /// The piece index being downloaded next or now.
    pub current: u32,
    /// How many bytes of the current piece have been requested.
    pub offset: u32,
    /// The accumulator for the current piece.
    pub buffer: PieceBuffer,
    /// The peer's Bitfield payload, once one arrived.
    pub bitfield: Option<Vec<u8>>,
}

/// How many pieces a file of `total` bytes has at piece length `plen`:
/// the division rounded up.
pub open spec fn spec_num_pieces(total: u32, plen: u32) -> int
    recommends
        plen > 0,
{
    (total + plen - 1) / (plen as int)
}

/// The byte length of piece `i`: the nominal piece length, except that
/// the last piece holds only what remains of the file.
pub open spec fn spec_piece_size(total: u32, plen: u32, i: int) -> int {
    if plen <= total - i * plen {
        plen as int
    } else {
        total - i * plen
    }
}

/// The length of the next block request at `offset` of a piece of
/// `target` bytes: a whole block, or what remains.
pub open spec fn spec_request_len(target: int, offset: int) -> int {
    if target - offset <= BLOCK_SIZE {
        target - offset
    } else {
        BLOCK_SIZE as int
    }
}

/// The offset and bytes of each received block.
pub open spec fn recv_views(r: Seq<(u32, Vec<u8>)>) -> Seq<(u32, Seq<u8>)> {
    Seq::new(
        r.len(),
        |i: int|
            if 0 <= i < r.len() {
                (r[i].0, r[i].1@)
            } else {
                (0u32, Seq::<u8>::empty())
            },
    )
}

/// Insertion of a block among received block views, in offset order.
pub open spec fn view_insert(r: Seq<(u32, Seq<u8>)>, e: (u32, Seq<u8>)) -> Seq<(u32, Seq<u8>)>
    decreases r.len(),
{
    if r.len() == 0 {
        seq![e]
    } else if e.0 < r[0].0 {
        seq![e] + r
    } else {
        seq![r[0]] + view_insert(r.drop_first(), e)
    }
}

/// The byte count of received block views.
pub open spec fn view_sum(r: Seq<(u32, Seq<u8>)>) -> int
    decreases r.len(),
{
    if r.len() == 0 {
        0
    } else {
        r[0].1.len() + view_sum(r.drop_first())
    }
}

/// The block views concatenated in ascending offset order.
pub open spec fn view_assemble(r: Seq<(u32, Seq<u8>)>) -> Seq<u8>
    decreases r.len(),
{
    if r.len() == 0 {
        Seq::empty()
    } else {
        r[0].1 + view_assemble(r.drop_first())
    }
}

/// Inserting a block commutes with taking block views.
pub proof fn lemma_insert_views(r: Seq<(u32, Vec<u8>)>, e: (u32, Vec<u8>))
    ensures
        recv_views(spec_insert_block(r, e)) == view_insert(recv_views(r), (e.0, e.1@)),
    decreases r.len(),
{
    if r.len() == 0 {
        assert(recv_views(seq![e]) =~= seq![(e.0, e.1@)]);
    } else if e.0 < r[0].0 {
        assert(recv_views(r)[0].0 == r[0].0);
        assert(recv_views(seq![e] + r) =~= seq![(e.0, e.1@)] + recv_views(r));
    } else {
        lemma_insert_views(r.drop_first(), e);
        assert(recv_views(r)[0].0 == r[0].0);
        assert(recv_views(r).drop_first() =~= recv_views(r.drop_first()));
        assert(recv_views(seq![r[0]] + spec_insert_block(r.drop_first(), e)) =~= seq![
            (r[0].0, r[0].1@),
        ] + recv_views(spec_insert_block(r.drop_first(), e)));
    }
}

/// The received byte count agrees with the view-level count.
pub proof fn lemma_sum_views(r: Seq<(u32, Vec<u8>)>)
    ensures
        sum_lens(r) == view_sum(recv_views(r)),
    decreases r.len(),
{
    if r.len() > 0 {
        lemma_sum_views(r.drop_first());
        assert(recv_views(r)[0] == (r[0].0, r[0].1@));
        assert(recv_views(r).drop_first() =~= recv_views(r.drop_first()));
    }
}

/// The assembled bytes agree with the view-level assembly.
pub proof fn lemma_assemble_views(r: Seq<(u32, Vec<u8>)>)
    ensures
        spec_assemble(r) == view_assemble(recv_views(r)),
    decreases r.len(),
{
    if r.len() > 0 {
        lemma_assemble_views(r.drop_first());
        assert(recv_views(r)[0] == (r[0].0, r[0].1@));
        assert(recv_views(r).drop_first() =~= recv_views(r.drop_first()));
    }
}

/// The torrent parameters an engine never changes.
pub open spec fn same_config(pre: Engine, post: Engine) -> bool {
    &&& post.info_hash == pre.info_hash
    &&& post.peer_id == pre.peer_id
    &&& post.piece_length == pre.piece_length
    &&& post.total_length == pre.total_length
    &&& post.pieces == pre.pieces
}

/// The engine invariant: a positive piece length, one stored hash per
/// piece, a current index no further than one past the last piece, and,
/// while a block request is outstanding, a buffer that belongs to the
/// current piece.
pub open spec fn eng_wf(e: Engine) -> bool {
    &&& e.piece_length > 0
    &&& e.pieces@.len() == 20 * spec_num_pieces(e.total_length, e.piece_length)
    &&& e.current as int <= spec_num_pieces(e.total_length, e.piece_length)
    &&& e.state == EngineState::AwaitingBlock ==> {
        &&& (e.current as int) < spec_num_pieces(e.total_length, e.piece_length)
        &&& buf_wf(e.buffer)
        &&& e.buffer.index == e.current
        &&& e.buffer.piece_length as int == spec_piece_size(
            e.total_length,
            e.piece_length,
            e.current as int,
        )
        &&& e.buffer.expected_hash@ == e.pieces@.subrange(
            20 * e.current as int,
            20 * e.current as int + 20,
        )
        &&& e.offset <= e.buffer.piece_length
    }
}

/// The engine stops with this error and reports it as its one action.
pub open spec fn spec_fail(pre: Engine, post: Engine, acts: Seq<Action>, err: EngineError) -> bool {
    &&& post == Engine { state: EngineState::Failed, ..pre }
    &&& acts == seq![Action::Fail(err)]
}

/// The engine turns to piece `idx`: if one remains, an empty buffer for
/// it, a first block request and an outstanding-request state; if none
/// remains, the done state and a finish notice.
pub open spec fn spec_begin_piece(pre: Engine, post: Engine, acts: Seq<Action>, idx: int) -> bool {
    &&& same_config(pre, post)
    &&& post.bitfield == pre.bitfield
    &&& post.current == idx
    &&& if idx < spec_num_pieces(pre.total_length, pre.piece_length) {
        let target = spec_piece_size(pre.total_length, pre.piece_length, idx);
        let len = spec_request_len(target, 0);
        &&& post.state == EngineState::AwaitingBlock
        &&& post.offset == len
        &&& post.buffer.index == idx
        &&& post.buffer.piece_length == target
        &&& post.buffer.received@ == Seq::<(u32, Vec<u8>)>::empty()
        &&& post.buffer.expected_hash@ == pre.pieces@.subrange(20 * idx, 20 * idx + 20)
        &&& acts == seq![
            Action::SendRequest { index: idx as u32, begin: 0, length: len as u32 },
        ]
    } else {
        &&& post.state == EngineState::Done
        &&& acts == seq![Action::Finished]
    }
}

/// A Have payload is recorded: with a four-byte payload naming a piece
/// within the recorded bitfield, that piece's bit is set, most
/// significant bit of each byte first; otherwise nothing changes. Only
/// the bitfield may change.
pub open spec fn spec_record_have(pre: Engine, post: Engine, p: Seq<u8>) -> bool {
    &&& same_config(pre, post)
    &&& post.state == pre.state
    &&& post.current == pre.current
    &&& post.offset == pre.offset
    &&& post.buffer == pre.buffer
    &&& {
        let idx = crate::message::spec_u32_from_be(p.take(4));
        match pre.bitfield {
            Some(b) => if p.len() == 4 && idx as int / 8 < b@.len() {
                let byte = b@[idx as int / 8];
                let mask = (1u8 << ((7 - idx % 8) as u8)) as u8;
                post.bitfield matches Some(nb) && nb@ == b@.update(
                    idx as int / 8,
                    (byte | mask) as u8,
                )
            } else {
                post.bitfield == pre.bitfield
            },
            None => post.bitfield == pre.bitfield,
        }
    }
}

/// The outcome of a Piece frame while a request is outstanding: a
/// too-short payload, a wrong piece index, or a block that does not fit
/// the buffer fails the transfer; a fitting block joins the buffer and
/// either triggers the next request, or, when it completes the piece,
/// verification: a matching digest commits the piece, announces it and
/// turns to the next piece, a mismatch fails the transfer.
pub open spec fn spec_on_piece(pre: Engine, post: Engine, acts: Seq<Action>, p: Seq<u8>) -> bool {
    if p.len() < 8 {
        spec_fail(pre, post, acts, EngineError::Protocol(ProtocolError::InvalidBlock))
    } else {
        let pidx = crate::message::spec_u32_from_be(p.subrange(0, 4));
        let pbegin = crate::message::spec_u32_from_be(p.subrange(4, 8));
        let block = p.skip(8);
        let target = pre.buffer.piece_length as int;
        let rv = recv_views(pre.buffer.received@);
        if pidx != pre.current || !block_fits(
            pre.buffer.received@,
            target,
            pbegin as int,
            block.len() as int,
        ) {
            spec_fail(pre, post, acts, EngineError::Protocol(ProtocolError::InvalidBlock))
        } else {
            let rv2 = view_insert(rv, (pbegin, block));
            if view_sum(rv2) == target {
                let data = view_assemble(rv2);
                if sha1_of(data) == pre.buffer.expected_hash@ {
                    &&& acts.len() == 3
                    &&& acts[0] matches Action::Commit { index, data: d } && index == pre.current
                        && d@ == data
                    &&& acts[1] == Action::SendHave(pre.current)
                    &&& spec_begin_piece(pre, post, acts.skip(2), pre.current as int + 1)
                } else {
                    &&& same_config(pre, post)
                    &&& post.bitfield == pre.bitfield
                    &&& post.current == pre.current
                    &&& post.offset == pre.offset
                    &&& post.state == EngineState::Failed
                    &&& post.buffer.index == pre.buffer.index
                    &&& post.buffer.piece_length == pre.buffer.piece_length
                    &&& post.buffer.expected_hash == pre.buffer.expected_hash
                    &&& recv_views(post.buffer.received@) == rv2
                    &&& acts == seq![
                        Action::Fail(
                            EngineError::Verification(
                                VerificationError::HashMismatch { index: pre.current },
                            ),
                        ),
                    ]
                }
            } else {
                &&& same_config(pre, post)
                &&& post.bitfield == pre.bitfield
                &&& post.current == pre.current
                &&& post.buffer.index == pre.buffer.index
                &&& post.buffer.piece_length == pre.buffer.piece_length
                &&& post.buffer.expected_hash == pre.buffer.expected_hash
                &&& recv_views(post.buffer.received@) == rv2
                &&& if pre.offset < target {
                    let len = spec_request_len(target, pre.offset as int);
                    &&& post.state == EngineState::AwaitingBlock
                    &&& post.offset == pre.offset + len
                    &&& acts == seq![
                        Action::SendRequest {
                            index: pre.current,
                            begin: pre.offset,
                            length: len as u32,
                        },
                    ]
                } else {
                    &&& post.offset == pre.offset
                    &&& post.state == EngineState::Failed
                    &&& acts == seq![
                        Action::Fail(EngineError::Protocol(ProtocolError::InvalidBlock)),
                    ]
                }
            }
        }
    }
}

/// The whole transition relation of one engine step, exact in every case.
pub open spec fn spec_step(pre: Engine, ev: Event, post: Engine, acts: Seq<Action>) -> bool {
    match pre.state {
        EngineState::Connecting => match ev {
            Event::Connected => {
                &&& same_config(pre, post)
                &&& post.bitfield == pre.bitfield
                &&& post.current == pre.current
                &&& post.offset == pre.offset
                &&& post.buffer == pre.buffer
                &&& post.state == EngineState::Handshaking
                &&& acts.len() == 1
                &&& acts[0] matches Action::SendHandshake(h) && h.length == 19 && h.pstr@
                    == crate::handshake::protocol_name() && h.extensions@ == Seq::new(
                    8,
                    |i: int| 0u8,
                ) && h.info_hash@ == pre.info_hash@ && h.peer_id@ == pre.peer_id@
            },
            _ => spec_fail(
                pre,
                post,
                acts,
                EngineError::Protocol(ProtocolError::UnexpectedMessage),
            ),
        },
        EngineState::Handshaking => match ev {
            Event::HandshakeReceived(h) => {
                if h.length == 19 && h.pstr@ == crate::handshake::protocol_name() {
                    if h.info_hash@ == pre.info_hash@ {
                        &&& same_config(pre, post)
                        &&& post.bitfield == pre.bitfield
                        &&& post.current == pre.current
                        &&& post.offset == pre.offset
                        &&& post.buffer == pre.buffer
                        &&& post.state == EngineState::AwaitingBitfield
                        &&& acts == seq![Action::SendInterested]
                    } else {
                        spec_fail(
                            pre,
                            post,
                            acts,
                            EngineError::Protocol(ProtocolError::InfoHashMismatch),
                        )
                    }
                } else {
                    spec_fail(
                        pre,
                        post,
                        acts,
                        EngineError::Protocol(ProtocolError::UnsupportedProtocol),
                    )
                }
            },
            _ => spec_fail(
                pre,
                post,
                acts,
                EngineError::Protocol(ProtocolError::UnexpectedMessage),
            ),
        },
        EngineState::AwaitingBitfield => match ev {
            Event::FrameReceived(f) => match f {
                crate::message::Frame::KeepAlive => post == pre && acts == Seq::<Action>::empty(),
                crate::message::Frame::Msg(m) => {
                    if m.id == crate::message::MessageType::Bitfield {
                        &&& post == Engine {
                            state: EngineState::AwaitingUnchoke,
                            bitfield: Some(m.payload),
                            ..pre
                        }
                        &&& acts == Seq::<Action>::empty()
                    } else if m.id == crate::message::MessageType::Unchoke {
                        spec_begin_piece(pre, post, acts, pre.current as int)
                    } else if m.id == crate::message::MessageType::Have {
                        spec_record_have(pre, post, m.payload@) && acts == Seq::<Action>::empty()
                    } else if m.id == crate::message::MessageType::Choke {
                        post == pre && acts == Seq::<Action>::empty()
                    } else {
                        spec_fail(
                            pre,
                            post,
                            acts,
                            EngineError::Protocol(ProtocolError::UnexpectedMessage),
                        )
                    }
                },
            },
            _ => spec_fail(
                pre,
                post,
                acts,
                EngineError::Protocol(ProtocolError::UnexpectedMessage),
            ),
        },
        EngineState::AwaitingUnchoke => match ev {
            Event::FrameReceived(f) => match f {
                crate::message::Frame::KeepAlive => post == pre && acts == Seq::<Action>::empty(),
                crate::message::Frame::Msg(m) => {
                    if m.id == crate::message::MessageType::Unchoke {
                        spec_begin_piece(pre, post, acts, pre.current as int)
                    } else if m.id == crate::message::MessageType::Have {
                        spec_record_have(pre, post, m.payload@) && acts == Seq::<Action>::empty()
                    } else if m.id == crate::message::MessageType::Choke {
                        post == pre && acts == Seq::<Action>::empty()
                    } else {
                        spec_fail(
                            pre,
                            post,
                            acts,
                            EngineError::Protocol(ProtocolError::UnexpectedMessage),
                        )
                    }
                },
            },
            _ => spec_fail(
                pre,
                post,
                acts,
                EngineError::Protocol(ProtocolError::UnexpectedMessage),
            ),
        },
        EngineState::AwaitingBlock => match ev {
            Event::FrameReceived(f) => match f {
                crate::message::Frame::KeepAlive => post == pre && acts == Seq::<Action>::empty(),
                crate::message::Frame::Msg(m) => {
                    if m.id == crate::message::MessageType::Piece {
                        spec_on_piece(pre, post, acts, m.payload@)
                    } else if m.id == crate::message::MessageType::Have {
                        spec_record_have(pre, post, m.payload@) && acts == Seq::<Action>::empty()
                    } else {
                        spec_fail(
                            pre,
                            post,
                            acts,
                            EngineError::Protocol(ProtocolError::UnexpectedMessage),
                        )
                    }
                },
            },
            _ => spec_fail(
                pre,
                post,
                acts,
                EngineError::Protocol(ProtocolError::UnexpectedMessage),
            ),
        },
        EngineState::Done => post == pre && acts == Seq::<Action>::empty(),
        EngineState::Failed => post == pre && acts == Seq::<Action>::empty(),
    }
}


impl Engine {
    /// A fresh engine for one torrent and one connection, not yet
    /// connected.
    pub fn new(
        info_hash: [u8; 20],
        peer_id: [u8; 20],
        piece_length: u32,
        total_length: u32,
        pieces: Vec<u8>,
    ) -> (r: Engine)
        requires
            piece_length > 0,
            pieces@.len() == 20 * spec_num_pieces(total_length, piece_length),
        ensures
            eng_wf(r),
            r.info_hash == info_hash,
            r.peer_id == peer_id,
            r.piece_length == piece_length,
            r.total_length == total_length,
            r.pieces == pieces,
            r.state == EngineState::Connecting,
            r.current == 0,
            r.offset == 0,
            r.bitfield is None,
    {
        Engine {
            info_hash,
            peer_id,
            piece_length,
            total_length,
            pieces,
            state: EngineState::Connecting,
            current: 0,
            offset: 0,
            buffer: PieceBuffer::new(0, vstd::array::array_fill_for_copy_types(0u8), 0),
            bitfield: None,
        }
    }

    /// A fresh engine for a parsed metainfo document, with this client's
    /// peer id; the info hash is computed from the info fields.
    pub fn from_metainfo(m: &crate::metainfo::Metainfo, peer_id: [u8; 20]) -> (r: Engine)
        requires
            m.info.piece_length > 0,
            m.info.pieces@.len() % 20 == 0,
            (m.info.length + m.info.piece_length - 1) / (m.info.piece_length as int)
                == m.info.pieces@.len() as int / 20,
        ensures
            eng_wf(r),
            r.info_hash@ == sha1_of(
                crate::bencode::spec_encode(
                    crate::metainfo::spec_info_value(
                        vstd::utf8::encode_utf8(m.info.name@),
                        m.info.piece_length as int,
                        m.info.length as int,
                        m.info.pieces@,
                    ),
                ),
            ),
            r.peer_id == peer_id,
            r.piece_length == m.info.piece_length,
            r.total_length == m.info.length,
            r.pieces@ == m.info.pieces@,
            r.state == EngineState::Connecting,
            r.current == 0,
    {
        let ih = m.get_info_hash();
        let mut pieces: Vec<u8> = Vec::new();
        crate::bencode::push_bytes(&mut pieces, m.info.pieces.as_slice());
        proof {
            assert(pieces@.len() == 20 * spec_num_pieces(m.info.length, m.info.piece_length)) by {
                assert(m.info.pieces@.len() as int / 20 * 20 + m.info.pieces@.len() as int % 20
                    == m.info.pieces@.len());
            }
        }
        Engine::new(ih, peer_id, m.info.piece_length, m.info.length, pieces)
    }

    /// How many pieces the file has.
    fn num_pieces(&self) -> (r: u32)
        requires
            self.piece_length > 0,
        ensures
            r as int == spec_num_pieces(self.total_length, self.piece_length),
    {
        let t = self.total_length as u64;
        let p = self.piece_length as u64;
        let n = (t + p - 1) / p;
        proof {
            if t == 0 {
                assert((t as int + p - 1) / (p as int) == 0) by (nonlinear_arith)
                    requires
                        t == 0,
                        p >= 1,
                ;
            } else {
                assert((t as int + p - 1) / (p as int) <= t) by (nonlinear_arith)
                    requires
                        p >= 1,
                        t >= 1,
                ;
            }
        }
        n as u32
    }

    /// The byte length of the piece at `idx`.
    fn piece_size_at(&self, idx: u32) -> (r: u32)
        requires
            self.piece_length > 0,
            (idx as int) < spec_num_pieces(self.total_length, self.piece_length),
        ensures
            r as int == spec_piece_size(self.total_length, self.piece_length, idx as int),
            1 <= r <= self.piece_length,
    {
        let t = self.total_length as u64;
        let p = self.piece_length as u64;
        proof {
            let num = spec_num_pieces(self.total_length, self.piece_length);
            assert((idx as int) * (p as int) < t as int) by (nonlinear_arith)
                requires
                    p >= 1,
                    0 <= idx as int <= num - 1,
                    num == (t as int + p - 1) / (p as int),
            ;
        }
        let start = idx as u64 * p;
        let rem = t - start;
        if p <= rem {
            self.piece_length
        } else {
            rem as u32
        }
    }

    /// Stops the engine with this error; the one reported action.
    fn fail_with(&mut self, err: EngineError) -> (r: Vec<Action>)
        ensures
            spec_fail(*old(self), *final(self), r@, err),
    {
        self.state = EngineState::Failed;
        let mut acts: Vec<Action> = Vec::new();
        acts.push(Action::Fail(err));
        proof {
            assert(acts@ =~= seq![Action::Fail(err)]);
        }
        acts
    }

    /// Records a Have payload into the bitfield, when one is recorded and
    /// the named piece lies within it; anything else changes nothing.
    fn record_have(&mut self, payload: &Vec<u8>)
        ensures
            spec_record_have(*old(self), *final(self), payload@),
    {
        if payload.len() != 4 {
            return ;
        }
        let idx = crate::message::u32_from_be_at(payload.as_slice(), 0);
        proof {
            assert(payload@.subrange(0, 4) =~= payload@.take(4));
        }
        let byte_i = (idx / 8) as usize;
        let mask: u8 = 1u8 << ((7 - idx % 8) as u8);
        let nb_opt: Option<Vec<u8>> = match &self.bitfield {
            Some(b) => {
                if byte_i < b.len() {
                    let n = b.len();
                    let mut nb: Vec<u8> = Vec::new();
                    let mut k: usize = 0;
                    while k < n
                        invariant
                            0 <= k <= n,
                            n == b@.len(),
                            byte_i < n,
                            nb@.len() == k,
                            forall|m: int|
                                0 <= m < k ==> #[trigger] nb@[m] == if m == byte_i {
                                    (b@[m] | mask) as u8
                                } else {
                                    b@[m]
                                },
                        decreases n - k,
                    {
                        if k == byte_i {
                            nb.push(b[k] | mask);
                        } else {
                            nb.push(b[k]);
                        }
                        k += 1;
                    }
                    proof {
                        assert(nb@ =~= b@.update(byte_i as int, (b@[byte_i as int] | mask) as u8));
                    }
                    Some(nb)
                } else {
                    return ;
                }
            },
            None => {
                return ;
            },
        };
        self.bitfield = nb_opt;
    }

    /// Turns to the piece at `self.current`: requests its first block, or
    /// reports the transfer finished when no piece remains.
    fn begin_next_piece(&mut self) -> (r: Vec<Action>)
        requires
            old(self).piece_length > 0,
            old(self).pieces@.len() == 20 * spec_num_pieces(
                old(self).total_length,
                old(self).piece_length,
            ),
            old(self).current as int <= spec_num_pieces(
                old(self).total_length,
                old(self).piece_length,
            ),
        ensures
            spec_begin_piece(*old(self), *final(self), r@, old(self).current as int),
            eng_wf(*final(self)),
    {
        let num = self.num_pieces();
        if self.current < num {
            let target = self.piece_size_at(self.current);
            let plen = self.pieces.len();
            proof {
                assert(20 * (self.current as int) + 20 <= self.pieces@.len());
            }
            let start = 20 * (self.current as usize);
            let mut eh: [u8; 20] = vstd::array::array_fill_for_copy_types(0u8);
            let mut i: usize = 0;
            while i < 20
                invariant
                    0 <= i <= 20,
                    start + 20 <= self.pieces@.len(),
                    self.pieces@.len() <= usize::MAX,
                    eh@.len() == 20,
                    forall|m: int| 0 <= m < i ==> eh@[m] == self.pieces@[start + m],
                decreases 20 - i,
            {
                eh[i] = self.pieces[start + i];
                i += 1;
            }
            proof {
                assert(eh@ =~= self.pieces@.subrange(
                    20 * (self.current as int),
                    20 * (self.current as int) + 20,
                ));
            }
            self.buffer = PieceBuffer::new(self.current, eh, target);
            let len = if target > BLOCK_SIZE {
                BLOCK_SIZE
            } else {
                target
            };
            self.offset = len;
            self.state = EngineState::AwaitingBlock;
            let mut acts: Vec<Action> = Vec::new();
            acts.push(Action::SendRequest { index: self.current, begin: 0, length: len });
            proof {
                assert(acts@ =~= seq![
                    Action::SendRequest { index: self.current, begin: 0, length: len },
                ]);
            }
            acts
        } else {
            self.state = EngineState::Done;
            let mut acts: Vec<Action> = Vec::new();
            acts.push(Action::Finished);
            proof {
                assert(acts@ =~= seq![Action::Finished]);
            }
            acts
        }
    }

    /// One engine step: consumes one event and returns, in order, the
    /// actions the transport layer must perform. The exact outcome for
    /// every state and event is [`spec_step`]; the engine invariant is
    /// kept.
    pub fn step(&mut self, event: Event) -> (r: Vec<Action>)
        requires
            eng_wf(*old(self)),
        ensures
            eng_wf(*final(self)),
            spec_step(*old(self), event, *final(self), r@),
    {
        match self.state {
            EngineState::Connecting => match event {
                Event::Connected => {
                    let h = crate::handshake::Handshake::new(self.info_hash, self.peer_id);
                    self.state = EngineState::Handshaking;
                    let mut acts: Vec<Action> = Vec::new();
                    acts.push(Action::SendHandshake(h));
                    acts
                },
                _ => self.fail_with(EngineError::Protocol(ProtocolError::UnexpectedMessage)),
            },
            EngineState::Handshaking => match event {
                Event::HandshakeReceived(h) => match h.validate(&self.info_hash) {
                    Ok(()) => {
                        self.state = EngineState::AwaitingBitfield;
                        let mut acts: Vec<Action> = Vec::new();
                        acts.push(Action::SendInterested);
                        proof {
                            assert(acts@ =~= seq![Action::SendInterested]);
                        }
                        acts
                    },
                    Err(e) => self.fail_with(EngineError::Protocol(e)),
                },
                _ => self.fail_with(EngineError::Protocol(ProtocolError::UnexpectedMessage)),
            },
            EngineState::AwaitingBitfield => match event {
                Event::FrameReceived(f) => match f {
                    crate::message::Frame::KeepAlive => Vec::new(),
                    crate::message::Frame::Msg(m) => {
                        if matches!(m.id, crate::message::MessageType::Bitfield) {
                            self.bitfield = Some(m.payload);
                            self.state = EngineState::AwaitingUnchoke;
                            Vec::new()
                        } else if matches!(m.id, crate::message::MessageType::Unchoke) {
                            self.begin_next_piece()
                        } else if matches!(m.id, crate::message::MessageType::Have) {
                            self.record_have(&m.payload);
                            Vec::new()
                        } else if matches!(m.id, crate::message::MessageType::Choke) {
                            Vec::new()
                        } else {
                            self.fail_with(
                                EngineError::Protocol(ProtocolError::UnexpectedMessage),
                            )
                        }
                    },
                },
                _ => self.fail_with(EngineError::Protocol(ProtocolError::UnexpectedMessage)),
            },
            EngineState::AwaitingUnchoke => match event {
                Event::FrameReceived(f) => match f {
                    crate::message::Frame::KeepAlive => Vec::new(),
                    crate::message::Frame::Msg(m) => {
                        if matches!(m.id, crate::message::MessageType::Unchoke) {
                            self.begin_next_piece()
                        } else if matches!(m.id, crate::message::MessageType::Have) {
                            self.record_have(&m.payload);
                            Vec::new()
                        } else if matches!(m.id, crate::message::MessageType::Choke) {
                            Vec::new()
                        } else {
                            self.fail_with(
                                EngineError::Protocol(ProtocolError::UnexpectedMessage),
                            )
                        }
                    },
                },
                _ => self.fail_with(EngineError::Protocol(ProtocolError::UnexpectedMessage)),
            },
            EngineState::AwaitingBlock => match event {
                Event::FrameReceived(f) => match f {
                    crate::message::Frame::KeepAlive => Vec::new(),
                    crate::message::Frame::Msg(m) => {
                        if matches!(m.id, crate::message::MessageType::Piece) {
                            self.on_piece(&m.payload)
                        } else if matches!(m.id, crate::message::MessageType::Have) {
                            self.record_have(&m.payload);
                            Vec::new()
                        } else {
                            self.fail_with(
                                EngineError::Protocol(ProtocolError::UnexpectedMessage),
                            )
                        }
                    },
                },
                _ => self.fail_with(EngineError::Protocol(ProtocolError::UnexpectedMessage)),
            },
            EngineState::Done => Vec::new(),
            EngineState::Failed => Vec::new(),
        }
    }

    /// Handles a Piece payload while a request is outstanding; see
    /// [`spec_on_piece`].
    fn on_piece(&mut self, payload: &Vec<u8>) -> (r: Vec<Action>)
        requires
            eng_wf(*old(self)),
            old(self).state == EngineState::AwaitingBlock,
        ensures
            eng_wf(*final(self)),
            spec_on_piece(*old(self), *final(self), r@, payload@),
    {
        let (pidx, pbegin, block) = match crate::message::parse_piece_payload(
            payload.as_slice(),
        ) {
            Ok(x) => x,
            Err(_) => {
                return self.fail_with(EngineError::Protocol(ProtocolError::InvalidBlock));
            },
        };
        if pidx != self.current {
            return self.fail_with(EngineError::Protocol(ProtocolError::InvalidBlock));
        }
        let ghost rv0 = self.buffer.received@;
        let ghost bv = block;
        let ghost target = self.buffer.piece_length as int;
        match self.buffer.insert_block(pbegin, block) {
            Err(_) => {
                return self.fail_with(EngineError::Protocol(ProtocolError::InvalidBlock));
            },
            Ok(()) => {},
        }
        proof {
            lemma_insert_views(rv0, (pbegin, bv));
            lemma_sum_views(self.buffer.received@);
            lemma_insert_block_sum(rv0, (pbegin, bv));
            lemma_sum_views(rv0);
        }
        let total = self.buffer.total_received();
        if total == self.buffer.piece_length {
            let data = self.buffer.assemble();
            proof {
                lemma_assemble_views(self.buffer.received@);
            }
            if verify_piece(data.as_slice(), &self.buffer.expected_hash) {
                let idx = self.current;
                let np = self.num_pieces();
                proof {
                    assert(idx < np);
                }
                let mut acts: Vec<Action> = Vec::new();
                acts.push(Action::Commit { index: idx, data });
                acts.push(Action::SendHave(idx));
                self.current = idx + 1;
                let mut more = self.begin_next_piece();
                let ghost more0 = more@;
                acts.append(&mut more);
                proof {
                    assert(acts@.skip(2) =~= more0);
                }
                acts
            } else {
                let idx = self.current;
                self.fail_with(
                    EngineError::Verification(VerificationError::HashMismatch { index: idx }),
                )
            }
        } else {
            if self.offset < self.buffer.piece_length {
                let tlen = self.buffer.piece_length;
                let remaining = tlen - self.offset;
                let len = if remaining > BLOCK_SIZE {
                    BLOCK_SIZE
                } else {
                    remaining
                };
                let b0 = self.offset;
                self.offset = b0 + len;
                let mut acts: Vec<Action> = Vec::new();
                acts.push(Action::SendRequest { index: self.current, begin: b0, length: len });
                proof {
                    assert(acts@ =~= seq![
                        Action::SendRequest { index: self.current, begin: b0, length: len },
                    ]);
                }
                acts
            } else {
                self.fail_with(EngineError::Protocol(ProtocolError::InvalidBlock))
            }
        }
    }
}

} // verus!
