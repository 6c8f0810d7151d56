//! Error taxonomy of the client: lexical bencode failures, structural
//! metainfo failures, peer-protocol violations, transport failures and piece
//! verification failures are kept apart so that callers can react to each.

use vstd::prelude::*;

verus! {

/// Malformed bencode lexical structure.
#[derive(Clone, Copy, Debug, PartialEq, Eq, Structural)]
pub enum DecodeError {
    /// The input ended before the value was complete.
    Truncated,
    /// A list or dictionary was not closed with an `e` terminator.
    UnterminatedAggregate,
    /// An integer or length token violates the lexical rules (no digits,
    /// leading zero, bare `-0`, or a value outside the signed 64-bit range).
    MalformedInteger,
    /// A dictionary key that is not a byte string.
    InvalidKey,
    /// Bytes remained after the top-level value of a whole document.
    TrailingBytes,
}

/// Well-formed bencode that does not describe a valid torrent.
#[derive(Clone, Copy, Debug, PartialEq, Eq, Structural)]
pub enum MetainfoError {
    /// The document is not bencode at all.
    Decode(DecodeError),
    /// A required field is missing or has the wrong bencode shape.
    Structure,
    /// `announce` or `info.name` is not a byte string holding UTF-8 text.
    InvalidText,
    /// `piece length` is missing, non-positive or beyond 32 bits.
    InvalidPieceLength,
    /// `length` is missing, non-positive or beyond 32 bits.
    InvalidLength,
    /// `pieces` is not a byte string whose length is a multiple of 20.
    InvalidPieces,
    /// The number of 20-byte hashes does not match `ceil(length / piece length)`.
    PieceCountMismatch,
}

/// A peer that does not follow the wire protocol.
#[derive(Clone, Copy, Debug, PartialEq, Eq, Structural)]
pub enum ProtocolError {
    /// The handshake does not name the expected protocol.
    UnsupportedProtocol,
    /// The handshake echoes a different info hash than the one sent.
    InfoHashMismatch,
    /// A message id outside the known range 0 through 8.
    UnknownMessageId,
    /// A message that must not arrive in the current protocol state.
    UnexpectedMessage,
    /// A `Piece` block that does not fit the piece being downloaded.
    InvalidBlock,
}

/// A transport failure; produced by the I/O layer around this crate.
#[derive(Clone, Copy, Debug, PartialEq, Eq, Structural)]
pub enum NetworkError {
    /// The connection closed in the middle of a frame or handshake.
    ConnectionClosed,
}

/// A downloaded piece whose SHA-1 digest does not match the metainfo.
#[derive(Clone, Copy, Debug, PartialEq, Eq, Structural)]
pub enum VerificationError {
    /// The piece at this index hashed to an unexpected value.
    HashMismatch { index: u32 },
}

} // verus!
