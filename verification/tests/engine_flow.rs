use bittorrent::engine::{Action, Engine, EngineError, EngineState, Event};
use bittorrent::errors::{ProtocolError, VerificationError};
use bittorrent::handshake::Handshake;
use bittorrent::message::{Frame, Message, MessageType};
use bittorrent::metainfo::Metainfo;
use sha1::{Digest, Sha1};

const INFO_HASH: [u8; 20] = [7u8; 20];
const PEER_ID: [u8; 20] = *b"-DE203s-x49Ta1Q*sgGQ";

fn frame(id: MessageType, payload: Vec<u8>) -> Event {
    Event::FrameReceived(Frame::Msg(Message { id, payload }))
}

fn piece_frame(index: u32, begin: u32, block: &[u8]) -> Event {
    let mut payload = Vec::new();
    payload.extend_from_slice(&index.to_be_bytes());
    payload.extend_from_slice(&begin.to_be_bytes());
    payload.extend_from_slice(block);
    frame(MessageType::Piece, payload)
}

fn data_of(len: usize) -> Vec<u8> {
    (0..len).map(|i| (i * 31 % 251) as u8).collect()
}

fn engine_for(data: &[u8], piece_length: u32) -> Engine {
    let n = data.len() as u32;
    let mut pieces = Vec::new();
    let mut at = 0usize;
    while at < data.len() {
        let end = (at + piece_length as usize).min(data.len());
        let d: [u8; 20] = Sha1::digest(&data[at..end]).into();
        pieces.extend_from_slice(&d);
        at = end;
    }
    Engine::new(INFO_HASH, PEER_ID, piece_length, n, pieces)
}

/// Drives a fresh engine through connect, handshake, bitfield and unchoke.
fn warmed_up(data: &[u8], piece_length: u32) -> Engine {
    let mut eng = engine_for(data, piece_length);
    let acts = eng.step(Event::Connected);
    assert_eq!(acts.len(), 1);
    match &acts[0] {
        Action::SendHandshake(h) => {
            assert_eq!(&h.serialize()[28..48], &INFO_HASH[..]);
        }
        other => panic!("expected a handshake send, got {:?}", other),
    }
    let acts = eng.step(Event::HandshakeReceived(Handshake::new(INFO_HASH, [2u8; 20])));
    assert_eq!(acts, vec![Action::SendInterested]);
    let acts = eng.step(frame(MessageType::Bitfield, vec![0xff]));
    assert!(acts.is_empty());
    acts_empty_keepalive(&mut eng);
    eng
}

fn acts_empty_keepalive(eng: &mut Engine) {
    let acts = eng.step(Event::FrameReceived(Frame::KeepAlive));
    assert!(acts.is_empty());
}

#[test]
fn downloads_one_piece_in_two_blocks() {
    let data = data_of(20000);
    let mut eng = warmed_up(&data, 20000);
    let acts = eng.step(frame(MessageType::Unchoke, vec![]));
    assert_eq!(
        acts,
        vec![Action::SendRequest { index: 0, begin: 0, length: 16384 }]
    );
    let acts = eng.step(piece_frame(0, 0, &data[..16384]));
    assert_eq!(
        acts,
        vec![Action::SendRequest { index: 0, begin: 16384, length: 3616 }]
    );
    // a Have may interleave and is recorded, not an error
    let mut have = Vec::new();
    have.extend_from_slice(&0u32.to_be_bytes());
    let acts = eng.step(frame(MessageType::Have, have));
    assert!(acts.is_empty());
    let acts = eng.step(piece_frame(0, 16384, &data[16384..]));
    assert_eq!(acts.len(), 3);
    assert_eq!(acts[0], Action::Commit { index: 0, data: data.clone() });
    assert_eq!(acts[1], Action::SendHave(0));
    assert_eq!(acts[2], Action::Finished);
    assert_eq!(eng.state, EngineState::Done);
}

#[test]
fn downloads_two_pieces_in_sequence() {
    let data = data_of(20000);
    // pieces of 16384: one whole block, then a short last piece
    let mut eng = warmed_up(&data, 16384);
    let acts = eng.step(frame(MessageType::Unchoke, vec![]));
    assert_eq!(
        acts,
        vec![Action::SendRequest { index: 0, begin: 0, length: 16384 }]
    );
    let acts = eng.step(piece_frame(0, 0, &data[..16384]));
    assert_eq!(acts.len(), 3);
    assert_eq!(
        acts[0],
        Action::Commit { index: 0, data: data[..16384].to_vec() }
    );
    assert_eq!(acts[1], Action::SendHave(0));
    assert_eq!(
        acts[2],
        Action::SendRequest { index: 1, begin: 0, length: 3616 }
    );
    let acts = eng.step(piece_frame(1, 0, &data[16384..]));
    assert_eq!(acts.len(), 3);
    assert_eq!(
        acts[0],
        Action::Commit { index: 1, data: data[16384..].to_vec() }
    );
    assert_eq!(acts[1], Action::SendHave(1));
    assert_eq!(acts[2], Action::Finished);
    assert_eq!(eng.state, EngineState::Done);
}

#[test]
fn corrupt_piece_fails_the_transfer() {
    let data = data_of(100);
    let mut eng = warmed_up(&data, 16384);
    let acts = eng.step(frame(MessageType::Unchoke, vec![]));
    assert_eq!(
        acts,
        vec![Action::SendRequest { index: 0, begin: 0, length: 100 }]
    );
    let mut corrupt = data.clone();
    corrupt[3] ^= 1;
    let acts = eng.step(piece_frame(0, 0, &corrupt));
    assert_eq!(
        acts,
        vec![Action::Fail(EngineError::Verification(
            VerificationError::HashMismatch { index: 0 }
        ))]
    );
    assert_eq!(eng.state, EngineState::Failed);
}

#[test]
fn wrong_info_hash_aborts_the_connection() {
    let data = data_of(100);
    let mut eng = engine_for(&data, 16384);
    eng.step(Event::Connected);
    let acts = eng.step(Event::HandshakeReceived(Handshake::new([8u8; 20], [2u8; 20])));
    assert_eq!(
        acts,
        vec![Action::Fail(EngineError::Protocol(
            ProtocolError::InfoHashMismatch
        ))]
    );
    assert_eq!(eng.state, EngineState::Failed);
}

#[test]
fn out_of_turn_message_is_a_protocol_error() {
    let data = data_of(100);
    let mut eng = warmed_up(&data, 16384);
    eng.step(frame(MessageType::Unchoke, vec![]));
    // a Request from the peer while a block is awaited
    let acts = eng.step(frame(MessageType::Request, vec![0; 12]));
    assert_eq!(
        acts,
        vec![Action::Fail(EngineError::Protocol(
            ProtocolError::UnexpectedMessage
        ))]
    );
    assert_eq!(eng.state, EngineState::Failed);
}

#[test]
fn engine_from_parsed_metainfo() {
    let data = data_of(100);
    let digest: [u8; 20] = Sha1::digest(&data).into();
    let mut doc = Vec::new();
    doc.extend_from_slice(b"d8:announce7:http://4:infod6:lengthi100e4:name1:x");
    doc.extend_from_slice(b"12:piece lengthi16384e6:pieces20:");
    doc.extend_from_slice(&digest);
    doc.extend_from_slice(b"ee");
    let m = Metainfo::from_bytes(&doc).unwrap();
    let mut eng = Engine::from_metainfo(&m, PEER_ID);
    assert_eq!(eng.info_hash, m.get_info_hash());
    eng.step(Event::Connected);
    let acts = eng.step(Event::HandshakeReceived(Handshake::new(
        m.get_info_hash(),
        [2u8; 20],
    )));
    assert_eq!(acts, vec![Action::SendInterested]);
    let acts = eng.step(frame(MessageType::Unchoke, vec![]));
    assert_eq!(
        acts,
        vec![Action::SendRequest { index: 0, begin: 0, length: 100 }]
    );
    let acts = eng.step(piece_frame(0, 0, &data));
    assert_eq!(acts[0], Action::Commit { index: 0, data });
    assert_eq!(eng.state, EngineState::Done);
}
