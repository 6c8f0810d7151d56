use bittorrent::errors::ProtocolError;
use bittorrent::message::{parse_piece_payload, Frame, Message, MessageType, _has_piece};

fn round_trip(id: MessageType, payload: Vec<u8>) {
    let m = Message { id, payload: payload.clone() };
    let bytes = m.serialize();
    assert_eq!(bytes.len(), payload.len() + 5);
    match Message::deserialize(&bytes).unwrap() {
        Frame::Msg(back) => {
            assert_eq!(back.id, id);
            assert_eq!(back.payload, payload);
        }
        Frame::KeepAlive => panic!("a message frame must not come back as a keep-alive"),
    }
}

#[test]
fn every_id_round_trips() {
    round_trip(MessageType::Choke, vec![]);
    round_trip(MessageType::Unchoke, vec![]);
    round_trip(MessageType::Interested, vec![]);
    round_trip(MessageType::NotInterested, vec![]);
    round_trip(MessageType::Have, vec![0, 0, 0, 9]);
    round_trip(MessageType::Bitfield, vec![0b1010_0000, 0xff]);
    round_trip(MessageType::Request, vec![0; 12]);
    round_trip(MessageType::Piece, b"\x00\x00\x00\x01\x00\x00\x40\x00block".to_vec());
    round_trip(MessageType::Cancel, vec![1; 12]);
}

#[test]
fn maximum_size_bitfield_round_trips() {
    // one bit per piece for a very large torrent: 2^16 pieces
    let mut bits = vec![0u8; 8192];
    bits[0] = 0b1000_0000;
    let last = bits.len() - 1;
    bits[last] = 1;
    round_trip(MessageType::Bitfield, bits);
}

#[test]
fn request_message_wire_shape() {
    // a Request for index 0, begin 0, length 16384: 17 bytes in all
    let m = Message::request(0, 0, 16384);
    let bytes = m.serialize();
    assert_eq!(bytes.len(), 17);
    assert_eq!(&bytes[0..4], &[0, 0, 0, 13]);
    assert_eq!(bytes[4], 6);
    assert_eq!(
        &bytes[5..17],
        &[0, 0, 0, 0, 0, 0, 0, 0, 0x00, 0x00, 0x40, 0x00]
    );
}

#[test]
fn zero_length_frame_is_keep_alive() {
    let frame = [0u8, 0, 0, 0];
    match Message::deserialize(&frame).unwrap() {
        Frame::KeepAlive => {}
        Frame::Msg(m) => panic!("a zero-length frame must not dispatch as id {:?}", m.id),
    }
}

#[test]
fn unknown_id_is_a_typed_error() {
    assert_eq!(MessageType::from_u8(9), Err(ProtocolError::UnknownMessageId));
    assert_eq!(MessageType::from_u8(200), Err(ProtocolError::UnknownMessageId));
    assert_eq!(MessageType::from_u8(6), Ok(MessageType::Request));
    // a whole frame carrying an unknown id
    let frame = [0u8, 0, 0, 1, 42];
    assert_eq!(
        Message::deserialize(&frame),
        Err(ProtocolError::UnknownMessageId)
    );
}

#[test]
fn builders_produce_expected_payloads() {
    let i = Message::interested();
    assert_eq!(i.id, MessageType::Interested);
    assert!(i.payload.is_empty());
    let h = Message::have(0x0102_0304);
    assert_eq!(h.id, MessageType::Have);
    assert_eq!(h.payload, vec![1, 2, 3, 4]);
}

#[test]
fn piece_payload_fields() {
    let mut p = vec![0, 0, 0, 2, 0, 0, 0x40, 0];
    p.extend_from_slice(b"data!");
    let (index, begin, block) = parse_piece_payload(&p).unwrap();
    assert_eq!(index, 2);
    assert_eq!(begin, 16384);
    assert_eq!(block, b"data!".to_vec());
    assert_eq!(
        parse_piece_payload(&[0, 0, 0]),
        Err(ProtocolError::InvalidBlock)
    );
}

#[test]
fn bitfield_bit_lookup() {
    // piece 0 is the most significant bit of the first byte
    let bf = vec![0b1000_0001u8, 0b0100_0000];
    assert!(_has_piece(&bf, 0));
    assert!(!_has_piece(&bf, 1));
    assert!(_has_piece(&bf, 7));
    assert!(!_has_piece(&bf, 8));
    assert!(_has_piece(&bf, 9));
    assert!(!_has_piece(&bf, 15));
}
