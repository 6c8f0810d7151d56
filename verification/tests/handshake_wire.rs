use bittorrent::errors::ProtocolError;
use bittorrent::handshake::Handshake;

#[test]
fn serialized_handshake_is_68_bytes_in_fixed_layout() {
    let info_hash = [0xabu8; 20];
    let peer_id = *b"-DE203s-x49Ta1Q*sgGQ";
    let h = Handshake::new(info_hash, peer_id);
    let bytes = h.serialize();
    assert_eq!(bytes.len(), 68);
    assert_eq!(bytes[0], 19);
    assert_eq!(&bytes[1..20], b"BitTorrent protocol");
    assert_eq!(&bytes[20..28], &[0u8; 8]);
    assert_eq!(&bytes[28..48], &info_hash);
    assert_eq!(&bytes[48..68], &peer_id);
}

#[test]
fn handshake_round_trip() {
    let h = Handshake::new([7u8; 20], *b"-DE203s-x49Ta1Q*sgGQ");
    let bytes = h.serialize();
    let parsed = Handshake::deserialize(&bytes);
    assert_eq!(parsed, h);
}

#[test]
fn validate_accepts_matching_handshake() {
    let expected = [3u8; 20];
    let h = Handshake::new(expected, [9u8; 20]);
    assert!(h.validate(&expected).is_ok());
}

#[test]
fn validate_rejects_unknown_protocol() {
    let expected = [3u8; 20];
    let mut bytes = Handshake::new(expected, [9u8; 20]).serialize();
    bytes[1] = b'X';
    let h = Handshake::deserialize(&bytes);
    assert_eq!(
        h.validate(&expected),
        Err(ProtocolError::UnsupportedProtocol)
    );
    let mut bytes2 = Handshake::new(expected, [9u8; 20]).serialize();
    bytes2[0] = 18;
    let h2 = Handshake::deserialize(&bytes2);
    assert_eq!(
        h2.validate(&expected),
        Err(ProtocolError::UnsupportedProtocol)
    );
}

#[test]
fn validate_rejects_wrong_info_hash() {
    let h = Handshake::new([4u8; 20], [9u8; 20]);
    assert_eq!(
        h.validate(&[5u8; 20]),
        Err(ProtocolError::InfoHashMismatch)
    );
}
