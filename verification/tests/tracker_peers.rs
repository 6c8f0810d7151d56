use bittorrent::errors::DecodeError;
use bittorrent::tracker::{parse_compact_peers, TrackerResponse};

#[test]
fn compact_peers_decode_to_addresses() {
    let peers = [192u8, 168, 1, 1, 0x1a, 0xe1, 10, 0, 0, 5, 0x00, 0x50];
    let addrs = parse_compact_peers(&peers).unwrap();
    assert_eq!(addrs.len(), 2);
    assert_eq!(addrs[0].ip, [192, 168, 1, 1]);
    assert_eq!(addrs[0].port, 6881);
    assert_eq!(addrs[1].ip, [10, 0, 0, 5]);
    assert_eq!(addrs[1].port, 80);
}

#[test]
fn ragged_compact_peers_rejected() {
    let peers = [192u8, 168, 1, 1, 0x1a, 0xe1, 10];
    assert_eq!(parse_compact_peers(&peers), Err(DecodeError::Truncated));
}

#[test]
fn empty_compact_peers_decode_to_nothing() {
    let addrs = parse_compact_peers(&[]).unwrap();
    assert!(addrs.is_empty());
}

#[test]
fn tracker_response_parses() {
    let mut doc = Vec::new();
    doc.extend_from_slice(b"d8:intervali1800e5:peers12:");
    doc.extend_from_slice(&[192u8, 168, 1, 1, 0x1a, 0xe1, 10, 0, 0, 5, 0x00, 0x50]);
    doc.push(b'e');
    let r = TrackerResponse::from_bytes(&doc).unwrap();
    assert_eq!(r.interval, 1800);
    assert_eq!(r.peers.len(), 12);
    let addrs = parse_compact_peers(&r.peers).unwrap();
    assert_eq!(addrs[0].port, 6881);
}

#[test]
fn tracker_response_needs_both_fields() {
    assert!(TrackerResponse::from_bytes(b"d8:intervali1800ee").is_err());
    assert!(TrackerResponse::from_bytes(b"l5:peerse").is_err());
    assert!(TrackerResponse::from_bytes(b"garbage").is_err());
}
