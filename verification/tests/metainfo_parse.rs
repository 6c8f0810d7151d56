use bittorrent::errors::MetainfoError;
use bittorrent::metainfo::{Info, Metainfo};
use sha1::{Digest, Sha1};

/// A bencoded metainfo document with the given sizes and a zeroed
/// `pieces` string of `pieces_len` bytes.
fn fixture(name: &str, piece_length: u64, length: u64, pieces_len: usize) -> Vec<u8> {
    let mut doc = Vec::new();
    doc.extend_from_slice(b"d8:announce41:http://bttracker.debian.org:6969/announce4:info");
    doc.extend_from_slice(info_part(name, piece_length, length, pieces_len).as_slice());
    doc.push(b'e');
    doc
}

/// The canonical bencoding of the info dictionary alone.
fn info_part(name: &str, piece_length: u64, length: u64, pieces_len: usize) -> Vec<u8> {
    let mut doc = Vec::new();
    doc.extend_from_slice(format!("d6:lengthi{}e", length).as_bytes());
    doc.extend_from_slice(format!("4:name{}:{}", name.len(), name).as_bytes());
    doc.extend_from_slice(format!("12:piece lengthi{}e", piece_length).as_bytes());
    doc.extend_from_slice(format!("6:pieces{}:", pieces_len).as_bytes());
    doc.extend_from_slice(&vec![0u8; pieces_len]);
    doc.push(b'e');
    doc
}

#[test]
fn parses_fixture_metainfo() {
    // 400556032 / 262144 = 1528 pieces exactly, 1528 * 20 = 30560 hash bytes
    let doc = fixture("sample.iso", 262144, 400556032, 30560);
    let m = Metainfo::from_bytes(&doc).unwrap();
    assert_eq!(m.announce, "http://bttracker.debian.org:6969/announce");
    assert_eq!(m.info.name, "sample.iso");
    assert_eq!(m.info.piece_length, 262144);
    assert_eq!(m.info.length, 400556032);
    assert_eq!(m.info.pieces.len(), 30560);
    assert_eq!(m.info.piece_count(), 1528);
}

#[test]
fn piece_hashes_counts_twenty_byte_slices() {
    // a pieces string of 7640960 bytes yields 7640960 / 20 = 382048 hashes
    let info = Info {
        name: String::from("sample.iso"),
        piece_length: 262144,
        length: 400556032,
        pieces: vec![0u8; 7640960],
    };
    assert_eq!(info.piece_count(), 382048);
    let hashes = info.piece_hashes();
    assert_eq!(hashes.len(), 382048);
    assert_eq!(hashes[0], [0u8; 20]);
}

#[test]
fn piece_hashes_are_the_right_slices() {
    let mut pieces = Vec::new();
    for i in 0..3u8 {
        pieces.extend_from_slice(&[i; 20]);
    }
    let info = Info {
        name: String::from("x"),
        piece_length: 16384,
        length: 3 * 16384,
        pieces,
    };
    let hashes = info.piece_hashes();
    assert_eq!(hashes.len(), 3);
    assert_eq!(hashes[0], [0u8; 20]);
    assert_eq!(hashes[1], [1u8; 20]);
    assert_eq!(hashes[2], [2u8; 20]);
    assert_eq!(info.piece_hash(2), [2u8; 20]);
}

#[test]
fn info_hash_is_stable_and_content_sensitive() {
    let doc = fixture("sample.iso", 262144, 400556032, 30560);
    let a = Metainfo::from_bytes(&doc).unwrap();
    let b = Metainfo::from_bytes(&doc).unwrap();
    assert_eq!(a.get_info_hash(), b.get_info_hash());

    // the hash is the SHA-1 of the canonical info re-encoding
    let expected: [u8; 20] = Sha1::digest(info_part("sample.iso", 262144, 400556032, 30560))
        .into();
    assert_eq!(a.get_info_hash(), expected);

    // mutating piece length changes the hash: 200704 * 1996 = 400525024 < length,
    // so 1996 pieces of 200704 bytes need... use a consistent alternative instead
    let doc2 = fixture("sample.iso", 262144 * 2, 400556032, 15280);
    let c = Metainfo::from_bytes(&doc2).unwrap();
    assert_ne!(a.get_info_hash(), c.get_info_hash());
}

#[test]
fn non_canonical_key_order_still_hashes_canonically() {
    // the same info fields with keys in a scrambled (valid, non-canonical) order
    let mut doc = Vec::new();
    doc.extend_from_slice(b"d4:infod12:piece lengthi16384e6:pieces20:");
    doc.extend_from_slice(&[7u8; 20]);
    doc.extend_from_slice(b"4:name1:x6:lengthi100ee8:announce7:http://e");
    let m = Metainfo::from_bytes(&doc).unwrap();

    let mut canonical_info = Vec::new();
    canonical_info.extend_from_slice(b"d6:lengthi100e4:name1:x12:piece lengthi16384e6:pieces20:");
    canonical_info.extend_from_slice(&[7u8; 20]);
    canonical_info.push(b'e');
    let expected: [u8; 20] = Sha1::digest(&canonical_info).into();
    assert_eq!(m.get_info_hash(), expected);
}

#[test]
fn rejects_wrong_piece_count() {
    // 2 hashes for a single-piece file
    let doc = fixture("x", 16384, 100, 40);
    assert_eq!(
        Metainfo::from_bytes(&doc),
        Err(MetainfoError::PieceCountMismatch)
    );
}

#[test]
fn rejects_ragged_pieces_length() {
    let doc = fixture("x", 16384, 100, 21);
    assert_eq!(Metainfo::from_bytes(&doc), Err(MetainfoError::InvalidPieces));
}

#[test]
fn rejects_non_positive_sizes() {
    let doc = fixture("x", 0, 100, 20);
    assert_eq!(
        Metainfo::from_bytes(&doc),
        Err(MetainfoError::InvalidPieceLength)
    );
    let doc2 = fixture("x", 16384, 0, 20);
    assert_eq!(Metainfo::from_bytes(&doc2), Err(MetainfoError::InvalidLength));
}

#[test]
fn rejects_missing_fields_and_non_bencode() {
    assert!(matches!(
        Metainfo::from_bytes(b"i5e"),
        Err(MetainfoError::Structure)
    ));
    assert!(matches!(
        Metainfo::from_bytes(b"d8:announce4:http"),
        Err(MetainfoError::Decode(_))
    ));
    assert!(matches!(
        Metainfo::from_bytes(b"d8:announce4:httpe"),
        Err(MetainfoError::Structure)
    ));
}

#[test]
fn rejects_non_utf8_name() {
    let mut doc = Vec::new();
    doc.extend_from_slice(b"d8:announce7:http://4:infod6:lengthi100e4:name2:");
    doc.extend_from_slice(&[0xff, 0xfe]);
    doc.extend_from_slice(b"12:piece lengthi16384e6:pieces20:");
    doc.extend_from_slice(&[0u8; 20]);
    doc.extend_from_slice(b"ee");
    assert_eq!(Metainfo::from_bytes(&doc), Err(MetainfoError::InvalidText));
}

#[test]
fn decodes_multibyte_names() {
    // a name holding a two-byte UTF-8 character: caf\u{e9}
    let mut doc = Vec::new();
    doc.extend_from_slice(b"d8:announce7:http://4:infod6:lengthi100e4:name5:");
    doc.extend_from_slice("caf\u{e9}".as_bytes());
    doc.extend_from_slice(b"12:piece lengthi16384e6:pieces20:");
    doc.extend_from_slice(&[0u8; 20]);
    doc.extend_from_slice(b"ee");
    let m = Metainfo::from_bytes(&doc).unwrap();
    assert_eq!(m.info.name, "caf\u{e9}");
    assert_eq!(m.info.name.chars().count(), 4);
}
