use bittorrent::engine::{verify_piece, PieceBuffer};
use bittorrent::errors::ProtocolError;
use sha1::{Digest, Sha1};

fn digest_of(data: &[u8]) -> [u8; 20] {
    Sha1::digest(data).into()
}

#[test]
fn known_digest_verifies() {
    // the well-known SHA-1 of "abc"
    let expected = [
        0xa9u8, 0x99, 0x3e, 0x36, 0x47, 0x06, 0x81, 0x6a, 0xba, 0x3e, 0x25, 0x71, 0x78, 0x50,
        0xc2, 0x6c, 0x9c, 0xd0, 0xd8, 0x9d,
    ];
    assert!(verify_piece(b"abc", &expected));
    assert!(!verify_piece(b"abd", &expected));
    assert!(!verify_piece(b"", &expected));
}

#[test]
fn blocks_in_any_order_reassemble_and_verify() {
    let data: Vec<u8> = (0..200u8).chain(0..200u8).collect();
    let expected = digest_of(&data);
    let mut buf = PieceBuffer::new(0, expected, data.len() as u32);
    // supply the four 100-byte blocks out of order
    for begin in [300usize, 0, 200, 100] {
        assert!(!buf.is_complete());
        let block = data[begin..begin + 100].to_vec();
        buf.insert_block(begin as u32, block).unwrap();
    }
    assert!(buf.is_complete());
    let assembled = buf.assemble();
    assert_eq!(assembled, data);
    assert!(verify_piece(&assembled, &expected));
}

#[test]
fn a_flipped_byte_fails_verification() {
    let data: Vec<u8> = (0..100u8).collect();
    let expected = digest_of(&data);
    let mut corrupted = data.clone();
    corrupted[57] ^= 0x01;
    let mut buf = PieceBuffer::new(0, expected, data.len() as u32);
    buf.insert_block(0, corrupted[..50].to_vec()).unwrap();
    buf.insert_block(50, corrupted[50..].to_vec()).unwrap();
    assert!(buf.is_complete());
    let assembled = buf.assemble();
    assert!(!verify_piece(&assembled, &expected));
    assert!(verify_piece(&data, &expected));
}

#[test]
fn overlapping_and_out_of_range_blocks_rejected() {
    let mut buf = PieceBuffer::new(0, [0u8; 20], 100);
    buf.insert_block(10, vec![1; 30]).unwrap();
    // duplicate offset
    assert_eq!(
        buf.insert_block(10, vec![2; 5]),
        Err(ProtocolError::InvalidBlock)
    );
    // straddles an existing block
    assert_eq!(
        buf.insert_block(35, vec![2; 10]),
        Err(ProtocolError::InvalidBlock)
    );
    assert_eq!(
        buf.insert_block(0, vec![2; 11]),
        Err(ProtocolError::InvalidBlock)
    );
    // beyond the piece
    assert_eq!(
        buf.insert_block(95, vec![2; 6]),
        Err(ProtocolError::InvalidBlock)
    );
    // empty
    assert_eq!(buf.insert_block(50, vec![]), Err(ProtocolError::InvalidBlock));
    // adjacent blocks are fine
    buf.insert_block(0, vec![3; 10]).unwrap();
    buf.insert_block(40, vec![4; 60]).unwrap();
    assert!(buf.is_complete());
}
