use bittorrent::bencode::{decode, decode_prefix, encode, BencodeValue};
use bittorrent::errors::DecodeError;

fn bs(s: &[u8]) -> BencodeValue {
    BencodeValue::ByteString(s.to_vec())
}

#[test]
fn integer_round_trip() {
    for v in [0i64, 5, -42, 1234567890, i64::MAX, i64::MIN] {
        let enc = encode(&BencodeValue::Integer(v));
        assert_eq!(decode(&enc).unwrap(), BencodeValue::Integer(v));
    }
    assert_eq!(encode(&BencodeValue::Integer(5)), b"i5e".to_vec());
    assert_eq!(encode(&BencodeValue::Integer(-42)), b"i-42e".to_vec());
    assert_eq!(encode(&BencodeValue::Integer(0)), b"i0e".to_vec());
    assert_eq!(
        encode(&BencodeValue::Integer(i64::MIN)),
        b"i-9223372036854775808e".to_vec()
    );
}

#[test]
fn byte_string_round_trip() {
    for s in [&b""[..], b"spam", b"with:colon", b"\x00\xff\x01"] {
        let enc = encode(&bs(s));
        assert_eq!(decode(&enc).unwrap(), bs(s));
    }
    assert_eq!(encode(&bs(b"spam")), b"4:spam".to_vec());
    assert_eq!(encode(&bs(b"")), b"0:".to_vec());
}

#[test]
fn list_round_trip() {
    let v = BencodeValue::List(vec![
        BencodeValue::Integer(3),
        bs(b"ab"),
        BencodeValue::List(vec![]),
    ]);
    let enc = encode(&v);
    assert_eq!(enc, b"li3e2:ablee".to_vec());
    assert_eq!(decode(&enc).unwrap(), v);
}

#[test]
fn dictionary_round_trip() {
    let v = BencodeValue::Dictionary(vec![
        (b"cow".to_vec(), bs(b"moo")),
        (b"spam".to_vec(), bs(b"eggs")),
    ]);
    let enc = encode(&v);
    assert_eq!(enc, b"d3:cow3:moo4:spam4:eggse".to_vec());
    assert_eq!(decode(&enc).unwrap(), v);
}

#[test]
fn nested_dictionary_round_trip() {
    let inner = BencodeValue::Dictionary(vec![
        (b"a".to_vec(), BencodeValue::Integer(-1)),
        (b"b".to_vec(), BencodeValue::List(vec![bs(b"x")])),
    ]);
    let v = BencodeValue::Dictionary(vec![(b"k".to_vec(), inner)]);
    let enc = encode(&v);
    assert_eq!(decode(&enc).unwrap(), v);
}

#[test]
fn scrambled_dictionaries_encode_identically() {
    let a = BencodeValue::Dictionary(vec![
        (b"zebra".to_vec(), BencodeValue::Integer(1)),
        (b"apple".to_vec(), bs(b"red")),
        (b"mango".to_vec(), BencodeValue::Integer(7)),
    ]);
    let b = BencodeValue::Dictionary(vec![
        (b"mango".to_vec(), BencodeValue::Integer(7)),
        (b"zebra".to_vec(), BencodeValue::Integer(1)),
        (b"apple".to_vec(), bs(b"red")),
    ]);
    let ea = encode(&a);
    let eb = encode(&b);
    assert_eq!(ea, eb);
    assert_eq!(ea, b"d5:apple3:red5:mangoi7e5:zebrai1ee".to_vec());
}

#[test]
fn scrambled_keys_accepted_and_reencoded_sorted() {
    let doc = b"d4:spam4:eggs3:cow3:mooe";
    let v = decode(doc).unwrap();
    // decoding keeps the stored order
    match &v {
        BencodeValue::Dictionary(d) => {
            assert_eq!(d[0].0, b"spam".to_vec());
            assert_eq!(d[1].0, b"cow".to_vec());
        }
        _ => panic!("expected a dictionary"),
    }
    // re-encoding emits canonical sorted order
    assert_eq!(encode(&v), b"d3:cow3:moo4:spam4:eggse".to_vec());
}

#[test]
fn malformed_integers_rejected() {
    assert!(matches!(decode(b"i03e"), Err(DecodeError::MalformedInteger)));
    assert!(matches!(decode(b"i-0e"), Err(DecodeError::MalformedInteger)));
    assert!(matches!(decode(b"i-01e"), Err(DecodeError::MalformedInteger)));
    assert!(matches!(decode(b"ie"), Err(DecodeError::MalformedInteger)));
    assert!(matches!(decode(b"i-e"), Err(DecodeError::MalformedInteger)));
    // one past i64::MAX
    assert!(decode(b"i9223372036854775808e").is_err());
    // exactly i64::MIN still parses
    assert_eq!(
        decode(b"i-9223372036854775808e").unwrap(),
        BencodeValue::Integer(i64::MIN)
    );
}

#[test]
fn malformed_lengths_rejected() {
    assert!(decode(b"01:a").is_err());
    assert!(matches!(decode(b"4:ab"), Err(DecodeError::Truncated)));
    assert!(decode(b":ab").is_err());
}

#[test]
fn unterminated_aggregates_rejected() {
    assert!(matches!(
        decode(b"li5e"),
        Err(DecodeError::UnterminatedAggregate)
    ));
    assert!(matches!(
        decode(b"d3:cow3:moo"),
        Err(DecodeError::UnterminatedAggregate)
    ));
    assert!(matches!(decode(b""), Err(DecodeError::Truncated)));
}

#[test]
fn non_string_dictionary_key_rejected() {
    assert!(matches!(
        decode(b"di5ei6ee"),
        Err(DecodeError::InvalidKey)
    ));
}

#[test]
fn trailing_bytes_rejected_for_whole_documents() {
    assert!(matches!(decode(b"i5ex"), Err(DecodeError::TrailingBytes)));
}

#[test]
fn embedded_value_tolerates_trailing_bytes() {
    let (v, consumed) = decode_prefix(b"i5eextra").unwrap();
    assert_eq!(v, BencodeValue::Integer(5));
    assert_eq!(consumed, 3);
}
