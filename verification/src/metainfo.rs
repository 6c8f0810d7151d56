//! The metainfo model: the typed view over a decoded torrent document and
//! the SHA-1 info hash derived from it.
//!
//! A metainfo document is a bencoded dictionary with an `announce` byte
//! string and an `info` dictionary holding `name`, `piece length`,
//! `length` and `pieces`; the info hash is the SHA-1 of the canonical
//! re-encoding of that info dictionary.

use vstd::prelude::*;

use crate::bencode;
use crate::bencode::{BValue, BencodeValue};
use crate::digest::sha1_of;
use crate::errors::MetainfoError;

verus! {

/// The typed fields of the `info` dictionary.
#[derive(Debug, PartialEq, Eq)]
pub struct Info {
    /// Suggested name to save the file as.
    pub name: String,
    /// Number of bytes in each piece the file is split into; the last
    /// piece may be shorter.
    pub piece_length: u32,
    /// Length of the whole file in bytes.
    pub length: u32,
    /// The concatenated 20-byte SHA-1 digests of the pieces, in order.
    pub pieces: Vec<u8>,
}

/// A parsed metainfo document: the tracker URL and the info fields.
#[derive(Debug, PartialEq, Eq)]
pub struct Metainfo {
    /// The URL of the tracker.
    pub announce: String,
    /// The description of the shared file.
    pub info: Info,
}

/// The value of the first entry with key `k`, if any.
pub open spec fn dict_get(d: Seq<(Seq<u8>, BValue)>, k: Seq<u8>) -> Option<BValue>
    decreases d.len(),
{
    if d.len() == 0 {
        None
    } else if d[0].0 == k {
        Some(d[0].1)
    } else {
        dict_get(d.drop_first(), k)
    }
}

/// The bytes of `announce`.
pub open spec fn key_announce() -> Seq<u8> {
    seq![97u8, 110u8, 110u8, 111u8, 117u8, 110u8, 99u8, 101u8]
}

/// The bytes of `info`.
pub open spec fn key_info() -> Seq<u8> {
    seq![105u8, 110u8, 102u8, 111u8]
}

/// The bytes of `name`.
pub open spec fn key_name() -> Seq<u8> {
    seq![110u8, 97u8, 109u8, 101u8]
}

/// The bytes of `piece length`.
pub open spec fn key_piece_length() -> Seq<u8> {
    seq![112u8, 105u8, 101u8, 99u8, 101u8, 32u8, 108u8, 101u8, 110u8, 103u8, 116u8, 104u8]
}

/// The bytes of `length`.
pub open spec fn key_length() -> Seq<u8> {
    seq![108u8, 101u8, 110u8, 103u8, 116u8, 104u8]
}

/// The bytes of `pieces`.
pub open spec fn key_pieces() -> Seq<u8> {
    seq![112u8, 105u8, 101u8, 99u8, 101u8, 115u8]
}

/// The five raw fields a well-shaped metainfo document decodes to:
/// announce bytes, name bytes, piece length, length, pieces bytes.
pub open spec fn spec_metainfo_fields(s: Seq<u8>) -> Option<(Seq<u8>, Seq<u8>, int, int, Seq<u8>)> {
    match bencode::spec_decode(s) {
        Some(BValue::Dict(top)) => match (dict_get(top, key_announce()), dict_get(
            top,
            key_info(),
        )) {
            (Some(BValue::Bytes(a)), Some(BValue::Dict(inf))) => match (
                dict_get(inf, key_name()),
                dict_get(inf, key_piece_length()),
                dict_get(inf, key_length()),
                dict_get(inf, key_pieces()),
            ) {
                (
                    Some(BValue::Bytes(nm)),
                    Some(BValue::Int(pl)),
                    Some(BValue::Int(ln)),
                    Some(BValue::Bytes(ps)),
                ) => Some((a, nm, pl, ln, ps)),
                _ => None,
            },
            _ => None,
        },
        _ => None,
    }
}

/// The numeric side conditions on a well-shaped document: positive sizes
/// that fit 32 bits, whole 20-byte hashes, and exactly one hash for each
/// of the `ceil(length / piece length)` pieces.
pub open spec fn spec_metainfo_valid(pl: int, ln: int, ps: Seq<u8>) -> bool {
    &&& 0 < pl <= u32::MAX
    &&& 0 < ln <= u32::MAX
    &&& ps.len() % 20 == 0
    &&& (ln + pl - 1) / pl == ps.len() as int / 20
}

/// Relies on `core::str::from_utf8`: succeeds exactly on valid UTF-8 and
/// yields its decoded characters.
#[verifier::external_body]
fn utf8_to_string(b: &[u8]) -> (r: Option<String>)
    ensures
        r matches Some(s) ==> vstd::utf8::valid_utf8(b@) && s@ == vstd::utf8::decode_utf8(b@),
        r is None ==> !vstd::utf8::valid_utf8(b@),
{
    match core::str::from_utf8(b) {
        Ok(s) => Some(s.to_string()),
        Err(_) => None,
    }
}

/// First entry with key `k` in a decoded dictionary, if any.
pub(crate) fn dict_find<'a>(d: &'a Vec<(Vec<u8>, BencodeValue)>, k: &[u8]) -> (r: Option<&'a BencodeValue>)
    ensures
        r matches Some(v) ==> dict_get(bencode::raw_views(d@), k@) == Some(v@),
        r is None <==> dict_get(bencode::raw_views(d@), k@) is None,
{
    let ghost rv = bencode::raw_views(d@);
    let n = d.len();
    let mut i: usize = 0;
    while i < n
        invariant
            0 <= i <= n,
            n == d@.len(),
            rv == bencode::raw_views(d@),
            forall|m: int| 0 <= m < i ==> (#[trigger] rv[m]).0 != k@,
        decreases n - i,
    {
        if crate::handshake::eq_bytes(d[i].0.as_slice(), k) {
            proof {
                lemma_dict_get_at(rv, k@, i as int);
            }
            return Some(&d[i].1);
        }
        i += 1;
    }
    proof {
        lemma_dict_get_none(rv, k@);
    }
    None
}

/// Lookup finds the first entry whose key matches.
proof fn lemma_dict_get_at(d: Seq<(Seq<u8>, BValue)>, k: Seq<u8>, i: int)
    requires
        0 <= i < d.len(),
        d[i].0 == k,
        forall|m: int| 0 <= m < i ==> (#[trigger] d[m]).0 != k,
    ensures
        dict_get(d, k) == Some(d[i].1),
    decreases i,
{
    if i > 0 {
        lemma_dict_get_at(d.drop_first(), k, i - 1);
    }
}

/// Lookup fails when no key matches.
proof fn lemma_dict_get_none(d: Seq<(Seq<u8>, BValue)>, k: Seq<u8>)
    requires
        forall|m: int| 0 <= m < d.len() ==> (#[trigger] d[m]).0 != k,
    ensures
        dict_get(d, k) is None,
    decreases d.len(),
{
    if d.len() > 0 {
        lemma_dict_get_none(d.drop_first(), k);
    }
}

/// The bencode value of an info dictionary rebuilt from its fields, with
/// its keys already in canonical sorted order.
pub open spec fn spec_info_value(nm: Seq<u8>, pl: int, ln: int, ps: Seq<u8>) -> BValue {
    BValue::Dict(
        seq![
            (key_length(), BValue::Int(ln)),
            (key_name(), BValue::Bytes(nm)),
            (key_piece_length(), BValue::Int(pl)),
            (key_pieces(), BValue::Bytes(ps)),
        ],
    )
}

/// The four keys of an info dictionary stand in strictly ascending order.
pub proof fn lemma_info_keys_sorted()
    ensures
        bencode::lex_lt(key_length(), key_name()),
        bencode::lex_lt(key_name(), key_piece_length()),
        bencode::lex_lt(key_piece_length(), key_pieces()),
{
    assert(bencode::lex_lt(key_length(), key_name()));
    assert(bencode::lex_lt(key_name(), key_piece_length()));
    let a = key_piece_length();
    let b = key_pieces();
    bencode::lemma_lex_lt_common_prefix(a, b, 5);
    assert(a.skip(5)[0] == 32u8 && b.skip(5)[0] == 115u8);
    assert(bencode::lex_lt(a.skip(5), b.skip(5)));
}

/// An info value rebuilt from fields is already canonical.
pub proof fn lemma_info_value_canonical(nm: Seq<u8>, pl: int, ln: int, ps: Seq<u8>)
    ensures
        bencode::canon(spec_info_value(nm, pl, ln, ps)) == spec_info_value(nm, pl, ln, ps),
{
    let v = spec_info_value(nm, pl, ln, ps);
    let d = v->Dict_0;
    lemma_info_keys_sorted();
    assert forall|i: int, j: int| 0 <= i < j < d.len() implies bencode::lex_lt(
        d[i].0,
        d[j].0,
    ) by {
        lemma_info_keys_sorted();
        if i == 0 && j == 2 {
            bencode::lemma_lex_lt_trans(key_length(), key_name(), key_piece_length());
        }
        if i == 0 && j == 3 {
            bencode::lemma_lex_lt_trans(key_length(), key_name(), key_piece_length());
            bencode::lemma_lex_lt_trans(key_length(), key_piece_length(), key_pieces());
        }
        if i == 1 && j == 3 {
            bencode::lemma_lex_lt_trans(key_name(), key_piece_length(), key_pieces());
        }
    }
    assert(bencode::canonical(v)) by {
        assert(forall|i: int| 0 <= i < d.len() ==> bencode::canonical((#[trigger] d[i]).1));
    }
    bencode::lemma_canon_id(v);
}

impl Metainfo {
    /// Parses a whole metainfo document: decodes the bencode, extracts
    /// and checks the typed fields. Fails on malformed bencode, on a
    /// missing or ill-shaped field, on announce or name bytes that are
    /// not UTF-8 text, on sizes that are not positive 32-bit values, on a
    /// `pieces` length that is not a multiple of 20, and on a hash count
    /// different from the piece count that `length` and `piece length`
    /// imply.
    pub fn from_bytes(bytes: &[u8]) -> (r: Result<Metainfo, MetainfoError>)
        ensures
            r matches Ok(m) ==> spec_metainfo_fields(bytes@) matches Some(f) && {
                &&& vstd::utf8::valid_utf8(f.0)
                &&& m.announce@ == vstd::utf8::decode_utf8(f.0)
                &&& vstd::utf8::valid_utf8(f.1)
                &&& m.info.name@ == vstd::utf8::decode_utf8(f.1)
                &&& m.info.piece_length as int == f.2
                &&& m.info.length as int == f.3
                &&& m.info.pieces@ == f.4
                &&& spec_metainfo_valid(f.2, f.3, f.4)
            },
            spec_metainfo_fields(bytes@) is None ==> r is Err,
            spec_metainfo_fields(bytes@) matches Some(f) && !spec_metainfo_valid(f.2, f.3, f.4)
                ==> r is Err,
            spec_metainfo_fields(bytes@) matches Some(f) && spec_metainfo_valid(f.2, f.3, f.4)
                && vstd::utf8::valid_utf8(f.0) && vstd::utf8::valid_utf8(f.1) ==> r is Ok,
    {
        let top = match bencode::decode(bytes) {
            Ok(v) => v,
            Err(e) => {
                return Err(MetainfoError::Decode(e));
            },
        };
        let entries = match &top {
            BencodeValue::Dictionary(d) => d,
            _ => {
                return Err(MetainfoError::Structure);
            },
        };
        let announce_bytes = match dict_find(entries, vec![97u8, 110, 110, 111, 117, 110, 99, 101].as_slice()) {
            Some(BencodeValue::ByteString(b)) => b,
            _ => {
                return Err(MetainfoError::Structure);
            },
        };
        let info_entries = match dict_find(entries, vec![105u8, 110, 102, 111].as_slice()) {
            Some(BencodeValue::Dictionary(d)) => d,
            _ => {
                return Err(MetainfoError::Structure);
            },
        };
        let name_bytes = match dict_find(info_entries, vec![110u8, 97, 109, 101].as_slice()) {
            Some(BencodeValue::ByteString(b)) => b,
            _ => {
                return Err(MetainfoError::Structure);
            },
        };
        let piece_length_raw = match dict_find(
            info_entries,
            vec![112u8, 105, 101, 99, 101, 32, 108, 101, 110, 103, 116, 104].as_slice(),
        ) {
            Some(BencodeValue::Integer(i)) => *i,
            _ => {
                return Err(MetainfoError::Structure);
            },
        };
        let length_raw = match dict_find(
            info_entries,
            vec![108u8, 101, 110, 103, 116, 104].as_slice(),
        ) {
            Some(BencodeValue::Integer(i)) => *i,
            _ => {
                return Err(MetainfoError::Structure);
            },
        };
        let pieces_vec = match dict_find(
            info_entries,
            vec![112u8, 105, 101, 99, 101, 115].as_slice(),
        ) {
            Some(BencodeValue::ByteString(b)) => b,
            _ => {
                return Err(MetainfoError::Structure);
            },
        };
        if piece_length_raw <= 0 || piece_length_raw > u32::MAX as i64 {
            return Err(MetainfoError::InvalidPieceLength);
        }
        if length_raw <= 0 || length_raw > u32::MAX as i64 {
            return Err(MetainfoError::InvalidLength);
        }
        if pieces_vec.len() % 20 != 0 {
            return Err(MetainfoError::InvalidPieces);
        }
        let piece_length = piece_length_raw as u32;
        let length = length_raw as u32;
        let expected_pieces = (length as u64 + piece_length as u64 - 1) / piece_length as u64;
        if expected_pieces != (pieces_vec.len() / 20) as u64 {
            return Err(MetainfoError::PieceCountMismatch);
        }
        let announce = match utf8_to_string(announce_bytes.as_slice()) {
            Some(s) => s,
            None => {
                return Err(MetainfoError::InvalidText);
            },
        };
        let name = match utf8_to_string(name_bytes.as_slice()) {
            Some(s) => s,
            None => {
                return Err(MetainfoError::InvalidText);
            },
        };
        let mut pieces: Vec<u8> = Vec::new();
        crate::bencode::push_bytes(&mut pieces, pieces_vec.as_slice());
        Ok(Metainfo { announce, info: Info { name, piece_length, length, pieces } })
    }

    /// The 20-byte SHA-1 info hash: the digest of the canonical bencode
    /// re-encoding of the info dictionary. A pure function of the info
    /// fields: equal fields always hash alike.
    pub fn get_info_hash(&self) -> (r: [u8; 20])
        ensures
            r@ == sha1_of(
                bencode::spec_encode(
                    spec_info_value(
                        vstd::utf8::encode_utf8(self.info.name@),
                        self.info.piece_length as int,
                        self.info.length as int,
                        self.info.pieces@,
                    ),
                ),
            ),
    {
        self.info.info_hash()
    }
}

impl Info {
    /// The 20-byte SHA-1 info hash of these info fields; see
    /// [`Metainfo::get_info_hash`].
    pub fn info_hash(&self) -> (r: [u8; 20])
        ensures
            r@ == sha1_of(
                bencode::spec_encode(
                    spec_info_value(
                        vstd::utf8::encode_utf8(self.name@),
                        self.piece_length as int,
                        self.length as int,
                        self.pieces@,
                    ),
                ),
            ),
    {
        let mut name_bytes: Vec<u8> = Vec::new();
        crate::bencode::push_bytes(&mut name_bytes, self.name.as_str().as_bytes());
        let mut pieces_bytes: Vec<u8> = Vec::new();
        crate::bencode::push_bytes(&mut pieces_bytes, self.pieces.as_slice());
        let mut entries: Vec<(Vec<u8>, BencodeValue)> = Vec::new();
        entries.push(
            (vec![108u8, 101, 110, 103, 116, 104], BencodeValue::Integer(self.length as i64)),
        );
        entries.push((vec![110u8, 97, 109, 101], BencodeValue::ByteString(name_bytes)));
        entries.push(
            (
                vec![112u8, 105, 101, 99, 101, 32, 108, 101, 110, 103, 116, 104],
                BencodeValue::Integer(self.piece_length as i64),
            ),
        );
        entries.push(
            (vec![112u8, 105, 101, 99, 101, 115], BencodeValue::ByteString(pieces_bytes)),
        );
        let value = BencodeValue::Dictionary(entries);
        let ghost target = spec_info_value(
            vstd::utf8::encode_utf8(self.name@),
            self.piece_length as int,
            self.length as int,
            self.pieces@,
        );
        proof {
            assert(bencode::raw_views(value->Dictionary_0@) =~= target->Dict_0);
            assert(bencode::bval(value) == target);
            lemma_info_value_canonical(
                vstd::utf8::encode_utf8(self.name@),
                self.piece_length as int,
                self.length as int,
                self.pieces@,
            );
        }
        let encoded = bencode::encode(&value);
        crate::digest::sha1(encoded.as_slice())
    }

    /// How many pieces the `pieces` field holds hashes for.
    pub fn piece_count(&self) -> (r: usize)
        ensures
            r == self.pieces@.len() / 20,
    {
        self.pieces.len() / 20
    }

    /// The 20-byte expected hash of the piece at `index`.
    pub fn piece_hash(&self, index: usize) -> (r: [u8; 20])
        requires
            index < self.pieces@.len() / 20,
        ensures
            r@ == self.pieces@.subrange(20 * index as int, 20 * index as int + 20),
    {
        let plen = self.pieces.len();
        proof {
            assert(20 * (index as int) + 20 <= plen) by {
                assert(plen as int / 20 * 20 <= plen);
            }
        }
        let start = 20 * index;
        let mut a: [u8; 20] = vstd::array::array_fill_for_copy_types(0u8);
        let mut i: usize = 0;
        while i < 20
            invariant
                0 <= i <= 20,
                start == 20 * index,
                start + 20 <= self.pieces@.len(),
                self.pieces@.len() <= usize::MAX,
                a@.len() == 20,
                forall|m: int| 0 <= m < i ==> a@[m] == self.pieces@[start + m],
            decreases 20 - i,
        {
            a[i] = self.pieces[start + i];
            i += 1;
        }
        proof {
            assert(a@ =~= self.pieces@.subrange(20 * index as int, 20 * index as int + 20));
        }
        a
    }

    /// All expected piece hashes, in piece order: a finite, re-iterable
    /// sequence of `pieces.len() / 20` slices.
    pub fn piece_hashes(&self) -> (r: Vec<[u8; 20]>)
        ensures
            r@.len() == self.pieces@.len() / 20,
            forall|j: int|
                0 <= j < r@.len() ==> (#[trigger] r@[j])@ == self.pieces@.subrange(
                    20 * j,
                    20 * j + 20,
                ),
    {
        let n = self.piece_count();
        let mut out: Vec<[u8; 20]> = Vec::new();
        let mut j: usize = 0;
        while j < n
            invariant
                0 <= j <= n,
                n == self.pieces@.len() / 20,
                out@.len() == j,
                forall|m: int|
                    0 <= m < j ==> (#[trigger] out@[m])@ == self.pieces@.subrange(
                        20 * m,
                        20 * m + 20,
                    ),
            decreases n - j,
        {
            out.push(self.piece_hash(j));
            j += 1;
        }
        out
    }
}

/// Law: the canonical info encoding is injective on its fields: two info
/// dictionaries that encode to the same bytes agree on every field, so a
/// change to any field, such as `piece length`, changes the bytes fed to
/// the digest.
pub proof fn lemma_info_encoding_injective(
    nm1: Seq<u8>,
    pl1: int,
    ln1: int,
    ps1: Seq<u8>,
    nm2: Seq<u8>,
    pl2: int,
    ln2: int,
    ps2: Seq<u8>,
)
    requires
        i64::MIN <= pl1 <= i64::MAX,
        i64::MIN <= ln1 <= i64::MAX,
        i64::MIN <= pl2 <= i64::MAX,
        i64::MIN <= ln2 <= i64::MAX,
        bencode::spec_encode(spec_info_value(nm1, pl1, ln1, ps1)) == bencode::spec_encode(
            spec_info_value(nm2, pl2, ln2, ps2),
        ),
    ensures
        nm1 == nm2,
        pl1 == pl2,
        ln1 == ln2,
        ps1 == ps2,
{
    let v1 = spec_info_value(nm1, pl1, ln1, ps1);
    let v2 = spec_info_value(nm2, pl2, ln2, ps2);
    assert(bencode::in_range(v1)) by {
        assert(forall|i: int|
            0 <= i < v1->Dict_0.len() ==> bencode::in_range((#[trigger] v1->Dict_0[i]).1));
    }
    assert(bencode::in_range(v2)) by {
        assert(forall|i: int|
            0 <= i < v2->Dict_0.len() ==> bencode::in_range((#[trigger] v2->Dict_0[i]).1));
    }
    bencode::lemma_decode_encode(v1);
    bencode::lemma_decode_encode(v2);
    assert(v1 == v2);
    assert(v1->Dict_0[0] == v2->Dict_0[0]);
    assert(v1->Dict_0[1] == v2->Dict_0[1]);
    assert(v1->Dict_0[2] == v2->Dict_0[2]);
    assert(v1->Dict_0[3] == v2->Dict_0[3]);
}

} // verus!
