//! The bencode codec: the canonical binary value format used for torrent
//! metadata and tracker replies.
//!
//! A value is an integer (`i<digits>e`), a byte string (`<len>:<bytes>`), a
//! list (`l...e`) or a dictionary (`d...e`) whose keys are byte strings.
//! Decoding accepts dictionary keys in any order and keeps that order;
//! encoding is canonical and always emits dictionary keys sorted ascending
//! by raw byte value.
//!
//! The mathematical model is [`BValue`]; [`spec_encode`] gives the exact
//! bytes of the canonical encoding of an already-canonical value, [`canon`]
//! sorts a value's dictionaries, and [`spec_parse_value`] is the exact
//! parsing relation. The round-trip and canonicality laws at the end of the
//! module tie them together.

use vstd::prelude::*;

use vstd::multiset::Multiset;

use crate::errors::DecodeError;

verus! {

/// An owned bencode value. Dictionaries keep their entries in the order in
/// which they were inserted or decoded; uniqueness or sortedness of keys is
/// stated separately ([`unique_keys`], [`canonical`]).
#[derive(Debug, PartialEq, Eq)]
pub enum BencodeValue {
    /// `i<digits>e`, a signed 64-bit integer.
    Integer(i64),
    /// `<len>:<bytes>`, raw bytes, not required to be UTF-8.
    ByteString(Vec<u8>),
    /// `l...e`, an ordered sequence of values.
    List(Vec<BencodeValue>),
    /// `d...e`, entries of byte-string key and value.
    Dictionary(Vec<(Vec<u8>, BencodeValue)>),
}

/// The mathematical shape of a bencode value, used by every contract in
/// this module. Integers are unbounded here; values that came from
/// [`BencodeValue`] always lie within the signed 64-bit range.
pub enum BValue {
    Int(int),
    Bytes(Seq<u8>),
    List(Seq<BValue>),
    Dict(Seq<(Seq<u8>, BValue)>),
}

/// The model of an exec value: integers widen, byte strings and aggregates
/// view their element vectors pointwise.
pub open spec fn bval(v: BencodeValue) -> BValue
    decreases v,
{
    match v {
        BencodeValue::Integer(i) => BValue::Int(i as int),
        BencodeValue::ByteString(b) => BValue::Bytes(b@),
        BencodeValue::List(l) => BValue::List(bval_seq(l@)),
        BencodeValue::Dictionary(d) => BValue::Dict(raw_views(d@)),
    }
}

/// The models of a sequence of exec values, pointwise.
pub open spec fn bval_seq(s: Seq<BencodeValue>) -> Seq<BValue>
    decreases s,
{
    Seq::new(s.len(), |i: int| if 0 <= i < s.len() { bval(s[i]) } else { BValue::Int(0) })
}

/// The entry models of an exec dictionary, in stored order.
pub open spec fn raw_views(d: Seq<(Vec<u8>, BencodeValue)>) -> Seq<(Seq<u8>, BValue)>
    decreases d,
{
    Seq::new(
        d.len(),
        |i: int|
            if 0 <= i < d.len() {
                (d[i].0@, bval(d[i].1))
            } else {
                (Seq::<u8>::empty(), BValue::Int(0))
            },
    )
}

impl View for BencodeValue {
    type V = BValue;

    open spec fn view(&self) -> BValue {
        bval(*self)
    }
}

/// `i` opens an integer.
pub const TOK_INT: u8 = 105;

/// `e` closes integers, lists and dictionaries.
pub const TOK_END: u8 = 101;

/// `l` opens a list.
pub const TOK_LIST: u8 = 108;

/// `d` opens a dictionary.
pub const TOK_DICT: u8 = 100;

/// `:` separates a byte string's length from its bytes.
pub const TOK_COLON: u8 = 58;

/// `-` signs a negative integer.
pub const TOK_MINUS: u8 = 45;

/// The decimal digits of a non-negative number, most significant first,
/// with no leading zeros.
pub open spec fn spec_digits(n: nat) -> Seq<u8>
    decreases n,
{
    if n < 10 {
        seq![(48 + n) as u8]
    } else {
        spec_digits(n / 10) + seq![(48 + n % 10) as u8]
    }
}

/// The bencode digits of a signed integer: a `-` sign exactly when the
/// value is negative, then the decimal digits of its magnitude.
pub open spec fn spec_int_bytes(i: int) -> Seq<u8> {
    if i < 0 {
        seq![TOK_MINUS] + spec_digits((-i) as nat)
    } else {
        spec_digits(i as nat)
    }
}

/// The encoding of a byte string: decimal length, `:`, then the bytes.
pub open spec fn spec_str_bytes(b: Seq<u8>) -> Seq<u8> {
    spec_digits(b.len()) + seq![TOK_COLON] + b
}

/// The canonical encoding of a value, emitting dictionary entries in their
/// stored order; [`canon`] is applied first wherever that order may be
/// unsorted.
pub open spec fn spec_encode(v: BValue) -> Seq<u8>
    decreases v,
{
    match v {
        BValue::Int(i) => seq![TOK_INT] + spec_int_bytes(i) + seq![TOK_END],
        BValue::Bytes(b) => spec_str_bytes(b),
        BValue::List(l) => seq![TOK_LIST] + spec_encode_list(l) + seq![TOK_END],
        BValue::Dict(d) => seq![TOK_DICT] + spec_encode_pairs(d) + seq![TOK_END],
    }
}

/// The concatenated encodings of the elements of a list.
pub open spec fn spec_encode_list(l: Seq<BValue>) -> Seq<u8>
    decreases l,
{
    if l.len() == 0 {
        Seq::empty()
    } else {
        spec_encode(l[0]) + spec_encode_list(l.drop_first())
    }
}

/// The concatenated `key value` encodings of dictionary entries, in their
/// stored order.
pub open spec fn spec_encode_pairs(d: Seq<(Seq<u8>, BValue)>) -> Seq<u8>
    decreases d,
{
    if d.len() == 0 {
        Seq::empty()
    } else {
        spec_str_bytes(d[0].0) + spec_encode(d[0].1) + spec_encode_pairs(d.drop_first())
    }
}

/// Strict byte-lexicographic order on byte strings: a proper prefix comes
/// before its extensions, and otherwise the first differing byte decides.
pub open spec fn lex_lt(a: Seq<u8>, b: Seq<u8>) -> bool
    decreases a.len(),
{
    if b.len() == 0 {
        false
    } else if a.len() == 0 {
        true
    } else if a[0] < b[0] {
        true
    } else if a[0] > b[0] {
        false
    } else {
        lex_lt(a.drop_first(), b.drop_first())
    }
}

/// Insertion of one entry into a key-sorted entry sequence: the entry goes
/// in front of the first strictly greater key.
pub open spec fn spec_insert_pair(p: (Seq<u8>, BValue), d: Seq<(Seq<u8>, BValue)>) -> Seq<
    (Seq<u8>, BValue),
>
    decreases d.len(),
{
    if d.len() == 0 {
        seq![p]
    } else if lex_lt(p.0, d[0].0) {
        seq![p] + d
    } else {
        seq![d[0]] + spec_insert_pair(p, d.drop_first())
    }
}

/// Insertion sort of dictionary entries by key.
pub open spec fn spec_sort_pairs(d: Seq<(Seq<u8>, BValue)>) -> Seq<(Seq<u8>, BValue)>
    decreases d.len(),
{
    if d.len() == 0 {
        d
    } else {
        spec_insert_pair(d[0], spec_sort_pairs(d.drop_first()))
    }
}

/// The canonical form of a value: every dictionary, at every depth, holds
/// its entries sorted ascending by key.
pub open spec fn canon(v: BValue) -> BValue
    decreases v,
{
    match v {
        BValue::Int(i) => BValue::Int(i),
        BValue::Bytes(b) => BValue::Bytes(b),
        BValue::List(l) => BValue::List(canon_seq(l)),
        BValue::Dict(d) => BValue::Dict(spec_sort_pairs(canon_pairs(d))),
    }
}

/// Canonical forms of a sequence of values, pointwise.
pub open spec fn canon_seq(l: Seq<BValue>) -> Seq<BValue>
    decreases l,
{
    Seq::new(l.len(), |i: int| if 0 <= i < l.len() { canon(l[i]) } else { BValue::Int(0) })
}

/// Entries with each value canonicalized, keys untouched.
pub open spec fn canon_pairs(s: Seq<(Seq<u8>, BValue)>) -> Seq<(Seq<u8>, BValue)>
    decreases s,
{
    Seq::new(
        s.len(),
        |i: int|
            if 0 <= i < s.len() {
                (s[i].0, canon(s[i].1))
            } else {
                (Seq::<u8>::empty(), BValue::Int(0))
            },
    )
}

/// No two entries share a key.
pub open spec fn unique_keys(d: Seq<(Seq<u8>, BValue)>) -> bool {
    forall|i: int, j: int| 0 <= i < j < d.len() ==> d[i].0 != d[j].0
}

/// Entry keys are strictly ascending.
pub open spec fn sorted_keys(d: Seq<(Seq<u8>, BValue)>) -> bool {
    forall|i: int, j: int| 0 <= i < j < d.len() ==> lex_lt(d[i].0, d[j].0)
}

/// A value is canonical when every dictionary in it has strictly ascending
/// keys; such a value is left unchanged by [`canon`].
pub open spec fn canonical(v: BValue) -> bool
    decreases v,
{
    match v {
        BValue::Int(_) => true,
        BValue::Bytes(_) => true,
        BValue::List(l) => forall|i: int| 0 <= i < l.len() ==> canonical(#[trigger] l[i]),
        BValue::Dict(d) => sorted_keys(d) && forall|i: int|
            0 <= i < d.len() ==> canonical(#[trigger] d[i].1),
    }
}

/// The entries selected by a sequence of indices, in that order.
pub open spec fn map_idx(ord: Seq<usize>, s: Seq<(Seq<u8>, BValue)>) -> Seq<(Seq<u8>, BValue)> {
    Seq::new(
        ord.len(),
        |j: int|
            if 0 <= j < ord.len() && 0 <= ord[j] < s.len() {
                s[ord[j] as int]
            } else {
                (Seq::<u8>::empty(), BValue::Int(0))
            },
    )
}

/// Every integer in the value fits the signed 64-bit range of
/// [`BencodeValue::Integer`].
pub open spec fn in_range(v: BValue) -> bool
    decreases v,
{
    match v {
        BValue::Int(i) => i64::MIN <= i <= i64::MAX,
        BValue::Bytes(_) => true,
        BValue::List(l) => forall|i: int| 0 <= i < l.len() ==> in_range(#[trigger] l[i]),
        BValue::Dict(d) => forall|i: int| 0 <= i < d.len() ==> in_range(#[trigger] d[i].1),
    }
}

/// An ASCII decimal digit.
pub open spec fn is_digit(c: u8) -> bool {
    48 <= c <= 57
}

/// How many leading bytes of `s` are decimal digits.
pub open spec fn digits_len(s: Seq<u8>) -> int
    decreases s.len(),
{
    if s.len() == 0 || !is_digit(s[0]) {
        0
    } else {
        1 + digits_len(s.drop_first())
    }
}

/// The value of the first `n` bytes of `s` read as decimal digits.
pub open spec fn digits_val(s: Seq<u8>, n: int) -> int
    decreases n,
{
    if n <= 0 {
        0
    } else {
        digits_val(s, n - 1) * 10 + (s[n - 1] - 48)
    }
}

/// A digit run is lexically valid when it is non-empty and has no leading
/// zero, except for the single digit `0` itself.
pub open spec fn valid_digits(s: Seq<u8>, n: int) -> bool {
    n >= 1 && (n == 1 || s[0] != 48)
}

/// The exact parse of an integer token `i<digits>e` at the front of `s`:
/// the value and the bytes consumed, or nothing if the token is malformed,
/// `-0`, zero-led, unterminated or outside the signed 64-bit range.
pub open spec fn spec_parse_int(s: Seq<u8>) -> Option<(BValue, int)> {
    let neg = s.len() >= 2 && s[1] == TOK_MINUS;
    let body = if neg {
        s.skip(2)
    } else {
        s.skip(1)
    };
    let dl = digits_len(body);
    if !valid_digits(body, dl) {
        None
    } else if neg && body[0] == 48 {
        None
    } else if dl >= body.len() || body[dl] != TOK_END {
        None
    } else {
        let m = digits_val(body, dl);
        let value = if neg {
            -m
        } else {
            m
        };
        if value < i64::MIN || value > i64::MAX {
            None
        } else {
            Some((BValue::Int(value), (if neg { 2int } else { 1int }) + dl + 1))
        }
    }
}

/// The exact parse of a byte string `<len>:<bytes>` at the front of `s`.
pub open spec fn spec_parse_str(s: Seq<u8>) -> Option<(Seq<u8>, int)> {
    let dl = digits_len(s);
    if !valid_digits(s, dl) {
        None
    } else if dl >= s.len() || s[dl] != TOK_COLON {
        None
    } else {
        let len = digits_val(s, dl);
        if len > s.len() - dl - 1 {
            None
        } else {
            Some((s.subrange(dl + 1, dl + 1 + len), dl + 1 + len))
        }
    }
}

/// The exact parse of one bencode value at the front of `s`: the value and
/// the bytes consumed, or nothing if no valid value starts there.
pub open spec fn spec_parse_value(s: Seq<u8>) -> Option<(BValue, int)>
    decreases s.len(), 0int,
{
    if s.len() == 0 {
        None
    } else if s[0] == TOK_INT {
        spec_parse_int(s)
    } else if s[0] == TOK_LIST {
        match spec_parse_items(s.skip(1)) {
            Some((l, n)) => Some((BValue::List(l), 1 + n)),
            None => None,
        }
    } else if s[0] == TOK_DICT {
        match spec_parse_pairs(s.skip(1)) {
            Some((d, n)) => Some((BValue::Dict(d), 1 + n)),
            None => None,
        }
    } else {
        match spec_parse_str(s) {
            Some((b, n)) => Some((BValue::Bytes(b), n)),
            None => None,
        }
    }
}

/// The exact parse of list elements up to and including a closing `e`.
pub open spec fn spec_parse_items(s: Seq<u8>) -> Option<(Seq<BValue>, int)>
    decreases s.len(), 1int,
{
    if s.len() == 0 {
        None
    } else if s[0] == TOK_END {
        Some((Seq::empty(), 1))
    } else {
        match spec_parse_value(s) {
            Some((v, n)) => if 1 <= n <= s.len() {
                match spec_parse_items(s.skip(n)) {
                    Some((l, m)) => Some((seq![v] + l, n + m)),
                    None => None,
                }
            } else {
                None
            },
            None => None,
        }
    }
}

/// The exact parse of dictionary entries up to and including a closing
/// `e`; every key must itself parse as a byte string.
pub open spec fn spec_parse_pairs(s: Seq<u8>) -> Option<(Seq<(Seq<u8>, BValue)>, int)>
    decreases s.len(), 1int,
{
    if s.len() == 0 {
        None
    } else if s[0] == TOK_END {
        Some((Seq::empty(), 1))
    } else {
        match spec_parse_str(s) {
            Some((k, n)) => if 1 <= n <= s.len() {
                match spec_parse_value(s.skip(n)) {
                    Some((v, m)) => if 1 <= m && n + m <= s.len() {
                        match spec_parse_pairs(s.skip(n + m)) {
                            Some((d, q)) => Some((seq![(k, v)] + d, n + m + q)),
                            None => None,
                        }
                    } else {
                        None
                    },
                    None => None,
                }
            } else {
                None
            },
            None => None,
        }
    }
}

/// The parse of a whole document: one value covering every input byte.
pub open spec fn spec_decode(s: Seq<u8>) -> Option<BValue> {
    match spec_parse_value(s) {
        Some((v, n)) => if n == s.len() {
            Some(v)
        } else {
            None
        },
        None => None,
    }
}

/// Appending an element to a list appends its encoding.
pub proof fn lemma_encode_list_push(l: Seq<BValue>, x: BValue)
    ensures
        spec_encode_list(l.push(x)) == spec_encode_list(l) + spec_encode(x),
    decreases l.len(),
{
    if l.len() == 0 {
        assert(l.push(x)[0] == x);
        assert(l.push(x).drop_first() =~= Seq::<BValue>::empty());
        assert(spec_encode(x) + spec_encode_list(Seq::<BValue>::empty()) =~= spec_encode(x));
        assert(spec_encode_list(l) + spec_encode(x) =~= spec_encode(x));
    } else {
        lemma_encode_list_push(l.drop_first(), x);
        assert(l.push(x).drop_first() =~= l.drop_first().push(x));
        assert(l.push(x)[0] == l[0]);
        assert(spec_encode(l[0]) + (spec_encode_list(l.drop_first()) + spec_encode(x)) =~= (
        spec_encode(l[0]) + spec_encode_list(l.drop_first())) + spec_encode(x));
    }
}

/// Appending an entry to a dictionary appends its key and value encodings.
pub proof fn lemma_encode_pairs_push(d: Seq<(Seq<u8>, BValue)>, p: (Seq<u8>, BValue))
    ensures
        spec_encode_pairs(d.push(p)) == spec_encode_pairs(d) + spec_str_bytes(p.0) + spec_encode(
            p.1,
        ),
    decreases d.len(),
{
    if d.len() == 0 {
        assert(d.push(p)[0] == p);
        assert(d.push(p).drop_first() =~= Seq::<(Seq<u8>, BValue)>::empty());
        assert((spec_str_bytes(p.0) + spec_encode(p.1)) + spec_encode_pairs(
            Seq::<(Seq<u8>, BValue)>::empty(),
        ) =~= spec_str_bytes(p.0) + spec_encode(p.1));
        assert(spec_encode_pairs(d) + spec_str_bytes(p.0) + spec_encode(p.1) =~= spec_str_bytes(p.0)
            + spec_encode(p.1));
        assert(spec_str_bytes(p.0) + spec_encode(p.1) + spec_encode_pairs(
            Seq::<(Seq<u8>, BValue)>::empty(),
        ) =~= spec_str_bytes(p.0) + spec_encode(p.1));
    } else {
        lemma_encode_pairs_push(d.drop_first(), p);
        assert(d.push(p).drop_first() =~= d.drop_first().push(p));
        assert(d.push(p)[0] == d[0]);
        assert(spec_str_bytes(d[0].0) + spec_encode(d[0].1) + (spec_encode_pairs(d.drop_first())
            + spec_str_bytes(p.0) + spec_encode(p.1)) =~= (spec_str_bytes(d[0].0) + spec_encode(
            d[0].1,
        ) + spec_encode_pairs(d.drop_first())) + spec_str_bytes(p.0) + spec_encode(p.1));
    }
}

/// The recursive insertion equals a positional insertion at the first
/// strictly greater key.
pub proof fn lemma_insert_pair_at(p: (Seq<u8>, BValue), d: Seq<(Seq<u8>, BValue)>, pos: int)
    requires
        0 <= pos <= d.len(),
        forall|m: int| 0 <= m < pos ==> !lex_lt(p.0, (#[trigger] d[m]).0),
        pos < d.len() ==> lex_lt(p.0, d[pos].0),
    ensures
        spec_insert_pair(p, d) == d.insert(pos, p),
    decreases d.len(),
{
    if d.len() == 0 {
        assert(d.insert(0, p) =~= seq![p]);
    } else if lex_lt(p.0, d[0].0) {
        assert(pos == 0);
        assert(d.insert(0, p) =~= seq![p] + d);
    } else {
        assert(pos >= 1);
        lemma_insert_pair_at(p, d.drop_first(), pos - 1);
        assert(d.insert(pos, p) =~= seq![d[0]] + d.drop_first().insert(pos - 1, p));
    }
}

/// Canonicalizing entry values commutes with inserting an entry, because
/// insertion looks only at keys and canonicalization keeps them.
pub proof fn lemma_insert_canon(p: (Seq<u8>, BValue), s: Seq<(Seq<u8>, BValue)>)
    ensures
        spec_insert_pair((p.0, canon(p.1)), canon_pairs(s)) == canon_pairs(spec_insert_pair(p, s)),
    decreases s.len(),
{
    let cp = (p.0, canon(p.1));
    if s.len() == 0 {
        assert(canon_pairs(spec_insert_pair(p, s)) =~= seq![cp]);
    } else if lex_lt(p.0, s[0].0) {
        assert(canon_pairs(s)[0].0 == s[0].0);
        assert(spec_insert_pair(cp, canon_pairs(s)) == seq![cp] + canon_pairs(s));
        assert(seq![cp] + canon_pairs(s) =~= canon_pairs(seq![p] + s));
    } else {
        assert(canon_pairs(s)[0].0 == s[0].0);
        lemma_insert_canon(p, s.drop_first());
        assert(canon_pairs(s).drop_first() =~= canon_pairs(s.drop_first()));
        assert(seq![canon_pairs(s)[0]] + canon_pairs(spec_insert_pair(p, s.drop_first()))
            =~= canon_pairs(seq![s[0]] + spec_insert_pair(p, s.drop_first())));
    }
}

/// Canonicalizing entry values commutes with sorting entries by key.
pub proof fn lemma_sort_canon(s: Seq<(Seq<u8>, BValue)>)
    ensures
        spec_sort_pairs(canon_pairs(s)) == canon_pairs(spec_sort_pairs(s)),
    decreases s.len(),
{
    if s.len() == 0 {
        assert(canon_pairs(s) =~= Seq::<(Seq<u8>, BValue)>::empty());
        assert(spec_sort_pairs(canon_pairs(s)) =~= canon_pairs(spec_sort_pairs(s)));
    } else {
        lemma_sort_canon(s.drop_first());
        assert(canon_pairs(s).drop_first() =~= canon_pairs(s.drop_first()));
        assert(canon_pairs(s)[0] == (s[0].0, canon(s[0].1)));
        lemma_insert_canon(s[0], spec_sort_pairs(s.drop_first()));
    }
}

/// The order decided by a shared strict prefix is the order of the rest.
pub proof fn lemma_lex_lt_common_prefix(a: Seq<u8>, b: Seq<u8>, i: int)
    requires
        0 <= i <= a.len(),
        i <= b.len(),
        forall|m: int| 0 <= m < i ==> a[m] == b[m],
    ensures
        lex_lt(a, b) == lex_lt(a.skip(i), b.skip(i)),
    decreases i,
{
    if i == 0 {
        assert(a.skip(0) =~= a);
        assert(b.skip(0) =~= b);
    } else {
        assert(a[0] == b[0]);
        lemma_lex_lt_common_prefix(a.drop_first(), b.drop_first(), i - 1);
        assert(a.drop_first().skip(i - 1) =~= a.skip(i));
        assert(b.drop_first().skip(i - 1) =~= b.skip(i));
    }
}

/// Whether `a` comes strictly before `b` in byte-lexicographic order.
pub fn lex_less(a: &[u8], b: &[u8]) -> (r: bool)
    ensures
        r == lex_lt(a@, b@),
{
    let mut i: usize = 0;
    while i < a.len() && i < b.len()
        invariant
            0 <= i <= a@.len(),
            i <= b@.len(),
            forall|m: int| 0 <= m < i ==> a@[m] == b@[m],
        decreases a@.len() - i,
    {
        if a[i] < b[i] {
            proof {
                lemma_lex_lt_common_prefix(a@, b@, i as int);
                assert(a@.skip(i as int)[0] == a@[i as int]);
                assert(b@.skip(i as int)[0] == b@[i as int]);
            }
            return true;
        }
        if a[i] > b[i] {
            proof {
                lemma_lex_lt_common_prefix(a@, b@, i as int);
                assert(a@.skip(i as int)[0] == a@[i as int]);
                assert(b@.skip(i as int)[0] == b@[i as int]);
            }
            return false;
        }
        i += 1;
    }
    proof {
        lemma_lex_lt_common_prefix(a@, b@, i as int);
    }
    a.len() < b.len()
}

/// Appends the bytes of a slice.
pub(crate) fn push_bytes(out: &mut Vec<u8>, b: &[u8])
    ensures
        final(out)@ == old(out)@ + b@,
{
    let mut i: usize = 0;
    while i < b.len()
        invariant
            0 <= i <= b@.len(),
            out@ == old(out)@ + b@.take(i as int),
        decreases b@.len() - i,
    {
        out.push(b[i]);
        proof {
            assert(b@.take(i + 1 as int) =~= b@.take(i as int).push(b@[i as int]));
            assert(old(out)@ + b@.take(i as int).push(b@[i as int]) =~= (old(out)@ + b@.take(
                i as int,
            )).push(b@[i as int]));
        }
        i += 1;
    }
    proof {
        assert(b@.take(b@.len() as int) =~= b@);
    }
}

/// Appends the decimal digits of `n`.
fn push_digits(out: &mut Vec<u8>, n: u64)
    ensures
        final(out)@ == old(out)@ + spec_digits(n as nat),
    decreases n,
{
    if n < 10 {
        out.push(48 + n as u8);
    } else {
        push_digits(out, n / 10);
        out.push(48 + (n % 10) as u8);
        proof {
            assert(old(out)@ + spec_digits((n / 10) as nat) + seq![(48 + (n as nat) % 10) as u8]
                =~= old(out)@ + (spec_digits((n / 10) as nat) + seq![(48 + (n as nat) % 10) as u8]));
        }
    }
}

/// Appends the signed decimal digits of `i`, as they stand between `i` and
/// `e` in an integer's encoding.
fn push_int(out: &mut Vec<u8>, i: i64)
    ensures
        final(out)@ == old(out)@ + spec_int_bytes(i as int),
{
    if i < 0 {
        out.push(TOK_MINUS);
        let m: u64 = if i == i64::MIN {
            9223372036854775808u64
        } else {
            (-i) as u64
        };
        push_digits(out, m);
        proof {
            assert(m as nat == (-(i as int)) as nat);
            assert(old(out)@ + seq![TOK_MINUS] + spec_digits(m as nat) =~= old(out)@ + (
            seq![TOK_MINUS] + spec_digits(m as nat)));
        }
    } else {
        push_digits(out, i as u64);
    }
}

/// Appends the encoding of a byte string: decimal length, `:`, the bytes.
fn push_str(out: &mut Vec<u8>, b: &[u8])
    ensures
        final(out)@ == old(out)@ + spec_str_bytes(b@),
{
    push_digits(out, b.len() as u64);
    out.push(TOK_COLON);
    push_bytes(out, b);
    proof {
        assert(old(out)@ + spec_digits(b@.len()) + seq![TOK_COLON] + b@ =~= old(out)@ + (
        spec_digits(b@.len()) + seq![TOK_COLON] + b@));
    }
}

/// The indices of a dictionary's entries in canonical (sorted-by-key)
/// emission order.
fn sorted_order(d: &Vec<(Vec<u8>, BencodeValue)>) -> (ord: Vec<usize>)
    ensures
        ord@.len() == d@.len(),
        forall|j: int| 0 <= j < ord@.len() ==> (#[trigger] ord@[j]) < d@.len(),
        map_idx(ord@, raw_views(d@)) == spec_sort_pairs(raw_views(d@)),
{
    let ghost rv = raw_views(d@);
    let mut ord: Vec<usize> = Vec::new();
    let mut k: usize = d.len();
    proof {
        assert(rv.skip(d@.len() as int) =~= Seq::<(Seq<u8>, BValue)>::empty());
        assert(map_idx(ord@, rv) =~= spec_sort_pairs(rv.skip(d@.len() as int)));
    }
    while k > 0
        invariant
            0 <= k <= d@.len(),
            ord@.len() == d@.len() - k,
            rv == raw_views(d@),
            forall|j: int| 0 <= j < ord@.len() ==> k <= (#[trigger] ord@[j]) < d@.len(),
            map_idx(ord@, rv) == spec_sort_pairs(rv.skip(k as int)),
        decreases k,
    {
        k = k - 1;
        // find the first position whose key is strictly greater
        let mut pos: usize = 0;
        while pos < ord.len() && !lex_less(&d[k].0, &d[ord[pos]].0)
            invariant
                0 <= pos <= ord@.len(),
                0 <= k < d@.len(),
                ord@.len() + k + 1 == d@.len(),
                rv == raw_views(d@),
                map_idx(ord@, rv) == spec_sort_pairs(rv.skip(k as int + 1)),
                forall|j: int| 0 <= j < ord@.len() ==> k < (#[trigger] ord@[j]) < d@.len(),
                forall|m: int|
                    0 <= m < pos ==> !lex_lt(rv[k as int].0, rv[(#[trigger] ord@[m]) as int].0),
            decreases ord@.len() - pos,
        {
            pos += 1;
        }
        let ghost prev = map_idx(ord@, rv);
        ord.insert(pos, k);
        proof {
            assert(forall|m: int| 0 <= m < pos ==> !lex_lt(rv[k as int].0, (#[trigger] prev[m]).0));
            if pos < prev.len() {
                assert(lex_lt(rv[k as int].0, prev[pos as int].0));
            }
            lemma_insert_pair_at(rv[k as int], prev, pos as int);
            assert(map_idx(ord@, rv) =~= prev.insert(pos as int, rv[k as int]));
            assert(rv.skip(k as int)[0] == rv[k as int]);
            assert(rv.skip(k as int).drop_first() =~= rv.skip(k as int + 1));
        }
    }
    proof {
        assert(rv.skip(0) =~= rv);
    }
    ord
}

/// Appends the canonical encoding of `v`: integers and byte strings as
/// they stand, lists elementwise, dictionaries with keys sorted ascending
/// by raw byte value, at every depth.
pub fn encode_into(v: &BencodeValue, out: &mut Vec<u8>)
    ensures
        final(out)@ == old(out)@ + spec_encode(canon(v@)),
    decreases v,
{
    match v {
        BencodeValue::Integer(i) => {
            out.push(TOK_INT);
            push_int(out, *i);
            out.push(TOK_END);
            proof {
                assert(old(out)@ + (seq![TOK_INT] + spec_int_bytes(*i as int) + seq![TOK_END]) =~= (
                old(out)@ + seq![TOK_INT] + spec_int_bytes(*i as int)).push(TOK_END));
            }
        },
        BencodeValue::ByteString(b) => {
            push_str(out, b.as_slice());
        },
        BencodeValue::List(l) => {
            let ghost cl = canon(v@)->List_0;
            out.push(TOK_LIST);
            let mut i: usize = 0;
            proof {
                assert(cl.take(0) =~= Seq::<BValue>::empty());
                assert(out@ =~= old(out)@ + seq![TOK_LIST] + spec_encode_list(cl.take(0)));
            }
            while i < l.len()
                invariant
                    0 <= i <= l@.len(),
                    *v == BencodeValue::List(*l),
                    cl == canon(bval(BencodeValue::List(*l)))->List_0,
                    out@ == old(out)@ + seq![TOK_LIST] + spec_encode_list(cl.take(i as int)),
                decreases l@.len() - i,
            {
                let item = &l[i];
                proof {
                    assert(*v == BencodeValue::List(*l));
                    assert(decreases_to!(*v => *l));
                    assert(decreases_to!(*l => l@[i as int]));
                    assert(*item == l@[i as int]);
                    assert(decreases_to!(*v => *item));
                }
                encode_into(item, out);
                proof {
                    assert(cl[i as int] == canon(bval(l@[i as int])));
                    lemma_encode_list_push(cl.take(i as int), cl[i as int]);
                    assert(cl.take(i + 1 as int) =~= cl.take(i as int).push(cl[i as int]));
                    assert(old(out)@ + seq![TOK_LIST] + spec_encode_list(cl.take(i as int))
                        + spec_encode(cl[i as int]) =~= old(out)@ + seq![TOK_LIST] + (
                    spec_encode_list(cl.take(i as int)) + spec_encode(cl[i as int])));
                }
                i += 1;
            }
            out.push(TOK_END);
            proof {
                assert(cl.take(l@.len() as int) =~= cl);
                assert(old(out)@ + seq![TOK_LIST] + spec_encode_list(cl) + seq![TOK_END] =~= (old(
                    out,
                )@ + seq![TOK_LIST] + spec_encode_list(cl)).push(TOK_END));
                assert(old(out)@ + (seq![TOK_LIST] + spec_encode_list(cl) + seq![TOK_END]) =~= old(
                    out,
                )@ + seq![TOK_LIST] + spec_encode_list(cl) + seq![TOK_END]);
            }
        },
        BencodeValue::Dictionary(d) => {
            let ghost rv = raw_views(d@);
            let ghost sorted = spec_sort_pairs(rv);
            let ghost cp = canon_pairs(sorted);
            let ord = sorted_order(d);
            out.push(TOK_DICT);
            let mut j: usize = 0;
            proof {
                assert(cp.take(0) =~= Seq::<(Seq<u8>, BValue)>::empty());
                assert(out@ =~= old(out)@ + seq![TOK_DICT] + spec_encode_pairs(cp.take(0)));
            }
            while j < ord.len()
                invariant
                    0 <= j <= ord@.len(),
                    *v == BencodeValue::Dictionary(*d),
                    ord@.len() == d@.len(),
                    forall|m: int| 0 <= m < ord@.len() ==> (#[trigger] ord@[m]) < d@.len(),
                    rv == raw_views(d@),
                    sorted == spec_sort_pairs(rv),
                    cp == canon_pairs(sorted),
                    map_idx(ord@, rv) == sorted,
                    out@ == old(out)@ + seq![TOK_DICT] + spec_encode_pairs(cp.take(j as int)),
                decreases ord@.len() - j,
            {
                let k = ord[j];
                push_str(out, d[k].0.as_slice());
                let entry = &d[k];
                proof {
                    assert(*v == BencodeValue::Dictionary(*d));
                    assert(decreases_to!(*v => v->Dictionary_0));
                    assert(v->Dictionary_0 == *d);
                    assert(decreases_to!(*v => *d));
                    assert(decreases_to!(*d => d@[k as int]));
                    assert(*entry == d@[k as int]);
                    assert(decreases_to!(d@[k as int] => d@[k as int].1));
                    assert(decreases_to!(*v => entry.1));
                }
                encode_into(&entry.1, out);
                proof {
                    assert(sorted[j as int] == rv[k as int]);
                    assert(cp[j as int] == (rv[k as int].0, canon(rv[k as int].1)));
                    assert(rv[k as int].0 == d@[k as int].0@);
                    assert(rv[k as int].1 == bval(d@[k as int].1));
                    lemma_encode_pairs_push(cp.take(j as int), cp[j as int]);
                    assert(cp.take(j + 1 as int) =~= cp.take(j as int).push(cp[j as int]));
                    assert(old(out)@ + seq![TOK_DICT] + spec_encode_pairs(cp.take(j as int))
                        + spec_str_bytes(cp[j as int].0) + spec_encode(cp[j as int].1) =~= old(out)@
                        + seq![TOK_DICT] + (spec_encode_pairs(cp.take(j as int)) + spec_str_bytes(
                        cp[j as int].0,
                    ) + spec_encode(cp[j as int].1)));
                }
                j += 1;
            }
            out.push(TOK_END);
            proof {
                assert(cp.take(ord@.len() as int) =~= cp);
                lemma_sort_canon(rv);
                assert(cp == canon(v@)->Dict_0);
                assert(old(out)@ + seq![TOK_DICT] + spec_encode_pairs(cp) + seq![TOK_END] =~= (old(
                    out,
                )@ + seq![TOK_DICT] + spec_encode_pairs(cp)).push(TOK_END));
                assert(old(out)@ + (seq![TOK_DICT] + spec_encode_pairs(cp) + seq![TOK_END]) =~= old(
                    out,
                )@ + seq![TOK_DICT] + spec_encode_pairs(cp) + seq![TOK_END]);
            }
        },
    }
}

/// The digit run of `s` ends exactly at the first non-digit byte.
pub proof fn lemma_digits_len_is(s: Seq<u8>, k: int)
    requires
        0 <= k <= s.len(),
        forall|m: int| 0 <= m < k ==> is_digit(#[trigger] s[m]),
        k < s.len() ==> !is_digit(s[k]),
    ensures
        digits_len(s) == k,
    decreases k,
{
    if k == 0 {
    } else {
        lemma_digits_len_is(s.drop_first(), k - 1);
    }
}

/// A digit run's value is non-negative and never shrinks as it extends.
pub proof fn lemma_digits_val_monotone(s: Seq<u8>, i: int, j: int)
    requires
        0 <= i <= j,
        forall|m: int| 0 <= m < j ==> is_digit(#[trigger] s[m]),
    ensures
        0 <= digits_val(s, i) <= digits_val(s, j),
    decreases j,
{
    if j > 0 {
        if i == j {
            lemma_digits_val_monotone(s, j - 1, j - 1);
        } else {
            lemma_digits_val_monotone(s, i, j - 1);
        }
    }
}

/// The decimal digits of `n` are all digits, exactly one for values under
/// ten, and never start with a zero unless `n` is zero.
pub proof fn lemma_spec_digits_shape(n: nat)
    ensures
        spec_digits(n).len() >= 1,
        forall|m: int| 0 <= m < spec_digits(n).len() ==> is_digit(#[trigger] spec_digits(n)[m]),
        n > 0 ==> spec_digits(n)[0] != 48,
        n < 10 ==> spec_digits(n).len() == 1,
    decreases n,
{
    if n >= 10 {
        lemma_spec_digits_shape(n / 10);
        let hi = spec_digits(n / 10);
        assert forall|m: int| 0 <= m < spec_digits(n).len() implies is_digit(
            #[trigger] spec_digits(n)[m],
        ) by {
            if m < hi.len() {
                assert(spec_digits(n)[m] == hi[m]);
                assert(is_digit(hi[m]));
            } else {
                assert(spec_digits(n)[m] == (48 + n % 10) as u8);
            }
        }
        assert(spec_digits(n)[0] == hi[0]);
    }
}

/// The decimal digits of `n` read back as `n`, whatever follows them.
pub proof fn lemma_spec_digits_val(n: nat, r: Seq<u8>)
    ensures
        digits_val(spec_digits(n) + r, spec_digits(n).len() as int) == n,
    decreases n,
{
    let s = spec_digits(n) + r;
    if n < 10 {
        assert(s[0] == (48 + n) as u8);
        assert(digits_val(s, 1) == digits_val(s, 0) * 10 + (s[0] - 48));
    } else {
        let hi = spec_digits(n / 10);
        let last = seq![(48 + n % 10) as u8];
        lemma_spec_digits_val(n / 10, last + r);
        assert(hi + (last + r) =~= s);
        assert(s[hi.len() as int] == (48 + n % 10) as u8);
        assert(digits_val(s, spec_digits(n).len() as int) == digits_val(s, hi.len() as int) * 10 + (
        s[hi.len() as int] - 48));
        assert(n == (n / 10) * 10 + n % 10);
    }
}

/// Taken together: the digit run at the front of `spec_digits(n) + r` is
/// exactly `spec_digits(n)` and values back to `n`, provided `r` does not
/// begin with a digit.
pub proof fn lemma_spec_digits(n: nat, r: Seq<u8>)
    requires
        r.len() == 0 || !is_digit(r[0]),
    ensures
        spec_digits(n).len() >= 1,
        n > 0 ==> spec_digits(n)[0] != 48,
        n < 10 ==> spec_digits(n).len() == 1,
        digits_len(spec_digits(n) + r) == spec_digits(n).len(),
        digits_val(spec_digits(n) + r, spec_digits(n).len() as int) == n,
        valid_digits(spec_digits(n) + r, digits_len(spec_digits(n) + r)),
{
    let s = spec_digits(n) + r;
    lemma_spec_digits_shape(n);
    lemma_spec_digits_val(n, r);
    assert forall|m: int| 0 <= m < spec_digits(n).len() implies is_digit(#[trigger] s[m]) by {
        assert(s[m] == spec_digits(n)[m]);
    }
    if spec_digits(n).len() < s.len() {
        assert(s[spec_digits(n).len() as int] == r[0]);
    }
    lemma_digits_len_is(s, spec_digits(n).len() as int);
    if spec_digits(n).len() > 1 {
        assert(n >= 10) by {
            lemma_spec_digits_shape(n);
        }
        assert(s[0] == spec_digits(n)[0]);
    }
}

/// How many bytes at `pos` continue a decimal digit run.
fn scan_digits(s: &[u8], pos: usize) -> (dl: usize)
    requires
        pos <= s@.len(),
    ensures
        pos + dl <= s@.len(),
        dl == digits_len(s@.skip(pos as int)),
        forall|m: int| pos <= m < pos + dl ==> is_digit(#[trigger] s@[m]),
{
    let mut i = pos;
    while i < s.len() && 48 <= s[i] && s[i] <= 57
        invariant
            pos <= i <= s@.len(),
            forall|m: int| pos <= m < i ==> is_digit(#[trigger] s@[m]),
        decreases s@.len() - i,
    {
        i += 1;
    }
    proof {
        let t = s@.skip(pos as int);
        assert(forall|m: int| 0 <= m < i - pos ==> t[m] == s@[pos + m]);
        if (i as int) < s@.len() {
            assert(t[i - pos] == s@[i as int]);
        }
        lemma_digits_len_is(t, i - pos);
    }
    i - pos
}

/// The value of the digit run starting at `pos`, if it fits a `usize`.
fn read_len(s: &[u8], pos: usize, dl: usize) -> (r: Option<usize>)
    requires
        pos + dl <= s@.len(),
        forall|m: int| pos <= m < pos + dl ==> is_digit(#[trigger] s@[m]),
    ensures
        r matches Some(v) ==> v as int == digits_val(s@.skip(pos as int), dl as int),
        r is None ==> digits_val(s@.skip(pos as int), dl as int) > usize::MAX,
{
    let ghost t = s@.skip(pos as int);
    proof {
        assert(forall|m: int| 0 <= m < dl ==> t[m] == s@[pos + m]);
    }
    let slen = s.len();
    let mut acc: usize = 0;
    let mut i: usize = 0;
    while i < dl
        invariant
            0 <= i <= dl,
            slen == s@.len(),
            pos + dl <= s@.len(),
            t == s@.skip(pos as int),
            forall|m: int| pos <= m < pos + dl ==> is_digit(#[trigger] s@[m]),
            forall|m: int| 0 <= m < dl ==> t[m] == s@[pos + m],
            acc as int == digits_val(t, i as int),
        decreases dl - i,
    {
        proof {
            assert(is_digit(s@[pos + i]));
        }
        let d: u8 = s[pos + i] - 48;
        let step = match acc.checked_mul(10) {
            Some(x) => x.checked_add(d as usize),
            None => None,
        };
        match step {
            Some(x) => {
                acc = x;
            },
            None => {
                proof {
                    lemma_digits_val_monotone(t, i as int + 1, dl as int);
                    assert(digits_val(t, i as int + 1) == acc * 10 + (t[i as int] - 48));
                }
                return None;
            },
        }
        i += 1;
    }
    Some(acc)
}

/// The value of the digit run starting at `pos`, if it fits a `u64`.
fn read_u64(s: &[u8], pos: usize, dl: usize) -> (r: Option<u64>)
    requires
        pos + dl <= s@.len(),
        forall|m: int| pos <= m < pos + dl ==> is_digit(#[trigger] s@[m]),
    ensures
        r matches Some(v) ==> v as int == digits_val(s@.skip(pos as int), dl as int),
        r is None ==> digits_val(s@.skip(pos as int), dl as int) > u64::MAX,
{
    let ghost t = s@.skip(pos as int);
    proof {
        assert(forall|m: int| 0 <= m < dl ==> t[m] == s@[pos + m]);
    }
    let slen = s.len();
    let mut acc: u64 = 0;
    let mut i: usize = 0;
    while i < dl
        invariant
            0 <= i <= dl,
            slen == s@.len(),
            pos + dl <= s@.len(),
            t == s@.skip(pos as int),
            forall|m: int| pos <= m < pos + dl ==> is_digit(#[trigger] s@[m]),
            forall|m: int| 0 <= m < dl ==> t[m] == s@[pos + m],
            acc as int == digits_val(t, i as int),
        decreases dl - i,
    {
        proof {
            assert(is_digit(s@[pos + i]));
        }
        let d: u8 = s[pos + i] - 48;
        let step = match acc.checked_mul(10) {
            Some(x) => x.checked_add(d as u64),
            None => None,
        };
        match step {
            Some(x) => {
                acc = x;
            },
            None => {
                proof {
                    lemma_digits_val_monotone(t, i as int + 1, dl as int);
                    assert(digits_val(t, i as int + 1) == acc * 10 + (t[i as int] - 48));
                }
                return None;
            },
        }
        i += 1;
    }
    Some(acc)
}

/// Parses the byte string `<len>:<bytes>` starting at `pos`, returning its
/// bytes and the count of input bytes consumed.
fn parse_str_at(s: &[u8], pos: usize) -> (r: Result<(Vec<u8>, usize), DecodeError>)
    requires
        pos <= s@.len(),
    ensures
        r matches Ok(p) ==> 1 <= p.1 && pos + p.1 <= s@.len() && spec_parse_str(
            s@.skip(pos as int),
        ) == Some((p.0@, p.1 as int)),
        r is Err <==> spec_parse_str(s@.skip(pos as int)) is None,
{
    let ghost t = s@.skip(pos as int);
    let slen = s.len();
    let dl = scan_digits(s, pos);
    proof {
        assert(forall|m: int| 0 <= m < t.len() ==> t[m] == s@[pos + m]);
    }
    if dl == 0 {
        return Err(DecodeError::MalformedInteger);
    }
    if dl > 1 && s[pos] == 48 {
        return Err(DecodeError::MalformedInteger);
    }
    if pos + dl == slen {
        return Err(DecodeError::Truncated);
    }
    if s[pos + dl] != TOK_COLON {
        return Err(DecodeError::MalformedInteger);
    }
    let rest = slen - pos - dl - 1;
    match read_len(s, pos, dl) {
        None => {
            proof {
                assert(digits_val(t, dl as int) > usize::MAX >= t.len() - dl - 1);
            }
            return Err(DecodeError::Truncated);
        },
        Some(len) => {
            if len > rest {
                return Err(DecodeError::Truncated);
            }
            let start = pos + dl + 1;
            let mut out: Vec<u8> = Vec::new();
            let mut i: usize = 0;
            while i < len
                invariant
                    0 <= i <= len,
                    start + len <= s@.len(),
                    s@.len() <= usize::MAX,
                    out@ == s@.subrange(start as int, start + i),
                decreases len - i,
            {
                out.push(s[start + i]);
                proof {
                    assert(s@.subrange(start as int, start + i + 1) =~= s@.subrange(
                        start as int,
                        start + i,
                    ).push(s@[start + i]));
                }
                i += 1;
            }
            proof {
                assert(out@ =~= t.subrange(dl + 1, dl + 1 + len as int));
            }
            Ok((out, dl + 1 + len))
        },
    }
}

/// Parses the integer token `i<digits>e` starting at `pos`, returning its
/// value and the count of input bytes consumed.
fn parse_int_at(s: &[u8], pos: usize) -> (r: Result<(i64, usize), DecodeError>)
    requires
        pos < s@.len(),
    ensures
        r matches Ok(p) ==> 1 <= p.1 && pos + p.1 <= s@.len() && spec_parse_int(
            s@.skip(pos as int),
        ) == Some((BValue::Int(p.0 as int), p.1 as int)),
        r is Err <==> spec_parse_int(s@.skip(pos as int)) is None,
{
    let ghost t = s@.skip(pos as int);
    let slen = s.len();
    let neg = pos + 1 < slen && s[pos + 1] == TOK_MINUS;
    let bstart = if neg {
        pos + 2
    } else {
        pos + 1
    };
    let ghost body = s@.skip(bstart as int);
    proof {
        assert(forall|m: int| 0 <= m < t.len() ==> t[m] == s@[pos + m]);
        assert(forall|m: int| 0 <= m < body.len() ==> body[m] == s@[bstart + m]);
        if neg {
            assert(body =~= t.skip(2));
        } else {
            assert(body =~= t.skip(1));
        }
        assert(neg == (t.len() >= 2 && t[1] == TOK_MINUS));
    }
    let dl = scan_digits(s, bstart);
    if dl == 0 {
        return Err(DecodeError::MalformedInteger);
    }
    if dl > 1 && s[bstart] == 48 {
        return Err(DecodeError::MalformedInteger);
    }
    if neg && s[bstart] == 48 {
        return Err(DecodeError::MalformedInteger);
    }
    if bstart + dl == slen {
        return Err(DecodeError::Truncated);
    }
    if s[bstart + dl] != TOK_END {
        return Err(DecodeError::MalformedInteger);
    }
    let n = bstart + dl + 1 - pos;
    match read_u64(s, bstart, dl) {
        None => {
            proof {
                assert(digits_val(body, dl as int) > u64::MAX);
            }
            Err(DecodeError::MalformedInteger)
        },
        Some(m) => {
            if neg {
                if m > 9223372036854775808u64 {
                    return Err(DecodeError::MalformedInteger);
                }
                let value: i64 = if m == 9223372036854775808u64 {
                    i64::MIN
                } else {
                    -(m as i64)
                };
                Ok((value, n))
            } else {
                if m > 9223372036854775807u64 {
                    return Err(DecodeError::MalformedInteger);
                }
                Ok((m as i64, n))
            }
        },
    }
}

/// Parses one bencode value starting at `pos`, returning it and the count
/// of input bytes consumed.
fn parse_value_at(s: &[u8], pos: usize) -> (r: Result<(BencodeValue, usize), DecodeError>)
    requires
        pos <= s@.len(),
    ensures
        r matches Ok(p) ==> 1 <= p.1 && pos + p.1 <= s@.len() && spec_parse_value(
            s@.skip(pos as int),
        ) == Some((p.0@, p.1 as int)),
        r is Err <==> spec_parse_value(s@.skip(pos as int)) is None,
    decreases s@.len() - pos, 0int,
{
    let ghost t = s@.skip(pos as int);
    if pos == s.len() {
        return Err(DecodeError::Truncated);
    }
    let c = s[pos];
    proof {
        assert(t[0] == s@[pos as int]);
        assert(t.skip(1) =~= s@.skip(pos as int + 1));
    }
    if c == TOK_INT {
        match parse_int_at(s, pos) {
            Ok((v, n)) => Ok((BencodeValue::Integer(v), n)),
            Err(e) => Err(e),
        }
    } else if c == TOK_LIST {
        match parse_items_at(s, pos + 1) {
            Ok((l, n)) => Ok((BencodeValue::List(l), n + 1)),
            Err(e) => Err(e),
        }
    } else if c == TOK_DICT {
        match parse_pairs_at(s, pos + 1) {
            Ok((d, n)) => Ok((BencodeValue::Dictionary(d), n + 1)),
            Err(e) => Err(e),
        }
    } else {
        match parse_str_at(s, pos) {
            Ok((b, n)) => Ok((BencodeValue::ByteString(b), n)),
            Err(e) => Err(e),
        }
    }
}

/// Parses list elements up to and including the closing `e`.
fn parse_items_at(s: &[u8], pos: usize) -> (r: Result<(Vec<BencodeValue>, usize), DecodeError>)
    requires
        pos <= s@.len(),
    ensures
        r matches Ok(p) ==> 1 <= p.1 && pos + p.1 <= s@.len() && spec_parse_items(
            s@.skip(pos as int),
        ) == Some((bval_seq(p.0@), p.1 as int)),
        r is Err <==> spec_parse_items(s@.skip(pos as int)) is None,
    decreases s@.len() - pos, 1int,
{
    let ghost t = s@.skip(pos as int);
    if pos == s.len() {
        return Err(DecodeError::UnterminatedAggregate);
    }
    proof {
        assert(t[0] == s@[pos as int]);
    }
    if s[pos] == TOK_END {
        let empty: Vec<BencodeValue> = Vec::new();
        proof {
            assert(bval_seq(empty@) =~= Seq::<BValue>::empty());
        }
        return Ok((empty, 1));
    }
    let (v, n) = match parse_value_at(s, pos) {
        Ok(p) => p,
        Err(e) => {
            return Err(e);
        },
    };
    proof {
        assert(t.skip(n as int) =~= s@.skip(pos + n));
    }
    let (mut l, m) = match parse_items_at(s, pos + n) {
        Ok(p) => p,
        Err(e) => {
            return Err(e);
        },
    };
    let ghost tail = l@;
    l.insert(0, v);
    proof {
        assert(bval_seq(l@) =~= seq![v@] + bval_seq(tail));
    }
    Ok((l, n + m))
}

/// Parses dictionary entries up to and including the closing `e`; each key
/// must itself be a byte string.
fn parse_pairs_at(s: &[u8], pos: usize) -> (r: Result<
    (Vec<(Vec<u8>, BencodeValue)>, usize),
    DecodeError,
>)
    requires
        pos <= s@.len(),
    ensures
        r matches Ok(p) ==> 1 <= p.1 && pos + p.1 <= s@.len() && spec_parse_pairs(
            s@.skip(pos as int),
        ) == Some((raw_views(p.0@), p.1 as int)),
        r is Err <==> spec_parse_pairs(s@.skip(pos as int)) is None,
    decreases s@.len() - pos, 1int,
{
    let ghost t = s@.skip(pos as int);
    if pos == s.len() {
        return Err(DecodeError::UnterminatedAggregate);
    }
    proof {
        assert(t[0] == s@[pos as int]);
    }
    if s[pos] == TOK_END {
        let empty: Vec<(Vec<u8>, BencodeValue)> = Vec::new();
        proof {
            assert(raw_views(empty@) =~= Seq::<(Seq<u8>, BValue)>::empty());
        }
        return Ok((empty, 1));
    }
    let (k, n) = match parse_str_at(s, pos) {
        Ok(p) => p,
        Err(_) => {
            return Err(DecodeError::InvalidKey);
        },
    };
    proof {
        assert(t.skip(n as int) =~= s@.skip(pos + n));
    }
    let (v, m) = match parse_value_at(s, pos + n) {
        Ok(p) => p,
        Err(e) => {
            return Err(e);
        },
    };
    proof {
        assert(t.skip(n + m as int) =~= s@.skip(pos + n + m));
    }
    let (mut d, q) = match parse_pairs_at(s, pos + n + m) {
        Ok(p) => p,
        Err(e) => {
            return Err(e);
        },
    };
    let ghost tail = d@;
    d.insert(0, (k, v));
    proof {
        assert(raw_views(d@) =~= seq![(k@, v@)] + raw_views(tail));
    }
    Ok((d, n + m + q))
}

/// Decodes one bencode value from the front of `bytes`, tolerating and
/// reporting trailing bytes: on success the value and how many bytes it
/// covered. This is the embedded-value form used to pick a sub-document,
/// such as an info dictionary, out of a larger one.
pub fn decode_prefix(bytes: &[u8]) -> (r: Result<(BencodeValue, usize), DecodeError>)
    ensures
        r matches Ok(p) ==> 1 <= p.1 <= bytes@.len() && spec_parse_value(bytes@) == Some(
            (p.0@, p.1 as int),
        ),
        r is Err <==> spec_parse_value(bytes@) is None,
{
    let r = parse_value_at(bytes, 0);
    proof {
        assert(bytes@.skip(0) =~= bytes@);
    }
    r
}

/// Decodes a whole bencode document: exactly one value covering every byte
/// of the input. Succeeds if and only if the input is a well-formed value
/// with nothing following it, and then returns exactly the parsed value.
pub fn decode(bytes: &[u8]) -> (r: Result<BencodeValue, DecodeError>)
    ensures
        r matches Ok(v) ==> spec_decode(bytes@) == Some(v@),
        r is Err <==> spec_decode(bytes@) is None,
        spec_parse_value(bytes@) matches Some(p) && p.1 != bytes@.len() ==> r == Err::<
            BencodeValue,
            DecodeError,
        >(DecodeError::TrailingBytes),
{
    match decode_prefix(bytes) {
        Ok((v, n)) => {
            if n == bytes.len() {
                Ok(v)
            } else {
                Err(DecodeError::TrailingBytes)
            }
        },
        Err(e) => Err(e),
    }
}

/// The canonical bencode encoding of a value: deterministic, with every
/// dictionary's keys emitted in ascending raw-byte order whatever order the
/// value holds them in.
pub fn encode(v: &BencodeValue) -> (r: Vec<u8>)
    ensures
        r@ == spec_encode(canon(v@)),
{
    let mut out: Vec<u8> = Vec::new();
    encode_into(v, &mut out);
    proof {
        assert(Seq::<u8>::empty() + spec_encode(canon(v@)) =~= spec_encode(canon(v@)));
    }
    out
}


/// No value's encoding is empty or starts with the terminator byte `e`.
pub proof fn lemma_encode_first_byte(v: BValue)
    ensures
        spec_encode(v).len() >= 2,
        spec_encode(v)[0] != TOK_END,
{
    match v {
        BValue::Int(i) => {
            if i < 0 {
                lemma_spec_digits_shape((-i) as nat);
            } else {
                lemma_spec_digits_shape(i as nat);
            }
        },
        BValue::Bytes(b) => {
            lemma_spec_digits_shape(b.len());
            assert(spec_encode(v)[0] == spec_digits(b.len())[0]);
            assert(is_digit(spec_digits(b.len())[0]));
        },
        BValue::List(_) => {},
        BValue::Dict(_) => {},
    }
}

/// A byte string's encoding, followed by anything, parses back to exactly
/// that byte string.
pub proof fn lemma_parse_str_encode(b: Seq<u8>, rest: Seq<u8>)
    ensures
        spec_parse_str(spec_str_bytes(b) + rest) == Some((b, spec_str_bytes(b).len() as int)),
{
    let s = spec_str_bytes(b) + rest;
    let tail = seq![TOK_COLON] + b + rest;
    lemma_spec_digits(b.len(), tail);
    assert(spec_digits(b.len()) + tail =~= s);
    let dl = spec_digits(b.len()).len() as int;
    assert(digits_len(s) == dl && valid_digits(s, dl));
    assert(s[dl] == TOK_COLON);
    assert(digits_val(s, dl) == b.len());
    assert(s.subrange(dl + 1, dl + 1 + b.len()) =~= b);
}

/// An integer's encoding, followed by anything, parses back to exactly
/// that integer, for any value in the signed 64-bit range.
pub proof fn lemma_parse_int_encode(i: int, rest: Seq<u8>)
    requires
        i64::MIN <= i <= i64::MAX,
    ensures
        spec_parse_value(spec_encode(BValue::Int(i)) + rest) == Some(
            (BValue::Int(i), spec_encode(BValue::Int(i)).len() as int),
        ),
{
    let e = spec_encode(BValue::Int(i));
    let s = e + rest;
    assert(s[0] == TOK_INT);
    if i < 0 {
        let m = (-i) as nat;
        let tail = seq![TOK_END] + rest;
        lemma_spec_digits(m, tail);
        assert(s[1] == TOK_MINUS);
        let body = s.skip(2);
        assert(body =~= spec_digits(m) + tail);
        let dl = spec_digits(m).len() as int;
        assert(body[0] == spec_digits(m)[0]);
        assert(body[dl] == TOK_END);
        assert(digits_val(body, dl) == m);
        assert(spec_parse_int(s) == Some((BValue::Int(i), 2 + dl + 1)));
        assert(e.len() == 2 + dl + 1);
    } else {
        let m = i as nat;
        let tail = seq![TOK_END] + rest;
        lemma_spec_digits(m, tail);
        let body = s.skip(1);
        assert(body =~= spec_digits(m) + tail);
        let dl = spec_digits(m).len() as int;
        assert(s[1] == spec_digits(m)[0]);
        assert(is_digit(spec_digits(m)[0])) by {
            lemma_spec_digits_shape(m);
        }
        assert(!(s.len() >= 2 && s[1] == TOK_MINUS));
        assert(body[dl] == TOK_END);
        assert(digits_val(body, dl) == m);
        assert(spec_parse_int(s) == Some((BValue::Int(i), 1 + dl + 1)));
        assert(e.len() == 1 + dl + 1);
    }
}

/// A value's encoding, followed by anything, parses back to exactly that
/// value: the round-trip law of the codec, for values in stored order.
pub proof fn lemma_parse_encode(v: BValue, rest: Seq<u8>)
    requires
        in_range(v),
    ensures
        spec_parse_value(spec_encode(v) + rest) == Some((v, spec_encode(v).len() as int)),
    decreases v, 0int,
{
    let e = spec_encode(v);
    let s = e + rest;
    lemma_encode_first_byte(v);
    match v {
        BValue::Int(i) => {
            lemma_parse_int_encode(i, rest);
        },
        BValue::Bytes(b) => {
            lemma_parse_str_encode(b, rest);
            assert(s[0] == spec_str_bytes(b)[0]);
            lemma_spec_digits_shape(b.len());
            assert(spec_str_bytes(b)[0] == spec_digits(b.len())[0]);
            assert(is_digit(s[0]));
            assert(spec_str_bytes(b) + rest =~= s);
        },
        BValue::List(l) => {
            assert(s[0] == TOK_LIST);
            assert(s.skip(1) =~= spec_encode_list(l) + (seq![TOK_END] + rest));
            lemma_parse_encode_list(l, rest);
            assert(e.len() == 1 + spec_encode_list(l).len() + 1);
        },
        BValue::Dict(d) => {
            assert(s[0] == TOK_DICT);
            assert(s.skip(1) =~= spec_encode_pairs(d) + (seq![TOK_END] + rest));
            lemma_parse_encode_pairs(d, rest);
            assert(e.len() == 1 + spec_encode_pairs(d).len() + 1);
        },
    }
}

/// The encodings of a list's elements, a terminator and anything after it
/// parse back to exactly those elements.
pub proof fn lemma_parse_encode_list(l: Seq<BValue>, rest: Seq<u8>)
    requires
        forall|i: int| 0 <= i < l.len() ==> in_range(#[trigger] l[i]),
    ensures
        spec_parse_items(spec_encode_list(l) + (seq![TOK_END] + rest)) == Some(
            (l, spec_encode_list(l).len() as int + 1),
        ),
    decreases l, 1int,
{
    let s = spec_encode_list(l) + (seq![TOK_END] + rest);
    if l.len() == 0 {
        assert(s[0] == TOK_END);
        assert(l =~= Seq::<BValue>::empty());
    } else {
        let e0 = spec_encode(l[0]);
        let rest1 = spec_encode_list(l.drop_first()) + (seq![TOK_END] + rest);
        assert(s =~= e0 + rest1);
        lemma_encode_first_byte(l[0]);
        assert(s[0] == e0[0]);
        assert(s[0] != TOK_END);
        lemma_parse_encode(l[0], rest1);
        let n = e0.len() as int;
        assert(spec_parse_value(s) == Some((l[0], n)));
        assert(1 <= n <= s.len());
        assert(s.skip(n) =~= rest1);
        lemma_parse_encode_list(l.drop_first(), rest);
        assert(seq![l[0]] + l.drop_first() =~= l);
    }
}

/// The encodings of a dictionary's entries, a terminator and anything
/// after it parse back to exactly those entries, in the same order.
#[verifier::rlimit(60)]
#[verifier::spinoff_prover]
pub proof fn lemma_parse_encode_pairs(d: Seq<(Seq<u8>, BValue)>, rest: Seq<u8>)
    requires
        forall|i: int| 0 <= i < d.len() ==> in_range((#[trigger] d[i]).1),
    ensures
        spec_parse_pairs(spec_encode_pairs(d) + (seq![TOK_END] + rest)) == Some(
            (d, spec_encode_pairs(d).len() as int + 1),
        ),
    decreases d, 1int,
{
    let s = spec_encode_pairs(d) + (seq![TOK_END] + rest);
    if d.len() == 0 {
        assert(s[0] == TOK_END);
        assert(d =~= Seq::<(Seq<u8>, BValue)>::empty());
    } else {
        let k = d[0].0;
        let ek = spec_str_bytes(k);
        let ev = spec_encode(d[0].1);
        let rest1 = ev + (spec_encode_pairs(d.drop_first()) + (seq![TOK_END] + rest));
        assert(s =~= ek + rest1);
        lemma_spec_digits_shape(k.len());
        assert(s[0] == ek[0]);
        assert(ek[0] == spec_digits(k.len())[0]);
        assert(is_digit(s[0]));
        assert(s[0] != TOK_END);
        lemma_parse_str_encode(k, rest1);
        assert(ek + rest1 =~= s);
        let n = ek.len() as int;
        assert(spec_parse_str(s) == Some((k, n)));
        assert(1 <= n <= s.len());
        let rest2 = spec_encode_pairs(d.drop_first()) + (seq![TOK_END] + rest);
        assert(s.skip(n) =~= ev + rest2);
        lemma_parse_encode(d[0].1, rest2);
        let m = ev.len() as int;
        assert(spec_parse_value(s.skip(n)) == Some((d[0].1, m)));
        assert(s.skip(n + m) =~= rest2);
        lemma_parse_encode_pairs(d.drop_first(), rest);
        assert((k, d[0].1) == d[0]);
        assert(seq![d[0]] + d.drop_first() =~= d);
    }
}

/// Law: decoding the canonical encoding of any value gives back exactly
/// that value. Every integer must fit the signed 64-bit range; a value
/// whose dictionaries are already sorted is returned unchanged, any other
/// comes back as its canonical form.
pub proof fn lemma_decode_encode(v: BValue)
    requires
        in_range(v),
    ensures
        spec_decode(spec_encode(v)) == Some(v),
{
    lemma_parse_encode(v, Seq::empty());
    assert(spec_encode(v) + Seq::<u8>::empty() =~= spec_encode(v));
}

/// Law: the encoding is injective: two values with the same encoded
/// bytes are the same value, so changing any part of a value changes its
/// encoding.
pub proof fn lemma_encode_injective(a: BValue, b: BValue)
    requires
        in_range(a),
        in_range(b),
        spec_encode(a) == spec_encode(b),
    ensures
        a == b,
{
    lemma_decode_encode(a);
    lemma_decode_encode(b);
}

/// Canonicalization touches no integer, so it keeps every integer in
/// range.
pub proof fn lemma_canon_in_range(v: BValue)
    requires
        in_range(v),
    ensures
        in_range(canon(v)),
    decreases v,
{
    match v {
        BValue::Int(_) => {},
        BValue::Bytes(_) => {},
        BValue::List(l) => {
            assert forall|i: int| 0 <= i < canon_seq(l).len() implies in_range(
                #[trigger] canon_seq(l)[i],
            ) by {
                assert(in_range(l[i]));
                lemma_canon_in_range(l[i]);
            }
            assert(in_range(BValue::List(canon_seq(l))));
        },
        BValue::Dict(d) => {
            let cp = canon_pairs(d);
            assert forall|i: int| 0 <= i < cp.len() implies in_range((#[trigger] cp[i]).1) by {
                assert(in_range(d[i].1));
                lemma_canon_in_range(d[i].1);
            }
            lemma_sort_pairs_multiset(cp);
            broadcast use vstd::seq_lib::group_to_multiset_ensures;
            broadcast use vstd::multiset::group_multiset_axioms;

            let sp = spec_sort_pairs(cp);
            assert forall|i: int| 0 <= i < sp.len() implies in_range((#[trigger] sp[i]).1) by {
                assert(sp.contains(sp[i]));
                assert(sp.to_multiset().count(sp[i]) > 0);
                assert(cp.contains(sp[i]));
                let w = choose|w: int| 0 <= w < cp.len() && cp[w] == sp[i];
                assert(in_range(cp[w].1));
            }
        },
    }
}

/// Law: what the canonical encoder emits decodes back to exactly the
/// canonical form of the value it was given; a value whose dictionaries
/// are already sorted comes back identical.
pub proof fn lemma_decode_canonical_encode(v: BValue)
    requires
        in_range(v),
    ensures
        spec_decode(spec_encode(canon(v))) == Some(canon(v)),
        canonical(v) ==> spec_decode(spec_encode(canon(v))) == Some(v),
{
    lemma_canon_in_range(v);
    lemma_decode_encode(canon(v));
    if canonical(v) {
        lemma_canon_id(v);
    }
}

/// A canonical value is untouched by canonicalization.
pub proof fn lemma_canon_id(v: BValue)
    requires
        canonical(v),
    ensures
        canon(v) == v,
    decreases v,
{
    match v {
        BValue::Int(_) => {},
        BValue::Bytes(_) => {},
        BValue::List(l) => {
            assert forall|i: int| 0 <= i < l.len() implies canon_seq(l)[i] == l[i] by {
                assert(canonical(l[i]));
                lemma_canon_id(l[i]);
            }
            assert(canon_seq(l) =~= l);
        },
        BValue::Dict(d) => {
            assert forall|i: int| 0 <= i < d.len() implies canon_pairs(d)[i] == d[i] by {
                assert(canonical(d[i].1));
                lemma_canon_id(d[i].1);
                assert((d[i].0, d[i].1) == d[i]);
            }
            assert(canon_pairs(d) =~= d);
            lemma_sort_pairs_sorted_id(d);
        },
    }
}

/// Sorting a sequence whose keys are already strictly ascending returns
/// it unchanged.
pub proof fn lemma_sort_pairs_sorted_id(d: Seq<(Seq<u8>, BValue)>)
    requires
        sorted_keys(d),
    ensures
        spec_sort_pairs(d) == d,
    decreases d.len(),
{
    if d.len() > 0 {
        assert(sorted_keys(d.drop_first())) by {
            assert(forall|i: int, j: int|
                0 <= i < j < d.drop_first().len() ==> d.drop_first()[i] == d[i + 1]
                    && d.drop_first()[j] == d[j + 1]);
        }
        lemma_sort_pairs_sorted_id(d.drop_first());
        lemma_insert_pair_front(d[0], d.drop_first());
        assert(seq![d[0]] + d.drop_first() =~= d);
    }
}

/// An entry whose key is strictly below every key of a sequence inserts
/// at the front.
pub proof fn lemma_insert_pair_front(p: (Seq<u8>, BValue), d: Seq<(Seq<u8>, BValue)>)
    requires
        forall|i: int| 0 <= i < d.len() ==> lex_lt(p.0, (#[trigger] d[i]).0),
    ensures
        spec_insert_pair(p, d) == seq![p] + d,
{
    if d.len() == 0 {
        assert(seq![p] + d =~= seq![p]);
    } else {
        assert(lex_lt(p.0, d[0].0));
    }
}


/// Two distinct byte strings are strictly ordered one way or the other.
pub proof fn lemma_lex_lt_connected(a: Seq<u8>, b: Seq<u8>)
    requires
        a != b,
    ensures
        lex_lt(a, b) || lex_lt(b, a),
    decreases a.len(),
{
    if a.len() == 0 || b.len() == 0 {
        if a.len() == 0 {
            assert(b.len() > 0) by {
                assert(a =~= Seq::<u8>::empty());
                if b.len() == 0 {
                    assert(b =~= Seq::<u8>::empty());
                }
            }
        }
    } else {
        if a[0] == b[0] {
            assert(a.drop_first() != b.drop_first()) by {
                if a.drop_first() == b.drop_first() {
                    assert(a =~= seq![a[0]] + a.drop_first());
                    assert(b =~= seq![b[0]] + b.drop_first());
                }
            }
            lemma_lex_lt_connected(a.drop_first(), b.drop_first());
        }
    }
}

/// Byte-lexicographic order is asymmetric.
pub proof fn lemma_lex_lt_asymm(a: Seq<u8>, b: Seq<u8>)
    requires
        lex_lt(a, b),
    ensures
        !lex_lt(b, a),
    decreases a.len(),
{
    if a.len() > 0 && b.len() > 0 && a[0] == b[0] {
        lemma_lex_lt_asymm(a.drop_first(), b.drop_first());
    }
}

/// Byte-lexicographic order is transitive.
pub proof fn lemma_lex_lt_trans(a: Seq<u8>, b: Seq<u8>, c: Seq<u8>)
    requires
        lex_lt(a, b),
        lex_lt(b, c),
    ensures
        lex_lt(a, c),
    decreases a.len(),
{
    if a.len() > 0 && b.len() > 0 && c.len() > 0 && a[0] == b[0] && b[0] == c[0] {
        lemma_lex_lt_trans(a.drop_first(), b.drop_first(), c.drop_first());
    }
}

/// Insertion adds exactly the inserted entry to the contents.
pub proof fn lemma_insert_pair_multiset(p: (Seq<u8>, BValue), d: Seq<(Seq<u8>, BValue)>)
    ensures
        spec_insert_pair(p, d).to_multiset() == d.to_multiset().insert(p),
    decreases d.len(),
{
    broadcast use vstd::seq_lib::group_to_multiset_ensures;
    broadcast use vstd::multiset::group_multiset_axioms;

    if d.len() == 0 {
        assert(seq![p] =~= Seq::<(Seq<u8>, BValue)>::empty().push(p));
        assert(spec_insert_pair(p, d).to_multiset() =~= d.to_multiset().insert(p));
    } else if lex_lt(p.0, d[0].0) {
        vstd::seq_lib::lemma_multiset_commutative(seq![p], d);
        assert(seq![p].to_multiset() =~= Multiset::<(Seq<u8>, BValue)>::empty().insert(p)) by {
            assert(seq![p] =~= Seq::<(Seq<u8>, BValue)>::empty().push(p));
        }
        assert(spec_insert_pair(p, d).to_multiset() =~= d.to_multiset().insert(p));
    } else {
        lemma_insert_pair_multiset(p, d.drop_first());
        let t = spec_insert_pair(p, d.drop_first());
        vstd::seq_lib::lemma_multiset_commutative(seq![d[0]], t);
        vstd::seq_lib::lemma_multiset_commutative(seq![d[0]], d.drop_first());
        assert(seq![d[0]] + d.drop_first() =~= d);
        assert(seq![d[0]].to_multiset() =~= Multiset::<(Seq<u8>, BValue)>::empty().insert(d[0]))
            by {
            assert(seq![d[0]] =~= Seq::<(Seq<u8>, BValue)>::empty().push(d[0]));
        }
        assert((seq![d[0]] + t).to_multiset() =~= d.to_multiset().insert(p));
    }
}

/// Sorting does not change the contents of an entry sequence.
pub proof fn lemma_sort_pairs_multiset(d: Seq<(Seq<u8>, BValue)>)
    ensures
        spec_sort_pairs(d).to_multiset() == d.to_multiset(),
    decreases d.len(),
{
    broadcast use vstd::seq_lib::group_to_multiset_ensures;
    broadcast use vstd::multiset::group_multiset_axioms;

    if d.len() > 0 {
        lemma_sort_pairs_multiset(d.drop_first());
        lemma_insert_pair_multiset(d[0], spec_sort_pairs(d.drop_first()));
        assert(d =~= seq![d[0]] + d.drop_first());
        vstd::seq_lib::lemma_multiset_commutative(seq![d[0]], d.drop_first());
        assert(seq![d[0]].to_multiset() =~= Multiset::<(Seq<u8>, BValue)>::empty().insert(d[0]))
            by {
            assert(seq![d[0]] =~= Seq::<(Seq<u8>, BValue)>::empty().push(d[0]));
        }
        assert(spec_sort_pairs(d).to_multiset() =~= d.to_multiset());
    }
}

/// Inserting an entry whose key is absent keeps keys strictly sorted.
pub proof fn lemma_insert_pair_sorted(p: (Seq<u8>, BValue), d: Seq<(Seq<u8>, BValue)>)
    requires
        sorted_keys(d),
        forall|i: int| 0 <= i < d.len() ==> (#[trigger] d[i]).0 != p.0,
    ensures
        sorted_keys(spec_insert_pair(p, d)),
    decreases d.len(),
{
    let r = spec_insert_pair(p, d);
    if d.len() == 0 {
    } else if lex_lt(p.0, d[0].0) {
        assert(r == seq![p] + d);
        assert forall|i: int, j: int| 0 <= i < j < r.len() implies lex_lt(r[i].0, r[j].0) by {
            if i == 0 {
                if j > 1 {
                    lemma_lex_lt_trans(p.0, d[0].0, d[j - 1].0);
                }
            }
        }
    } else {
        assert(lex_lt(d[0].0, p.0)) by {
            lemma_lex_lt_connected(p.0, d[0].0);
        }
        assert(sorted_keys(d.drop_first())) by {
            assert(forall|i: int|
                0 <= i < d.drop_first().len() ==> #[trigger] d.drop_first()[i] == d[i + 1]);
        }
        lemma_insert_pair_sorted(p, d.drop_first());
        let t = spec_insert_pair(p, d.drop_first());
        lemma_insert_pair_multiset(p, d.drop_first());
        broadcast use vstd::seq_lib::group_to_multiset_ensures;
        broadcast use vstd::multiset::group_multiset_axioms;

        assert(r == seq![d[0]] + t);
        assert forall|i: int, j: int| 0 <= i < j < r.len() implies lex_lt(r[i].0, r[j].0) by {
            if i == 0 {
                let x = t[j - 1];
                assert(t.contains(x));
                assert(t.to_multiset().count(x) > 0);
                if x == p {
                    assert(lex_lt(d[0].0, p.0));
                } else {
                    assert(d.drop_first().to_multiset().count(x) > 0);
                    assert(d.drop_first().contains(x));
                    let w = choose|w: int|
                        0 <= w < d.drop_first().len() && d.drop_first()[w] == x;
                    assert(d[w + 1] == x);
                    assert(lex_lt(d[0].0, d[w + 1].0));
                }
            }
        }
    }
}

/// Sorting a sequence with pairwise distinct keys makes its keys strictly
/// ascending.
pub proof fn lemma_sort_pairs_sorted(d: Seq<(Seq<u8>, BValue)>)
    requires
        unique_keys(d),
    ensures
        sorted_keys(spec_sort_pairs(d)),
    decreases d.len(),
{
    broadcast use vstd::seq_lib::group_to_multiset_ensures;
    broadcast use vstd::multiset::group_multiset_axioms;

    if d.len() > 0 {
        assert(unique_keys(d.drop_first())) by {
            assert(forall|i: int|
                0 <= i < d.drop_first().len() ==> #[trigger] d.drop_first()[i] == d[i + 1]);
        }
        lemma_sort_pairs_sorted(d.drop_first());
        let t = spec_sort_pairs(d.drop_first());
        lemma_sort_pairs_multiset(d.drop_first());
        assert forall|i: int| 0 <= i < t.len() implies (#[trigger] t[i]).0 != d[0].0 by {
            assert(t.contains(t[i]));
            assert(t.to_multiset().count(t[i]) > 0);
            assert(d.drop_first().contains(t[i]));
            let w = choose|w: int| 0 <= w < d.drop_first().len() && d.drop_first()[w] == t[i];
            assert(d[w + 1] == t[i]);
        }
        lemma_insert_pair_sorted(d[0], t);
    }
}

/// Two entry sequences with strictly ascending keys and the same contents
/// are identical.
pub proof fn lemma_sorted_pairs_unique(x: Seq<(Seq<u8>, BValue)>, y: Seq<(Seq<u8>, BValue)>)
    requires
        sorted_keys(x),
        sorted_keys(y),
        x.to_multiset() == y.to_multiset(),
    ensures
        x == y,
    decreases x.len(),
{
    broadcast use vstd::seq_lib::group_to_multiset_ensures;
    broadcast use vstd::multiset::group_multiset_axioms;

    if x.len() == 0 {
        assert(x =~= y);
    } else {
        assert(y.len() == x.len()) by {
            assert(x.to_multiset().len() == x.len());
            assert(y.to_multiset().len() == y.len());
        }
        assert(x.to_multiset().count(y[0]) > 0) by {
            assert(y.contains(y[0]));
        }
        assert(x.contains(y[0]));
        let i = choose|i: int| 0 <= i < x.len() && x[i] == y[0];
        assert(y.contains(x[0])) by {
            assert(y.to_multiset().count(x[0]) > 0) by {
                assert(x.contains(x[0]));
            }
        }
        let j = choose|j: int| 0 <= j < y.len() && y[j] == x[0];
        if i > 0 && j > 0 {
            assert(lex_lt(x[0].0, x[i].0));
            assert(lex_lt(y[0].0, y[j].0));
            lemma_lex_lt_asymm(x[0].0, y[0].0);
            assert(false);
        }
        assert(x[0] == y[0]);
        assert(x.drop_first().to_multiset() =~= x.to_multiset().remove(x[0])) by {
            assert(x.remove(0) =~= x.drop_first());
        }
        assert(y.drop_first().to_multiset() =~= y.to_multiset().remove(y[0])) by {
            assert(y.remove(0) =~= y.drop_first());
        }
        assert(sorted_keys(x.drop_first())) by {
            assert(forall|m: int|
                0 <= m < x.drop_first().len() ==> #[trigger] x.drop_first()[m] == x[m + 1]);
        }
        assert(sorted_keys(y.drop_first())) by {
            assert(forall|m: int|
                0 <= m < y.drop_first().len() ==> #[trigger] y.drop_first()[m] == y[m + 1]);
        }
        lemma_sorted_pairs_unique(x.drop_first(), y.drop_first());
        assert(x =~= seq![x[0]] + x.drop_first());
        assert(y =~= seq![y[0]] + y.drop_first());
    }
}

/// Law: two dictionaries holding the same key and value pairs, each key
/// once, encode to byte-identical canonical output whatever order their
/// entries stand in.
pub proof fn lemma_encode_dict_order_irrelevant(
    d1: Seq<(Seq<u8>, BValue)>,
    d2: Seq<(Seq<u8>, BValue)>,
)
    requires
        d1.to_multiset() == d2.to_multiset(),
        unique_keys(d1),
        unique_keys(d2),
    ensures
        spec_encode(canon(BValue::Dict(d1))) == spec_encode(canon(BValue::Dict(d2))),
{
    lemma_sort_pairs_multiset(d1);
    lemma_sort_pairs_multiset(d2);
    lemma_sort_pairs_sorted(d1);
    lemma_sort_pairs_sorted(d2);
    lemma_sorted_pairs_unique(spec_sort_pairs(d1), spec_sort_pairs(d2));
    lemma_sort_canon(d1);
    lemma_sort_canon(d2);
    assert(canon(BValue::Dict(d1)) == canon(BValue::Dict(d2)));
}

} // verus!
