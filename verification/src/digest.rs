//! The SHA-1 digest used for info hashes and piece verification.
//!
//! The digest itself is computed by the `sha1` crate; this module gives its
//! result a name, `sha1_of`, that contracts elsewhere in the crate speak of.

use vstd::prelude::*;

verus! {

/// The SHA-1 digest of a byte sequence: 20 bytes determined by the input
/// bytes alone.
pub uninterp spec fn sha1_of(bytes: Seq<u8>) -> Seq<u8>;

/// Relies on `sha1::Sha1::digest` (RustCrypto `sha1` crate): the one-shot
/// SHA-1 of the input, a pure function of the input bytes, always 20 bytes.
#[verifier::external_body]
pub fn sha1(bytes: &[u8]) -> (r: [u8; 20])
    ensures
        r@ == sha1_of(bytes@),
        r@.len() == 20,
{
    let d = <sha1::Sha1 as sha1::Digest>::digest(bytes);
    let mut out = [0u8; 20];
    out.copy_from_slice(&d);
    out
}

} // verus!
