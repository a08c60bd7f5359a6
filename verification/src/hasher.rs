//! The content digest: SHA-1 over the bytes of an object, written as 40
//! lower-case hexadecimal characters.

use vstd::prelude::*;
use crate::hex::{
    hex_decode, hex_lower, is_hex_sha, is_lower_hex, lemma_hex_lower_shape, lemma_hex_round_trip,
    to_hex,
};

verus! {

/// The SHA-1 digest of `data`, as the `sha1` crate computes it.
pub uninterp spec fn sha1_digest(data: Seq<u8>) -> [u8; 20];

/// `sha1::Digest::digest` for `Sha1`: the 160-bit digest of `data`, which
/// depends on `data` alone. Nothing is proved of the hash function itself.
#[verifier::external_body]
fn sha1_raw(data: &[u8]) -> (out: [u8; 20])
    ensures
        out == sha1_digest(data@),
{
    <sha1::Sha1 as sha1::Digest>::digest(data).into()
}

/// The digest of `data` in text form.
pub open spec fn digest_hex(data: Seq<u8>) -> Seq<char> {
    hex_lower(sha1_digest(data)@)
}

/// Every digest is a text of 40 lower-case hexadecimal characters.
pub proof fn lemma_digest_is_hex(data: Seq<u8>)
    ensures
        digest_hex(data).len() == 40,
        is_lower_hex(digest_hex(data)),
        is_hex_sha(digest_hex(data)),
{
    lemma_hex_lower_shape(sha1_digest(data)@);
}

/// The text of a digest stands for the 20 raw bytes of that digest.
pub proof fn lemma_digest_raw(data: Seq<u8>)
    ensures
        hex_decode(digest_hex(data)) == sha1_digest(data)@,
{
    lemma_hex_round_trip(sha1_digest(data)@);
}

/// The digest of `data`: 40 lower-case hexadecimal characters that depend on
/// the bytes of `data` alone.
pub fn sha1_hex(data: &[u8]) -> (sha: String)
    ensures
        sha@ == digest_hex(data@),
        sha@.len() == 40,
        is_lower_hex(sha@),
        is_hex_sha(sha@),
{
    let raw = sha1_raw(data);
    proof {
        lemma_digest_is_hex(data@);
    }
    to_hex(raw.as_slice())
}

} // verus!
