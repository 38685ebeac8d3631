//! The content hash that stands in for an item instance in the identity of a
//! buy offer.

use vstd::prelude::*;

use crate::text::{hex_of, to_hex};

verus! {

/// The MD5 digest of the UTF-8 encoding of a text: sixteen bytes.
pub uninterp spec fn md5_digest(text: Seq<char>) -> Seq<u8>;

/// The digest of a text as the marketplace writes it in offer identifiers.
pub open spec fn md5_hex(text: Seq<char>) -> Seq<char> {
    hex_of(md5_digest(text))
}

/// `md5::compute` on the bytes of `text`, with the sixteen bytes of the digest
/// it returns. The digest is taken on trust to be a function of the text alone;
/// nothing else is claimed about it.
#[verifier::external_body]
fn md5_of(text: &str) -> (digest: [u8; 16])
    ensures
        digest@ == md5_digest(text@),
{
    md5::compute(text).0
}

/// Hashes `text` and writes the digest as 32 lower-case hexadecimal digits.
pub fn md5_hex_of(text: &str) -> (hex: String)
    ensures
        hex@ == md5_hex(text@),
{
    let digest = md5_of(text);
    to_hex(digest.as_slice())
}

} // verus!
