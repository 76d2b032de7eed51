//! The content digest: an opaque, deterministic function of a byte stream.

use vstd::prelude::*;

verus! {

/// The digest of a byte sequence: what the hash function returns for exactly
/// these bytes, on any machine and in any run.
pub uninterp spec fn digest_of(content: Seq<u8>) -> Seq<u8>;

/// A lowercase hexadecimal digit, as a byte.
pub open spec fn is_hex_digit(b: u8) -> bool {
    (0x30 <= b && b <= 0x39) || (0x61 <= b && b <= 0x66)
}

/// The shape every digest has: 32 lowercase hex digits.
pub open spec fn is_digest(s: Seq<u8>) -> bool {
    &&& s.len() == 32
    &&& forall|i: int| 0 <= i < s.len() ==> is_hex_digit(#[trigger] s[i])
}

/// Relies on `md5::compute` and the `LowerHex` formatting of `md5::Digest`:
/// the digest is a function of the content bytes alone, and its hex form is
/// 32 lowercase hexadecimal digits (two per digest byte).
#[verifier::external_body]
pub fn hash_bytes(content: &Vec<u8>) -> (r: Vec<u8>)
    ensures
        r@ == digest_of(content@),
        is_digest(r@),
{
    format!("{:x}", md5::compute(content.as_slice())).into_bytes()
}

} // verus!
