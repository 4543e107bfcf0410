//! A SHA-1 front end: the digest of a string, written in lowercase
//! hexadecimal.

use vstd::prelude::*;

verus! {

use vstd::string::StringSliceAdditionalSpecFns;
use sha1::Digest;

/// What the SHA-1 digest of a byte sequence writes in lowercase
/// hexadecimal: forty characters, determined by the bytes alone.
pub uninterp spec fn sha1_hex_of(input: Seq<u8>) -> Seq<char>;

/// Relies on the sha1 crate's `Sha1` through the `Digest` trait: the
/// twenty-byte digest is a pure function of the input bytes, written here
/// as forty lowercase hexadecimal characters.
#[verifier::external_body]
pub fn sha1(input: &str) -> (r: String)
    ensures
        r@ == sha1_hex_of(input.spec_bytes()),
        r@.len() == 40,
{
    let mut hasher = sha1::Sha1::new();
    hasher.update(input.as_bytes());
    let digest = hasher.finalize();
    digest.iter().map(|b| format!("{:02x}", b)).collect()
}

} // verus!
