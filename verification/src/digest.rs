//! The digest function: SHA-256 of a string's bytes, hex-encoded. The hash
//! itself comes from outside crates; everything built on top of it speaks
//! of the named result `sha256_hex_of`.
use sha2::Digest;
use vstd::prelude::*;

verus! {

/// The hex-encoded SHA-256 digest of the UTF-8 bytes of a character
/// sequence. A function of the characters alone.
pub uninterp spec fn sha256_hex_of(content: Seq<char>) -> Seq<char>;

/// Compute the SHA-256 hash of a string, hex-encoded.
///
/// Relies on `sha2::Sha256` (`new`/`update`/`finalize`) for the digest of
/// the string's bytes and on `hex::encode` for the hex form; together they
/// are a pure function of the input characters, named `sha256_hex_of`.
#[verifier::external_body]
pub fn sha256_hash(content: String) -> (r: String)
    ensures
        r@ == sha256_hex_of(content@),
{
    let mut hasher = sha2::Sha256::new();
    hasher.update(content.as_bytes());
    hex::encode(hasher.finalize())
}

/// A file path together with the digest of the file's content.
#[derive(Clone)]
pub struct FileHash {
    pub path: String,
    pub hash: String,
}

} // verus!
