//! String hashes.

use vstd::prelude::*;
use vstd::utf8::encode_utf8;

verus! {

/// The 64-bit XXH3 hash of a byte string.
pub uninterp spec fn xxh3(bytes: Seq<u8>) -> u64;

/// The hash by which a string column stores a text.
pub open spec fn text_hash(text: Seq<char>) -> u64 {
    xxh3(encode_utf8(text))
}

/// `xxhash_rust::xxh3::xxh3_64`: the hash is a function of the bytes alone.
/// Which number it is for given bytes is left unsaid.
#[verifier::external_body]
fn xxh3_64(bytes: &[u8]) -> (h: u64)
    ensures
        h == xxh3(bytes@),
{
    xxhash_rust::xxh3::xxh3_64(bytes)
}

/// Hashes a text.
pub fn hash_text(s: &str) -> (h: u64)
    ensures
        h == text_hash(s@),
{
    xxh3_64(s.as_bytes())
}

/// Hashes a byte string.
pub fn hash_bytes(bytes: &Vec<u8>) -> (h: u64)
    ensures
        h == xxh3(bytes@),
{
    xxh3_64(bytes.as_slice())
}

} // verus!
