//! Content hashes.
//!
//! A file is known by the SHA-256 digest of its bytes, written as lower-case
//! hexadecimal digits. The digest is computed by the `sha2` crate and written
//! out by the `hex` crate.

use sha2::Digest;
use vstd::prelude::*;
use vstd::string::StringSliceAdditionalSpecFns;

verus! {

/// The SHA-256 digest of `data`, as `sha2` computes it.
pub uninterp spec fn sha256_spec(data: Seq<u8>) -> Seq<u8>;

/// The sixteen hexadecimal digits, lower case.
pub open spec fn hex_digits() -> Seq<char> {
    seq!['0', '1', '2', '3', '4', '5', '6', '7', '8', '9', 'a', 'b', 'c', 'd', 'e', 'f']
}

/// Two hexadecimal digits for each byte, the high half first.
pub open spec fn hex_spec(data: Seq<u8>) -> Seq<char> {
    Seq::new(
        2 * data.len(),
        |i: int|
            if i % 2 == 0 {
                hex_digits()[data[i / 2] as int / 16]
            } else {
                hex_digits()[data[i / 2] as int % 16]
            },
    )
}

/// The hash of a file with the bytes `data`.
pub open spec fn hash_spec(data: Seq<u8>) -> Seq<char> {
    hex_spec(sha256_spec(data))
}

/// The hash of a file with the text `text`.
pub open spec fn text_hash_spec(text: Seq<char>) -> Seq<char> {
    hash_spec(vstd::utf8::encode_utf8(text))
}

/// The SHA-256 digest of `data`.
///
/// Calls `sha2::Sha256::digest`, which feeds the bytes to a fresh hasher and
/// returns what it finalizes to. The digest depends on the bytes alone and is
/// 32 bytes long.
#[verifier::external_body]
fn sha256(data: &[u8]) -> (digest: Vec<u8>)
    ensures
        digest@ == sha256_spec(data@),
        digest@.len() == 32,
{
    sha2::Sha256::digest(data).to_vec()
}

/// The bytes as lower-case hexadecimal digits.
///
/// Calls `hex::encode`, which writes for each byte the digit of its high
/// half and then the digit of its low half, from the table
/// `0123456789abcdef`.
#[verifier::external_body]
fn hex_encode(data: &Vec<u8>) -> (digits: String)
    ensures
        digits@ == hex_spec(data@),
{
    hex::encode(data)
}

/// The hash of a file with the bytes `data`.
pub fn content_hash(data: &[u8]) -> (hash: String)
    ensures
        hash@ == hash_spec(data@),
        hash@.len() == 64,
{
    let digest = sha256(data);
    hex_encode(&digest)
}

/// The hash of a file with the text `text`.
pub fn text_hash(text: &str) -> (hash: String)
    ensures
        hash@ == text_hash_spec(text@),
        hash@.len() == 64,
{
    content_hash(text.as_bytes())
}

/// Whether a working copy with the text `working` differs from the stored
/// copy whose hash is `stored_hash`: whether its hash is another.
pub fn is_modified(working: &str, stored_hash: &str) -> (modified: bool)
    ensures
        modified == (text_hash_spec(working@) != stored_hash@),
{
    let hash = text_hash(working);
    !same_text(hash.as_str(), stored_hash)
}

/// Whether two strings hold the same characters.
pub fn same_text(a: &str, b: &str) -> (same: bool)
    ensures
        same == (a@ == b@),
{
    let x = crate::text::to_chars(a);
    let y = crate::text::to_chars(b);
    if x.len() != y.len() {
        return false;
    }
    let mut i: usize = 0;
    while i < x.len()
        invariant
            i <= x.len(),
            x.len() == y.len(),
            x@ == a@,
            y@ == b@,
            forall|k: int| 0 <= k < i ==> x@[k] == y@[k],
        decreases x.len() - i,
    {
        if x[i] != y[i] {
            assert(a@[i as int] != b@[i as int]);
            return false;
        }
        i += 1;
    }
    assert(x@ =~= y@);
    true
}

} // verus!
