//! Content hashes: an entry is identified by the lower-case hex rendering of
//! the SHA-256 digest of its content followed by the UTF-8 bytes of its type.

use sha2::Digest;
use vstd::prelude::*;
use vstd::utf8::encode_utf8;

verus! {

/// The SHA-256 digest of `data`, as computed by the `sha2` crate.
pub uninterp spec fn sha256_digest(data: Seq<u8>) -> Seq<u8>;

/// The lower-case hexadecimal digit for a value below sixteen.
pub open spec fn hex_digit(n: int) -> char {
    if n < 10 {
        (n + 48) as char
    } else {
        (n - 10 + 97) as char
    }
}

/// Two lower-case hexadecimal digits per byte, high nibble first.
pub open spec fn hex_lower(data: Seq<u8>) -> Seq<char>
    decreases data.len(),
{
    if data.len() == 0 {
        Seq::empty()
    } else {
        seq![hex_digit(data[0] as int / 16), hex_digit(data[0] as int % 16)] + hex_lower(data.drop_first())
    }
}

/// The hash under which an entry of the given content and type is stored.
pub open spec fn entry_hash(content: Seq<u8>, entry_type: Seq<char>) -> Seq<char> {
    hex_lower(sha256_digest(content + encode_utf8(entry_type)))
}

/// Calls `<sha2::Sha256 as Digest>::digest`; its result is named by
/// `sha256_digest`, and it is 32 bytes long (the output size of `Sha256`).
#[verifier::external_body]
fn sha256(data: &[u8]) -> (digest: Vec<u8>)
    ensures
        digest@ == sha256_digest(data@),
        digest@.len() == 32,
{
    sha2::Sha256::digest(data).to_vec()
}

/// Calls `hex::encode`, which renders each byte as two lower-case
/// hexadecimal digits, high nibble first.
#[verifier::external_body]
fn hex_encode(data: &[u8]) -> (text: String)
    ensures
        text@ == hex_lower(data@),
{
    hex::encode(data)
}

/// Two hexadecimal digits per byte.
pub proof fn lemma_hex_lower_len(data: Seq<u8>)
    ensures
        hex_lower(data).len() == 2 * data.len(),
    decreases data.len(),
{
    if data.len() > 0 {
        lemma_hex_lower_len(data.drop_first());
    }
}

/// The stored hash of an entry with this content and type: 64 lower-case
/// hexadecimal digits.
pub fn content_hash(content: &[u8], entry_type: &str) -> (hash: String)
    ensures
        hash@ == entry_hash(content@, entry_type@),
        hash@.len() == 64,
{
    let mut buf: Vec<u8> = vstd::slice::slice_to_vec(content);
    let mut tail: Vec<u8> = vstd::slice::slice_to_vec(entry_type.as_bytes());
    buf.append(&mut tail);
    let digest = sha256(buf.as_slice());
    proof {
        lemma_hex_lower_len(digest@);
    }
    hex_encode(digest.as_slice())
}

} // verus!
