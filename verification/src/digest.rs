//! SHA-256 digests and their base64 text form.

use base64::Engine;
use sha2::Digest;
use vstd::prelude::*;

verus! {

/// Length in bytes of a SHA-256 digest.
pub const DIGEST_LEN: usize = 32;

/// The SHA-256 digest of `data`, as computed by `sha2::Sha256`.
pub uninterp spec fn sha256(data: Seq<u8>) -> Seq<u8>;

/// The text that the standard base64 engine (standard alphabet, padded)
/// produces for `data`.
pub uninterp spec fn base64_text(data: Seq<u8>) -> Seq<char>;

/// The bytes that the standard base64 engine decodes `text` to, or `None`
/// where it rejects `text`.
pub uninterp spec fn base64_bytes(text: Seq<char>) -> Option<Seq<u8>>;

#[verifier::external_type_specification]
#[verifier::external_body]
pub struct ExDecodeError(base64::DecodeError);

/// The all-zero digest: the root of the empty tree and the predecessor link of
/// the first tree head.
pub open spec fn zero_digest() -> Seq<u8> {
    Seq::new(DIGEST_LEN as nat, |i: int| 0u8)
}

/// The digest of `left` followed by `right`.
pub open spec fn hash_pair(left: Seq<u8>, right: Seq<u8>) -> Seq<u8> {
    sha256(left + right)
}

/// Calls `sha2::Sha256::digest`. Trusted: the result is the SHA-256 digest of
/// `data`, which is 32 bytes long.
#[verifier::external_body]
pub(crate) fn sha256_digest(data: &[u8]) -> (out: Vec<u8>)
    ensures
        out@ == sha256(data@),
        out@.len() == DIGEST_LEN,
{
    sha2::Sha256::digest(data).to_vec()
}

/// Calls `Engine::encode` on `base64::engine::general_purpose::STANDARD`.
/// Trusted: the result is the engine's text for `data`, and the same engine
/// decodes that text back to `data`. The bound keeps the encoded length
/// within `usize`, where the engine would otherwise panic.
#[verifier::external_body]
pub(crate) fn base64_encode(data: &[u8]) -> (text: String)
    requires
        data@.len() <= 0x3000_0000,
    ensures
        text@ == base64_text(data@),
        base64_bytes(text@) == Some(data@),
{
    base64::engine::general_purpose::STANDARD.encode(data)
}

/// Calls `Engine::decode` on `base64::engine::general_purpose::STANDARD`.
/// Trusted: `Ok` carries the decoded bytes, and `Err` means that the engine
/// rejects `text`.
#[verifier::external_body]
pub(crate) fn base64_decode(text: &str) -> (res: Result<Vec<u8>, base64::DecodeError>)
    ensures
        match res {
            Ok(bytes) => base64_bytes(text@) == Some(bytes@),
            Err(_) => base64_bytes(text@) is None,
        },
{
    base64::engine::general_purpose::STANDARD.decode(text)
}

/// Appends `src` to `out`.
pub fn append_bytes(out: &mut Vec<u8>, src: &[u8])
    ensures
        final(out)@ == old(out)@ + src@,
{
    let mut i: usize = 0;
    while i < src.len()
        invariant
            i <= src@.len(),
            out@ == old(out)@ + src@.take(i as int),
        decreases src@.len() - i,
    {
        out.push(src[i]);
        i = i + 1;
    }
}

/// The digest of `left` followed by `right`.
pub fn hash_two(left: &[u8], right: &[u8]) -> (out: Vec<u8>)
    ensures
        out@ == hash_pair(left@, right@),
        out@.len() == DIGEST_LEN,
{
    let mut buf: Vec<u8> = Vec::new();
    append_bytes(&mut buf, left);
    append_bytes(&mut buf, right);
    sha256_digest(buf.as_slice())
}

} // verus!
