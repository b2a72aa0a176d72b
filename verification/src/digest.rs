//! SHA-1 digests and their hexadecimal form.

use vstd::prelude::*;

verus! {

/// The SHA-1 digest of `data`, as `sha1::Sha1` computes it.
pub uninterp spec fn sha1_digest(data: Seq<u8>) -> Seq<u8>;

/// The length of a SHA-1 digest in bytes.
pub const DIGEST_LEN: usize = 20;

/// The lower-case hexadecimal digit for `n`, for `n < 16`.
pub open spec fn hex_digit(n: int) -> char {
    if n < 10 {
        (48 + n) as char
    } else {
        (87 + n) as char
    }
}

/// The hexadecimal form of `data`: two lower-case digits for each byte,
/// the high half first.
pub open spec fn hex_text(data: Seq<u8>) -> Seq<char> {
    Seq::new(
        2 * data.len(),
        |i: int|
            if i % 2 == 0 {
                hex_digit(data[i / 2] as int / 16)
            } else {
                hex_digit(data[i / 2] as int % 16)
            },
    )
}

/// `Sha1::digest` of the crate sha1 (the `Digest` trait's one-call form of
/// `new`, `update`, `finalize`): the SHA-1 digest of `data`, which depends
/// on `data` alone and is 20 bytes long.
#[verifier::external_body]
pub(crate) fn sha1_of(data: &[u8]) -> (digest: Vec<u8>)
    ensures
        digest@ == sha1_digest(data@),
        digest@.len() == DIGEST_LEN,
{
    <sha1::Sha1 as sha1::Digest>::digest(data).to_vec()
}

/// `hex::encode`: each byte as two lower-case hexadecimal digits, the high
/// half first.
#[verifier::external_body]
fn hex_encode(data: &[u8]) -> (text: String)
    ensures
        text@ == hex_text(data@),
{
    hex::encode(data)
}

/// The hexadecimal form of `data` in lower case.
pub fn to_hex(data: &[u8]) -> (text: String)
    ensures
        text@ == hex_text(data@),
{
    hex_encode(data)
}

} // verus!
