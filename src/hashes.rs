//! The primitive hashes that label an artifact, as lowercase hex.

use vstd::prelude::*;

verus! {

/// A lowercase hexadecimal digit.
pub open spec fn is_lower_hex(c: char) -> bool {
    ('0' <= c && c <= '9') || ('a' <= c && c <= 'f')
}

/// `s` is `n` lowercase hexadecimal digits.
pub open spec fn lower_hex_of_len(s: Seq<char>, n: nat) -> bool {
    s.len() == n && forall|i: int| 0 <= i < s.len() ==> is_lower_hex(#[trigger] s[i])
}

/// The MD5 digest of the bytes, in lowercase hex.
pub uninterp spec fn md5_hex(data: Seq<u8>) -> Seq<char>;

/// The SHA-1 digest of the bytes, in lowercase hex.
pub uninterp spec fn sha1_hex(data: Seq<u8>) -> Seq<char>;

/// The SHA-256 digest of the bytes, in lowercase hex.
pub uninterp spec fn sha256_hex(data: Seq<u8>) -> Seq<char>;

/// Relies on `md5::Md5::digest` (16 bytes) and the `LowerHex` of its
/// output array, which writes two digits of `0-9a-f` per byte.
#[verifier::external_body]
fn md5_digest(data: &Vec<u8>) -> (r: String)
    ensures
        r@ == md5_hex(data@),
        lower_hex_of_len(r@, 32),
{
    format!("{:x}", <md5::Md5 as sha2::Digest>::digest(data.as_slice()))
}

/// Relies on `sha1::Sha1::digest` (20 bytes) and the `LowerHex` of its
/// output array, which writes two digits of `0-9a-f` per byte.
#[verifier::external_body]
fn sha1_digest(data: &Vec<u8>) -> (r: String)
    ensures
        r@ == sha1_hex(data@),
        lower_hex_of_len(r@, 40),
{
    format!("{:x}", <sha1::Sha1 as sha2::Digest>::digest(data.as_slice()))
}

/// Relies on `sha2::Sha256::digest` (32 bytes) and the `LowerHex` of its
/// output array, which writes two digits of `0-9a-f` per byte.
#[verifier::external_body]
fn sha256_digest(data: &Vec<u8>) -> (r: String)
    ensures
        r@ == sha256_hex(data@),
        lower_hex_of_len(r@, 64),
{
    format!("{:x}", <sha2::Sha256 as sha2::Digest>::digest(data.as_slice()))
}

/// The MD5 label of an artifact's contents: 32 lowercase hex digits.
pub fn make_md5(data: &Vec<u8>) -> (r: String)
    ensures
        r@ == md5_hex(data@),
        lower_hex_of_len(r@, 32),
{
    md5_digest(data)
}

/// The SHA-1 label of an artifact's contents: 40 lowercase hex digits.
pub fn make_sha1(data: &Vec<u8>) -> (r: String)
    ensures
        r@ == sha1_hex(data@),
        lower_hex_of_len(r@, 40),
{
    sha1_digest(data)
}

/// The SHA-256 label of an artifact's contents: 64 lowercase hex digits.
pub fn make_sha256(data: &Vec<u8>) -> (r: String)
    ensures
        r@ == sha256_hex(data@),
        lower_hex_of_len(r@, 64),
{
    sha256_digest(data)
}

} // verus!
