//! Digests, encodings and chance, from the crates that have them.
//!
//! What these functions are stated to do is believed, not proved: each says
//! which outside function it calls. A result that takes pages to describe has
//! a name, which stands for what the outside function makes of its arguments.

use vstd::prelude::*;
use base64::Engine;
use md5::Digest;
use subtle::ConstantTimeEq;

verus! {

/// The MD5 digest of some bytes.
pub uninterp spec fn md5_of(bytes: Seq<u8>) -> Seq<u8>;

/// The SHA-1 digest of some bytes.
pub uninterp spec fn sha1_of(bytes: Seq<u8>) -> Seq<u8>;

/// The 32-byte key that PBKDF2 with HMAC-SHA-256 derives from a password and a
/// salt in some rounds.
pub uninterp spec fn pbkdf2_of(password: Seq<u8>, salt: Seq<u8>, rounds: u32) -> Seq<u8>;

/// Some bytes in Base64, with the standard alphabet and padding.
pub uninterp spec fn base64_text(bytes: Seq<u8>) -> Seq<char>;

/// The bytes that a text in Base64, with the standard alphabet and padding,
/// stands for; none where it is not one.
pub uninterp spec fn base64_bytes(t: Seq<char>) -> Option<Seq<u8>>;

/// Some bytes in Base64, with the alphabet for URLs and no padding.
pub uninterp spec fn base64_url_text(bytes: Seq<u8>) -> Seq<char>;

/// A text in lower case, by the rules of Unicode.
pub uninterp spec fn unicode_lower(t: Seq<char>) -> Seq<char>;

/// `md5::Md5::digest`: the digest, sixteen bytes, of the bytes it is given.
#[verifier::external_body]
pub(crate) fn md5(bytes: &[u8]) -> (r: Vec<u8>)
    ensures
        r@ == md5_of(bytes@),
        r@.len() == 16,
{
    md5::Md5::digest(bytes).to_vec()
}

/// `sha1::Sha1::digest`: the digest, twenty bytes, of the bytes it is given.
#[verifier::external_body]
pub(crate) fn sha1(bytes: &[u8]) -> (r: Vec<u8>)
    ensures
        r@ == sha1_of(bytes@),
        r@.len() == 20,
{
    sha1::Sha1::digest(bytes).to_vec()
}

/// A digit of a byte in hexadecimal, in lower case.
pub open spec fn hex_digit(d: int) -> char {
    if d == 10 {
        'a'
    } else if d == 11 {
        'b'
    } else if d == 12 {
        'c'
    } else if d == 13 {
        'd'
    } else if d == 14 {
        'e'
    } else if d == 15 {
        'f'
    } else {
        crate::number::digit(d)
    }
}

/// Some bytes in hexadecimal: two digits for each, the higher first.
pub open spec fn hex_text(bytes: Seq<u8>) -> Seq<char>
    decreases bytes.len(),
{
    if bytes.len() == 0 {
        Seq::empty()
    } else {
        let b = bytes.last() as int;
        hex_text(bytes.drop_last()).push(hex_digit(b / 16)).push(hex_digit(b % 16))
    }
}

/// `hex::encode`: the bytes in hexadecimal, in lower case.
#[verifier::external_body]
pub(crate) fn hex(bytes: &[u8]) -> (r: String)
    requires
        bytes@.len() <= isize::MAX / 2,
    ensures
        r@ == hex_text(bytes@),
{
    hex::encode(bytes)
}

/// `pbkdf2::pbkdf2_hmac` with SHA-256: the 32 bytes it fills a buffer with.
#[verifier::external_body]
pub(crate) fn pbkdf2(password: &[u8], salt: &[u8], rounds: u32) -> (r: Vec<u8>)
    ensures
        r@ == pbkdf2_of(password@, salt@, rounds),
        r@.len() == 32,
{
    let mut key = [0u8; 32];
    pbkdf2::pbkdf2_hmac::<sha2::Sha256>(password, salt, rounds, &mut key);
    key.to_vec()
}

/// `subtle::ConstantTimeEq::ct_eq` on bytes: whether they are the same, in a
/// time that depends on their lengths alone.
#[verifier::external_body]
pub(crate) fn same_secret(a: &[u8], b: &[u8]) -> (r: bool)
    ensures
        r == (a@ == b@),
{
    a.ct_eq(b).into()
}

/// `getrandom::fill`: as many random bytes as asked for; none where the
/// system's source fails. Which bytes they are is chance.
#[verifier::external_body]
pub(crate) fn random_bytes(n: usize) -> (r: Option<Vec<u8>>)
    requires
        n <= isize::MAX,
    ensures
        r matches Some(b) ==> b@.len() == n,
{
    let mut bytes = vec![0u8; n];
    match getrandom::fill(&mut bytes) {
        Ok(()) => Some(bytes),
        Err(_) => None,
    }
}

/// Whether a character is one that Base64 is written with.
pub open spec fn is_base64(c: char) -> bool {
    ('A' <= c && c <= 'Z') || ('a' <= c && c <= 'z') || ('0' <= c && c <= '9') || c == '+' || c == '/'
        || c == '='
}

/// Whether a character is one that Base64 for URLs is written with.
pub open spec fn is_base64_url(c: char) -> bool {
    ('A' <= c && c <= 'Z') || ('a' <= c && c <= 'z') || ('0' <= c && c <= '9') || c == '-' || c == '_'
}

/// `encode` of `base64::engine::general_purpose::STANDARD`: the bytes in
/// Base64, in its letters alone, from which `decode` makes the bytes again.
#[verifier::external_body]
pub(crate) fn base64_encode(bytes: &[u8]) -> (r: String)
    ensures
        r@ == base64_text(bytes@),
        base64_bytes(r@) == Some(bytes@),
        forall|i: int| 0 <= i < r@.len() ==> is_base64(#[trigger] r@[i]),
{
    base64::engine::general_purpose::STANDARD.encode(bytes)
}

/// `decode` of `base64::engine::general_purpose::STANDARD`: the bytes a text
/// stands for, where it is Base64.
#[verifier::external_body]
pub(crate) fn base64_decode(t: &str) -> (r: Option<Vec<u8>>)
    ensures
        match r {
            Some(b) => base64_bytes(t@) == Some(b@),
            None => base64_bytes(t@) is None,
        },
{
    match base64::engine::general_purpose::STANDARD.decode(t) {
        Ok(b) => Some(b),
        Err(_) => None,
    }
}

/// `encode` of `base64::engine::general_purpose::URL_SAFE_NO_PAD`: the bytes in
/// Base64 for URLs, in its letters alone.
#[verifier::external_body]
pub(crate) fn base64_url_encode(bytes: &[u8]) -> (r: String)
    ensures
        r@ == base64_url_text(bytes@),
        forall|i: int| 0 <= i < r@.len() ==> is_base64_url(#[trigger] r@[i]),
{
    base64::engine::general_purpose::URL_SAFE_NO_PAD.encode(bytes)
}

/// `str::to_lowercase`: the text in lower case, by the rules of Unicode.
#[verifier::external_body]
pub(crate) fn lowercase(t: &str) -> (r: String)
    ensures
        r@ == unicode_lower(t@),
{
    t.to_lowercase()
}

/// The MD5 digest of some bytes, in hexadecimal.
pub fn md5_hex(bytes: &[u8]) -> (r: String)
    ensures
        r@ == hex_text(md5_of(bytes@)),
{
    let d = md5(bytes);
    hex(&d)
}

/// The SHA-1 digest of some bytes, in hexadecimal.
pub fn sha1_hex(bytes: &[u8]) -> (r: String)
    ensures
        r@ == hex_text(sha1_of(bytes@)),
{
    let d = sha1(bytes);
    hex(&d)
}

} // verus!
