//! Hashing for the challenge-response login: SHA-512 digests in lowercase
//! hexadecimal form, and the signed token derived from them.
use vstd::prelude::*;
use vstd::string::StringExecFns;
use vstd::utf8::encode_utf8;
use crate::text::hex_digit_byte;

verus! {

/// The SHA-512 digest of a byte sequence. What it is on given bytes only the
/// hash itself says; it depends on the bytes alone.
pub uninterp spec fn sha512_of(data: Seq<u8>) -> Seq<u8>;

/// Relies on openssl::sha::sha512: the 64-byte SHA-512 digest of the input,
/// a function of the input alone.
#[verifier::external_body]
fn sha512(data: &[u8]) -> (r: Vec<u8>)
    ensures
        r@ == sha512_of(data@),
        r@.len() == 64,
{
    openssl::sha::sha512(data).to_vec()
}

/// Two lowercase hexadecimal digit characters per byte, high nibble first.
pub open spec fn hex_chars_of(b: Seq<u8>) -> Seq<char> {
    Seq::new(
        2 * b.len(),
        |i: int|
            (if i % 2 == 0 {
                hex_digit_byte(b[i / 2] as int / 16)
            } else {
                hex_digit_byte(b[i / 2] as int % 16)
            }) as char,
    )
}

/// Relies on hex::encode: lowercase hexadecimal, two digits per byte, high
/// nibble first.
#[verifier::external_body]
fn hex_encode(data: &[u8]) -> (r: String)
    ensures
        r@ == hex_chars_of(data@),
{
    hex::encode(data)
}

/// The lowercase hexadecimal form of the SHA-512 digest of a string.
pub open spec fn sha512_hex(input: Seq<char>) -> Seq<char> {
    hex_chars_of(sha512_of(encode_utf8(input)))
}

/// The digest of a string, as the protocol transmits it.
pub fn get_sha512_string(input_str: &str) -> (r: String)
    ensures
        r@ == sha512_hex(input_str@),
        r@.len() == 128,
{
    let hash = sha512(input_str.as_bytes());
    hex_encode(hash.as_slice())
}

/// The signed token of the handshake: the hex digest of the password,
/// concatenated with the raw token string, hashed and hex-encoded again.
pub open spec fn signed_token_of(password: Seq<char>, token: Seq<char>) -> Seq<char> {
    sha512_hex(sha512_hex(password) + token)
}

pub fn get_signed_token(password: &str, token: &str) -> (r: String)
    ensures
        r@ == signed_token_of(password@, token@),
{
    let password_hashed = get_sha512_string(password);
    let mut concat_str = password_hashed;
    concat_str.append(token);
    get_sha512_string(concat_str.as_str())
}

} // verus!
