//! Object identifiers: the lower-case hex form of the SHA-1 digest of the
//! UTF-8 bytes of an object's text.

use sha1::Digest;
use vstd::prelude::*;
use vstd::utf8::encode_utf8;

verus! {

/// The SHA-1 digest of a byte string, as `sha1::Sha1::digest` computes it.
pub uninterp spec fn sha1_digest(data: Seq<u8>) -> Seq<u8>;

/// The lower-case hex digit of a value below sixteen.
pub open spec fn hex_digit(nibble: int) -> char {
    if nibble == 0 {
        '0'
    } else if nibble == 1 {
        '1'
    } else if nibble == 2 {
        '2'
    } else if nibble == 3 {
        '3'
    } else if nibble == 4 {
        '4'
    } else if nibble == 5 {
        '5'
    } else if nibble == 6 {
        '6'
    } else if nibble == 7 {
        '7'
    } else if nibble == 8 {
        '8'
    } else if nibble == 9 {
        '9'
    } else if nibble == 10 {
        'a'
    } else if nibble == 11 {
        'b'
    } else if nibble == 12 {
        'c'
    } else if nibble == 13 {
        'd'
    } else if nibble == 14 {
        'e'
    } else {
        'f'
    }
}

/// Two lower-case hex digits for each byte, the high half first.
pub open spec fn hex_encoding(bytes: Seq<u8>) -> Seq<char> {
    Seq::new(
        2 * bytes.len(),
        |i: int|
            if i % 2 == 0 {
                hex_digit(bytes[i / 2] as int / 16)
            } else {
                hex_digit(bytes[i / 2] as int % 16)
            },
    )
}

/// The character is a lower-case hex digit.
pub open spec fn is_hex(c: char) -> bool {
    c == '0' || c == '1' || c == '2' || c == '3' || c == '4' || c == '5' || c == '6' || c == '7'
        || c == '8' || c == '9' || c == 'a' || c == 'b' || c == 'c' || c == 'd' || c == 'e' || c
        == 'f'
}

/// The text is made of lower-case hex digits.
pub open spec fn all_hex(text: Seq<char>) -> bool {
    forall|i: int| 0 <= i < text.len() ==> is_hex(#[trigger] text[i])
}

/// An identifier is made of hex digits.
pub proof fn hash_is_hex(data: Seq<char>)
    ensures
        all_hex(content_hash(data)),
{
}

/// The identifier under which a text is stored.
pub open spec fn content_hash(data: Seq<char>) -> Seq<char> {
    hex_encoding(sha1_digest(encode_utf8(data)))
}

/// `sha1::Sha1::digest`, the one-shot form of the `Digest` trait.
/// Trusted: the result is the SHA-1 digest of `data`, twenty bytes long.
#[verifier::external_body]
fn sha1_bytes(data: &[u8]) -> (digest: Vec<u8>)
    ensures
        digest@ == sha1_digest(data@),
        digest@.len() == 20,
{
    sha1::Sha1::digest(data).to_vec()
}

/// `hex::encode`. Trusted: each byte becomes two lower-case hex digits, in
/// order, the high half of the byte first.
#[verifier::external_body]
fn hex_lower(bytes: &[u8]) -> (text: String)
    ensures
        text@ == hex_encoding(bytes@),
{
    hex::encode(bytes)
}

/// Identifies a text by its content: equal texts get equal identifiers, and
/// an identifier is never empty.
pub fn calc_hash(data: &String) -> (hash: String)
    ensures
        hash@ == content_hash(data@),
        hash@.len() == 40,
{
    let digest = sha1_bytes(data.as_str().as_bytes());
    hex_lower(digest.as_slice())
}

} // verus!
