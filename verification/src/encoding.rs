//! Digests, hexadecimal and base64.

use vstd::prelude::*;
use vstd::utf8::*;

use crate::error::Error;
use crate::sealing::key_array;
use crate::text::{chars_of, text_of, trim, trimmed};

verus! {

/// What `sha2::Sha256` digests a message to.
pub uninterp spec fn sha256(message: Seq<u8>) -> Seq<u8>;

/// Calls `sha2::Sha256::digest`. The digest depends on the message alone.
#[verifier::external_body]
pub(crate) fn sha256_digest(message: &[u8]) -> (r: [u8; 32])
    ensures
        r@ == sha256(message@),
{
    <sha2::Sha256 as sha2::Digest>::digest(message).into()
}

/// A hexadecimal digit, in lower case.
pub open spec fn hex_digit(value: int) -> char {
    if value < 10 {
        (value + 0x30) as char
    } else {
        (value - 10 + 0x61) as char
    }
}

/// Two hexadecimal digits for each byte, the high one first.
pub open spec fn hex_text(bytes: Seq<u8>) -> Seq<char> {
    Seq::new(
        bytes.len() * 2,
        |i: int|
            if i % 2 == 0 {
                hex_digit(bytes[i / 2] as int / 16)
            } else {
                hex_digit(bytes[i / 2] as int % 16)
            },
    )
}

/// The value of a hexadecimal digit in either case.
pub open spec fn hex_value(c: char) -> Option<int> {
    if '0' <= c <= '9' {
        Some(c as int - 0x30)
    } else if 'a' <= c <= 'f' {
        Some(c as int - 0x61 + 10)
    } else if 'A' <= c <= 'F' {
        Some(c as int - 0x41 + 10)
    } else {
        None
    }
}

/// The bytes that a hexadecimal text stands for.
pub open spec fn hex_bytes(text: Seq<char>) -> Option<Seq<u8>> {
    if text.len() % 2 == 0 && forall|i: int| 0 <= i < text.len() ==> hex_value(#[trigger] text[i]) is Some {
        Some(
            Seq::new(
                (text.len() / 2) as nat,
                |k: int| (hex_value(text[2 * k])->0 * 16 + hex_value(text[2 * k + 1])->0) as u8,
            ),
        )
    } else {
        None
    }
}

/// Calls `hex::encode`, which writes two lower-case digits for each byte.
#[verifier::external_body]
pub(crate) fn hex_encode(bytes: &[u8]) -> (r: String)
    ensures
        r@ == hex_text(bytes@),
{
    hex::encode(bytes)
}

/// Calls `hex::decode`, which takes digits of either case, two for each byte,
/// and nothing else.
#[verifier::external_body]
pub(crate) fn hex_decode(text: &str) -> (r: Option<Vec<u8>>)
    ensures
        hex_bytes(text@) == (match r {
            Some(bytes) => Some(bytes@),
            None => None,
        }),
{
    hex::decode(text).ok()
}

/// What `base64`'s padded standard engine encodes bytes to.
pub uninterp spec fn base64_text(bytes: Seq<u8>) -> Seq<char>;

/// What `base64`'s padded standard engine decodes a text to, if it does.
pub uninterp spec fn base64_bytes(text: Seq<char>) -> Option<Seq<u8>>;

/// What `base64`'s unpadded URL-safe engine encodes bytes to.
pub uninterp spec fn base64url_text(bytes: Seq<u8>) -> Seq<char>;

/// What `base64`'s unpadded URL-safe engine decodes a text to, if it does.
pub uninterp spec fn base64url_bytes(text: Seq<char>) -> Option<Seq<u8>>;

/// The characters of the standard base64 alphabet, with the one that pads.
pub open spec fn base64_char(c: char) -> bool {
    'A' <= c <= 'Z' || 'a' <= c <= 'z' || '0' <= c <= '9' || c == '+' || c == '/' || c == '='
}

/// A padded base64 text of some bytes: it decodes to them, and has four characters
/// of the alphabet for every three of them or fewer.
pub open spec fn armours(text: Seq<char>, bytes: Seq<u8>) -> bool {
    &&& base64_bytes(text) == Some(bytes)
    &&& text.len() == (bytes.len() + 2) / 3 * 4
    &&& forall|i: int| 0 <= i < text.len() ==> base64_char(#[trigger] text[i])
}

/// Calls `encode` of `base64::engine::general_purpose::STANDARD`. The text depends
/// on the bytes alone, the same engine decodes it to them, and it is made of the
/// standard alphabet, padded to a multiple of four characters.
#[verifier::external_body]
pub(crate) fn base64_encode(bytes: &[u8]) -> (r: String)
    ensures
        r@ == base64_text(bytes@),
        armours(r@, bytes@),
{
    base64::Engine::encode(&base64::engine::general_purpose::STANDARD, bytes)
}

/// Calls `decode` of `base64::engine::general_purpose::STANDARD`. The result
/// depends on the text alone.
#[verifier::external_body]
pub(crate) fn base64_decode(text: &str) -> (r: Option<Vec<u8>>)
    ensures
        base64_bytes(text@) == (match r {
            Some(bytes) => Some(bytes@),
            None => None,
        }),
{
    base64::Engine::decode(&base64::engine::general_purpose::STANDARD, text).ok()
}

/// Calls `encode` of `base64::engine::general_purpose::URL_SAFE_NO_PAD`. The
/// text depends on the bytes alone, and the same engine decodes it to them.
#[verifier::external_body]
pub(crate) fn base64url_encode(bytes: &[u8]) -> (r: String)
    ensures
        r@ == base64url_text(bytes@),
        base64url_bytes(r@) == Some(bytes@),
{
    base64::Engine::encode(&base64::engine::general_purpose::URL_SAFE_NO_PAD, bytes)
}

/// Calls `decode` of `base64::engine::general_purpose::URL_SAFE_NO_PAD`. The
/// result depends on the text alone.
#[verifier::external_body]
pub(crate) fn base64url_decode(text: &str) -> (r: Option<Vec<u8>>)
    ensures
        base64url_bytes(text@) == (match r {
            Some(bytes) => Some(bytes@),
            None => None,
        }),
{
    base64::Engine::decode(&base64::engine::general_purpose::URL_SAFE_NO_PAD, text).ok()
}

/// Calls `std::string::String::from_utf8`, which takes valid UTF-8 and gives the
/// text that it encodes.
#[verifier::external_body]
pub(crate) fn text_from_utf8(bytes: Vec<u8>) -> (r: Option<String>)
    ensures
        r is Some <==> valid_utf8(bytes@),
        r matches Some(text) ==> encode_utf8(text@) == bytes@,
{
    String::from_utf8(bytes).ok()
}

/// The bytes that a hexadecimal text stands for, white space around it aside.
pub open spec fn hex_in_text(text: Seq<char>) -> Option<Seq<u8>> {
    hex_bytes(trimmed(text))
}

/// The bytes that a hexadecimal text stands for, white space around it aside.
pub fn parse_hex(text: &str) -> (r: Result<Vec<u8>, Error>)
    ensures
        match r {
            Ok(bytes) => hex_in_text(text@) == Some(bytes@),
            Err(e) => hex_in_text(text@) is None && e == Error::InvalidPublicKey,
        },
{
    let chars = chars_of(text);
    let inner = text_of(trim(chars.as_slice()).as_slice());
    match hex_decode(inner.as_str()) {
        Some(bytes) => Ok(bytes),
        None => Err(Error::InvalidPublicKey),
    }
}

/// The text stands for so many bytes.
pub open spec fn hex_of_len(text: Seq<char>, len: int) -> bool {
    hex_in_text(text) matches Some(bytes) && bytes.len() == len
}

/// The 32 bytes that a hexadecimal text stands for.
pub fn parse_hex_32(text: &str) -> (r: Result<[u8; 32], Error>)
    ensures
        match r {
            Ok(bytes) => hex_of_len(text@, 32) && hex_in_text(text@) == Some(bytes@),
            Err(e) => !hex_of_len(text@, 32) && e == Error::InvalidPublicKey,
        },
{
    match parse_hex(text) {
        Ok(bytes) => match key_array(bytes.as_slice()) {
            Some(array) => Ok(array),
            None => Err(Error::InvalidPublicKey),
        },
        Err(e) => Err(e),
    }
}

/// The 64 bytes that a hexadecimal text stands for.
pub fn parse_hex_64(text: &str) -> (r: Result<[u8; 64], Error>)
    ensures
        match r {
            Ok(bytes) => hex_of_len(text@, 64) && hex_in_text(text@) == Some(bytes@),
            Err(e) => !hex_of_len(text@, 64) && e == Error::InvalidPublicKey,
        },
{
    let bytes = match parse_hex(text) {
        Ok(bytes) => bytes,
        Err(e) => return Err(e),
    };
    if bytes.len() != 64 {
        return Err(Error::InvalidPublicKey);
    }
    let mut array: [u8; 64] = [0u8; 64];
    let mut i: usize = 0;
    while i < 64
        invariant
            i <= 64,
            bytes@.len() == 64,
            forall|k: int| 0 <= k < i ==> array@[k] == bytes@[k],
        decreases 64 - i,
    {
        array[i] = bytes[i];
        i += 1;
    }
    assert(array@ =~= bytes@);
    Ok(array)
}

/// Hexadecimal text decodes to the bytes that it was made of.
pub proof fn hex_round_trip(bytes: Seq<u8>)
    ensures
        hex_bytes(hex_text(bytes)) == Some(bytes),
{
    let text = hex_text(bytes);
    assert forall|i: int| 0 <= i < text.len() implies hex_value(#[trigger] text[i]) == Some(
        if i % 2 == 0 {
            bytes[i / 2] as int / 16
        } else {
            bytes[i / 2] as int % 16
        },
    ) by {
        let value = if i % 2 == 0 {
            bytes[i / 2] as int / 16
        } else {
            bytes[i / 2] as int % 16
        };
        assert(0 <= value < 16);
    }
    assert forall|k: int| 0 <= k < bytes.len() implies (hex_value(text[2 * k])->0 * 16 + hex_value(
        text[2 * k + 1],
    )->0) as u8 == bytes[k] by {
        assert((2 * k) % 2 == 0 && (2 * k) / 2 == k);
        assert((2 * k + 1) % 2 == 1 && (2 * k + 1) / 2 == k);
    }
    assert(hex_bytes(text)->0 =~= bytes);
}

/// Sixty-four hexadecimal digits.
pub open spec fn is_digest_text(text: Seq<char>) -> bool {
    text.len() == 64 && forall|i: int|
        0 <= i < text.len() ==> hex_value(#[trigger] text[i]) is Some
}

/// Whether a text is sixty-four hexadecimal digits.
pub fn check_digest_text(text: &str) -> (r: bool)
    ensures
        r == is_digest_text(text@),
{
    let chars = chars_of(text);
    if chars.len() != 64 {
        return false;
    }
    let mut i: usize = 0;
    while i < chars.len()
        invariant
            i <= chars.len(),
            chars@ == text@,
            forall|k: int|
                0 <= k < i ==> hex_value(#[trigger] chars@[k]) is Some,
        decreases chars.len() - i,
    {
        let c = chars[i];
        let hex = ('0' <= c && c <= '9') || ('a' <= c && c <= 'f') || ('A' <= c && c <= 'F');
        if !hex {
            assert(hex_value(text@[i as int]) is None);
            return false;
        }
        i += 1;
    }
    true
}

pub proof fn lemma_hex_digest_text(bytes: Seq<u8>)
    requires
        bytes.len() == 32,
    ensures
        is_digest_text(hex_text(bytes)),
{
    let text = hex_text(bytes);
    assert forall|i: int| 0 <= i < text.len() implies hex_value(
        #[trigger] text[i],
    ) is Some by {
        let value = if i % 2 == 0 {
            bytes[i / 2] as int / 16
        } else {
            bytes[i / 2] as int % 16
        };
        assert(0 <= value < 16);
    }
}

} // verus!
