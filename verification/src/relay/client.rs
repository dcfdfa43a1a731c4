//! What clients of the relay send and are sent, and the addresses that they use.

use vstd::prelude::*;
use vstd::utf8::*;
use vstd::string::*;

use crate::encoding::hex_value;
use crate::numbers::{integer_text, push_integer};
use crate::relay::public_tree::PublicTree;
use crate::text::{chars_of, end_stripped, push_text, strip_end, text_of};

verus! {

/// An envelope that was taken.
#[derive(Debug)]
pub struct InboxAccepted {
    pub id: i64,
    pub recipient_fingerprint: String,
}

/// An envelope as it is handed out, its bytes in base64.
#[derive(Debug)]
pub struct InboxEnvelope {
    pub id: i64,
    pub recipient_fingerprint: String,
    pub bytes: String,
}

/// Envelopes as they are handed out, what is shown of the trees, and where the
/// next envelopes go on.
#[derive(Debug)]
pub struct InboxList {
    pub envelopes: Vec<InboxEnvelope>,
    pub trees: Vec<PublicTree>,
    pub next_after: Option<i64>,
}

/// Why a request was refused.
#[derive(Debug)]
pub struct ErrorBody {
    pub error: String,
}

/// A path behind a base, with no more than the path's own slash between them.
pub open spec fn joined_url(base: Seq<char>, path: Seq<char>) -> Seq<char> {
    end_stripped(base, '/') + path
}

/// Puts a path behind a base.
pub fn join_url(base: &str, path: &str) -> (r: String)
    ensures
        r@ == joined_url(base@, path@),
{
    let chars = chars_of(base);
    let mut out = strip_end(chars.as_slice(), '/');
    push_text(&mut out, path);
    text_of(out.as_slice())
}

/// The address of an inbox, behind an id.
pub open spec fn inbox_address(base: Seq<char>, after: Option<i64>) -> Seq<char> {
    match after {
        None => joined_url(base, "/inbox"@),
        Some(id) => joined_url(base, "/inbox"@) + "?after="@ + integer_text(id as int),
    }
}

/// The address of an inbox, behind an id.
pub fn inbox_url(base: &str, after: Option<i64>) -> (r: String)
    ensures
        r@ == inbox_address(base@, after),
{
    let url = join_url(base, "/inbox");
    match after {
        None => url,
        Some(id) => {
            let mut out = chars_of(url.as_str());
            push_text(&mut out, "?after=");
            push_integer(&mut out, id);
            text_of(out.as_slice())
        },
    }
}

/// A bearer as a request's header states it.
pub fn authorization(api_key: &str) -> (r: String)
    ensures
        r@ == "Bearer "@ + api_key@,
{
    let mut out = chars_of("Bearer ");
    push_text(&mut out, api_key);
    text_of(out.as_slice())
}

/// A byte that stands for itself in an address.
pub open spec fn unreserved(b: u8) -> bool {
    ||| 0x41 <= b <= 0x5a
    ||| 0x61 <= b <= 0x7a
    ||| 0x30 <= b <= 0x39
    ||| b == 0x2d || b == 0x5f || b == 0x2e || b == 0x7e
}

/// A hexadecimal digit, in upper case.
pub open spec fn upper_hex(value: int) -> char {
    if value < 10 {
        (value + 0x30) as char
    } else {
        (value - 10 + 0x41) as char
    }
}

/// A byte in an address: itself, or its value behind a percent sign.
pub open spec fn escaped(b: u8) -> Seq<char> {
    if unreserved(b) {
        seq![b as char]
    } else {
        seq!['%', upper_hex(b as int / 16), upper_hex(b as int % 16)]
    }
}

/// Bytes in an address.
pub open spec fn escaped_bytes(bytes: Seq<u8>) -> Seq<char>
    decreases bytes.len(),
{
    if bytes.len() == 0 {
        Seq::empty()
    } else {
        escaped_bytes(bytes.drop_last()) + escaped(bytes.last())
    }
}

fn upper_hex_digit(value: u8) -> (r: char)
    requires
        value < 16,
    ensures
        r == upper_hex(value as int),
{
    if value < 10 {
        (0x30 + value) as char
    } else {
        (0x41 + (value - 10)) as char
    }
}

/// A label as a part of an address.
pub fn urlencoding_label(label: &str) -> (r: String)
    ensures
        r@ == escaped_bytes(encode_utf8(label@)),
{
    let bytes = label.as_bytes();
    let mut out: Vec<char> = Vec::new();
    let mut i: usize = 0;
    assert(out@ =~= escaped_bytes(bytes@.take(0)));
    while i < bytes.len()
        invariant
            i <= bytes.len(),
            out@ == escaped_bytes(bytes@.take(i as int)),
        decreases bytes.len() - i,
    {
        let b = bytes[i];
        let ghost before = out@;
        let plain = (0x41 <= b && b <= 0x5a) || (0x61 <= b && b <= 0x7a) || (0x30 <= b && b <= 0x39)
            || b == 0x2d || b == 0x5f || b == 0x2e || b == 0x7e;
        if plain {
            out.push(b as char);
        } else {
            out.push('%');
            out.push(upper_hex_digit(b / 16));
            out.push(upper_hex_digit(b % 16));
        }
        proof {
            assert(bytes@.take(i + 1).drop_last() =~= bytes@.take(i as int));
            assert(bytes@.take(i + 1).last() == b);
            assert(out@ =~= before + escaped(b));
        }
        i += 1;
    }
    assert(bytes@.take(i as int) =~= bytes@);
    text_of(out.as_slice())
}

/// The address of the part of a tree that a key is shown.
pub fn tree_context_url(base: &str, label: &str) -> (r: String)
    ensures
        r@ == joined_url(
            base@,
            "/trees/"@ + escaped_bytes(encode_utf8(label@)) + "/context"@,
        ),
{
    let mut path = chars_of("/trees/");
    push_text(&mut path, urlencoding_label(label).as_str());
    push_text(&mut path, "/context");
    join_url(base, text_of(path.as_slice()).as_str())
}

/// Slashes at the end of a base do not count.
pub proof fn slashes_at_the_end_do_not_count(base: Seq<char>, path: Seq<char>, after: Option<i64>)
    ensures
        joined_url(base.push('/'), path) == joined_url(base, path),
        inbox_address(base.push('/'), after) == inbox_address(base, after),
        base.len() > 0 && base.last() != '/' ==> joined_url(base, path) == base + path,
{
    assert(base.push('/').drop_last() =~= base);
}

/// The address of an inbox says behind which id, where one is given.
pub proof fn inbox_address_says_behind_what(base: Seq<char>, id: i64)
    requires
        base.len() == 0 || base.last() != '/',
    ensures
        inbox_address(base, None) == base + "/inbox"@,
        inbox_address(base, Some(id)) == base + "/inbox"@ + "?after="@ + integer_text(id as int),
{
}

/// Letters, digits and four signs stand for themselves in an address. Any other byte stands
/// behind a percent sign as two hexadecimal digits that give its value, in capitals.
pub proof fn bytes_in_an_address(b: u8)
    ensures
        ({
            let c = b as char;
            let plain = 'A' <= c <= 'Z' || 'a' <= c <= 'z' || '0' <= c <= '9' || c == '-' || c
                == '_' || c == '.' || c == '~';
            &&& plain ==> escaped(b) == seq![c]
            &&& !plain ==> {
                &&& escaped(b).len() == 3
                &&& escaped(b)[0] == '%'
                &&& hex_value(escaped(b)[1]) is Some
                &&& hex_value(escaped(b)[2]) is Some
                &&& hex_value(escaped(b)[1])->0 * 16 + hex_value(escaped(b)[2])->0 == b
                &&& !('a' <= escaped(b)[1] <= 'f')
                &&& !('a' <= escaped(b)[2] <= 'f')
            }
        }),
{
    let hi = b as int / 16;
    let lo = b as int % 16;
    assert(0 <= hi < 16 && 0 <= lo < 16 && hi * 16 + lo == b);
}

/// Bytes stand in an address one after the other.
pub proof fn bytes_stand_one_after_the_other(a: Seq<u8>, b: Seq<u8>)
    ensures
        escaped_bytes(a + b) == escaped_bytes(a) + escaped_bytes(b),
    decreases b.len(),
{
    if b.len() > 0 {
        assert((a + b).drop_last() =~= a + b.drop_last());
        assert((a + b).last() == b.last());
        bytes_stand_one_after_the_other(a, b.drop_last());
        assert(escaped_bytes(a + b) =~= escaped_bytes(a) + escaped_bytes(b));
    } else {
        assert(a + b =~= a);
        assert(escaped_bytes(a) + escaped_bytes(b) =~= escaped_bytes(a));
    }
}

} // verus!
