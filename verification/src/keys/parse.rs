//! Key material as text: hexadecimal, PEM, or an OpenSSH public-key line.

use vstd::prelude::*;

use crate::bytes::copy_bytes;
use crate::encoding::{base64_bytes, base64_decode, hex_bytes, hex_decode};
use crate::error::Error;
use crate::text::{begins_with, chars_are, chars_of, finishes_with, has_prefix, has_suffix, one_of,
    part, pieces, split_at, split_words, text_of, trim, trimmed, words, char_views};

verus! {

/// The SubjectPublicKeyInfo header of an X25519 key.
pub open spec fn spki_x25519() -> Seq<u8> {
    seq![
        0x30u8, 0x2a, 0x30, 0x05, 0x06, 0x03, 0x2b, 0x65, 0x6e, 0x03, 0x21, 0x00,
    ]
}

/// The SubjectPublicKeyInfo header of an Ed25519 key.
pub open spec fn spki_ed25519() -> Seq<u8> {
    seq![
        0x30u8, 0x2a, 0x30, 0x05, 0x06, 0x03, 0x2b, 0x65, 0x70, 0x03, 0x21, 0x00,
    ]
}

/// The PKCS#8 header of an X25519 key.
pub open spec fn pkcs8_x25519() -> Seq<u8> {
    seq![
        0x30u8, 0x2e, 0x02, 0x01, 0x00, 0x30, 0x05, 0x06, 0x03, 0x2b, 0x65, 0x6e, 0x04, 0x22, 0x04,
        0x20,
    ]
}

/// The PKCS#8 header of an Ed25519 key.
pub open spec fn pkcs8_ed25519() -> Seq<u8> {
    seq![
        0x30u8, 0x2e, 0x02, 0x01, 0x00, 0x30, 0x05, 0x06, 0x03, 0x2b, 0x65, 0x70, 0x04, 0x22, 0x04,
        0x20,
    ]
}

/// A header, then a key of 32 bytes.
pub open spec fn headed_by(der: Seq<u8>, header: Seq<u8>) -> bool {
    der.len() == header.len() + 32 && der.take(header.len() as int) == header
}

/// The key in a DER document: bare, or behind one of the known headers.
pub open spec fn curve_key(der: Seq<u8>) -> Option<Seq<u8>> {
    if der.len() == 32 {
        Some(der)
    } else if headed_by(der, spki_x25519()) || headed_by(der, spki_ed25519()) {
        Some(der.skip(12))
    } else if headed_by(der, pkcs8_x25519()) || headed_by(der, pkcs8_ed25519()) {
        Some(der.skip(16))
    } else {
        None
    }
}

/// The PEM labels that a curve key may have.
pub open spec fn curve_label(label: Seq<char>) -> bool {
    ||| label == "PUBLIC KEY"@
    ||| label == "PRIVATE KEY"@
    ||| label == "ED25519 PUBLIC KEY"@
    ||| label == "ED25519 PRIVATE KEY"@
    ||| label == "X25519 PUBLIC KEY"@
    ||| label == "X25519 PRIVATE KEY"@
}

/// A line opens a PEM block of a curve key.
pub open spec fn opens_block(line: Seq<char>) -> bool {
    let rest = line.skip("-----BEGIN "@.len() as int);
    finishes_with(rest, "-----"@) && curve_label(rest.take(rest.len() - "-----"@.len()))
}

/// What the lines from the `i`-th on make of a PEM block: the text between its
/// first and last line, joined. Nothing, if a line opens a block of another
/// kind or none opens one.
pub open spec fn pem_body(lines: Seq<Seq<char>>, i: int, inside: bool, body: Seq<char>) -> Option<
    Seq<char>,
>
    decreases lines.len() - i,
{
    if i < 0 || i >= lines.len() {
        if inside {
            Some(body)
        } else {
            None
        }
    } else {
        let line = trimmed(lines[i]);
        if begins_with(line, "-----BEGIN "@) {
            if opens_block(line) {
                pem_body(lines, i + 1, true, body)
            } else {
                None
            }
        } else if begins_with(line, "-----END "@) {
            if inside {
                Some(body)
            } else {
                None
            }
        } else {
            pem_body(
                lines,
                i + 1,
                inside,
                if inside {
                    body + line
                } else {
                    body
                },
            )
        }
    }
}

/// The key in a PEM text.
pub open spec fn pem_key(text: Seq<char>) -> Option<Seq<u8>> {
    match pem_body(pieces(text, one_of(seq!['\n'])), 0, false, Seq::empty()) {
        None => None,
        Some(body) => match base64_bytes(body) {
            None => None,
            Some(der) => curve_key(der),
        },
    }
}

/// A number of four bytes, the highest first.
pub open spec fn big_endian(b: Seq<u8>) -> int {
    b[0] * 0x1000000 + b[1] * 0x10000 + b[2] * 0x100 + b[3]
}

/// A string of the SSH wire format at a place: its length in four bytes, then
/// its bytes. Gives the string and the place behind it.
pub open spec fn ssh_string(data: Seq<u8>, at: int) -> Option<(Seq<u8>, int)> {
    if at + 4 > data.len() {
        None
    } else {
        let len = big_endian(data.subrange(at, at + 4));
        if at + 4 + len > data.len() {
            None
        } else {
            Some((data.subrange(at + 4, at + 4 + len), at + 4 + len))
        }
    }
}

/// The ASCII bytes of `ssh-ed25519`.
pub open spec fn ssh_ed25519() -> Seq<u8> {
    seq![0x73u8, 0x73, 0x68, 0x2d, 0x65, 0x64, 0x32, 0x35, 0x35, 0x31, 0x39]
}

/// The key in an SSH public-key blob: the algorithm's name and 32 bytes, and
/// nothing behind them.
pub open spec fn ssh_blob_key(data: Seq<u8>) -> Option<Seq<u8>> {
    match ssh_string(data, 0) {
        None => None,
        Some((name, at)) => if name != ssh_ed25519() {
            None
        } else {
            match ssh_string(data, at) {
                None => None,
                Some((key, end)) => if key.len() != 32 || end != data.len() {
                    None
                } else {
                    Some(key)
                },
            }
        },
    }
}

/// The key in an OpenSSH public-key line.
pub open spec fn openssh_key(line: Seq<char>) -> Option<Seq<u8>> {
    let parts = words(line);
    if parts.len() < 2 || parts[0] != "ssh-ed25519"@ {
        None
    } else {
        match base64_bytes(parts[1]) {
            None => None,
            Some(data) => ssh_blob_key(data),
        }
    }
}

/// The key that a text holds.
pub open spec fn key_in_text(contents: Seq<char>) -> Option<Seq<u8>> {
    let text = trimmed(contents);
    if begins_with(text, "-----BEGIN "@) {
        pem_key(text)
    } else {
        match openssh_key(text) {
            Some(key) => Some(key),
            None => hex_key(text),
        }
    }
}

/// The key in a hexadecimal dump.
pub open spec fn hex_key(text: Seq<char>) -> Option<Seq<u8>> {
    match hex_bytes(text) {
        Some(key) => if key.len() == 32 {
            Some(key)
        } else {
            None
        },
        None => None,
    }
}

pub open spec fn bytes_option(r: Option<Vec<u8>>) -> Option<Seq<u8>> {
    match r {
        Some(bytes) => Some(bytes@),
        None => None,
    }
}

fn starts_with_bytes(data: &[u8], header: &[u8]) -> (r: bool)
    ensures
        r == headed_by(data@, header@),
{
    if data.len() < header.len() || data.len() - header.len() != 32 {
        return false;
    }
    let mut i: usize = 0;
    while i < header.len()
        invariant
            i <= header.len() <= data.len(),
            forall|k: int| 0 <= k < i ==> data@[k] == header@[k],
        decreases header.len() - i,
    {
        if data[i] != header[i] {
            assert(data@.take(header@.len() as int)[i as int] == data@[i as int]);
            return false;
        }
        i += 1;
    }
    assert(data@.take(header@.len() as int) =~= header@);
    true
}

fn bytes_part(data: &[u8], start: usize, end: usize) -> (r: Vec<u8>)
    requires
        start <= end <= data@.len(),
    ensures
        r@ == data@.subrange(start as int, end as int),
{
    let mut out: Vec<u8> = Vec::new();
    let mut i: usize = start;
    while i < end
        invariant
            start <= i <= end <= data@.len(),
            out@ == data@.subrange(start as int, i as int),
        decreases end - i,
    {
        out.push(data[i]);
        assert(data@.subrange(start as int, i + 1) =~= data@.subrange(start as int, i as int).push(
            data@[i as int],
        ));
        i += 1;
    }
    out
}

fn extract_curve_key_bytes(der: &[u8]) -> (r: Option<Vec<u8>>)
    ensures
        bytes_option(r) == curve_key(der@),
{
    if der.len() == 32 {
        return Some(copy_bytes(der));
    }
    let spki_x: [u8; 12] = [
        0x30, 0x2a, 0x30, 0x05, 0x06, 0x03, 0x2b, 0x65, 0x6e, 0x03, 0x21, 0x00,
    ];
    let spki_ed: [u8; 12] = [
        0x30, 0x2a, 0x30, 0x05, 0x06, 0x03, 0x2b, 0x65, 0x70, 0x03, 0x21, 0x00,
    ];
    let pkcs8_x: [u8; 16] = [
        0x30, 0x2e, 0x02, 0x01, 0x00, 0x30, 0x05, 0x06, 0x03, 0x2b, 0x65, 0x6e, 0x04, 0x22, 0x04,
        0x20,
    ];
    let pkcs8_ed: [u8; 16] = [
        0x30, 0x2e, 0x02, 0x01, 0x00, 0x30, 0x05, 0x06, 0x03, 0x2b, 0x65, 0x70, 0x04, 0x22, 0x04,
        0x20,
    ];
    proof {
        assert(spki_x@ =~= spki_x25519());
        assert(spki_ed@ =~= spki_ed25519());
        assert(pkcs8_x@ =~= pkcs8_x25519());
        assert(pkcs8_ed@ =~= pkcs8_ed25519());
    }
    if starts_with_bytes(der, &spki_x) || starts_with_bytes(der, &spki_ed) {
        assert(der@.subrange(12, der@.len() as int) =~= der@.skip(12));
        return Some(bytes_part(der, 12, der.len()));
    }
    if starts_with_bytes(der, &pkcs8_x) || starts_with_bytes(der, &pkcs8_ed) {
        assert(der@.subrange(16, der@.len() as int) =~= der@.skip(16));
        return Some(bytes_part(der, 16, der.len()));
    }
    None
}

fn pem_label_is_curve_key(label: &[char]) -> (r: bool)
    ensures
        r == curve_label(label@),
{
    chars_are(label, "PUBLIC KEY") || chars_are(label, "PRIVATE KEY") || chars_are(
        label,
        "ED25519 PUBLIC KEY",
    ) || chars_are(label, "ED25519 PRIVATE KEY") || chars_are(label, "X25519 PUBLIC KEY")
        || chars_are(label, "X25519 PRIVATE KEY")
}

fn decode_pem_key(text: &[char]) -> (r: Option<Vec<u8>>)
    ensures
        bytes_option(r) == pem_key(text@),
{
    let newline: [char; 1] = ['\n'];
    assert(newline@ =~= seq!['\n']);
    let lines = split_at(text, &newline);
    let ghost views = char_views(lines@);
    let mut inside = false;
    let mut body: Vec<char> = Vec::new();
    let mut i: usize = 0;
    let mut ended = false;
    assert(body@ =~= Seq::<char>::empty());
    while i < lines.len() && !ended
        invariant
            i <= lines.len(),
            views == char_views(lines@),
            views == pieces(text@, one_of(seq!['\n'])),
            !ended ==> pem_body(views, 0, false, Seq::empty()) == pem_body(
                views,
                i as int,
                inside,
                body@,
            ),
            ended ==> pem_body(views, 0, false, Seq::empty()) == (if inside {
                Some(body@)
            } else {
                None
            }),
        decreases
            lines.len() - i,
            (if ended {
                0int
            } else {
                1int
            }),
    {
        assert(views[i as int] == lines@[i as int]@);
        let line = trim(lines[i].as_slice());
        proof {
            reveal_strlit("-----BEGIN ");
            reveal_strlit("-----");
        }
        if has_prefix(line.as_slice(), "-----BEGIN ") {
            let rest = part(line.as_slice(), 11, line.len());
            assert(rest@ =~= line@.skip(11));
            if !has_suffix(rest.as_slice(), "-----") {
                return None;
            }
            let name = part(rest.as_slice(), 0, rest.len() - 5);
            assert(name@ =~= rest@.take(rest@.len() - 5));
            if !pem_label_is_curve_key(name.as_slice()) {
                return None;
            }
            inside = true;
            i += 1;
        } else if has_prefix(line.as_slice(), "-----END ") {
            ended = true;
        } else {
            if inside {
                let ghost before = body@;
                let ghost added = line@;
                let mut tail = line;
                body.append(&mut tail);
                assert(body@ =~= before + added);
            }
            i += 1;
        }
    }
    if !inside {
        return None;
    }
    let joined: String = text_of(body.as_slice());
    match base64_decode(joined.as_str()) {
        None => None,
        Some(der) => extract_curve_key_bytes(der.as_slice()),
    }
}

/// The string at a place, and the place behind it.
fn read_ssh_string(data: &[u8], at: usize) -> (r: Option<(Vec<u8>, usize)>)
    requires
        at <= data@.len(),
    ensures
        ssh_string(data@, at as int) == (match r {
            Some((bytes, end)) => Some((bytes@, end as int)),
            None => None,
        }),
        r matches Some((_, end)) ==> end <= data@.len(),
{
    if data.len() - at < 4 {
        return None;
    }
    proof {
        let head = data@.subrange(at as int, at + 4);
        assert(head[0] == data@[at as int] && head[1] == data@[at + 1] && head[2] == data@[at + 2]
            && head[3] == data@[at + 3]);
    }
    let len: u64 = data[at] as u64 * 0x1000000 + data[at + 1] as u64 * 0x10000 + data[at + 2] as u64
        * 0x100 + data[at + 3] as u64;
    let left: u64 = (data.len() - at - 4) as u64;
    if left < len {
        return None;
    }
    let start: usize = at + 4;
    let end: usize = start + len as usize;
    Some((bytes_part(data, start, end), end))
}

fn parse_ssh_ed25519_blob(data: &[u8]) -> (r: Option<Vec<u8>>)
    ensures
        bytes_option(r) == ssh_blob_key(data@),
{
    let wanted: [u8; 11] = [
        0x73, 0x73, 0x68, 0x2d, 0x65, 0x64, 0x32, 0x35, 0x35, 0x31, 0x39,
    ];
    assert(wanted@ =~= ssh_ed25519());
    match read_ssh_string(data, 0) {
        None => None,
        Some((name, at)) => {
            if !crate::bytes::bytes_equal(name.as_slice(), &wanted) {
                return None;
            }
            match read_ssh_string(data, at) {
                None => None,
                Some((key, end)) => {
                    if key.len() != 32 || end != data.len() {
                        None
                    } else {
                        Some(key)
                    }
                },
            }
        },
    }
}

fn parse_openssh_public(line: &[char]) -> (r: Option<Vec<u8>>)
    ensures
        bytes_option(r) == openssh_key(line@),
{
    let parts = split_words(line);
    let ghost views = char_views(parts@);
    if parts.len() == 0 {
        return None;
    }
    assert(views[0] == parts@[0]@);
    if !chars_are(parts[0].as_slice(), "ssh-ed25519") {
        return None;
    }
    if parts.len() < 2 {
        return None;
    }
    assert(views[1] == parts@[1]@);
    let encoded: String = text_of(parts[1].as_slice());
    match base64_decode(encoded.as_str()) {
        None => None,
        Some(data) => parse_ssh_ed25519_blob(data.as_slice()),
    }
}

/// The 32 bytes of a public or secret key from a hexadecimal dump, a PEM document
/// or an OpenSSH public-key line.
pub fn parse_key_text(contents: &str) -> (r: Result<Vec<u8>, Error>)
    ensures
        match r {
            Ok(key) => key_in_text(contents@) == Some(key@) && key@.len() == 32,
            Err(e) => e == Error::InvalidPublicKey && key_in_text(contents@) is None,
        },
{
    let all = chars_of(contents);
    let text = trim(all.as_slice());
    if has_prefix(text.as_slice(), "-----BEGIN ") {
        return match decode_pem_key(text.as_slice()) {
            Some(key) => Ok(key),
            None => Err(Error::InvalidPublicKey),
        };
    }
    match parse_openssh_public(text.as_slice()) {
        Some(key) => { return Ok(key); },
        None => {},
    }
    let joined: String = text_of(text.as_slice());
    match hex_decode(joined.as_str()) {
        Some(key) => {
            if key.len() == 32 {
                Ok(key)
            } else {
                Err(Error::InvalidPublicKey)
            }
        },
        None => Err(Error::InvalidPublicKey),
    }
}

/// The key in a document is its last 32 bytes. They stand alone, or behind a header of 12
/// or of 16 bytes.
pub proof fn key_is_the_last_32_bytes(der: Seq<u8>)
    ensures
        curve_key(der) matches Some(key) ==> key.len() == 32 && key == der.skip(der.len() - 32) && (
        der.len() == 32 || der.len() == 44 || der.len() == 48),
        der.len() == 32 ==> curve_key(der) == Some(der),
        der.len() == 44 ==> (curve_key(der) is Some <==> {
            &&& der.take(8) == seq![0x30u8, 0x2a, 0x30, 0x05, 0x06, 0x03, 0x2b, 0x65]
            &&& der[8] == 0x6e || der[8] == 0x70
            &&& der[9] == 0x03 && der[10] == 0x21 && der[11] == 0x00
        }),
        der.len() == 48 ==> (curve_key(der) is Some <==> {
            &&& der.take(11) == seq![
                0x30u8,
                0x2e,
                0x02,
                0x01,
                0x00,
                0x30,
                0x05,
                0x06,
                0x03,
                0x2b,
                0x65,
            ]
            &&& der[11] == 0x6e || der[11] == 0x70
            &&& der[12] == 0x04 && der[13] == 0x22 && der[14] == 0x04 && der[15] == 0x20
        }),
{
    if der.len() == 32 {
        assert(der.skip(0) =~= der);
    }
    if der.len() == 44 {
        let front = seq![0x30u8, 0x2a, 0x30, 0x05, 0x06, 0x03, 0x2b, 0x65];
        if curve_key(der) is Some {
            assert(der.take(12)[8] == der[8] && der.take(12)[9] == der[9] && der.take(12)[10]
                == der[10] && der.take(12)[11] == der[11]);
            assert(der.take(8) =~= der.take(12).take(8));
            assert(spki_x25519().take(8) =~= front);
            assert(spki_ed25519().take(8) =~= front);
        }
        if der.take(8) == front && (der[8] == 0x6e || der[8] == 0x70) && der[9] == 0x03 && der[10]
            == 0x21 && der[11] == 0x00 {
            assert forall|i: int| 0 <= i < 8 implies der[i] == front[i] by {
                assert(der.take(8)[i] == der[i]);
            }
            if der[8] == 0x6e {
                assert(der.take(12) =~= spki_x25519());
            } else {
                assert(der.take(12) =~= spki_ed25519());
            }
        }
    }
    if der.len() == 48 {
        let front = seq![
            0x30u8,
            0x2e,
            0x02,
            0x01,
            0x00,
            0x30,
            0x05,
            0x06,
            0x03,
            0x2b,
            0x65,
        ];
        if curve_key(der) is Some {
            assert(der.take(16)[11] == der[11] && der.take(16)[12] == der[12] && der.take(16)[13]
                == der[13] && der.take(16)[14] == der[14] && der.take(16)[15] == der[15]);
            assert(der.take(11) =~= der.take(16).take(11));
            assert(pkcs8_x25519().take(11) =~= front);
            assert(pkcs8_ed25519().take(11) =~= front);
        }
        if der.take(11) == front && (der[11] == 0x6e || der[11] == 0x70) && der[12] == 0x04
            && der[13] == 0x22 && der[14] == 0x04 && der[15] == 0x20 {
            assert forall|i: int| 0 <= i < 11 implies der[i] == front[i] by {
                assert(der.take(11)[i] == der[i]);
            }
            if der[11] == 0x6e {
                assert(der.take(16) =~= pkcs8_x25519());
            } else {
                assert(der.take(16) =~= pkcs8_ed25519());
            }
        }
    }
}

/// The blob of a public-key line is the length of the algorithm's name, the name, the
/// length of the key and the key, and nothing else.
pub proof fn blob_is_its_parts(data: Seq<u8>, key: Seq<u8>)
    ensures
        ssh_blob_key(data) == Some(key) <==> key.len() == 32 && data == seq![0u8, 0, 0, 11]
            + ssh_ed25519() + seq![0u8, 0, 0, 32] + key,
        ssh_ed25519().len() == 11,
{
    let name = ssh_ed25519();
    let whole = seq![0u8, 0, 0, 11] + name + seq![0u8, 0, 0, 32] + key;
    if ssh_blob_key(data) == Some(key) {
        let first = data.subrange(0, 4);
        let n = big_endian(first);
        assert(data.subrange(4, 4 + n).len() == n);
        assert(n == 11);
        assert(first[0] == 0 && first[1] == 0 && first[2] == 0 && first[3] == 11);
        assert(data[0] == first[0] && data[1] == first[1] && data[2] == first[2] && data[3]
            == first[3]);
        let second = data.subrange(15, 19);
        let m = big_endian(second);
        assert(m == 32);
        assert(second[0] == 0 && second[1] == 0 && second[2] == 0 && second[3] == 32);
        assert(data[15] == second[0] && data[16] == second[1] && data[17] == second[2] && data[18]
            == second[3]);
        assert(data.len() == 51);
        assert forall|i: int| 0 <= i < 51 implies data[i] == whole[i] by {
            if 4 <= i < 15 {
                assert(data.subrange(4, 15)[i - 4] == data[i]);
            } else if 19 <= i {
                assert(data.subrange(19, 51)[i - 19] == data[i]);
            }
        }
        assert(data =~= whole);
    }
    if key.len() == 32 && data == whole {
        let first = data.subrange(0, 4);
        assert(first[0] == 0 && first[1] == 0 && first[2] == 0 && first[3] == 11);
        assert(data.subrange(4, 15) =~= name);
        let second = data.subrange(15, 19);
        assert(second[0] == 0 && second[1] == 0 && second[2] == 0 && second[3] == 32);
        assert(data.subrange(19, 51) =~= key);
    }
}

/// A text that starts a block holds what the block holds. Any other holds the key of a
/// public-key line where it is one, and otherwise of 64 hexadecimal digits.
pub proof fn texts_that_hold_a_key(contents: Seq<char>)
    ensures
        ({
            let text = trimmed(contents);
            let found = key_in_text(contents);
            &&& begins_with(text, "-----BEGIN "@) ==> found == pem_key(text)
            &&& !begins_with(text, "-----BEGIN "@) && openssh_key(text) is Some ==> found
                == openssh_key(text)
            &&& !begins_with(text, "-----BEGIN "@) && openssh_key(text) is None ==> (found is Some
                <==> text.len() == 64 && hex_bytes(text) is Some)
            &&& !begins_with(text, "-----BEGIN "@) && openssh_key(text) is None && found is Some
                ==> found == hex_bytes(text)
        }),
{
}

} // verus!
