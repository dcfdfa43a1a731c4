//! Portable export bundles: a credential or a file, sealed to the public key of
//! a recipient who has no access to the store.
//!
//! A bundle is, with integers big-endian:
//!   magic "KQXB" (4) | version (1) | type (1) | recipient's public key (32)
//!   | payload length (4) | sealed payload
//! Type 1 is a credential, type 2 a file. What is sealed is, for a credential,
//!   label length (2) | label | username length (2) | username
//!   | password length (2) | password
//! with no username as an empty one, and for a file
//!   name length (2) | name | contents
//! The label or name is sealed too: it can tell something on its own, and
//! nothing outside the payload is encrypted.

use vstd::prelude::*;
use vstd::string::*;
use vstd::utf8::*;

use crate::bytes::{
    append_be16, append_be32, append_bytes, be16, be32, bytes_equal, zero_bytes,
};
use crate::error::{fault_of, Error, StoreError};
use crate::locked_files::{file_place, files_wf, unlock_file, unlocked, LockedFiles};
use crate::sealing::{opens_to, seal, SEAL_OVERHEAD};
use crate::vault::{credential_at, get_credential, vault_wf, CredentialView, Vault};

verus! {

pub const FORMAT_VERSION: u8 = 1;

pub const BUNDLE_TYPE_CREDENTIAL: u8 = 1;

pub const BUNDLE_TYPE_FILE: u8 = 2;

/// The shared secret that `x25519_dalek::x25519` computes.
pub uninterp spec fn x25519_shared(scalar: Seq<u8>, point: Seq<u8>) -> Seq<u8>;

/// Calls `x25519_dalek::x25519`. The shared secret depends on scalar and point
/// alone.
#[verifier::external_body]
fn x25519(scalar: &[u8; 32], point: &[u8; 32]) -> (r: [u8; 32])
    ensures
        r@ == x25519_shared(scalar@, point@),
{
    x25519_dalek::x25519(*scalar, *point)
}

/// The four bytes that a bundle starts with.
pub open spec fn magic() -> Seq<u8> {
    seq![0x4bu8, 0x51u8, 0x58u8, 0x42u8]
}

/// Bytes behind their length.
pub open spec fn prefixed(bytes: Seq<u8>) -> Seq<u8> {
    be16(bytes.len() as int) + bytes
}

/// A length fits in two bytes.
pub open spec fn fits(bytes: Seq<u8>) -> bool {
    bytes.len() <= 0xffff
}

/// Appends bytes behind their length. Bytes whose length does not fit are
/// refused, and nothing is written.
pub fn encode_len_prefixed(out: &mut Vec<u8>, bytes: &[u8]) -> (r: Result<(), Error>)
    ensures
        fault_of(r) == (if fits(bytes@) {
            None
        } else {
            Some(Error::BundleFieldTooLarge)
        }),
        final(out)@ == (if fits(bytes@) {
            old(out)@ + prefixed(bytes@)
        } else {
            old(out)@
        }),
{
    let len: usize = bytes.len();
    if len > 0xffff {
        return Err(Error::BundleFieldTooLarge);
    }
    let ghost before = out@;
    append_be16(out, len as u16);
    append_bytes(out, bytes);
    assert(out@ =~= before + prefixed(bytes@));
    Ok(())
}

/// A public key with which every exchange gives the same secret, so that anyone
/// could open what is sealed to it.
///
/// One clamped scalar tells: every point of low order gives zeros with it.
pub open spec fn weak_key(public_key: Seq<u8>) -> bool {
    x25519_shared(Seq::new(32, |i: int| 1u8), public_key) == zero_bytes(32)
}

fn is_weak_x25519_public_key(public_key: &[u8; 32]) -> (r: bool)
    ensures
        r == weak_key(public_key@),
{
    let probe: [u8; 32] = [1u8; 32];
    let shared = x25519(&probe, public_key);
    let zero: [u8; 32] = [0u8; 32];
    assert(probe@ =~= Seq::new(32, |i: int| 1u8));
    assert(zero@ =~= zero_bytes(32));
    bytes_equal(&shared, &zero)
}

/// A bundle around a sealed payload.
pub open spec fn bundle(bundle_type: u8, public_key: Seq<u8>, sealed: Seq<u8>) -> Seq<u8> {
    magic() + seq![FORMAT_VERSION, bundle_type] + public_key + be32(sealed.len() as int) + sealed
}

/// Puts a sealed payload into a bundle, if its length fits in four bytes.
pub fn frame_bundle(bundle_type: u8, recipient_public_key: &[u8; 32], sealed: &[u8]) -> (r: Result<
    Vec<u8>,
    Error,
>)
    ensures
        match r {
            Ok(out) => sealed@.len() <= 0xffff_ffff && out@ == bundle(
                bundle_type,
                recipient_public_key@,
                sealed@,
            ),
            Err(e) => sealed@.len() > 0xffff_ffff && e == Error::BundleFieldTooLarge,
        },
{
    let len: u64 = sealed.len() as u64;
    if len > 0xffff_ffff {
        return Err(Error::BundleFieldTooLarge);
    }
    let mut out: Vec<u8> = Vec::new();
    out.push(0x4b);
    out.push(0x51);
    out.push(0x58);
    out.push(0x42);
    out.push(FORMAT_VERSION);
    out.push(bundle_type);
    append_bytes(&mut out, recipient_public_key);
    append_be32(&mut out, len as u32);
    append_bytes(&mut out, sealed);
    assert(out@ =~= bundle(bundle_type, recipient_public_key@, sealed@));
    Ok(out)
}

/// Why a payload cannot be bundled for a recipient, if it cannot.
pub open spec fn bundle_fault(public_key: Seq<u8>, plaintext: Seq<u8>) -> Option<Error> {
    if weak_key(public_key) {
        Some(Error::InvalidPublicKey)
    } else if plaintext.len() + SEAL_OVERHEAD > 0xffff_ffff {
        Some(Error::BundleFieldTooLarge)
    } else {
        None
    }
}

/// A bundle whose payload opens to a plaintext under the recipient's secret key.
pub open spec fn bundles(
    out: Seq<u8>,
    bundle_type: u8,
    public_key: Seq<u8>,
    plaintext: Seq<u8>,
) -> bool {
    exists|sealed: Seq<u8>|
        {
            &&& out == #[trigger] bundle(bundle_type, public_key, sealed)
            &&& sealed.len() == plaintext.len() + SEAL_OVERHEAD
            &&& opens_to(sealed, public_key, plaintext)
        }
}

fn encode_bundle(bundle_type: u8, recipient_public_key: &[u8; 32], plaintext: &[u8]) -> (r: Result<
    Vec<u8>,
    Error,
>)
    ensures
        fault_of(r) == bundle_fault(recipient_public_key@, plaintext@),
        r matches Ok(out) ==> bundles(out@, bundle_type, recipient_public_key@, plaintext@),
{
    if is_weak_x25519_public_key(recipient_public_key) {
        return Err(Error::InvalidPublicKey);
    }
    let sealed = seal(recipient_public_key, plaintext);
    frame_bundle(bundle_type, recipient_public_key, sealed.as_slice())
}

/// The username in a payload: empty where there is none.
pub open spec fn username_or_empty(username: Option<Seq<char>>) -> Seq<char> {
    match username {
        Some(username) => username,
        None => Seq::empty(),
    }
}

/// What is sealed of a credential.
pub open spec fn credential_payload(credential: CredentialView) -> Seq<u8> {
    prefixed(encode_utf8(credential.label)) + prefixed(
        encode_utf8(username_or_empty(credential.username)),
    ) + prefixed(encode_utf8(credential.password))
}

/// Every field of a credential fits.
pub open spec fn credential_fits(credential: CredentialView) -> bool {
    &&& fits(encode_utf8(credential.label))
    &&& fits(encode_utf8(username_or_empty(credential.username)))
    &&& fits(encode_utf8(credential.password))
}

/// Why a credential cannot be exported, if it cannot.
pub open spec fn credential_export_fault(
    credential: Result<CredentialView, Error>,
    public_key: Seq<u8>,
) -> Option<Error> {
    match credential {
        Err(e) => Some(e),
        Ok(credential) => if !credential_fits(credential) {
            Some(Error::BundleFieldTooLarge)
        } else {
            bundle_fault(public_key, credential_payload(credential))
        },
    }
}

/// Exports a credential to a recipient.
pub fn export_credential(
    vault: &Vault,
    credential_id: i64,
    master_password: &str,
    recipient_public_key: &[u8; 32],
) -> (r: Result<Vec<u8>, Error>)
    requires
        vault_wf(vault@),
    ensures
        fault_of(r) == credential_export_fault(
            credential_at(vault@, credential_id, master_password@),
            recipient_public_key@,
        ),
        r matches Ok(out) ==> {
            &&& credential_at(vault@, credential_id, master_password@) matches Ok(credential)
            &&& bundles(
                out@,
                BUNDLE_TYPE_CREDENTIAL,
                recipient_public_key@,
                credential_payload(credential),
            )
        },
{
    let credential = match get_credential(vault, credential_id, master_password) {
        Ok(credential) => credential,
        Err(e) => return Err(e),
    };
    let mut payload: Vec<u8> = Vec::new();
    match encode_len_prefixed(&mut payload, credential.label.as_str().as_bytes()) {
        Ok(()) => {},
        Err(e) => return Err(e),
    }
    let username = match &credential.username {
        Some(username) => username.as_str(),
        None => "",
    };
    proof {
        reveal_strlit("");
        assert(username@ =~= username_or_empty(credential@.username));
    }
    match encode_len_prefixed(&mut payload, username.as_bytes()) {
        Ok(()) => {},
        Err(e) => return Err(e),
    }
    match encode_len_prefixed(&mut payload, credential.password.as_str().as_bytes()) {
        Ok(()) => {},
        Err(e) => return Err(e),
    }
    assert(payload@ =~= credential_payload(credential@));
    encode_bundle(BUNDLE_TYPE_CREDENTIAL, recipient_public_key, payload.as_slice())
}

/// What is sealed of a file.
pub open spec fn file_payload(name: Seq<char>, contents: Seq<u8>) -> Seq<u8> {
    prefixed(encode_utf8(name)) + contents
}

/// Why a file cannot be exported, if it cannot.
pub open spec fn file_export_fault(
    name: Seq<char>,
    contents: Result<Seq<u8>, Error>,
    public_key: Seq<u8>,
) -> Option<Error> {
    match contents {
        Err(e) => Some(e),
        Ok(contents) => if !fits(encode_utf8(name)) {
            Some(Error::BundleFieldTooLarge)
        } else {
            bundle_fault(public_key, file_payload(name, contents))
        },
    }
}

/// Exports a locked file to a recipient, given what stands at its path.
pub fn export_file(
    files: &LockedFiles,
    file_id: i64,
    ciphertext: &[u8],
    password: &str,
    recipient_public_key: &[u8; 32],
) -> (r: Result<Vec<u8>, Error>)
    requires
        files_wf(files@),
    ensures
        match file_place(files@, file_id) {
            None => fault_of(r) == Some(Error::Db(StoreError::NoRows)),
            Some(i) => {
                let contents = unlocked(files@, file_id, ciphertext@, password@);
                &&& fault_of(r) == file_export_fault(
                    files@[i].name,
                    contents,
                    recipient_public_key@,
                )
                &&& r matches Ok(out) ==> contents is Ok && bundles(
                    out@,
                    BUNDLE_TYPE_FILE,
                    recipient_public_key@,
                    file_payload(files@[i].name, contents->Ok_0),
                )
            },
        },
{
    let i = match files.find(file_id) {
        Some(i) => i,
        None => return Err(Error::Db(StoreError::NoRows)),
    };
    assert(files@[i as int] == files.rows@[i as int]@);
    let contents = match unlock_file(files, file_id, ciphertext, password) {
        Ok(contents) => contents,
        Err(e) => return Err(e),
    };
    let mut payload: Vec<u8> = Vec::new();
    match encode_len_prefixed(&mut payload, files.rows[i].name.as_str().as_bytes()) {
        Ok(()) => {},
        Err(e) => return Err(e),
    }
    append_bytes(&mut payload, contents.as_slice());
    assert(payload@ =~= file_payload(files@[i as int].name, contents@));
    encode_bundle(BUNDLE_TYPE_FILE, recipient_public_key, payload.as_slice())
}

proof fn lemma_prefixed_cut(a: Seq<u8>, b: Seq<u8>, x: Seq<u8>, y: Seq<u8>)
    requires
        fits(a),
        fits(b),
        prefixed(a) + x == prefixed(b) + y,
    ensures
        a == b,
        x == y,
{
    let left = prefixed(a) + x;
    let right = prefixed(b) + y;
    let m = a.len() as int;
    let n = b.len() as int;
    assert(left[0] == (m / 256) as u8 && left[1] == (m % 256) as u8);
    assert(right[0] == (n / 256) as u8 && right[1] == (n % 256) as u8);
    assert(m / 256 == n / 256 && m % 256 == n % 256);
    assert(a.len() == b.len());
    assert forall|i: int| 0 <= i < a.len() implies a[i] == b[i] by {
        assert(left[i + 2] == a[i] && right[i + 2] == b[i]);
    }
    assert(a =~= b);
    assert(left.len() == right.len());
    assert forall|i: int| 0 <= i < x.len() implies x[i] == y[i] by {
        assert(prefixed(a).len() == m + 2 && prefixed(b).len() == n + 2);
        assert(left[m + 2 + i] == x[i]);
        assert(right[n + 2 + i] == y[i]);
    }
    assert(x =~= y);
}

/// A payload tells the label, the username and the password of its credential.
pub proof fn credential_payload_tells_all(a: CredentialView, b: CredentialView)
    requires
        credential_fits(a),
        credential_fits(b),
        credential_payload(a) == credential_payload(b),
    ensures
        a.label == b.label,
        username_or_empty(a.username) == username_or_empty(b.username),
        a.password == b.password,
{
    let ua = encode_utf8(username_or_empty(a.username));
    let ub = encode_utf8(username_or_empty(b.username));
    let pa = prefixed(encode_utf8(a.password));
    let pb = prefixed(encode_utf8(b.password));
    assert(credential_payload(a) =~= prefixed(encode_utf8(a.label)) + (prefixed(ua) + pa));
    assert(credential_payload(b) =~= prefixed(encode_utf8(b.label)) + (prefixed(ub) + pb));
    lemma_prefixed_cut(
        encode_utf8(a.label),
        encode_utf8(b.label),
        prefixed(ua) + pa,
        prefixed(ub) + pb,
    );
    lemma_prefixed_cut(ua, ub, pa, pb);
    assert(pa =~= pa + Seq::empty() && pb =~= pb + Seq::empty());
    lemma_prefixed_cut(
        encode_utf8(a.password),
        encode_utf8(b.password),
        Seq::empty(),
        Seq::empty(),
    );
    encode_utf8_decode_utf8(a.label);
    encode_utf8_decode_utf8(b.label);
    encode_utf8_decode_utf8(username_or_empty(a.username));
    encode_utf8_decode_utf8(username_or_empty(b.username));
    encode_utf8_decode_utf8(a.password);
    encode_utf8_decode_utf8(b.password);
}

/// A payload tells the name and the contents of its file.
pub proof fn file_payload_tells_all(
    name: Seq<char>,
    contents: Seq<u8>,
    other_name: Seq<char>,
    other_contents: Seq<u8>,
)
    requires
        fits(encode_utf8(name)),
        fits(encode_utf8(other_name)),
        file_payload(name, contents) == file_payload(other_name, other_contents),
    ensures
        name == other_name,
        contents == other_contents,
{
    lemma_prefixed_cut(encode_utf8(name), encode_utf8(other_name), contents, other_contents);
    encode_utf8_decode_utf8(name);
    encode_utf8_decode_utf8(other_name);
}

/// A bundle is its magic, the version, its type, the recipient's key, the length of what is
/// sealed and what is sealed.
pub proof fn bundle_is_its_parts(bundle_type: u8, public_key: Seq<u8>, sealed: Seq<u8>)
    requires
        public_key.len() == 32,
    ensures
        bundle(bundle_type, public_key, sealed) == seq![0x4bu8, 0x51, 0x58, 0x42, 1, bundle_type]
            + public_key + be32(sealed.len() as int) + sealed,
        bundle(bundle_type, public_key, sealed).len() == 42 + sealed.len(),
        bundle(bundle_type, public_key, sealed).subrange(6, 38) == public_key,
        bundle(bundle_type, public_key, sealed).skip(42) == sealed,
{
    let all = bundle(bundle_type, public_key, sealed);
    assert(all =~= seq![0x4bu8, 0x51, 0x58, 0x42, 1, bundle_type] + public_key + be32(
        sealed.len() as int,
    ) + sealed);
    assert(all.subrange(6, 38) =~= public_key);
    assert(all.skip(42) =~= sealed);
}

/// A credential can be exported exactly if it is given, none of its three texts is longer
/// than 65535 bytes, and the recipient's key is not weak. A file can if it opens, its name
/// is no longer than that, and what is sealed of it is no longer than a length in four bytes.
pub proof fn what_can_be_exported(
    credential: Result<CredentialView, Error>,
    name: Seq<char>,
    contents: Result<Seq<u8>, Error>,
    public_key: Seq<u8>,
)
    ensures
        credential_export_fault(credential, public_key) is None <==> {
            &&& credential is Ok
            &&& encode_utf8(credential->Ok_0.label).len() <= 65535
            &&& encode_utf8(username_or_empty(credential->Ok_0.username)).len() <= 65535
            &&& encode_utf8(credential->Ok_0.password).len() <= 65535
            &&& !weak_key(public_key)
        },
        credential is Err ==> credential_export_fault(credential, public_key) == fault_of(
            credential,
        ),
        file_export_fault(name, contents, public_key) is None <==> {
            &&& contents is Ok
            &&& encode_utf8(name).len() <= 65535
            &&& !weak_key(public_key)
            &&& 2 + encode_utf8(name).len() + contents->Ok_0.len() + 48 <= 4294967295
        },
        contents is Err ==> file_export_fault(name, contents, public_key) == fault_of(contents),
{
    if let Ok(c) = credential {
        if credential_fits(c) {
            assert(credential_payload(c).len() == 6 + encode_utf8(c.label).len() + encode_utf8(
                username_or_empty(c.username),
            ).len() + encode_utf8(c.password).len());
        }
    }
    if let Ok(c) = contents {
        assert(file_payload(name, c).len() == 2 + encode_utf8(name).len() + c.len());
    }
}

/// What is sealed of a credential is its label, its username and its password, each behind
/// its length in two bytes. No username is an empty one.
pub proof fn payload_holds_three_texts(credential: CredentialView)
    ensures
        ({
            let label = encode_utf8(credential.label);
            let username = encode_utf8(username_or_empty(credential.username));
            let password = encode_utf8(credential.password);
            &&& credential_payload(credential) == be16(label.len() as int) + label + be16(
                username.len() as int,
            ) + username + be16(password.len() as int) + password
            &&& credential.username is None ==> username_or_empty(credential.username)
                == Seq::<char>::empty()
            &&& credential.username matches Some(name) ==> username_or_empty(credential.username)
                == name
        }),
{
    let label = encode_utf8(credential.label);
    let username = encode_utf8(username_or_empty(credential.username));
    let password = encode_utf8(credential.password);
    assert(credential_payload(credential) =~= be16(label.len() as int) + label + be16(
        username.len() as int,
    ) + username + be16(password.len() as int) + password);
}

/// A recipient's weak key is told of as such, and what is too long as that.
pub proof fn what_stops_an_export(
    credential: CredentialView,
    name: Seq<char>,
    contents: Seq<u8>,
    public_key: Seq<u8>,
)
    ensures
        encode_utf8(credential.label).len() > 65535 || encode_utf8(
            username_or_empty(credential.username),
        ).len() > 65535 || encode_utf8(credential.password).len() > 65535
            ==> credential_export_fault(Ok(credential), public_key) == Some(
            Error::BundleFieldTooLarge,
        ),
        encode_utf8(name).len() > 65535 ==> file_export_fault(name, Ok(contents), public_key)
            == Some(Error::BundleFieldTooLarge),
        credential_fits(credential) && weak_key(public_key) ==> credential_export_fault(
            Ok(credential),
            public_key,
        ) == Some(Error::InvalidPublicKey),
        encode_utf8(name).len() <= 65535 && weak_key(public_key) ==> file_export_fault(
            name,
            Ok(contents),
            public_key,
        ) == Some(Error::InvalidPublicKey),
        encode_utf8(name).len() <= 65535 && !weak_key(public_key) && 2 + encode_utf8(name).len()
            + contents.len() + 48 > 4294967295 ==> file_export_fault(name, Ok(contents), public_key)
            == Some(Error::BundleFieldTooLarge),
{
    assert(file_payload(name, contents).len() == 2 + encode_utf8(name).len() + contents.len());
}

/// A bundle says in its sixth byte what it holds: a credential as one, a file as two.
pub proof fn bundles_say_what_they_hold(out: Seq<u8>, public_key: Seq<u8>, plaintext: Seq<u8>)
    requires
        public_key.len() == 32,
    ensures
        bundles(out, BUNDLE_TYPE_CREDENTIAL, public_key, plaintext) ==> out[5] == 1,
        bundles(out, BUNDLE_TYPE_FILE, public_key, plaintext) ==> out[5] == 2,
        bundles(out, BUNDLE_TYPE_CREDENTIAL, public_key, plaintext) || bundles(
            out,
            BUNDLE_TYPE_FILE,
            public_key,
            plaintext,
        ) ==> out.len() == 42 + plaintext.len() + 48 && out.subrange(6, 38) == public_key,
{
    if bundles(out, BUNDLE_TYPE_CREDENTIAL, public_key, plaintext) {
        let sealed = choose|sealed: Seq<u8>|
            {
                &&& out == #[trigger] bundle(BUNDLE_TYPE_CREDENTIAL, public_key, sealed)
                &&& sealed.len() == plaintext.len() + SEAL_OVERHEAD
                &&& opens_to(sealed, public_key, plaintext)
            };
        bundle_is_its_parts(BUNDLE_TYPE_CREDENTIAL, public_key, sealed);
    }
    if bundles(out, BUNDLE_TYPE_FILE, public_key, plaintext) {
        let sealed = choose|sealed: Seq<u8>|
            {
                &&& out == #[trigger] bundle(BUNDLE_TYPE_FILE, public_key, sealed)
                &&& sealed.len() == plaintext.len() + SEAL_OVERHEAD
                &&& opens_to(sealed, public_key, plaintext)
            };
        bundle_is_its_parts(BUNDLE_TYPE_FILE, public_key, sealed);
    }
}

} // verus!
