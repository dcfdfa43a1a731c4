//! Registration: a bearer is handed out to whoever proves to hold a signing key.
//!
//! The caller signs the provider's name and its own public key. The relay signs
//! what it recorded, so that the caller can show by whom it was registered.

use vstd::prelude::*;
use vstd::string::*;
use vstd::utf8::*;

use crate::bytes::{append_be16, append_be64, append_bytes, be16, be32, be64};
use crate::encoding::{
    check_digest_text, hex_bytes, hex_encode, hex_in_text, hex_of_len, hex_round_trip, hex_text, hex_value,
    is_digest_text, lemma_hex_digest_text, parse_hex_32, parse_hex_64, sha256, sha256_digest,
};
use crate::error::{fault_of, Error, StoreError};
use crate::keys::{fingerprint, fingerprint_text};
use crate::relay::api_key::{
    api_keys_wf, bearer_may_be_taken, create, hash_bearer, minted, next_api_key_id, ApiKeyRowView,
    ApiKeyScope, ApiKeys, NewApiKey,
};
use crate::signing::{
    derive_verifying_key, is_verifying_key, neutral_point, sign, signature_fault, signature_of,
    verify_signature, verifying_key,
};
use crate::text::{
    all_ascii, ascii, copy_text, is_text_le, is_white, lent_text, optional_text, start_trimmed,
    text_equal, text_le, text_le_is_total, text_le_is_transitive, trimmed,
};

verus! {

/// The version in the path of a request.
pub fn api_version() -> (r: &'static str)
    ensures
        r@ == "v1"@,
{
    "v1"
}

/// What a caller sends to be registered, keys and signatures in hexadecimal.
#[derive(Debug)]
pub struct RegisterRequest {
    pub public_key: String,
    pub signature: String,
    pub scope: Option<String>,
    pub label: Option<String>,
}

/// What a caller is sent: the bearer, once, and the receipt.
#[derive(Debug)]
pub struct RegisterResponse {
    pub token: String,
    pub id: i64,
    pub scope: String,
    pub provider_id: String,
    pub hardware_fingerprint: String,
    pub hardware_public_key: String,
    pub registered_at: String,
    pub keyquorum_signature: String,
}

/// A registration as it is kept, without the bearer.
#[derive(Debug)]
pub struct Registration {
    pub id: i64,
    pub provider_id: String,
    pub hardware_fingerprint: String,
    pub hardware_public_key: String,
    pub api_key_id: i64,
    pub registered_at: String,
    pub keyquorum_signature: String,
}

#[verifier::ext_equal]
pub struct RegistrationView {
    pub id: i64,
    pub provider_id: Seq<char>,
    pub hardware_fingerprint: Seq<char>,
    pub hardware_public_key: Seq<char>,
    pub api_key_id: i64,
    pub registered_at: Seq<char>,
    pub keyquorum_signature: Seq<char>,
}

impl View for Registration {
    type V = RegistrationView;

    open spec fn view(&self) -> RegistrationView {
        RegistrationView {
            id: self.id,
            provider_id: self.provider_id@,
            hardware_fingerprint: self.hardware_fingerprint@,
            hardware_public_key: self.hardware_public_key@,
            api_key_id: self.api_key_id,
            registered_at: self.registered_at@,
            keyquorum_signature: self.keyquorum_signature@,
        }
    }
}

pub open spec fn registration_views(rows: Seq<Registration>) -> Seq<RegistrationView> {
    Seq::new(rows.len(), |i: int| rows[i]@)
}

/// All registrations, in the order of their ids.
#[derive(Debug)]
pub struct Registrations {
    pub rows: Vec<Registration>,
}

impl View for Registrations {
    type V = Seq<RegistrationView>;

    open spec fn view(&self) -> Seq<RegistrationView> {
        registration_views(self.rows@)
    }
}

/// Ids are positive and ascend.
pub open spec fn registrations_wf(rows: Seq<RegistrationView>) -> bool {
    &&& forall|i: int| 0 <= i < rows.len() ==> (#[trigger] rows[i]).id > 0
    &&& forall|i: int, j: int|
        0 <= i < j < rows.len() ==> (#[trigger] rows[i]).id < (#[trigger] rows[j]).id
}

/// The id that the next registration gets.
pub open spec fn next_registration_id(rows: Seq<RegistrationView>) -> int {
    if rows.len() == 0 {
        1
    } else {
        rows.last().id + 1
    }
}

impl Registrations {
    pub fn new() -> (r: Registrations)
        ensures
            r@ == Seq::<RegistrationView>::empty(),
            registrations_wf(r@),
    {
        Registrations { rows: Vec::new() }
    }
}

/// A name that can be signed: not empty, and ASCII.
pub open spec fn is_ascii_id(value: Seq<char>) -> bool {
    value.len() > 0 && ascii(value)
}

/// Refuses a name that cannot be signed.
pub fn require_ascii_id(value: &str) -> (r: Result<(), Error>)
    ensures
        fault_of(r) == (if is_ascii_id(value@) {
            None
        } else {
            Some(Error::InvalidApiKeyRequest)
        }),
{
    if value.is_empty() || !all_ascii(value) {
        return Err(Error::InvalidApiKeyRequest);
    }
    Ok(())
}

/// A text behind the length of its encoding.
pub open spec fn framed(text: Seq<char>) -> Seq<u8> {
    be16(encode_utf8(text).len() as int) + encode_utf8(text)
}

/// The length of a text's encoding fits in two bytes.
pub open spec fn frames(text: Seq<char>) -> bool {
    encode_utf8(text).len() <= 0xffff
}

/// Appends a text behind the length of its encoding.
pub fn put_len(out: &mut Vec<u8>, text: &str) -> (r: Result<(), Error>)
    ensures
        fault_of(r) == (if frames(text@) {
            None
        } else {
            Some(Error::InvalidApiKeyRequest)
        }),
        final(out)@ == (if frames(text@) {
            old(out)@ + framed(text@)
        } else {
            old(out)@
        }),
{
    let bytes = text.as_bytes();
    if bytes.len() > 0xffff {
        return Err(Error::InvalidApiKeyRequest);
    }
    let ghost before = out@;
    append_be16(out, bytes.len() as u16);
    append_bytes(out, bytes);
    assert(out@ =~= before + framed(text@));
    Ok(())
}

/// What a caller's signature is over, before it is digested.
pub open spec fn register_message(provider_id: Seq<char>, public_key: Seq<u8>) -> Seq<u8> {
    encode_utf8("KQ-REGISTER-v1"@) + framed(provider_id) + public_key
}

/// A provider's name that a caller can sign.
pub open spec fn signable_id(provider_id: Seq<char>) -> bool {
    is_ascii_id(provider_id) && frames(provider_id)
}

/// What a caller has to sign.
pub fn register_preimage(provider_id: &str, public_key: &[u8; 32]) -> (r: Result<[u8; 32], Error>)
    ensures
        match r {
            Ok(digest) => signable_id(provider_id@) && digest@ == sha256(
                register_message(provider_id@, public_key@),
            ),
            Err(e) => !signable_id(provider_id@) && e == Error::InvalidApiKeyRequest,
        },
{
    match require_ascii_id(provider_id) {
        Ok(()) => {},
        Err(e) => {
            return Err(e);
        },
    }
    let mut message: Vec<u8> = Vec::new();
    append_bytes(&mut message, "KQ-REGISTER-v1".as_bytes());
    match put_len(&mut message, provider_id) {
        Ok(()) => {},
        Err(e) => {
            return Err(e);
        },
    }
    append_bytes(&mut message, public_key);
    assert(message@ =~= register_message(provider_id@, public_key@));
    Ok(sha256_digest(message.as_slice()))
}

/// What is put on record of a registration and signed.
#[verifier::ext_equal]
pub struct ReceiptView {
    pub provider_id: Seq<char>,
    pub hardware_public_key: Seq<u8>,
    pub hardware_fingerprint: Seq<char>,
    pub api_key_id: i64,
    pub key_hash: Seq<char>,
    pub registered_at: Seq<char>,
}

impl ReceiptView {
    /// The receipt can be signed.
    pub open spec fn signable(self) -> bool {
        &&& signable_id(self.provider_id)
        &&& is_digest_text(self.hardware_fingerprint)
        &&& is_digest_text(self.key_hash)
        &&& is_ascii_id(self.registered_at)
        &&& frames(self.registered_at)
    }

    /// What the relay's signature is over, before it is digested.
    pub open spec fn message(self) -> Seq<u8> {
        encode_utf8("KQ-REGISTER-RECEIPT-v1"@) + framed(self.provider_id)
            + self.hardware_public_key + framed(self.hardware_fingerprint) + be64(
            self.api_key_id as int,
        ) + framed(self.key_hash) + framed(self.registered_at)
    }
}

proof fn lemma_digest_text_frames(text: Seq<char>)
    requires
        is_digest_text(text),
    ensures
        frames(text),
{
    assert(is_ascii_chars(text)) by {
        assert forall|i: int| 0 <= i < text.len() implies '\0' <= #[trigger] text[i]
            <= '\u{7f}' by {
            assert(hex_value(text[i]) is Some);
        }
    }
    is_ascii_chars_encode_utf8(text);
}

/// What the relay signs of a registration.
pub fn receipt_preimage(
    provider_id: &str,
    hardware_public_key: &[u8; 32],
    hardware_fingerprint: &str,
    api_key_id: i64,
    key_hash: &str,
    registered_at: &str,
) -> (r: Result<[u8; 32], Error>)
    ensures
        ({
            let receipt = ReceiptView {
                provider_id: provider_id@,
                hardware_public_key: hardware_public_key@,
                hardware_fingerprint: hardware_fingerprint@,
                api_key_id,
                key_hash: key_hash@,
                registered_at: registered_at@,
            };
            match r {
                Ok(digest) => receipt.signable() && digest@ == sha256(receipt.message()),
                Err(e) => !receipt.signable() && e == Error::InvalidApiKeyRequest,
            }
        }),
{
    match require_ascii_id(provider_id) {
        Ok(()) => {},
        Err(e) => {
            return Err(e);
        },
    }
    if !check_digest_text(hardware_fingerprint) || !check_digest_text(key_hash)
        || registered_at.is_empty() || !all_ascii(registered_at) {
        return Err(Error::InvalidApiKeyRequest);
    }
    proof {
        lemma_digest_text_frames(hardware_fingerprint@);
        lemma_digest_text_frames(key_hash@);
    }
    let mut message: Vec<u8> = Vec::new();
    append_bytes(&mut message, "KQ-REGISTER-RECEIPT-v1".as_bytes());
    match put_len(&mut message, provider_id) {
        Ok(()) => {},
        Err(e) => {
            return Err(e);
        },
    }
    append_bytes(&mut message, hardware_public_key);
    match put_len(&mut message, hardware_fingerprint) {
        Ok(()) => {},
        Err(e) => {
            return Err(e);
        },
    }
    append_be64(&mut message, api_key_id);
    match put_len(&mut message, key_hash) {
        Ok(()) => {},
        Err(e) => {
            return Err(e);
        },
    }
    match put_len(&mut message, registered_at) {
        Ok(()) => {},
        Err(e) => {
            return Err(e);
        },
    }
    Ok(sha256_digest(message.as_slice()))
}

/// Signs a registration with a signing key: its public key, and the signature.
pub fn sign_register_proof(hardware_private_key: &[u8; 32], provider_id: &str) -> (r: Result<
    ([u8; 32], [u8; 64]),
    Error,
>)
    ensures
        match r {
            Ok((public, signature)) => {
                &&& signable_id(provider_id@)
                &&& public@ == verifying_key(hardware_private_key@)
                &&& signature@ == signature_of(
                    hardware_private_key@,
                    sha256(register_message(provider_id@, public@)),
                )
                &&& signature@.take(32) != neutral_point() ==> proof_fault(
                    provider_id@,
                    public@,
                    signature@,
                ) is None
            },
            Err(e) => !signable_id(provider_id@) && e == Error::InvalidApiKeyRequest,
        },
{
    let public = derive_verifying_key(hardware_private_key);
    match register_preimage(provider_id, &public) {
        Ok(digest) => Ok((public, sign(hardware_private_key, &digest))),
        Err(e) => Err(e),
    }
}

/// Why a proof of possession is refused, if it is.
pub open spec fn proof_fault(
    provider_id: Seq<char>,
    public_key: Seq<u8>,
    signature: Seq<u8>,
) -> Option<Error> {
    if !signable_id(provider_id) {
        Some(Error::InvalidApiKeyRequest)
    } else {
        signature_fault(public_key, sha256(register_message(provider_id, public_key)), signature)
    }
}

/// Checks a proof of possession: the fingerprint of the key, if it holds.
pub fn verify_register_proof(provider_id: &str, public_key: &[u8; 32], signature: &[u8; 64]) -> (r:
    Result<String, Error>)
    ensures
        fault_of(r) == proof_fault(provider_id@, public_key@, signature@),
        r matches Ok(text) ==> text@ == fingerprint_text(public_key@),
{
    let digest = match register_preimage(provider_id, public_key) {
        Ok(digest) => digest,
        Err(e) => return Err(e),
    };
    match verify_signature(public_key, &digest, signature) {
        Ok(()) => Ok(fingerprint(public_key)),
        Err(e) => Err(e),
    }
}

/// Why a receipt is refused, if it is.
pub open spec fn receipt_fault(
    relay_public_key: Seq<u8>,
    signature: Seq<char>,
    receipt: ReceiptView,
) -> Option<Error> {
    if !hex_of_len(signature, 64) {
        Some(Error::InvalidPublicKey)
    } else if !receipt.signable() {
        Some(Error::InvalidApiKeyRequest)
    } else {
        signature_fault(relay_public_key, sha256(receipt.message()), hex_in_text(signature)->0)
    }
}

/// What a response says was put on record.
pub open spec fn receipt_in(
    response: RegisterResponse,
    key_hash: Seq<char>,
    hardware_public_key: Seq<u8>,
) -> ReceiptView {
    ReceiptView {
        provider_id: response.provider_id@,
        hardware_public_key,
        hardware_fingerprint: response.hardware_fingerprint@,
        api_key_id: response.id,
        key_hash,
        registered_at: response.registered_at@,
    }
}

/// Checks the relay's signature on a receipt.
pub fn verify_receipt(
    relay_public_key: &[u8; 32],
    receipt: &RegisterResponse,
    key_hash: &str,
    hardware_public_key: &[u8; 32],
) -> (r: Result<(), Error>)
    ensures
        fault_of(r) == receipt_fault(
            relay_public_key@,
            receipt.keyquorum_signature@,
            receipt_in(*receipt, key_hash@, hardware_public_key@),
        ),
{
    let signature = match parse_hex_64(receipt.keyquorum_signature.as_str()) {
        Ok(signature) => signature,
        Err(e) => return Err(e),
    };
    match receipt_preimage(
        receipt.provider_id.as_str(),
        hardware_public_key,
        receipt.hardware_fingerprint.as_str(),
        receipt.id,
        key_hash,
        receipt.registered_at.as_str(),
    ) {
        Ok(digest) => verify_signature(relay_public_key, &digest, &signature),
        Err(e) => Err(e),
    }
}

/// The scope that a registration asks for: to push, where nothing is said, and
/// never to do everything.
pub open spec fn scope_asked(scope: Option<Seq<char>>) -> Option<ApiKeyScope> {
    match scope {
        None => Some(ApiKeyScope::InboxPush),
        Some(name) => if name.len() == 0 || name == "inbox.push"@ {
            Some(ApiKeyScope::InboxPush)
        } else if name == "inbox.pull"@ {
            Some(ApiKeyScope::InboxPull)
        } else {
            None
        },
    }
}

/// The scope that a registration asks for.
pub fn parse_scope(scope: &Option<String>) -> (r: Result<ApiKeyScope, Error>)
    ensures
        match r {
            Ok(asked) => scope_asked(optional_text(*scope)) == Some(asked),
            Err(e) => scope_asked(optional_text(*scope)) is None && e
                == Error::InvalidApiKeyRequest,
        },
{
    match scope {
        None => Ok(ApiKeyScope::InboxPush),
        Some(name) => if name.as_str().is_empty() || text_equal(name.as_str(), "inbox.push") {
            Ok(ApiKeyScope::InboxPush)
        } else if text_equal(name.as_str(), "inbox.pull") {
            Ok(ApiKeyScope::InboxPull)
        } else {
            Err(Error::InvalidApiKeyRequest)
        },
    }
}

/// Why a registration is refused, if it is.
pub open spec fn register_fault(
    path_provider_id: Seq<char>,
    expected_provider_id: Seq<char>,
    request: RegisterRequest,
) -> Option<Error> {
    if path_provider_id != expected_provider_id {
        Some(Error::UnknownProvider)
    } else if !is_ascii_id(path_provider_id) {
        Some(Error::InvalidApiKeyRequest)
    } else if !hex_of_len(request.public_key@, 32) || !hex_of_len(request.signature@, 64) {
        Some(Error::InvalidPublicKey)
    } else {
        match proof_fault(
            path_provider_id,
            hex_in_text(request.public_key@)->0,
            hex_in_text(request.signature@)->0,
        ) {
            Some(e) => Some(e),
            None => if scope_asked(optional_text(request.scope)) is None {
                Some(Error::InvalidApiKeyRequest)
            } else {
                None
            },
        }
    }
}

/// Whom a registration is of: the public key, and the scope that it asks for.
pub fn authorize(
    path_provider_id: &str,
    expected_provider_id: &str,
    request: &RegisterRequest,
) -> (r: Result<([u8; 32], ApiKeyScope), Error>)
    ensures
        fault_of(r) == register_fault(path_provider_id@, expected_provider_id@, *request),
        r matches Ok((public_key, scope)) ==> {
            &&& hex_in_text(request.public_key@) == Some(public_key@)
            &&& scope_asked(optional_text(request.scope)) == Some(scope)
        },
{
    if !text_equal(path_provider_id, expected_provider_id) {
        return Err(Error::UnknownProvider);
    }
    match require_ascii_id(path_provider_id) {
        Ok(()) => {},
        Err(e) => {
            return Err(e);
        },
    }
    let public_key = match parse_hex_32(request.public_key.as_str()) {
        Ok(public_key) => public_key,
        Err(e) => return Err(e),
    };
    let signature = match parse_hex_64(request.signature.as_str()) {
        Ok(signature) => signature,
        Err(e) => return Err(e),
    };
    match verify_register_proof(path_provider_id, &public_key, &signature) {
        Ok(_) => {},
        Err(e) => {
            return Err(e);
        },
    }
    match parse_scope(&request.scope) {
        Ok(scope) => Ok((public_key, scope)),
        Err(e) => Err(e),
    }
}

/// An instant as it is put on record.
pub open spec fn is_stamp(text: Seq<char>) -> bool {
    is_ascii_id(text) && frames(text)
}

/// The response and the record belong to one another and to the key that was
/// made, and the relay signed them.
pub open spec fn recorded(
    response: RegisterResponse,
    row: RegistrationView,
    key: ApiKeyRowView,
    provider_id: Seq<char>,
    public_key: Seq<u8>,
    relay_private_key: Seq<u8>,
) -> bool {
    let receipt = ReceiptView {
        provider_id,
        hardware_public_key: public_key,
        hardware_fingerprint: fingerprint_text(public_key),
        api_key_id: key.id,
        key_hash: key.key_hash,
        registered_at: key.created_at,
    };
    &&& response.id == key.id
    &&& response.scope@ == key.scope.text()
    &&& response.provider_id@ == provider_id
    &&& response.hardware_fingerprint@ == fingerprint_text(public_key)
    &&& response.hardware_public_key@ == hex_text(public_key)
    &&& response.registered_at@ == key.created_at
    &&& response.keyquorum_signature@ == hex_text(
        signature_of(relay_private_key, sha256(receipt.message())),
    )
    &&& receipt.signable()
    &&& row.provider_id == provider_id
    &&& row.hardware_fingerprint == fingerprint_text(public_key)
    &&& row.hardware_public_key == hex_text(public_key)
    &&& row.api_key_id == key.id
    &&& row.registered_at == key.created_at
    &&& row.keyquorum_signature == response.keyquorum_signature@
}

/// The relay's signature on a receipt holds under the relay's public key.
pub open spec fn receipt_checks(
    response: RegisterResponse,
    key_hash: Seq<char>,
    public_key: Seq<u8>,
    relay_private_key: Seq<u8>,
) -> bool {
    let receipt = receipt_in(response, key_hash, public_key);
    let signature = signature_of(relay_private_key, sha256(receipt.message()));
    signature.take(32) != neutral_point() ==> receipt_fault(
        verifying_key(relay_private_key),
        response.keyquorum_signature@,
        receipt,
    ) is None
}

/// Puts a key that was just made on record: who registered it, signed by the
/// relay.
pub fn record_registration(
    registrations: &mut Registrations,
    provider_id: &str,
    public_key: &[u8; 32],
    relay_private_key: &[u8; 32],
    token: String,
    api_key_id: i64,
    scope: ApiKeyScope,
    key_hash: &str,
    registered_at: &str,
) -> (r: RegisterResponse)
    requires
        registrations_wf(old(registrations)@),
        next_registration_id(old(registrations)@) <= i64::MAX,
        signable_id(provider_id@),
        is_digest_text(key_hash@),
        is_stamp(registered_at@),
    ensures
        registrations_wf(final(registrations)@),
        final(registrations)@ == old(registrations)@.push(final(registrations)@.last()),
        final(registrations)@.last().id == next_registration_id(old(registrations)@),
        r.token@ == token@,
        receipt_checks(r, key_hash@, public_key@, relay_private_key@),
        forall|key: ApiKeyRowView|
            #![trigger recorded(
                r,
                final(registrations)@.last(),
                key,
                provider_id@,
                public_key@,
                relay_private_key@,
            )]
            key.id == api_key_id && key.scope == scope && key.key_hash == key_hash@
                && key.created_at == registered_at@ ==> recorded(
                r,
                final(registrations)@.last(),
                key,
                provider_id@,
                public_key@,
                relay_private_key@,
            ),
{
    let digest_of_key = sha256_digest(public_key);
    let hardware_fingerprint = hex_encode(&digest_of_key);
    proof {
        lemma_hex_digest_text(digest_of_key@);
    }
    let mut signature: [u8; 64] = [0u8; 64];
    match receipt_preimage(
        provider_id,
        public_key,
        hardware_fingerprint.as_str(),
        api_key_id,
        key_hash,
        registered_at,
    ) {
        Ok(digest) => {
            signature = sign(relay_private_key, &digest);
        },
        Err(_) => {},
    }
    let keyquorum_signature = hex_encode(&signature);
    proof {
        hex_text_is_not_white(signature@);
        hex_round_trip(signature@);
    }
    let hardware_public_key = hex_encode(public_key);
    let ghost before = registrations@;
    let count: usize = registrations.rows.len();
    let id: i64 = if count == 0 {
        1
    } else {
        assert(before[count - 1] == registrations.rows@[count - 1]@);
        registrations.rows[count - 1].id + 1
    };
    let row = Registration {
        id,
        provider_id: provider_id.to_owned(),
        hardware_fingerprint: hardware_fingerprint.as_str().to_owned(),
        hardware_public_key: hardware_public_key.as_str().to_owned(),
        api_key_id,
        registered_at: registered_at.to_owned(),
        keyquorum_signature: keyquorum_signature.as_str().to_owned(),
    };
    let ghost added = row@;
    registrations.rows.push(row);
    proof {
        let after = registrations@;
        assert(after =~= before.push(added));
        if count > 0 {
            assert(before[count - 1].id > 0);
        }
        assert forall|a: int, b: int| 0 <= a < b < after.len() implies (#[trigger] after[a]).id < (
        #[trigger] after[b]).id by {
            if b == before.len() {
                if a < before.len() - 1 {
                    assert(before[a].id < before[before.len() - 1].id);
                }
            } else {
                assert(before[a].id < before[b].id);
            }
        }
        assert forall|a: int| 0 <= a < after.len() implies (#[trigger] after[a]).id > 0 by {
            if a < before.len() {
                assert(after[a] == before[a]);
            }
        }
    }
    RegisterResponse {
        token,
        id: api_key_id,
        scope: scope.as_str().to_owned(),
        provider_id: provider_id.to_owned(),
        hardware_fingerprint,
        hardware_public_key,
        registered_at: registered_at.to_owned(),
        keyquorum_signature,
    }
}

/// The key that a registration makes: one that pulls is bound to the key that
/// was shown.
pub open spec fn registered_key(
    key: ApiKeyRowView,
    request: RegisterRequest,
    registered_at: Seq<char>,
) -> bool {
    &&& scope_asked(optional_text(request.scope)) == Some(key.scope)
    &&& key.recipient_fingerprint == (if key.scope == ApiKeyScope::InboxPull {
        Some(fingerprint_text(hex_in_text(request.public_key@)->0))
    } else {
        None
    })
    &&& key.label == optional_text(request.label)
    &&& key.created_at == registered_at
    &&& key.expires_at is None
    &&& key.revoked_at is None
}

/// Registers the holder of a signing key: makes a bearer and puts on record who
/// got it. A registration that is refused changes nothing.
///
/// Should the digest of the bearer that is drawn be taken already, the
/// registration is refused.
pub fn register(
    keys: &mut ApiKeys,
    registrations: &mut Registrations,
    path_provider_id: &str,
    expected_provider_id: &str,
    relay_private_key: &[u8; 32],
    request: &RegisterRequest,
    registered_at: &str,
    now: i64,
) -> (r: Result<RegisterResponse, Error>)
    requires
        api_keys_wf(old(keys)@),
        registrations_wf(old(registrations)@),
        next_api_key_id(old(keys)@) <= i64::MAX,
        next_registration_id(old(registrations)@) <= i64::MAX,
        is_stamp(registered_at@),
    ensures
        api_keys_wf(final(keys)@),
        registrations_wf(final(registrations)@),
        r is Err ==> final(keys)@ == old(keys)@ && final(registrations)@ == old(registrations)@,
        match register_fault(path_provider_id@, expected_provider_id@, *request) {
            Some(e) => fault_of(r) == Some(e),
            None => r is Ok || fault_of(r) == Some(Error::Db(StoreError::ApiKeyHash))
                && bearer_may_be_taken(old(keys)@),
        },
        r matches Ok(response) ==> {
            &&& final(keys)@ == old(keys)@.push(final(keys)@.last())
            &&& final(keys)@.last().id == next_api_key_id(old(keys)@)
            &&& registered_key(final(keys)@.last(), *request, registered_at@)
            &&& minted(final(keys)@, response.id, response.token@)
            &&& final(registrations)@ == old(registrations)@.push(final(registrations)@.last())
            &&& final(registrations)@.last().id == next_registration_id(old(registrations)@)
            &&& recorded(
                response,
                final(registrations)@.last(),
                final(keys)@.last(),
                path_provider_id@,
                hex_in_text(request.public_key@)->0,
                relay_private_key@,
            )
            &&& receipt_checks(
                response,
                final(keys)@.last().key_hash,
                hex_in_text(request.public_key@)->0,
                relay_private_key@,
            )
        },
{
    let (public_key, scope) = match authorize(path_provider_id, expected_provider_id, request) {
        Ok(found) => found,
        Err(e) => return Err(e),
    };
    let recipient_fingerprint = match scope {
        ApiKeyScope::InboxPull => Some(fingerprint(&public_key)),
        _ => None,
    };
    let wanted = NewApiKey {
        scope,
        recipient_fingerprint,
        label: copy_text(&request.label),
        ttl_seconds: None,
    };
    let created = match create(keys, &wanted, registered_at, now) {
        Ok(created) => created,
        Err(e) => return Err(e),
    };
    let ghost key = keys@.last();
    let key_hash = match hash_bearer(created.token.as_str()) {
        Ok(key_hash) => key_hash,
        Err(_) => String::new(),
    };
    proof {
        assert(key_hash@ == key.key_hash);
    }
    let response = record_registration(
        registrations,
        path_provider_id,
        &public_key,
        relay_private_key,
        created.token,
        created.id,
        scope,
        key_hash.as_str(),
        registered_at,
    );
    assert(recorded(
        response,
        registrations@.last(),
        key,
        path_provider_id@,
        public_key@,
        relay_private_key@,
    ));
    Ok(response)
}

/// Earlier registrations come first, and of one instant those with smaller ids.
pub open spec fn comes_before(a: RegistrationView, b: RegistrationView) -> bool {
    if a.registered_at == b.registered_at {
        a.id < b.id
    } else {
        text_le(a.registered_at, b.registered_at)
    }
}

/// Registrations in their order.
pub open spec fn in_order(rows: Seq<RegistrationView>) -> bool {
    forall|i: int, j: int|
        0 <= i < j < rows.len() ==> comes_before(#[trigger] rows[i], #[trigger] rows[j])
}

fn stands_before(a: &Registration, b: &Registration) -> (r: bool)
    ensures
        r == comes_before(a@, b@),
{
    if text_equal(a.registered_at.as_str(), b.registered_at.as_str()) {
        a.id < b.id
    } else {
        is_text_le(a.registered_at.as_str(), b.registered_at.as_str())
    }
}

proof fn lemma_before_is_an_order(a: RegistrationView, b: RegistrationView, c: RegistrationView)
    ensures
        a.id != b.id ==> comes_before(a, b) || comes_before(b, a),
        comes_before(a, b) && comes_before(b, c) ==> comes_before(a, c),
{
    text_le_is_total(a.registered_at, b.registered_at);
    text_le_is_total(b.registered_at, c.registered_at);
    text_le_is_total(a.registered_at, c.registered_at);
    if text_le(a.registered_at, b.registered_at) && text_le(b.registered_at, c.registered_at) {
        text_le_is_transitive(a.registered_at, b.registered_at, c.registered_at);
    }
}

fn copy_registration(row: &Registration) -> (r: Registration)
    ensures
        r@ == row@,
{
    Registration {
        id: row.id,
        provider_id: row.provider_id.as_str().to_owned(),
        hardware_fingerprint: row.hardware_fingerprint.as_str().to_owned(),
        hardware_public_key: row.hardware_public_key.as_str().to_owned(),
        api_key_id: row.api_key_id,
        registered_at: row.registered_at.as_str().to_owned(),
        keyquorum_signature: row.keyquorum_signature.as_str().to_owned(),
    }
}

/// The registration is with a provider, and of a key if one is given.
pub open spec fn is_of(
    row: RegistrationView,
    provider_id: Seq<char>,
    hardware_fingerprint: Option<Seq<char>>,
) -> bool {
    &&& row.provider_id == provider_id
    &&& hardware_fingerprint matches Some(wanted) ==> row.hardware_fingerprint == wanted
}

proof fn lemma_insert_in_order(rows: Seq<RegistrationView>, at: int, row: RegistrationView)
    requires
        in_order(rows),
        0 <= at <= rows.len(),
        forall|k: int| 0 <= k < rows.len() ==> (#[trigger] rows[k]).id != row.id,
        forall|k: int| 0 <= k < at ==> comes_before(#[trigger] rows[k], row),
        at < rows.len() ==> !comes_before(rows[at], row),
    ensures
        in_order(rows.insert(at, row)),
{
    let longer = rows.insert(at, row);
    assert forall|i: int, j: int| 0 <= i < j < longer.len() implies comes_before(
        #[trigger] longer[i],
        #[trigger] longer[j],
    ) by {
        if j < at {
            assert(longer[i] == rows[i] && longer[j] == rows[j]);
        } else if j == at {
            assert(longer[i] == rows[i]);
        } else if i > at {
            assert(longer[i] == rows[i - 1] && longer[j] == rows[j - 1]);
        } else if i == at {
            assert(longer[j] == rows[j - 1]);
            lemma_before_is_an_order(rows[at], row, row);
            if j - 1 > at {
                assert(comes_before(rows[at], rows[j - 1]));
                lemma_before_is_an_order(row, rows[at], rows[j - 1]);
            }
        } else {
            assert(longer[i] == rows[i] && longer[j] == rows[j - 1]);
        }
    }
}

proof fn lemma_insert_contains(
    rows: Seq<RegistrationView>,
    at: int,
    row: RegistrationView,
    x: RegistrationView,
)
    requires
        0 <= at <= rows.len(),
    ensures
        rows.insert(at, row).contains(x) <==> rows.contains(x) || x == row,
{
    let longer = rows.insert(at, row);
    assert(longer[at] == row);
    if rows.contains(x) {
        let k = choose|k: int| 0 <= k < rows.len() && rows[k] == x;
        if k < at {
            assert(longer[k] == x);
        } else {
            assert(longer[k + 1] == x);
        }
    }
    if longer.contains(x) && x != row {
        let k = choose|k: int| 0 <= k < longer.len() && longer[k] == x;
        if k < at {
            assert(rows[k] == x);
        } else {
            assert(rows[k - 1] == x);
        }
    }
}

fn list_of(
    registrations: &Registrations,
    provider_id: &str,
    hardware_fingerprint: Option<&str>,
) -> (r: Vec<Registration>)
    requires
        registrations_wf(registrations@),
    ensures
        in_order(registration_views(r@)),
        forall|row: RegistrationView|
            #![trigger registration_views(r@).contains(row)]
            registration_views(r@).contains(row) <==> registrations@.contains(row) && is_of(
                row,
                provider_id@,
                lent_text(hardware_fingerprint),
            ),
{
    let ghost all = registrations@;
    let ghost wanted = lent_text(hardware_fingerprint);
    let mut out: Vec<Registration> = Vec::new();
    let mut i: usize = 0;
    while i < registrations.rows.len()
        invariant
            i <= registrations.rows.len(),
            all == registrations@,
            wanted == lent_text(hardware_fingerprint),
            registrations_wf(all),
            in_order(registration_views(out@)),
            forall|row: RegistrationView|
                #![trigger registration_views(out@).contains(row)]
                registration_views(out@).contains(row) <==> all.take(i as int).contains(row)
                    && is_of(row, provider_id@, wanted),
        decreases registrations.rows.len() - i,
    {
        let row = &registrations.rows[i];
        assert(all[i as int] == row@);
        let ghost before = registration_views(out@);
        let of_key = match hardware_fingerprint {
            Some(wanted) => text_equal(row.hardware_fingerprint.as_str(), wanted),
            None => true,
        };
        let listed = of_key && text_equal(row.provider_id.as_str(), provider_id);
        proof {
            assert(listed == is_of(row@, provider_id@, wanted));
            assert(all.take(i + 1) =~= all.take(i as int).push(row@));
            assert forall|k: int| 0 <= k < before.len() implies (#[trigger] before[k]).id
                < row@.id by {
                assert(before.contains(before[k]));
                let front = all.take(i as int);
                let m = choose|m: int| 0 <= m < front.len() && front[m] == before[k];
                assert(all[m].id < all[i as int].id);
            }
        }
        if listed {
            let mut at: usize = 0;
            while at < out.len() && stands_before(&out[at], row)
                invariant
                    at <= out.len(),
                    before == registration_views(out@),
                    forall|k: int| 0 <= k < at ==> comes_before(#[trigger] before[k], row@),
                decreases out.len() - at,
            {
                at += 1;
            }
            out.insert(at, copy_registration(row));
            proof {
                assert(registration_views(out@) =~= before.insert(at as int, row@));
                lemma_insert_in_order(before, at as int, row@);
                assert forall|x: RegistrationView| #[trigger]
                    registration_views(out@).contains(x) <==> all.take(i + 1).contains(x) && is_of(
                        x,
                        provider_id@,
                        wanted,
                    ) by {
                    lemma_insert_contains(before, at as int, row@, x);
                    lemma_push_contains(all.take(i as int), row@, x);
                    assert(before.contains(x) <==> all.take(i as int).contains(x) && is_of(
                        x,
                        provider_id@,
                        wanted,
                    ));
                }
            }
        } else {
            proof {
                assert forall|x: RegistrationView| #[trigger]
                    registration_views(out@).contains(x) <==> all.take(i + 1).contains(x) && is_of(
                        x,
                        provider_id@,
                        wanted,
                    ) by {
                    lemma_push_contains(all.take(i as int), row@, x);
                    assert(before.contains(x) <==> all.take(i as int).contains(x) && is_of(
                        x,
                        provider_id@,
                        wanted,
                    ));
                }
            }
        }
        i += 1;
    }
    assert(all.take(i as int) =~= all);
    out
}

proof fn lemma_push_contains(
    rows: Seq<RegistrationView>,
    row: RegistrationView,
    x: RegistrationView,
)
    ensures
        rows.push(row).contains(x) <==> rows.contains(x) || x == row,
{
    assert(rows.push(row) =~= rows.insert(rows.len() as int, row));
    lemma_insert_contains(rows, rows.len() as int, row, x);
}

/// The registrations with a provider, the earliest first.
pub fn list_for_provider(registrations: &Registrations, provider_id: &str) -> (r: Vec<Registration>)
    requires
        registrations_wf(registrations@),
    ensures
        in_order(registration_views(r@)),
        forall|row: RegistrationView|
            #![trigger registration_views(r@).contains(row)]
            registration_views(r@).contains(row) <==> registrations@.contains(row)
                && row.provider_id == provider_id@,
{
    let out = list_of(registrations, provider_id, None);
    assert forall|row: RegistrationView| #[trigger]
        registration_views(out@).contains(row) <==> registrations@.contains(row) && row.provider_id
            == provider_id@ by {
        assert(is_of(row, provider_id@, None) <==> row.provider_id == provider_id@);
    }
    out
}

/// The registrations of a key with a provider, the earliest first.
pub fn list_for_hardware(
    registrations: &Registrations,
    provider_id: &str,
    hardware_fingerprint: &str,
) -> (r: Vec<Registration>)
    requires
        registrations_wf(registrations@),
    ensures
        in_order(registration_views(r@)),
        forall|row: RegistrationView|
            #![trigger registration_views(r@).contains(row)]
            registration_views(r@).contains(row) <==> registrations@.contains(row)
                && row.provider_id == provider_id@ && row.hardware_fingerprint
                == hardware_fingerprint@,
{
    list_of(registrations, provider_id, Some(hardware_fingerprint))
}

/// A receipt is checked over exactly what the relay signed: it holds if, and only
/// if, the relay's signature on its record does.
pub proof fn receipt_is_over_the_record(
    response: RegisterResponse,
    row: RegistrationView,
    key: ApiKeyRowView,
    provider_id: Seq<char>,
    public_key: Seq<u8>,
    relay_private_key: Seq<u8>,
)
    requires
        recorded(response, row, key, provider_id, public_key, relay_private_key),
        signature_of(
            relay_private_key,
            sha256(receipt_in(response, key.key_hash, public_key).message()),
        ).len() == 64,
    ensures
        receipt_fault(
            verifying_key(relay_private_key),
            response.keyquorum_signature@,
            receipt_in(response, key.key_hash, public_key),
        ) == signature_fault(
            verifying_key(relay_private_key),
            sha256(receipt_in(response, key.key_hash, public_key).message()),
            signature_of(
                relay_private_key,
                sha256(receipt_in(response, key.key_hash, public_key).message()),
            ),
        ),
{
    let signature = signature_of(
        relay_private_key,
        sha256(receipt_in(response, key.key_hash, public_key).message()),
    );
    hex_text_is_not_white(signature);
    hex_round_trip(signature);
}

/// A proof of possession is bound to the provider and the key: the messages that
/// are signed for two of them differ.
pub proof fn register_messages_differ(
    provider_id: Seq<char>,
    public_key: Seq<u8>,
    other_id: Seq<char>,
    other_key: Seq<u8>,
)
    requires
        signable_id(provider_id),
        signable_id(other_id),
        public_key.len() == 32,
        other_key.len() == 32,
        register_message(provider_id, public_key) == register_message(other_id, other_key),
    ensures
        provider_id == other_id,
        public_key == other_key,
{
    let domain = encode_utf8("KQ-REGISTER-v1"@);
    let a = register_message(provider_id, public_key);
    let b = register_message(other_id, other_key);
    let n = domain.len() as int;
    let x = encode_utf8(provider_id);
    let y = encode_utf8(other_id);
    assert(a.len() == n + 2 + x.len() + 32);
    assert(b.len() == n + 2 + y.len() + 32);
    assert forall|i: int| 0 <= i < x.len() implies x[i] == y[i] by {
        assert(a[n + 2 + i] == x[i] && b[n + 2 + i] == y[i]);
    }
    assert(x =~= y);
    assert forall|i: int| 0 <= i < 32 implies public_key[i] == other_key[i] by {
        assert(a[n + 2 + x.len() + i] == public_key[i] && b[n + 2 + y.len() + i] == other_key[i]);
    }
    assert(public_key =~= other_key);
    encode_utf8_decode_utf8(provider_id);
    encode_utf8_decode_utf8(other_id);
}

proof fn lemma_same_head(x: Seq<u8>, a: Seq<u8>, y: Seq<u8>, b: Seq<u8>)
    requires
        x + a == y + b,
        x.len() == y.len(),
    ensures
        x == y,
        a == b,
{
    let n = x.len() as int;
    assert(x =~= (x + a).take(n));
    assert(y =~= (y + b).take(n));
    assert(a =~= (x + a).skip(n));
    assert(b =~= (y + b).skip(n));
}

proof fn lemma_be16_tells(m: int, n: int)
    requires
        0 <= m <= 0xffff,
        0 <= n <= 0xffff,
        be16(m) == be16(n),
    ensures
        m == n,
{
    assert(be16(m)[0] == be16(n)[0] && be16(m)[1] == be16(n)[1]);
}

proof fn lemma_be64_tells(m: i64, n: i64)
    requires
        be64(m as int) == be64(n as int),
    ensures
        m == n,
{
    let x = if m < 0 {
        m + 0x1_0000_0000_0000_0000
    } else {
        m as int
    };
    let y = if n < 0 {
        n + 0x1_0000_0000_0000_0000
    } else {
        n as int
    };
    let (a, b) = (x / 0x1_0000_0000, y / 0x1_0000_0000);
    let (c, d) = (x % 0x1_0000_0000, y % 0x1_0000_0000);
    lemma_same_head(be32(a), be32(c), be32(b), be32(d));
    lemma_same_head(be16(a / 65536), be16(a % 65536), be16(b / 65536), be16(b % 65536));
    lemma_same_head(be16(c / 65536), be16(c % 65536), be16(d / 65536), be16(d % 65536));
    lemma_be16_tells(a / 65536, b / 65536);
    lemma_be16_tells(a % 65536, b % 65536);
    lemma_be16_tells(c / 65536, d / 65536);
    lemma_be16_tells(c % 65536, d % 65536);
}

proof fn lemma_same_frame(s: Seq<char>, a: Seq<u8>, t: Seq<char>, b: Seq<u8>)
    requires
        frames(s),
        frames(t),
        framed(s) + a == framed(t) + b,
    ensures
        s == t,
        a == b,
{
    let (x, y) = (encode_utf8(s), encode_utf8(t));
    let (m, n) = (be16(x.len() as int), be16(y.len() as int));
    assert(framed(s) + a =~= m + (x + a));
    assert(framed(t) + b =~= n + (y + b));
    lemma_same_head(m, x + a, n, y + b);
    lemma_be16_tells(x.len() as int, y.len() as int);
    lemma_same_head(x, a, y, b);
    encode_utf8_decode_utf8(s);
    encode_utf8_decode_utf8(t);
}

proof fn lemma_regroup(x: Seq<u8>, y: Seq<u8>, z: Seq<u8>)
    ensures
        x + y + z == x + (y + z),
{
    assert(x + y + z =~= x + (y + z));
}

/// A receipt's message, read from its start.
proof fn lemma_message_parts(r: ReceiptView)
    ensures
        r.message() == encode_utf8("KQ-REGISTER-RECEIPT-v1"@) + (framed(r.provider_id) + (
        r.hardware_public_key + (framed(r.hardware_fingerprint) + (be64(r.api_key_id as int) + (
        framed(r.key_hash) + (framed(r.registered_at) + Seq::<u8>::empty())))))),
{
    let d = encode_utf8("KQ-REGISTER-RECEIPT-v1"@);
    let p = framed(r.provider_id);
    let k = r.hardware_public_key;
    let f = framed(r.hardware_fingerprint);
    let i = be64(r.api_key_id as int);
    let h = framed(r.key_hash);
    let t = framed(r.registered_at);
    assert(t + Seq::<u8>::empty() =~= t);
    lemma_regroup(d + p + k + f + i, h, t);
    lemma_regroup(d + p + k + f, i, h + t);
    lemma_regroup(d + p + k, f, i + (h + t));
    lemma_regroup(d + p, k, f + (i + (h + t)));
    lemma_regroup(d, p, k + (f + (i + (h + t))));
}

/// Two receipts that differ in anything are signed as different messages: none can
/// be shown for another but by a collision of digests.
pub proof fn receipt_messages_differ(a: ReceiptView, b: ReceiptView)
    requires
        a.signable(),
        b.signable(),
        a.hardware_public_key.len() == 32,
        b.hardware_public_key.len() == 32,
        a.message() == b.message(),
    ensures
        a == b,
{
    let domain = encode_utf8("KQ-REGISTER-RECEIPT-v1"@);
    lemma_digest_text_frames(a.hardware_fingerprint);
    lemma_digest_text_frames(b.hardware_fingerprint);
    lemma_digest_text_frames(a.key_hash);
    lemma_digest_text_frames(b.key_hash);
    let none = Seq::<u8>::empty();
    let a1 = framed(a.registered_at) + none;
    let b1 = framed(b.registered_at) + none;
    let a2 = framed(a.key_hash) + a1;
    let b2 = framed(b.key_hash) + b1;
    let a3 = be64(a.api_key_id as int) + a2;
    let b3 = be64(b.api_key_id as int) + b2;
    let a4 = framed(a.hardware_fingerprint) + a3;
    let b4 = framed(b.hardware_fingerprint) + b3;
    let a5 = a.hardware_public_key + a4;
    let b5 = b.hardware_public_key + b4;
    let a6 = framed(a.provider_id) + a5;
    let b6 = framed(b.provider_id) + b5;
    lemma_message_parts(a);
    lemma_message_parts(b);
    lemma_same_head(domain, a6, domain, b6);
    lemma_same_frame(a.provider_id, a5, b.provider_id, b5);
    lemma_same_head(a.hardware_public_key, a4, b.hardware_public_key, b4);
    lemma_same_frame(a.hardware_fingerprint, a3, b.hardware_fingerprint, b3);
    lemma_same_head(be64(a.api_key_id as int), a2, be64(b.api_key_id as int), b2);
    lemma_be64_tells(a.api_key_id, b.api_key_id);
    lemma_same_frame(a.key_hash, a1, b.key_hash, b1);
    lemma_same_frame(a.registered_at, none, b.registered_at, none);
}

proof fn hex_text_is_not_white(bytes: Seq<u8>)
    ensures
        trimmed(hex_text(bytes)) == hex_text(bytes),
{
    let text = hex_text(bytes);
    assert forall|i: int| 0 <= i < text.len() implies !is_white(#[trigger] text[i]) by {
        let value = if i % 2 == 0 {
            bytes[i / 2] as int / 16
        } else {
            bytes[i / 2] as int % 16
        };
        assert(0 <= value < 16);
    }
    if text.len() > 0 {
        assert(!is_white(text[0]));
        assert(!is_white(text[text.len() - 1]));
    }
    assert(start_trimmed(text) == text);
}

/// Two different messages have one digest.
pub open spec fn digests_collide(a: Seq<u8>, b: Seq<u8>) -> bool {
    a != b && sha256(a) == sha256(b)
}

/// One signature is accepted for two different messages under one key.
pub open spec fn fits_two_messages(
    public_key: Seq<u8>,
    a: Seq<u8>,
    b: Seq<u8>,
    signature: Seq<u8>,
) -> bool {
    &&& a != b
    &&& signature_fault(public_key, a, signature) is None
    &&& signature_fault(public_key, b, signature) is None
}

/// One signature is accepted for a message under two different keys.
pub open spec fn fits_two_keys(
    key: Seq<u8>,
    other_key: Seq<u8>,
    message: Seq<u8>,
    signature: Seq<u8>,
) -> bool {
    &&& key != other_key
    &&& signature_fault(key, message, signature) is None
    &&& signature_fault(other_key, message, signature) is None
}

/// A proof that holds for one provider is refused for every other, unless two
/// requests have one digest or a signature is accepted for two digests. A name
/// that cannot be signed is refused as such.
pub proof fn proof_is_for_one_provider(
    provider_id: Seq<char>,
    other_id: Seq<char>,
    public_key: Seq<u8>,
    signature: Seq<u8>,
)
    requires
        public_key.len() == 32,
        provider_id != other_id,
        proof_fault(provider_id, public_key, signature) is None,
    ensures
        ({
            let message = register_message(provider_id, public_key);
            let other = register_message(other_id, public_key);
            if !signable_id(other_id) {
                proof_fault(other_id, public_key, signature) == Some(Error::InvalidApiKeyRequest)
            } else {
                ||| proof_fault(other_id, public_key, signature) == Some(
                    Error::SignatureVerificationFailed,
                )
                ||| digests_collide(message, other)
                ||| fits_two_messages(public_key, sha256(message), sha256(other), signature)
            }
        }),
{
    if signable_id(other_id) && register_message(provider_id, public_key) == register_message(
        other_id,
        public_key,
    ) {
        register_messages_differ(provider_id, public_key, other_id, public_key);
    }
}

/// A receipt that holds is refused once anything in it is replaced, unless two
/// receipts have one digest or a signature is accepted for two digests. A receipt
/// that cannot be signed is refused as such.
pub proof fn receipt_is_for_one_record(
    relay_public_key: Seq<u8>,
    signature: Seq<char>,
    receipt: ReceiptView,
    other: ReceiptView,
)
    requires
        receipt.hardware_public_key.len() == 32,
        other.hardware_public_key.len() == 32,
        receipt != other,
        receipt_fault(relay_public_key, signature, receipt) is None,
    ensures
        if !other.signable() {
            receipt_fault(relay_public_key, signature, other) == Some(Error::InvalidApiKeyRequest)
        } else {
            ||| receipt_fault(relay_public_key, signature, other) == Some(
                Error::SignatureVerificationFailed,
            )
            ||| digests_collide(receipt.message(), other.message())
            ||| fits_two_messages(
                relay_public_key,
                sha256(receipt.message()),
                sha256(other.message()),
                hex_in_text(signature)->0,
            )
        },
{
    if other.signable() && receipt.message() == other.message() {
        receipt_messages_differ(receipt, other);
    }
}

/// A receipt that holds for one relay is refused for every other, unless its
/// signature is accepted under both keys.
pub proof fn receipt_is_for_one_relay(
    relay_public_key: Seq<u8>,
    other_key: Seq<u8>,
    signature: Seq<char>,
    receipt: ReceiptView,
)
    requires
        relay_public_key != other_key,
        receipt_fault(relay_public_key, signature, receipt) is None,
    ensures
        if !is_verifying_key(other_key) {
            receipt_fault(other_key, signature, receipt) == Some(Error::InvalidPublicKey)
        } else {
            ||| receipt_fault(other_key, signature, receipt) == Some(
                Error::SignatureVerificationFailed,
            )
            ||| fits_two_keys(
                relay_public_key,
                other_key,
                sha256(receipt.message()),
                hex_in_text(signature)->0,
            )
        },
{
}

/// A registration asks for the scope that it names, to push where it names none, and never
/// for more than to push or to pull.
pub proof fn registration_asks_to_push_or_pull(name: Seq<char>)
    ensures
        scope_asked(None) == Some(ApiKeyScope::InboxPush),
        scope_asked(Some(Seq::<char>::empty())) == Some(ApiKeyScope::InboxPush),
        scope_asked(Some("inbox.push"@)) == Some(ApiKeyScope::InboxPush),
        scope_asked(Some("inbox.pull"@)) == Some(ApiKeyScope::InboxPull),
        scope_asked(Some(name)) is Some ==> name.len() == 0 || name == "inbox.push"@ || name
            == "inbox.pull"@,
        scope_asked(Some(name)) != Some(ApiKeyScope::Admin),
{
    reveal_strlit("inbox.push");
    reveal_strlit("inbox.pull");
    assert("inbox.push"@[8] == 's');
    assert("inbox.pull"@[8] == 'l');
}

/// A registration is taken exactly if it is sent to the provider's own name, which is ASCII,
/// not empty and no longer than 65535 bytes, its key is 32 and its signature 64 bytes in
/// hex, the signature holds over the name and the key, and it asks for a scope that can be
/// had.
pub proof fn registrations_that_are_taken(
    path_provider_id: Seq<char>,
    expected_provider_id: Seq<char>,
    request: RegisterRequest,
)
    ensures
        ({
            let key = hex_in_text(request.public_key@);
            let signature = hex_in_text(request.signature@);
            register_fault(path_provider_id, expected_provider_id, request) is None <==> {
                &&& path_provider_id == expected_provider_id
                &&& path_provider_id.len() > 0
                &&& forall|i: int|
                    0 <= i < path_provider_id.len() ==> #[trigger] path_provider_id[i] as int <= 127
                &&& encode_utf8(path_provider_id).len() <= 65535
                &&& key is Some && key->0.len() == 32
                &&& signature is Some && signature->0.len() == 64
                &&& signature_fault(
                    key->0,
                    sha256(
                        encode_utf8("KQ-REGISTER-v1"@) + be16(
                            encode_utf8(path_provider_id).len() as int,
                        ) + encode_utf8(path_provider_id) + key->0,
                    ),
                    signature->0,
                ) is None
                &&& scope_asked(optional_text(request.scope)) is Some
            }
        }),
        path_provider_id != expected_provider_id ==> register_fault(
            path_provider_id,
            expected_provider_id,
            request,
        ) == Some(Error::UnknownProvider),
{
    let id = path_provider_id;
    if id == expected_provider_id {
        let key = hex_in_text(request.public_key@);
        assert(ascii(id) <==> forall|i: int| 0 <= i < id.len() ==> #[trigger] id[i] as int <= 127);
        if key is Some {
            assert(register_message(id, key->0) =~= encode_utf8("KQ-REGISTER-v1"@) + be16(
                encode_utf8(id).len() as int,
            ) + encode_utf8(id) + key->0);
        }
    }
}

/// The key that a registration makes has the scope and the label that were asked for. One
/// that pulls does so for the holder of the key that signed, and one that pushes for nobody
/// in particular. It has no end.
pub proof fn registered_keys_are_bound(
    key: ApiKeyRowView,
    request: RegisterRequest,
    registered_at: Seq<char>,
)
    requires
        registered_key(key, request, registered_at),
    ensures
        key.scope == ApiKeyScope::InboxPull ==> key.recipient_fingerprint == Some(
            fingerprint_text(hex_in_text(request.public_key@)->0),
        ),
        key.scope == ApiKeyScope::InboxPush ==> key.recipient_fingerprint is None,
        key.scope != ApiKeyScope::Admin,
        key.label == optional_text(request.label),
        key.created_at == registered_at,
        key.expires_at is None,
        key.revoked_at is None,
{
}

/// The response and the record of a registration say the same: of one key, one provider
/// and one signing key, at one instant, under one signature of the relay.
pub proof fn response_and_record_agree(
    response: RegisterResponse,
    row: RegistrationView,
    key: ApiKeyRowView,
    provider_id: Seq<char>,
    public_key: Seq<u8>,
    relay_private_key: Seq<u8>,
)
    requires
        recorded(response, row, key, provider_id, public_key, relay_private_key),
    ensures
        response.id == key.id,
        row.api_key_id == key.id,
        response.provider_id@ == provider_id,
        row.provider_id == provider_id,
        response.hardware_fingerprint@ == fingerprint_text(public_key),
        row.hardware_fingerprint == fingerprint_text(public_key),
        hex_bytes(response.hardware_public_key@) == Some(public_key),
        hex_bytes(row.hardware_public_key) == Some(public_key),
        response.registered_at@ == key.created_at,
        row.registered_at == key.created_at,
        row.keyquorum_signature == response.keyquorum_signature@,
        response.scope@ == key.scope.text(),
{
    hex_round_trip(public_key);
}

/// Of two registrations one comes before the other and not the other way around, and the
/// earlier one does.
pub proof fn earlier_registrations_come_first(a: RegistrationView, b: RegistrationView)
    requires
        a.id != b.id,
    ensures
        comes_before(a, b) || comes_before(b, a),
        !(comes_before(a, b) && comes_before(b, a)),
        comes_before(a, b) ==> text_le(a.registered_at, b.registered_at),
        a.registered_at == b.registered_at ==> (comes_before(a, b) <==> a.id < b.id),
{
    text_le_is_total(a.registered_at, b.registered_at);
}

/// Registrations are counted from one on, without a gap.
pub proof fn registration_ids_count_on(rows: Seq<RegistrationView>, row: RegistrationView)
    ensures
        next_registration_id(Seq::<RegistrationView>::empty()) == 1,
        row.id == next_registration_id(rows) ==> next_registration_id(rows.push(row)) == next_registration_id(rows) + 1,
{
}

} // verus!
