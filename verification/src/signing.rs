//! Ed25519 signatures.

use vstd::prelude::*;

use crate::error::{fault_of, Error};

verus! {

/// Whether `ed25519_dalek::VerifyingKey::from_bytes` takes the bytes as a key.
pub uninterp spec fn is_verifying_key(bytes: Seq<u8>) -> bool;

/// Whether `ed25519_dalek::VerifyingKey::verify_strict` accepts a signature.
pub uninterp spec fn signature_accepted(
    public_key: Seq<u8>,
    message: Seq<u8>,
    signature: Seq<u8>,
) -> bool;

/// The key that `ed25519_dalek::SigningKey::verifying_key` derives.
pub uninterp spec fn verifying_key(secret: Seq<u8>) -> Seq<u8>;

/// What `ed25519_dalek::SigningKey::sign` signs a message with.
pub uninterp spec fn signature_of(secret: Seq<u8>, message: Seq<u8>) -> Seq<u8>;

/// The encoding of the neutral point, which a signature starts with whose nonce
/// is zero.
pub open spec fn neutral_point() -> Seq<u8> {
    Seq::new(32, |i: int| if i == 0 { 1u8 } else { 0u8 })
}

/// Calls `ed25519_dalek::VerifyingKey::from_bytes`. Whether it takes the bytes
/// depends on these alone.
#[verifier::external_body]
fn check_verifying_key(bytes: &[u8; 32]) -> (r: bool)
    ensures
        r == is_verifying_key(bytes@),
{
    ed25519_dalek::VerifyingKey::from_bytes(bytes).is_ok()
}

/// Calls `ed25519_dalek::VerifyingKey::verify_strict`. Its verdict depends on
/// key, message and signature alone.
#[verifier::external_body]
fn verify_strict(public_key: &[u8; 32], message: &[u8], signature: &[u8; 64]) -> (r: bool)
    requires
        is_verifying_key(public_key@),
    ensures
        r == signature_accepted(public_key@, message@, signature@),
{
    let key = ed25519_dalek::VerifyingKey::from_bytes(public_key).expect("a key that was checked");
    key.verify_strict(message, &ed25519_dalek::Signature::from_bytes(signature)).is_ok()
}

/// Calls `ed25519_dalek::SigningKey::generate` with the operating system's
/// randomness. Nothing is known of the key but its length.
#[verifier::external_body]
pub(crate) fn generate_signing_secret() -> (r: [u8; 32]) {
    ed25519_dalek::SigningKey::generate(&mut rand::rngs::OsRng).to_bytes()
}

/// Calls `ed25519_dalek::SigningKey::verifying_key`. The public key depends on
/// the secret alone, and is one that verification takes.
#[verifier::external_body]
pub(crate) fn derive_verifying_key(secret: &[u8; 32]) -> (r: [u8; 32])
    ensures
        r@ == verifying_key(secret@),
        is_verifying_key(r@),
{
    ed25519_dalek::SigningKey::from_bytes(secret).verifying_key().to_bytes()
}

/// Calls `ed25519_dalek::SigningKey::sign`. The signature depends on secret and
/// message alone. Strict verification accepts it under the public key of the
/// secret, unless its nonce, a digest of both, comes out as zero: verification
/// refuses the neutral point.
#[verifier::external_body]
fn sign_message(secret: &[u8; 32], message: &[u8]) -> (r: [u8; 64])
    ensures
        r@ == signature_of(secret@, message@),
        r@.take(32) != neutral_point() ==> is_verifying_key(verifying_key(secret@))
            && signature_accepted(verifying_key(secret@), message@, r@),
{
    ed25519_dalek::Signer::sign(&ed25519_dalek::SigningKey::from_bytes(secret), message).to_bytes()
}

/// Why a signature is refused, if it is.
pub open spec fn signature_fault(
    public_key: Seq<u8>,
    message: Seq<u8>,
    signature: Seq<u8>,
) -> Option<Error> {
    if !is_verifying_key(public_key) {
        Some(Error::InvalidPublicKey)
    } else if !signature_accepted(public_key, message, signature) {
        Some(Error::SignatureVerificationFailed)
    } else {
        None
    }
}

/// Signs a message with a secret. The signature is one that the secret's public key
/// verifies.
pub fn sign(secret: &[u8; 32], message: &[u8]) -> (r: [u8; 64])
    ensures
        r@ == signature_of(secret@, message@),
        r@.take(32) != neutral_point() ==> signature_fault(
            verifying_key(secret@),
            message@,
            r@,
        ) is None,
{
    sign_message(secret, message)
}

/// Verifies a signature strictly: one that was altered into another form of the
/// same is refused too.
pub fn verify_signature(public_key: &[u8; 32], message: &[u8], signature: &[u8; 64]) -> (r: Result<
    (),
    Error,
>)
    ensures
        fault_of(r) == signature_fault(public_key@, message@, signature@),
{
    if !check_verifying_key(public_key) {
        return Err(Error::InvalidPublicKey);
    }
    if verify_strict(public_key, message, signature) {
        Ok(())
    } else {
        Err(Error::SignatureVerificationFailed)
    }
}

} // verus!
