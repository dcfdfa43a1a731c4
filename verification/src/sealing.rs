//! Sealed boxes: a message that only the holder of one secret key can open.

use vstd::prelude::*;

verus! {

/// The length of a Curve25519 key.
pub const KEY_LEN: usize = 32;

/// How much longer a sealed box is than its message.
pub const SEAL_OVERHEAD: usize = 48;

/// The public key that `crypto_box::SecretKey::public_key` derives.
pub uninterp spec fn box_public_key(secret: Seq<u8>) -> Seq<u8>;

/// What `crypto_box::SecretKey::unseal` opens a box to, if it does.
pub uninterp spec fn unsealed(secret: Seq<u8>, sealed: Seq<u8>) -> Option<Seq<u8>>;

/// `sealed` opens to `message` under every secret key of `public_key`.
pub open spec fn opens_to(sealed: Seq<u8>, public_key: Seq<u8>, message: Seq<u8>) -> bool {
    forall|secret: Seq<u8>|
        secret.len() == KEY_LEN && box_public_key(secret) == public_key ==> #[trigger] unsealed(
            secret,
            sealed,
        ) == Some(message)
}

/// Calls `crypto_box::SecretKey::public_key`.
///
/// The public key depends on the secret key alone and has the same length.
#[verifier::external_body]
pub(crate) fn derive_box_public_key(secret: &[u8; 32]) -> (r: [u8; 32])
    ensures
        r@ == box_public_key(secret@),
{
    *crypto_box::SecretKey::from(*secret).public_key().as_bytes()
}

/// Calls `crypto_box::SecretKey::generate` with the operating system's
/// randomness. Nothing is known of the key but its length.
#[verifier::external_body]
pub(crate) fn generate_box_secret() -> (r: [u8; 32]) {
    crypto_box::SecretKey::generate(&mut rand::rngs::OsRng).to_bytes()
}

/// Calls `crypto_box::PublicKey::seal` with the operating system's randomness.
///
/// The box holds an ephemeral public key, the encrypted message and a tag of
/// 16 bytes. Both sides derive the same key and nonce, so it opens to the
/// message under the secret key that belongs to `public_key`. Sealing fails
/// only with associated data, and a sealed box has none.
#[verifier::external_body]
pub(crate) fn seal(public_key: &[u8; 32], message: &[u8]) -> (r: Vec<u8>)
    ensures
        r@.len() == message@.len() + SEAL_OVERHEAD,
        opens_to(r@, public_key@, message@),
{
    crypto_box::PublicKey::from_bytes(*public_key)
        .seal(&mut rand::rngs::OsRng, message)
        .expect("a box without associated data seals")
}

/// Calls `crypto_box::SecretKey::unseal`.
///
/// Whether the box opens, and to what, depends on the key and the box alone.
#[verifier::external_body]
pub(crate) fn unseal(secret: &[u8; 32], sealed: &[u8]) -> (r: Option<Vec<u8>>)
    ensures
        unsealed(secret@, sealed@) == (match r {
            Some(message) => Some(message@),
            None => None,
        }),
{
    crypto_box::SecretKey::from(*secret).unseal(sealed).ok()
}

/// A 32-byte array of the given bytes, if there are that many.
pub(crate) fn key_array(bytes: &[u8]) -> (r: Option<[u8; 32]>)
    ensures
        r is Some <==> bytes@.len() == KEY_LEN,
        r matches Some(key) ==> key@ == bytes@,
{
    if bytes.len() != KEY_LEN {
        return None;
    }
    let mut key: [u8; 32] = [0u8; 32];
    let mut i: usize = 0;
    while i < KEY_LEN
        invariant
            i <= KEY_LEN,
            bytes@.len() == KEY_LEN,
            forall|k: int| 0 <= k < i ==> key@[k] == bytes@[k],
        decreases KEY_LEN - i,
    {
        key[i] = bytes[i];
        i += 1;
    }
    assert(key@ =~= bytes@);
    Some(key)
}

} // verus!
