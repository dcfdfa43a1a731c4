//! Key derivation from passwords, and authenticated encryption.

use vstd::prelude::*;
use vstd::string::*;
use vstd::utf8::*;

use crate::bytes::zero_bytes;
use crate::error::Error;

verus! {

pub const SALT_LEN: usize = 16;

pub const NONCE_LEN: usize = 12;

pub const KEY_LEN: usize = 32;

/// How much memory deriving a key takes, in KiB.
pub const KEY_MEMORY: u32 = 19456;

/// How many passes deriving a key makes over that memory.
pub const KEY_PASSES: u32 = 2;

/// How many lanes deriving a key fills side by side.
pub const KEY_LANES: u32 = 1;

/// How much longer a ciphertext is than its plaintext.
pub const TAG_LEN: usize = 16;

/// The longest plaintext that the cipher takes.
pub const MAX_PLAINTEXT_LEN: u64 = 68719476736;

/// Decryption failed: the key is wrong or the ciphertext was changed. Which of
/// the two is not told apart.
#[derive(Debug, Clone, Copy, PartialEq, Eq, Structural)]
pub struct DecryptError;

impl DecryptError {
    /// The message shown to a user.
    pub fn message(&self) -> (r: String)
        ensures
            r@ == "decryption failed: wrong key or corrupted ciphertext"@,
    {
        "decryption failed: wrong key or corrupted ciphertext".to_owned()
    }
}

/// The key that `argon2` derives from a password and a salt at given costs.
pub uninterp spec fn argon2id_key(
    password: Seq<u8>,
    salt: Seq<u8>,
    memory: u32,
    passes: u32,
    lanes: u32,
) -> Seq<u8>;

/// What `aes_gcm` encrypts a plaintext to.
pub uninterp spec fn aes_gcm_sealed(key: Seq<u8>, nonce: Seq<u8>, plaintext: Seq<u8>) -> Seq<u8>;

/// What `aes_gcm` decrypts a ciphertext to, if it is authentic.
pub uninterp spec fn aes_gcm_opened(key: Seq<u8>, nonce: Seq<u8>, ciphertext: Seq<u8>) -> Option<
    Seq<u8>,
>;

/// Calls `rand::rngs::OsRng::fill_bytes`. Nothing is known of the bytes but how
/// many there are.
#[verifier::external_body]
pub(crate) fn random_bytes(len: usize) -> (r: Vec<u8>)
    ensures
        r@.len() == len,
{
    let mut bytes = vec![0u8; len];
    rand::RngCore::fill_bytes(&mut rand::rngs::OsRng, &mut bytes);
    bytes
}

/// The lengths of password and salt that `argon2` takes.
pub open spec fn argon2_takes(password: Seq<u8>, salt: Seq<u8>) -> bool {
    8 <= salt.len() <= 0xffff_ffff && password.len() <= 0xffff_ffff
}

/// The costs that `argon2` takes and a machine can bear: at least eight KiB of
/// memory for each lane, at most one GiB, and at least one pass.
pub open spec fn argon2_bears(memory: u32, passes: u32, lanes: u32) -> bool {
    1 <= lanes && 8 * lanes <= memory <= 0x10_0000 && 1 <= passes
}

/// Calls `argon2::Argon2::hash_password_into` as Argon2id, version 0x13, with so
/// many KiB of memory, passes and lanes.
///
/// It refuses salts of less than eight bytes, and passwords and salts whose
/// length does not fit in 32 bits; the key depends on the arguments alone.
#[verifier::external_body]
fn argon2id(password: &[u8], salt: &[u8], memory: u32, passes: u32, lanes: u32) -> (r: Option<
    [u8; 32],
>)
    requires
        argon2_bears(memory, passes, lanes),
    ensures
        r is Some <==> argon2_takes(password@, salt@),
        r matches Some(key) ==> key@ == argon2id_key(password@, salt@, memory, passes, lanes),
{
    let params = argon2::Params::new(memory, passes, lanes, None).expect("costs in range");
    let mut key = [0u8; 32];
    argon2::Argon2::new(argon2::Algorithm::Argon2id, argon2::Version::V0x13, params)
        .hash_password_into(password, salt, &mut key)
        .ok()?;
    Some(key)
}

/// Calls `encrypt` of `aes_gcm::Aes256Gcm`.
///
/// The ciphertext depends on key, nonce and plaintext alone, is longer than the
/// plaintext by its tag, and decrypts to it under the same key and nonce.
/// Encryption fails only beyond the longest plaintext.
#[verifier::external_body]
pub fn encrypt(key: &[u8; 32], nonce: &[u8; 12], plaintext: &[u8]) -> (r: Vec<u8>)
    requires
        plaintext@.len() <= MAX_PLAINTEXT_LEN,
    ensures
        r@ == aes_gcm_sealed(key@, nonce@, plaintext@),
        r@.len() == plaintext@.len() + TAG_LEN,
        aes_gcm_opened(key@, nonce@, r@) == Some(plaintext@),
{
    let cipher = <aes_gcm::Aes256Gcm as aes_gcm::KeyInit>::new(key.into());
    aes_gcm::aead::Aead::encrypt(&cipher, nonce.into(), plaintext).expect("a plaintext in range")
}

/// Calls `decrypt` of `aes_gcm::Aes256Gcm`. Whether the ciphertext is authentic,
/// and what it decrypts to, depends on key, nonce and ciphertext alone.
#[verifier::external_body]
fn aes_gcm_decrypt(key: &[u8; 32], nonce: &[u8; 12], ciphertext: &[u8]) -> (r: Option<Vec<u8>>)
    ensures
        aes_gcm_opened(key@, nonce@, ciphertext@) == (match r {
            Some(plaintext) => Some(plaintext@),
            None => None,
        }),
{
    let cipher = <aes_gcm::Aes256Gcm as aes_gcm::KeyInit>::new(key.into());
    aes_gcm::aead::Aead::decrypt(&cipher, nonce.into(), ciphertext).ok()
}

/// Calls `zeroize` on a key, which overwrites it with zeros.
#[verifier::external_body]
pub(crate) fn wipe(key: &mut [u8; 32])
    ensures
        final(key)@ == zero_bytes(32),
{
    zeroize::Zeroize::zeroize(key)
}

/// The salt that drawn bytes make.
pub fn salt_of(drawn: &[u8]) -> (r: [u8; 16])
    requires
        drawn@.len() == SALT_LEN,
    ensures
        r@ == drawn@,
{
    let mut salt: [u8; 16] = [0u8; 16];
    let mut i: usize = 0;
    while i < SALT_LEN
        invariant
            i <= SALT_LEN,
            drawn@.len() == SALT_LEN,
            forall|k: int| 0 <= k < i ==> salt@[k] == drawn@[k],
        decreases SALT_LEN - i,
    {
        salt[i] = drawn[i];
        i += 1;
    }
    assert(salt@ =~= drawn@);
    salt
}

/// A fresh salt. It is drawn, so nothing is known of its bytes.
pub fn random_salt() -> (r: [u8; 16]) {
    salt_of(random_bytes(SALT_LEN).as_slice())
}

/// The nonce that drawn bytes make.
pub fn nonce_of(drawn: &[u8]) -> (r: [u8; 12])
    requires
        drawn@.len() == NONCE_LEN,
    ensures
        r@ == drawn@,
{
    let mut nonce: [u8; 12] = [0u8; 12];
    let mut i: usize = 0;
    while i < NONCE_LEN
        invariant
            i <= NONCE_LEN,
            drawn@.len() == NONCE_LEN,
            forall|k: int| 0 <= k < i ==> nonce@[k] == drawn@[k],
        decreases NONCE_LEN - i,
    {
        nonce[i] = drawn[i];
        i += 1;
    }
    assert(nonce@ =~= drawn@);
    nonce
}

/// A fresh nonce. It is drawn, so nothing is known of its bytes.
pub fn random_nonce() -> (r: [u8; 12]) {
    nonce_of(random_bytes(NONCE_LEN).as_slice())
}

/// The key that drawn bytes make.
pub fn key_of(drawn: &[u8]) -> (r: [u8; 32])
    requires
        drawn@.len() == KEY_LEN,
    ensures
        r@ == drawn@,
{
    let mut key: [u8; 32] = [0u8; 32];
    let mut i: usize = 0;
    while i < KEY_LEN
        invariant
            i <= KEY_LEN,
            drawn@.len() == KEY_LEN,
            forall|k: int| 0 <= k < i ==> key@[k] == drawn@[k],
        decreases KEY_LEN - i,
    {
        key[i] = drawn[i];
        i += 1;
    }
    assert(key@ =~= drawn@);
    key
}

/// A fresh data key. It is drawn, so nothing is known of its bytes.
pub fn random_key() -> (r: [u8; 32]) {
    key_of(random_bytes(KEY_LEN).as_slice())
}

/// Passwords and salts from which a key can be derived.
pub open spec fn derivable(password: Seq<char>, salt: Seq<u8>) -> bool {
    argon2_takes(encode_utf8(password), salt)
}

/// The key that a password and a salt give.
pub open spec fn derived_key(password: Seq<char>, salt: Seq<u8>) -> Seq<u8> {
    argon2id_key(encode_utf8(password), salt, KEY_MEMORY, KEY_PASSES, KEY_LANES)
}

/// Derives a key from a password and a salt.
pub fn derive_key(password: &str, salt: &[u8]) -> (r: Result<[u8; 32], Error>)
    ensures
        r is Ok <==> derivable(password@, salt@),
        r matches Ok(key) ==> key@ == derived_key(password@, salt@),
        r matches Err(e) ==> e == Error::KeyDerivationFailed,
{
    match argon2id(password.as_bytes(), salt, KEY_MEMORY, KEY_PASSES, KEY_LANES) {
        Some(key) => Ok(key),
        None => Err(Error::KeyDerivationFailed),
    }
}

/// Decrypts a ciphertext. It fails whenever the key is wrong or the ciphertext
/// was changed: the tag is what detects an incorrect password.
pub fn decrypt(key: &[u8; 32], nonce: &[u8; 12], ciphertext: &[u8]) -> (r: Result<
    Vec<u8>,
    DecryptError,
>)
    ensures
        match r {
            Ok(plaintext) => aes_gcm_opened(key@, nonce@, ciphertext@) == Some(plaintext@),
            Err(_) => aes_gcm_opened(key@, nonce@, ciphertext@) is None,
        },
{
    match aes_gcm_decrypt(key, nonce, ciphertext) {
        Some(plaintext) => Ok(plaintext),
        None => Err(DecryptError),
    }
}

/// A 12-byte array of the given bytes, if there are that many.
pub(crate) fn nonce_array(bytes: &[u8]) -> (r: Option<[u8; 12]>)
    ensures
        r is Some <==> bytes@.len() == NONCE_LEN,
        r matches Some(nonce) ==> nonce@ == bytes@,
{
    if bytes.len() != NONCE_LEN {
        return None;
    }
    let mut nonce: [u8; 12] = [0u8; 12];
    let mut i: usize = 0;
    while i < NONCE_LEN
        invariant
            i <= NONCE_LEN,
            bytes@.len() == NONCE_LEN,
            forall|k: int| 0 <= k < i ==> nonce@[k] == bytes@[k],
        decreases NONCE_LEN - i,
    {
        nonce[i] = bytes[i];
        i += 1;
    }
    assert(nonce@ =~= bytes@);
    Some(nonce)
}

/// A key is derived from any password of up to 4294967295 bytes with a salt of 8 bytes or
/// more, over 19 MiB of memory in two passes and one lane.
pub proof fn keys_are_derived_so(password: Seq<char>, salt: Seq<u8>)
    ensures
        derivable(password, salt) <==> encode_utf8(password).len() <= 4294967295 && 8 <= salt.len()
            <= 4294967295,
        derived_key(password, salt) == argon2id_key(encode_utf8(password), salt, 19456, 2, 1),
{
}

/// Salts are 16 bytes, nonces 12 and keys 32, and a ciphertext is 16 bytes longer than its
/// plaintext.
pub proof fn lengths_are_these(salt: Seq<u8>, nonce: Seq<u8>, key: Seq<u8>, plain: Seq<u8>)
    ensures
        salt.len() == SALT_LEN <==> salt.len() == 16,
        nonce.len() == NONCE_LEN <==> nonce.len() == 12,
        key.len() == KEY_LEN <==> key.len() == 32,
        plain.len() + TAG_LEN == plain.len() + 16,
{
}

} // verus!
