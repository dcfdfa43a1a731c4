//! A password manager: each credential is encrypted on its own, under a key
//! derived from a master password.

use vstd::prelude::*;
use vstd::string::*;
use vstd::utf8::*;

use crate::bytes::copy_bytes;
use crate::crypto::{
    aes_gcm_opened, aes_gcm_sealed, decrypt, derivable, derive_key, derived_key, encrypt,
    nonce_array, random_nonce, random_salt, wipe, DecryptError, MAX_PLAINTEXT_LEN, NONCE_LEN, SALT_LEN,
};
use crate::encoding::text_from_utf8;
use crate::error::{fault_of, Error, StoreError};
use crate::text::{copy_text, lent_text, optional_text};

verus! {

/// A credential in the clear.
#[derive(Debug)]
pub struct Credential {
    pub id: i64,
    pub label: String,
    pub username: Option<String>,
    pub password: String,
}

#[verifier::ext_equal]
pub struct CredentialView {
    pub id: i64,
    pub label: Seq<char>,
    pub username: Option<Seq<char>>,
    pub password: Seq<char>,
}

impl View for Credential {
    type V = CredentialView;

    open spec fn view(&self) -> CredentialView {
        CredentialView {
            id: self.id,
            label: self.label@,
            username: optional_text(self.username),
            password: self.password@,
        }
    }
}

/// A credential as it is kept.
#[derive(Debug)]
pub struct CredentialRow {
    pub id: i64,
    pub label: String,
    pub username: Option<String>,
    pub kdf_salt: Vec<u8>,
    pub nonce: Vec<u8>,
    pub ciphertext: Vec<u8>,
}

#[verifier::ext_equal]
pub struct CredentialRowView {
    pub id: i64,
    pub label: Seq<char>,
    pub username: Option<Seq<char>>,
    pub kdf_salt: Seq<u8>,
    pub nonce: Seq<u8>,
    pub ciphertext: Seq<u8>,
}

impl View for CredentialRow {
    type V = CredentialRowView;

    open spec fn view(&self) -> CredentialRowView {
        CredentialRowView {
            id: self.id,
            label: self.label@,
            username: optional_text(self.username),
            kdf_salt: self.kdf_salt@,
            nonce: self.nonce@,
            ciphertext: self.ciphertext@,
        }
    }
}

/// All credentials, in the order of their ids.
#[derive(Debug)]
pub struct Vault {
    pub rows: Vec<CredentialRow>,
}

impl View for Vault {
    type V = Seq<CredentialRowView>;

    open spec fn view(&self) -> Seq<CredentialRowView> {
        Seq::new(self.rows@.len(), |i: int| self.rows@[i]@)
    }
}

/// Ids are positive and ascend.
pub open spec fn vault_wf(rows: Seq<CredentialRowView>) -> bool {
    &&& forall|i: int| 0 <= i < rows.len() ==> (#[trigger] rows[i]).id > 0
    &&& forall|i: int, j: int|
        0 <= i < j < rows.len() ==> (#[trigger] rows[i]).id < (#[trigger] rows[j]).id
}

/// The id that the next credential gets.
pub open spec fn next_credential_id(rows: Seq<CredentialRowView>) -> int {
    if rows.len() == 0 {
        1
    } else {
        rows.last().id + 1
    }
}

/// Where the credential with an id stands.
pub open spec fn credential_place(rows: Seq<CredentialRowView>, id: i64) -> Option<int> {
    if exists|i: int| 0 <= i < rows.len() && (#[trigger] rows[i]).id == id {
        Some(choose|i: int| 0 <= i < rows.len() && (#[trigger] rows[i]).id == id)
    } else {
        None
    }
}

impl Vault {
    pub fn new() -> (r: Vault)
        ensures
            r@ == Seq::<CredentialRowView>::empty(),
            vault_wf(r@),
    {
        Vault { rows: Vec::new() }
    }

    pub(crate) fn find(&self, id: i64) -> (r: Option<usize>)
        requires
            vault_wf(self@),
        ensures
            r is Some <==> credential_place(self@, id) is Some,
            r matches Some(i) ==> i < self@.len() && credential_place(self@, id) == Some(i as int),
    {
        let mut i: usize = 0;
        while i < self.rows.len()
            invariant
                i <= self.rows.len(),
                vault_wf(self@),
                forall|k: int| 0 <= k < i ==> (#[trigger] self@[k]).id != id,
            decreases self.rows.len() - i,
        {
            assert(self@[i as int] == self.rows@[i as int]@);
            if self.rows[i].id == id {
                proof {
                    let found = credential_place(self@, id)->0;
                    assert(self@[found].id == id);
                    assert(found == i);
                }
                return Some(i);
            }
            i += 1;
        }
        None
    }
}

/// The password that a decrypted plaintext spells.
pub open spec fn spelled(opened: Option<Seq<u8>>) -> Result<Seq<char>, Error> {
    match opened {
        None => Err(Error::InvalidPassword),
        Some(plaintext) => if valid_utf8(plaintext) {
            Ok(decode_utf8(plaintext))
        } else {
            Err(Error::IntegrityCheckFailed)
        },
    }
}

/// The password that a row gives under a master password, or why it gives none.
pub open spec fn revealed(row: CredentialRowView, master_password: Seq<char>) -> Result<
    Seq<char>,
    Error,
> {
    if !derivable(master_password, row.kdf_salt) {
        Err(Error::KeyDerivationFailed)
    } else if row.nonce.len() != NONCE_LEN {
        Err(Error::IntegrityCheckFailed)
    } else {
        spelled(
            aes_gcm_opened(derived_key(master_password, row.kdf_salt), row.nonce, row.ciphertext),
        )
    }
}

/// What the vault gives for an id and a master password.
pub open spec fn credential_at(
    rows: Seq<CredentialRowView>,
    id: i64,
    master_password: Seq<char>,
) -> Result<CredentialView, Error> {
    match credential_place(rows, id) {
        None => Err(Error::Db(StoreError::NoRows)),
        Some(i) => match revealed(rows[i], master_password) {
            Err(e) => Err(e),
            Ok(password) => Ok(
                CredentialView { id, label: rows[i].label, username: rows[i].username, password },
            ),
        },
    }
}

/// Encrypts a credential and adds it.
///
/// Whatever salt and nonce are drawn, the same master password reveals it.
pub fn add_credential(
    vault: &mut Vault,
    label: &str,
    username: Option<&str>,
    password: &str,
    master_password: &str,
) -> (r: Result<i64, Error>)
    requires
        vault_wf(old(vault)@),
        next_credential_id(old(vault)@) <= i64::MAX,
        encode_utf8(password@).len() <= MAX_PLAINTEXT_LEN,
    ensures
        vault_wf(final(vault)@),
        r is Ok <==> encode_utf8(master_password@).len() <= 0xffff_ffff,
        match r {
            Ok(id) => {
                &&& id == next_credential_id(old(vault)@)
                &&& final(vault)@ == old(vault)@.push(final(vault)@.last())
                &&& final(vault)@.last().id == id
                &&& final(vault)@.last().label == label@
                &&& final(vault)@.last().username == lent_text(username)
                &&& final(vault)@.last().kdf_salt.len() == SALT_LEN
                &&& final(vault)@.last().nonce.len() == NONCE_LEN
                &&& final(vault)@.last().ciphertext == aes_gcm_sealed(
                    derived_key(master_password@, final(vault)@.last().kdf_salt),
                    final(vault)@.last().nonce,
                    encode_utf8(password@),
                )
                &&& revealed(final(vault)@.last(), master_password@) == Ok::<Seq<char>, Error>(
                    password@,
                )
            },
            Err(e) => e == Error::KeyDerivationFailed && final(vault)@ == old(vault)@,
        },
{
    let salt = random_salt();
    let nonce = random_nonce();
    let mut key = match derive_key(master_password, &salt) {
        Ok(key) => key,
        Err(e) => return Err(e),
    };
    let ciphertext = encrypt(&key, &nonce, password.as_bytes());
    wipe(&mut key);
    let ghost before = vault@;
    let count: usize = vault.rows.len();
    let id: i64 = if count == 0 {
        1
    } else {
        assert(before[count - 1] == vault.rows@[count - 1]@);
        vault.rows[count - 1].id + 1
    };
    let row = CredentialRow {
        id,
        label: label.to_owned(),
        username: match username {
            Some(username) => Some(username.to_owned()),
            None => None,
        },
        kdf_salt: copy_bytes(&salt),
        nonce: copy_bytes(&nonce),
        ciphertext,
    };
    let ghost added = row@;
    vault.rows.push(row);
    proof {
        encode_utf8_valid_utf8(password@);
        encode_utf8_decode_utf8(password@);
        let after = vault@;
        assert(after =~= before.push(added));
        if count > 0 {
            assert(before[count - 1].id > 0);
        }
        assert forall|a: int, b: int| 0 <= a < b < after.len() implies (#[trigger] after[a]).id < (
        #[trigger] after[b]).id by {
            if b == before.len() {
                if a < before.len() - 1 {
                    assert(before[a].id < before[before.len() - 1].id);
                }
            } else {
                assert(before[a].id < before[b].id);
            }
        }
        assert forall|a: int| 0 <= a < after.len() implies (#[trigger] after[a]).id > 0 by {
            if a < before.len() {
                assert(after[a] == before[a]);
            }
        }
    }
    Ok(id)
}

/// The password that a decrypted plaintext spells. A plaintext that did not
/// decrypt means that the master password is wrong.
pub fn password_of(opened: Result<Vec<u8>, DecryptError>) -> (r: Result<String, Error>)
    ensures
        spelled(
            match opened {
                Ok(plaintext) => Some(plaintext@),
                Err(_) => None,
            },
        ) == (match r {
            Ok(password) => Ok(password@),
            Err(e) => Err(e),
        }),
{
    match opened {
        Err(_) => Err(Error::InvalidPassword),
        Ok(plaintext) => match text_from_utf8(plaintext) {
            Some(password) => {
                proof {
                    encode_utf8_decode_utf8(password@);
                }
                Ok(password)
            },
            None => Err(Error::IntegrityCheckFailed),
        },
    }
}

/// Decrypts the credential with an id.
pub fn get_credential(vault: &Vault, id: i64, master_password: &str) -> (r: Result<
    Credential,
    Error,
>)
    requires
        vault_wf(vault@),
    ensures
        credential_at(vault@, id, master_password@) == (match r {
            Ok(credential) => Ok(credential@),
            Err(e) => Err(e),
        }),
{
    let i = match vault.find(id) {
        Some(i) => i,
        None => return Err(Error::Db(StoreError::NoRows)),
    };
    assert(vault@[i as int] == vault.rows@[i as int]@);
    let row = &vault.rows[i];
    let mut key = match derive_key(master_password, row.kdf_salt.as_slice()) {
        Ok(key) => key,
        Err(e) => return Err(e),
    };
    let nonce = match nonce_array(row.nonce.as_slice()) {
        Some(nonce) => nonce,
        None => return Err(Error::IntegrityCheckFailed),
    };
    let opened = decrypt(&key, &nonce, row.ciphertext.as_slice());
    wipe(&mut key);
    match password_of(opened) {
        Ok(password) => Ok(
            Credential {
                id,
                label: row.label.as_str().to_owned(),
                username: copy_text(&row.username),
                password,
            },
        ),
        Err(e) => Err(e),
    }
}

/// A credential that was added is given back under its master password, however
/// many were added after it.
pub proof fn added_credential_is_given_back(
    rows: Seq<CredentialRowView>,
    i: int,
    master_password: Seq<char>,
    password: Seq<char>,
)
    requires
        vault_wf(rows),
        0 <= i < rows.len(),
        revealed(rows[i], master_password) == Ok::<Seq<char>, Error>(password),
    ensures
        credential_at(rows, rows[i].id, master_password) == Ok::<CredentialView, Error>(
            CredentialView {
                id: rows[i].id,
                label: rows[i].label,
                username: rows[i].username,
                password,
            },
        ),
{
    let found = credential_place(rows, rows[i].id)->0;
    assert(rows[found].id == rows[i].id);
    assert(found == i);
}

/// A credential is given exactly where a key can be derived, the nonce is one, what is kept
/// decrypts under that key, and what comes out is text. It has the label and the username
/// that were kept. What does not decrypt is a wrong password.
pub proof fn credentials_that_are_given(
    rows: Seq<CredentialRowView>,
    i: int,
    master_password: Seq<char>,
)
    requires
        vault_wf(rows),
        0 <= i < rows.len(),
    ensures
        ({
            let row = rows[i];
            let given = credential_at(rows, row.id, master_password);
            let opened = aes_gcm_opened(
                derived_key(master_password, row.kdf_salt),
                row.nonce,
                row.ciphertext,
            );
            let derives = derivable(master_password, row.kdf_salt);
            &&& given is Ok <==> derives && row.nonce.len() == 12 && opened is Some && valid_utf8(
                opened->0,
            )
            &&& given matches Ok(credential) ==> {
                &&& credential.id == row.id
                &&& credential.label == row.label
                &&& credential.username == row.username
                &&& credential.password == decode_utf8(opened->0)
            }
            &&& !derives ==> fault_of(given) == Some(Error::KeyDerivationFailed)
            &&& derives && row.nonce.len() != 12 ==> fault_of(given) == Some(
                Error::IntegrityCheckFailed,
            )
            &&& derives && row.nonce.len() == 12 && opened is None ==> fault_of(given) == Some(
                Error::InvalidPassword,
            )
            &&& derives && row.nonce.len() == 12 && opened is Some && !valid_utf8(opened->0)
                ==> fault_of(given) == Some(Error::IntegrityCheckFailed)
        }),
{
    let k = credential_place(rows, rows[i].id)->0;
    assert(rows[k].id == rows[i].id);
}

/// Nothing is given for an id that no credential has.
pub proof fn unknown_credential_is_not_given(
    rows: Seq<CredentialRowView>,
    id: i64,
    master_password: Seq<char>,
)
    requires
        forall|i: int| 0 <= i < rows.len() ==> (#[trigger] rows[i]).id != id,
    ensures
        fault_of(credential_at(rows, id, master_password)) == Some(Error::Db(StoreError::NoRows)),
{
}

/// Adding further credentials leaves what earlier ones give.
pub proof fn later_credentials_change_nothing(
    rows: Seq<CredentialRowView>,
    later: Seq<CredentialRowView>,
    i: int,
    master_password: Seq<char>,
)
    requires
        vault_wf(rows + later),
        0 <= i < rows.len(),
    ensures
        credential_at(rows + later, rows[i].id, master_password) == credential_at(
            rows,
            rows[i].id,
            master_password,
        ),
{
    let all = rows + later;
    assert(all[i] == rows[i]);
    let j = credential_place(all, rows[i].id)->0;
    assert(all[j].id == all[i].id);
    let k = credential_place(rows, rows[i].id)->0;
    assert(rows[k].id == rows[i].id);
    assert(all[k] == rows[k]);
}

/// Credentials are counted from one on, without a gap.
pub proof fn credential_ids_count_on(rows: Seq<CredentialRowView>, row: CredentialRowView)
    ensures
        next_credential_id(Seq::<CredentialRowView>::empty()) == 1,
        row.id == next_credential_id(rows) ==> next_credential_id(rows.push(row)) == next_credential_id(rows) + 1,
{
}

} // verus!
