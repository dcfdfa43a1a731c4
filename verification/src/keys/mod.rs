//! Registry of hardware keys.

use vstd::prelude::*;

pub mod forms;
pub mod parse;

pub use parse::parse_key_text;

use crate::bytes::{bytes_equal, copy_bytes};
use crate::encoding::{hex_encode, hex_text, sha256, sha256_digest};
use crate::error::{Error, StoreError};
use crate::key_tree::store::{NodeRowView, TreeStore};
use crate::sealing::{box_public_key, derive_box_public_key, generate_box_secret, KEY_LEN};
use crate::signing::{derive_verifying_key, generate_signing_secret, verifying_key};
use crate::text::text_equal;

verus! {

/// What a registered key is for.
#[derive(Clone, Copy, PartialEq, Eq, Debug, Structural)]
pub enum KeyType {
    Encryption,
    Signing,
}

impl KeyType {
    pub open spec fn text(self) -> Seq<char> {
        match self {
            KeyType::Encryption => "encryption"@,
            KeyType::Signing => "signing"@,
        }
    }

    /// The name that is stored.
    pub fn as_str(self) -> (r: &'static str)
        ensures
            r@ == self.text(),
    {
        match self {
            KeyType::Encryption => "encryption",
            KeyType::Signing => "signing",
        }
    }

    /// The type with the stored name. There are no other names.
    pub fn from_db_str(s: &str) -> (r: KeyType)
        requires
            s@ == KeyType::Encryption.text() || s@ == KeyType::Signing.text(),
        ensures
            r.text() == s@,
    {
        if text_equal(s, "encryption") {
            KeyType::Encryption
        } else {
            KeyType::Signing
        }
    }
}

/// One registered key.
#[derive(Debug)]
pub struct HardwareKey {
    pub id: i64,
    pub label: String,
    pub key_type: KeyType,
    pub fingerprint: String,
    pub public_key: Vec<u8>,
    pub created_at: String,
    pub revoked_at: Option<String>,
}

/// What a registered key says.
#[verifier::ext_equal]
pub struct HardwareKeyView {
    pub id: i64,
    pub label: Seq<char>,
    pub key_type: KeyType,
    pub fingerprint: Seq<char>,
    pub public_key: Seq<u8>,
    pub created_at: Seq<char>,
    pub revoked_at: Option<Seq<char>>,
}

impl View for HardwareKey {
    type V = HardwareKeyView;

    open spec fn view(&self) -> HardwareKeyView {
        HardwareKeyView {
            id: self.id,
            label: self.label@,
            key_type: self.key_type,
            fingerprint: self.fingerprint@,
            public_key: self.public_key@,
            created_at: self.created_at@,
            revoked_at: match self.revoked_at {
                Some(at) => Some(at@),
                None => None,
            },
        }
    }
}

/// The registered keys, in the order of their ids.
#[derive(Debug)]
pub struct KeyRegistry {
    pub keys: Vec<HardwareKey>,
}

impl View for KeyRegistry {
    type V = Seq<HardwareKeyView>;

    open spec fn view(&self) -> Seq<HardwareKeyView> {
        Seq::new(self.keys@.len(), |i: int| self.keys@[i]@)
    }
}

/// Ids are positive and ascend, and public keys have their length.
pub open spec fn registry_wf(keys: Seq<HardwareKeyView>) -> bool {
    &&& forall|i: int| 0 <= i < keys.len() ==> (#[trigger] keys[i]).id > 0
    &&& forall|i: int| 0 <= i < keys.len() ==> (#[trigger] keys[i]).public_key.len() == KEY_LEN
    &&& forall|i: int, j: int|
        0 <= i < j < keys.len() ==> (#[trigger] keys[i]).id < (#[trigger] keys[j]).id
}

/// The place of the key with the given id, if there is one.
pub open spec fn key_place(keys: Seq<HardwareKeyView>, id: i64) -> Option<int> {
    if exists|i: int| 0 <= i < keys.len() && (#[trigger] keys[i]).id == id {
        Some(choose|i: int| 0 <= i < keys.len() && (#[trigger] keys[i]).id == id)
    } else {
        None
    }
}

/// The registered key with the given id.
pub open spec fn key_with_id(keys: Seq<HardwareKeyView>, id: i64) -> Result<HardwareKeyView, Error> {
    match key_place(keys, id) {
        Some(i) => Ok(keys[i]),
        None => Err(Error::Db(StoreError::NoRows)),
    }
}

/// The key with the given id, if it may back a quorum leaf.
pub open spec fn active_encryption_key(keys: Seq<HardwareKeyView>, id: i64) -> Result<
    HardwareKeyView,
    Error,
> {
    match key_with_id(keys, id) {
        Err(e) => Err(e),
        Ok(key) => if key.key_type != KeyType::Encryption {
            Err(Error::WrongKeyType)
        } else if key.revoked_at is Some {
            Err(Error::KeyRevoked)
        } else {
            Ok(key)
        },
    }
}

/// The key with the given id.
pub fn get_key(registry: &KeyRegistry, id: i64) -> (r: Result<&HardwareKey, Error>)
    requires
        registry_wf(registry@),
    ensures
        match (r, key_with_id(registry@, id)) {
            (Ok(key), Ok(found)) => key@ == found,
            (Err(e), Err(expected)) => e == expected,
            _ => false,
        },
{
    let mut i: usize = 0;
    while i < registry.keys.len()
        invariant
            i <= registry.keys.len(),
            registry_wf(registry@),
            forall|k: int| 0 <= k < i ==> (#[trigger] registry@[k]).id != id,
        decreases registry.keys.len() - i,
    {
        assert(registry@[i as int] == registry.keys@[i as int]@);
        if registry.keys[i].id == id {
            proof {
                let found = key_place(registry@, id)->0;
                assert(registry@[found].id == id);
                assert(found == i);
            }
            return Ok(&registry.keys[i]);
        }
        i += 1;
    }
    Err(Error::Db(StoreError::NoRows))
}

/// The key with the given id, which has to be an encryption key that is not
/// revoked: only such a key may back a quorum leaf.
pub fn get_active_encryption_key(registry: &KeyRegistry, id: i64) -> (r: Result<
    &HardwareKey,
    Error,
>)
    requires
        registry_wf(registry@),
    ensures
        match (r, active_encryption_key(registry@, id)) {
            (Ok(key), Ok(found)) => key@ == found,
            (Err(e), Err(expected)) => e == expected,
            _ => false,
        },
{
    match get_key(registry, id) {
        Err(e) => Err(e),
        Ok(key) => {
            if key.key_type != KeyType::Encryption {
                return Err(Error::WrongKeyType);
            }
            if key.revoked_at.is_some() {
                return Err(Error::KeyRevoked);
            }
            Ok(key)
        },
    }
}

/// The fingerprint of a public key: its SHA-256 digest in hexadecimal.
pub open spec fn fingerprint_text(public_key: Seq<u8>) -> Seq<char> {
    hex_text(sha256(public_key))
}

/// The fingerprint of a public key: its SHA-256 digest in hexadecimal.
pub fn fingerprint(public_key: &[u8]) -> (r: String)
    ensures
        r@ == fingerprint_text(public_key@),
{
    hex_encode(&sha256_digest(public_key))
}

/// A fresh key pair for sealing shares: the secret key, then the public one.
pub fn generate_encryption_keypair() -> (r: ([u8; 32], [u8; 32]))
    ensures
        r.1@ == box_public_key(r.0@),
{
    let secret = generate_box_secret();
    let public = derive_box_public_key(&secret);
    (secret, public)
}

/// A fresh key pair for signatures: the secret key, then the public one.
pub fn generate_signing_keypair() -> (r: ([u8; 32], [u8; 32]))
    ensures
        r.1@ == verifying_key(r.0@),
{
    let secret = generate_signing_secret();
    let public = derive_verifying_key(&secret);
    (secret, public)
}

/// The public key that belongs to an encryption secret.
pub fn encryption_public_from_secret(secret: &[u8; 32]) -> (r: [u8; 32])
    ensures
        r@ == box_public_key(secret@),
{
    derive_box_public_key(secret)
}

/// Some registered key has the fingerprint.
pub open spec fn fingerprint_taken(keys: Seq<HardwareKeyView>, fingerprint: Seq<char>) -> bool {
    exists|i: int| 0 <= i < keys.len() && (#[trigger] keys[i]).fingerprint == fingerprint
}

/// The id that the next key gets.
pub open spec fn next_registry_id(keys: Seq<HardwareKeyView>) -> int {
    if keys.len() == 0 {
        1
    } else {
        keys.last().id + 1
    }
}

impl KeyRegistry {
    /// An empty registry.
    pub fn new() -> (r: KeyRegistry)
        ensures
            r@ == Seq::<HardwareKeyView>::empty(),
            registry_wf(r@),
    {
        KeyRegistry { keys: Vec::new() }
    }
}

/// Registers a key of 32 bytes that is not registered yet.
pub fn register_key(
    registry: &mut KeyRegistry,
    label: &str,
    key_type: KeyType,
    public_key: &[u8],
    created_at: &str,
) -> (r: Result<i64, Error>)
    requires
        registry_wf(old(registry)@),
        next_registry_id(old(registry)@) <= i64::MAX,
    ensures
        registry_wf(final(registry)@),
        match r {
            Ok(id) => {
                &&& public_key@.len() == KEY_LEN
                &&& !fingerprint_taken(old(registry)@, fingerprint_text(public_key@))
                &&& id == next_registry_id(old(registry)@)
                &&& final(registry)@ == old(registry)@.push(
                    HardwareKeyView {
                        id,
                        label: label@,
                        key_type,
                        fingerprint: fingerprint_text(public_key@),
                        public_key: public_key@,
                        created_at: created_at@,
                        revoked_at: None,
                    },
                )
            },
            Err(e) => {
                &&& final(registry)@ == old(registry)@
                &&& e == (if public_key@.len() != KEY_LEN {
                    Error::InvalidPublicKey
                } else {
                    Error::Db(StoreError::HardwareKeyFingerprint)
                })
                &&& public_key@.len() == KEY_LEN ==> fingerprint_taken(
                    old(registry)@,
                    fingerprint_text(public_key@),
                )
            },
        },
{
    if public_key.len() != KEY_LEN {
        return Err(Error::InvalidPublicKey);
    }
    let fp: String = fingerprint(public_key);
    let ghost before = registry@;
    let mut i: usize = 0;
    while i < registry.keys.len()
        invariant
            i <= registry.keys.len(),
            before == registry@,
            *registry == *old(registry),
            fp@ == fingerprint_text(public_key@),
            public_key@.len() == KEY_LEN,
            registry_wf(before),
            forall|k: int| 0 <= k < i ==> (#[trigger] before[k]).fingerprint != fp@,
        decreases registry.keys.len() - i,
    {
        assert(before[i as int] == registry.keys@[i as int]@);
        if text_equal(registry.keys[i].fingerprint.as_str(), fp.as_str()) {
            return Err(Error::Db(StoreError::HardwareKeyFingerprint));
        }
        i += 1;
    }
    let count: usize = registry.keys.len();
    let id: i64 = if count == 0 {
        1
    } else {
        assert(before[count - 1] == registry.keys@[count - 1]@);
        registry.keys[count - 1].id + 1
    };
    let key = HardwareKey {
        id,
        label: label.to_owned(),
        key_type,
        fingerprint: fp,
        public_key: copy_bytes(public_key),
        created_at: created_at.to_owned(),
        revoked_at: None,
    };
    let ghost added = key@;
    registry.keys.push(key);
    proof {
        let after = registry@;
        assert(after =~= before.push(added));
        if count > 0 {
            assert(before[count - 1].id > 0);
        }
        assert forall|a: int, b: int| 0 <= a < b < after.len() implies (#[trigger] after[a]).id < (
        #[trigger] after[b]).id by {
            if b == before.len() {
                if a < before.len() - 1 {
                    assert(before[a].id < before[before.len() - 1].id);
                }
            } else {
                assert(before[a].id < before[b].id);
            }
        }
        assert forall|a: int| 0 <= a < after.len() implies (#[trigger] after[a]).id > 0
            && after[a].public_key.len() == KEY_LEN by {
            if a < before.len() {
                assert(after[a] == before[a]);
            }
        }
    }
    Ok(id)
}

/// All registered keys, in the order of their ids.
pub fn list_keys(registry: &KeyRegistry) -> (r: &Vec<HardwareKey>)
    ensures
        r@ == registry.keys@,
{
    &registry.keys
}

/// The first registered key with the given public key.
pub fn get_key_by_public_key<'a>(registry: &'a KeyRegistry, public_key: &[u8]) -> (r: Result<
    &'a HardwareKey,
    Error,
>)
    ensures
        match r {
            Ok(key) => exists|i: int|
                0 <= i < registry@.len() && registry@[i] == key@ && (
                #[trigger] registry@[i]).public_key == public_key@ && forall|j: int|
                    0 <= j < i ==> (#[trigger] registry@[j]).public_key != public_key@,
            Err(e) => e == Error::InvalidPublicKey && forall|j: int|
                0 <= j < registry@.len() ==> (#[trigger] registry@[j]).public_key != public_key@,
        },
{
    let mut i: usize = 0;
    while i < registry.keys.len()
        invariant
            i <= registry.keys.len(),
            forall|j: int| 0 <= j < i ==> (#[trigger] registry@[j]).public_key != public_key@,
        decreases registry.keys.len() - i,
    {
        assert(registry@[i as int] == registry.keys@[i as int]@);
        if bytes_equal(registry.keys[i].public_key.as_slice(), public_key) {
            return Ok(&registry.keys[i]);
        }
        i += 1;
    }
    Err(Error::InvalidPublicKey)
}

/// The keys with one of them revoked.
pub open spec fn revoked(keys: Seq<HardwareKeyView>, id: i64, at: Seq<char>) -> Seq<HardwareKeyView> {
    Seq::new(
        keys.len(),
        |i: int|
            if keys[i].id == id {
                HardwareKeyView { revoked_at: Some(at), ..keys[i] }
            } else {
                keys[i]
            },
    )
}

/// Revokes a key, if it is registered.
pub fn revoke_key(registry: &mut KeyRegistry, id: i64, now: &str)
    requires
        registry_wf(old(registry)@),
    ensures
        registry_wf(final(registry)@),
        final(registry)@ == revoked(old(registry)@, id, now@),
{
    let ghost before = registry@;
    let mut i: usize = 0;
    while i < registry.keys.len()
        invariant
            i <= registry.keys.len(),
            registry@.len() == before.len(),
            forall|k: int|
                0 <= k < before.len() ==> (#[trigger] registry@[k]) == (if k < i {
                    revoked(before, id, now@)[k]
                } else {
                    before[k]
                }),
        decreases registry.keys.len() - i,
    {
        assert(registry@[i as int] == registry.keys@[i as int]@);
        let ghost earlier = registry@;
        if registry.keys[i].id == id {
            registry.keys[i].revoked_at = Some(now.to_owned());
        }
        proof {
            assert forall|k: int| 0 <= k < before.len() implies (#[trigger] registry@[k]) == (if k
                < i + 1 {
                revoked(before, id, now@)[k]
            } else {
                before[k]
            }) by {
                assert(earlier[k] == (if k < i {
                    revoked(before, id, now@)[k]
                } else {
                    before[k]
                }));
            }
        }
        i += 1;
    }
    proof {
        let after = registry@;
        assert(after =~= revoked(before, id, now@));
        assert forall|a: int, b: int| 0 <= a < b < after.len() implies (#[trigger] after[a]).id < (
        #[trigger] after[b]).id by {
            assert(before[a].id < before[b].id);
        }
        assert forall|a: int| 0 <= a < after.len() implies (#[trigger] after[a]).id > 0
            && after[a].public_key.len() == KEY_LEN by {
            assert(before[a].id > 0 && before[a].public_key.len() == KEY_LEN);
        }
    }
}

/// Some node is sealed to the key.
pub open spec fn key_in_use(nodes: Seq<NodeRowView>, id: i64) -> bool {
    exists|i: int| 0 <= i < nodes.len() && (#[trigger] nodes[i]).hardware_key_id == Some(id)
}

/// Removes a key that no node is sealed to. Removing one that is not there is
/// no error.
pub fn remove_key(registry: &mut KeyRegistry, trees: &TreeStore, id: i64) -> (r: Result<(), Error>)
    requires
        registry_wf(old(registry)@),
    ensures
        registry_wf(final(registry)@),
        r is Err <==> key_in_use(trees@.nodes, id) && key_place(old(registry)@, id) is Some,
        r matches Err(e) ==> e == Error::Db(StoreError::ForeignKey) && final(registry)@ == old(
            registry,
        )@,
        r is Ok ==> final(registry)@ == (match key_place(old(registry)@, id) {
            Some(i) => old(registry)@.remove(i),
            None => old(registry)@,
        }),
{
    let ghost before = registry@;
    let mut place: usize = 0;
    while place < registry.keys.len() && registry.keys[place].id != id
        invariant
            place <= registry.keys.len(),
            before == registry@,
            forall|k: int| 0 <= k < place ==> (#[trigger] before[k]).id != id,
        decreases registry.keys.len() - place,
    {
        assert(before[place as int] == registry.keys@[place as int]@);
        place += 1;
    }
    if place >= registry.keys.len() {
        return Ok(());
    }
    assert(before[place as int] == registry.keys@[place as int]@);
    proof {
        let found = key_place(before, id)->0;
        assert(before[found].id == id);
        assert(found == place);
    }
    let mut i: usize = 0;
    while i < trees.nodes.len()
        invariant
            i <= trees.nodes.len(),
            before == registry@,
            *registry == *old(registry),
            registry_wf(before),
            key_place(before, id) is Some,
            forall|k: int| 0 <= k < i ==> (#[trigger] trees@.nodes[k]).hardware_key_id != Some(id),
        decreases trees.nodes.len() - i,
    {
        assert(trees@.nodes[i as int] == trees.nodes@[i as int]@);
        let used = match trees.nodes[i].hardware_key_id {
            Some(hardware_key_id) => hardware_key_id == id,
            None => false,
        };
        if used {
            return Err(Error::Db(StoreError::ForeignKey));
        }
        i += 1;
    }
    let _ = registry.keys.remove(place);
    proof {
        let after = registry@;
        assert(after =~= before.remove(place as int));
        assert forall|k: int| 0 <= k < after.len() implies (#[trigger] after[k]) == (if k < place {
            before[k]
        } else {
            before[k + 1]
        }) by {}
        assert forall|a: int, b: int| 0 <= a < b < after.len() implies (#[trigger] after[a]).id < (
        #[trigger] after[b]).id by {
            let x = if a < place { a } else { a + 1 };
            let y = if b < place { b } else { b + 1 };
            assert(before[x].id < before[y].id);
        }
    }
    Ok(())
}

/// Registering and then asking for the id gives the key back.
pub proof fn registered_key_is_found(before: Seq<HardwareKeyView>, key: HardwareKeyView)
    requires
        registry_wf(before.push(key)),
    ensures
        key_with_id(before.push(key), key.id) == Ok::<HardwareKeyView, Error>(key),
{
    let after = before.push(key);
    assert(after[before.len() as int] == key);
    let i = key_place(after, key.id)->0;
    assert(after[i].id == key.id);
    if i < before.len() {
        assert(after[i].id < after[before.len() as int].id);
    }
}

/// Ids tell registered keys apart.
proof fn lemma_one_key_per_id(keys: Seq<HardwareKeyView>, i: int, id: i64)
    requires
        registry_wf(keys),
        0 <= i < keys.len(),
        keys[i].id == id,
    ensures
        key_place(keys, id) == Some(i),
{
    let k = key_place(keys, id)->0;
    assert(keys[k].id == id);
    if k < i {
        assert(keys[k].id < keys[i].id);
    } else if i < k {
        assert(keys[i].id < keys[k].id);
    }
}

/// Asking for an id gives the key that has it, and the refusal of a row that is not
/// there where none has.
pub proof fn id_leads_to_its_key(keys: Seq<HardwareKeyView>, id: i64)
    requires
        registry_wf(keys),
    ensures
        forall|i: int|
            0 <= i < keys.len() && (#[trigger] keys[i]).id == id ==> key_with_id(keys, id) == Ok::<
                HardwareKeyView,
                Error,
            >(keys[i]),
        (forall|i: int| 0 <= i < keys.len() ==> (#[trigger] keys[i]).id != id) ==> key_with_id(
            keys,
            id,
        ) == Err::<HardwareKeyView, Error>(Error::Db(StoreError::NoRows)),
        active_encryption_key(keys, id) matches Ok(key) ==> key.id == id && keys.contains(key),
        active_encryption_key(keys, id) is Ok <==> exists|i: int|
            0 <= i < keys.len() && (#[trigger] keys[i]).id == id && keys[i].key_type
                == KeyType::Encryption && keys[i].revoked_at is None,
{
    assert forall|i: int| 0 <= i < keys.len() && (#[trigger] keys[i]).id == id implies key_with_id(
        keys,
        id,
    ) == Ok::<HardwareKeyView, Error>(keys[i]) by {
        lemma_one_key_per_id(keys, i, id);
    }
}

/// Revoking a key touches no other: every other id leads to the same key as before,
/// active or not. The revoked key keeps all but the moment of its revocation, and may
/// back no leaf any more.
pub proof fn revoking_touches_one_key(keys: Seq<HardwareKeyView>, id: i64, at: Seq<char>)
    requires
        registry_wf(keys),
    ensures
        revoked(keys, id, at).len() == keys.len(),
        forall|i: int|
            0 <= i < keys.len() && keys[i].id != id ==> (#[trigger] revoked(keys, id, at)[i])
                == keys[i],
        forall|i: int|
            0 <= i < keys.len() && keys[i].id == id ==> {
                let after = #[trigger] revoked(keys, id, at)[i];
                &&& after.revoked_at == Some(at)
                &&& after.id == keys[i].id
                &&& after.label == keys[i].label
                &&& after.key_type == keys[i].key_type
                &&& after.fingerprint == keys[i].fingerprint
                &&& after.public_key == keys[i].public_key
                &&& after.created_at == keys[i].created_at
            },
        forall|other: i64|
            other != id ==> (#[trigger] key_with_id(revoked(keys, id, at), other)) == key_with_id(
                keys,
                other,
            ) && active_encryption_key(revoked(keys, id, at), other) == active_encryption_key(
                keys,
                other,
            ),
        active_encryption_key(revoked(keys, id, at), id) is Err,
{
    let after = revoked(keys, id, at);
    assert(registry_wf(after)) by {
        assert forall|a: int, b: int| 0 <= a < b < after.len() implies (#[trigger] after[a]).id < (
        #[trigger] after[b]).id by {
            assert(keys[a].id < keys[b].id);
        }
        assert forall|a: int| 0 <= a < after.len() implies (#[trigger] after[a]).id > 0
            && after[a].public_key.len() == KEY_LEN by {
            assert(keys[a].id > 0 && keys[a].public_key.len() == KEY_LEN);
        }
    }
    assert forall|other: i64| other != id implies (#[trigger] key_with_id(after, other))
        == key_with_id(keys, other) && active_encryption_key(after, other)
        == active_encryption_key(keys, other) by {
        if exists|i: int| 0 <= i < keys.len() && (#[trigger] keys[i]).id == other {
            let i = choose|i: int| 0 <= i < keys.len() && (#[trigger] keys[i]).id == other;
            lemma_one_key_per_id(keys, i, other);
            assert(after[i] == keys[i]);
            lemma_one_key_per_id(after, i, other);
        } else {
            assert forall|i: int| 0 <= i < after.len() implies (#[trigger] after[i]).id != other by {
                assert(keys[i].id != other);
            }
        }
    }
    if exists|i: int| 0 <= i < after.len() && (#[trigger] after[i]).id == id {
        let i = choose|i: int| 0 <= i < after.len() && (#[trigger] after[i]).id == id;
        assert(keys[i].id == id);
        lemma_one_key_per_id(after, i, id);
    }
}

/// Registering a key and removing one touch no other: every other id leads to what it
/// did. A removed id leads nowhere.
pub proof fn other_keys_stay(keys: Seq<HardwareKeyView>, key: HardwareKeyView, i: int, other: i64)
    requires
        registry_wf(keys),
        registry_wf(keys.push(key)),
        0 <= i < keys.len(),
    ensures
        other != key.id ==> key_with_id(keys.push(key), other) == key_with_id(keys, other)
            && active_encryption_key(keys.push(key), other) == active_encryption_key(keys, other),
        other != keys[i].id ==> key_with_id(keys.remove(i), other) == key_with_id(keys, other),
        key_with_id(keys.remove(i), keys[i].id) is Err,
{
    let more = keys.push(key);
    let less = keys.remove(i);
    assert(registry_wf(less)) by {
        assert forall|a: int, b: int| 0 <= a < b < less.len() implies (#[trigger] less[a]).id < (
        #[trigger] less[b]).id by {
            let x = if a < i { a } else { a + 1 };
            let y = if b < i { b } else { b + 1 };
            assert(less[a] == keys[x] && less[b] == keys[y]);
            assert(keys[x].id < keys[y].id);
        }
        assert forall|a: int| 0 <= a < less.len() implies (#[trigger] less[a]).id > 0
            && less[a].public_key.len() == KEY_LEN by {
            let x = if a < i { a } else { a + 1 };
            assert(less[a] == keys[x]);
        }
    }
    if exists|k: int| 0 <= k < keys.len() && (#[trigger] keys[k]).id == other {
        let k = choose|k: int| 0 <= k < keys.len() && (#[trigger] keys[k]).id == other;
        lemma_one_key_per_id(keys, k, other);
        assert(more[k] == keys[k]);
        lemma_one_key_per_id(more, k, other);
        if other != keys[i].id {
            let m = if k < i { k } else { k - 1 };
            assert(less[m] == keys[k]);
            lemma_one_key_per_id(less, m, other);
        }
    } else {
        assert forall|k: int| 0 <= k < less.len() implies (#[trigger] less[k]).id != other by {
            let x = if k < i { k } else { k + 1 };
            assert(less[k] == keys[x]);
        }
        if other != key.id {
            assert forall|k: int| 0 <= k < more.len() implies (#[trigger] more[k]).id != other by {
                if k < keys.len() {
                    assert(more[k] == keys[k]);
                }
            }
        }
    }
    assert forall|k: int| 0 <= k < less.len() implies (#[trigger] less[k]).id != keys[i].id by {
        let x = if k < i { k } else { k + 1 };
        assert(less[k] == keys[x]);
        if x < i {
            assert(keys[x].id < keys[i].id);
        } else {
            assert(keys[i].id < keys[x].id);
        }
    }
}

/// Keys are counted from one on, without a gap.
pub proof fn registry_ids_count_on(rows: Seq<HardwareKeyView>, row: HardwareKeyView)
    ensures
        next_registry_id(Seq::<HardwareKeyView>::empty()) == 1,
        row.id == next_registry_id(rows) ==> next_registry_id(rows.push(row)) == next_registry_id(rows) + 1,
{
}

/// With a key its fingerprint is taken, and no other. Without keys none is. A key is in use
/// exactly while some node names it, active or not.
pub proof fn key_takes_its_fingerprint(
    keys: Seq<HardwareKeyView>,
    key: HardwareKeyView,
    fingerprint: Seq<char>,
    nodes: Seq<NodeRowView>,
    node: NodeRowView,
    id: i64,
)
    ensures
        fingerprint_taken(keys.push(key), fingerprint) <==> fingerprint_taken(keys, fingerprint)
            || key.fingerprint == fingerprint,
        !fingerprint_taken(Seq::empty(), fingerprint),
        key_in_use(nodes.push(node), id) <==> key_in_use(nodes, id) || node.hardware_key_id == Some(
            id,
        ),
        !key_in_use(Seq::empty(), id),
{
    let all = keys.push(key);
    if fingerprint_taken(keys, fingerprint) {
        let i = choose|i: int|
            0 <= i < keys.len() && (#[trigger] keys[i]).fingerprint == fingerprint;
        assert(all[i].fingerprint == fingerprint);
    }
    assert(all[keys.len() as int] == key);
    if fingerprint_taken(all, fingerprint) {
        let i = choose|i: int| 0 <= i < all.len() && (#[trigger] all[i]).fingerprint == fingerprint;
        if i < keys.len() {
            assert(keys[i].fingerprint == fingerprint);
        }
    }
    let rows = nodes.push(node);
    if key_in_use(nodes, id) {
        let i = choose|i: int|
            0 <= i < nodes.len() && (#[trigger] nodes[i]).hardware_key_id == Some(id);
        assert(rows[i].hardware_key_id == Some(id));
    }
    assert(rows[nodes.len() as int] == node);
    if key_in_use(rows, id) {
        let i = choose|i: int|
            0 <= i < rows.len() && (#[trigger] rows[i]).hardware_key_id == Some(id);
        if i < nodes.len() {
            assert(nodes[i].hardware_key_id == Some(id));
        }
    }
}

} // verus!
