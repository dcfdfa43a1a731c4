//! Bearer keys of the relay: what they may do, when they end, and that only their
//! digests are kept.

use vstd::prelude::*;

use crate::clock::{after, instant_after};
use crate::crypto::random_bytes;
use crate::encoding::{
    base64url_bytes, base64url_decode, base64url_encode, base64url_text, hex_encode, hex_text,
    is_digest_text, lemma_hex_digest_text, sha256, sha256_digest,
};
use crate::error::{fault_of, Error, StoreError};
use crate::text::{
    begins_with, chars_of, concat, copy_text, has_prefix, optional_text, part, text_equal, text_of,
};

verus! {

/// The length of a bearer before it is encoded.
pub const BEARER_LEN: usize = 32;

/// What a key may do.
#[derive(Clone, Copy, PartialEq, Eq, Debug, Structural)]
pub enum ApiKeyScope {
    InboxPush,
    InboxPull,
    Admin,
}

impl ApiKeyScope {
    pub open spec fn text(self) -> Seq<char> {
        match self {
            ApiKeyScope::InboxPush => "inbox.push"@,
            ApiKeyScope::InboxPull => "inbox.pull"@,
            ApiKeyScope::Admin => "admin"@,
        }
    }

    /// The name that is stored.
    pub fn as_str(self) -> (r: &'static str)
        ensures
            r@ == self.text(),
    {
        match self {
            ApiKeyScope::InboxPush => "inbox.push",
            ApiKeyScope::InboxPull => "inbox.pull",
            ApiKeyScope::Admin => "admin",
        }
    }

    /// The scope with a name.
    pub fn parse(name: &str) -> (r: Result<ApiKeyScope, Error>)
        ensures
            match r {
                Ok(scope) => scope.text() == name@,
                Err(e) => e == Error::InvalidApiKeyRequest && forall|scope: ApiKeyScope|
                    #[trigger] scope.text() != name@,
            },
    {
        if text_equal(name, "inbox.push") {
            Ok(ApiKeyScope::InboxPush)
        } else if text_equal(name, "inbox.pull") {
            Ok(ApiKeyScope::InboxPull)
        } else if text_equal(name, "admin") {
            Ok(ApiKeyScope::Admin)
        } else {
            Err(Error::InvalidApiKeyRequest)
        }
    }
}

/// What is asked of a new key.
#[derive(Debug)]
pub struct NewApiKey {
    pub scope: ApiKeyScope,
    pub recipient_fingerprint: Option<String>,
    pub label: Option<String>,
    pub ttl_seconds: Option<i64>,
}

/// A key as it is kept.
#[derive(Debug)]
pub struct ApiKeyRow {
    pub id: i64,
    pub scope: ApiKeyScope,
    pub key_hash: String,
    pub recipient_fingerprint: Option<String>,
    pub label: Option<String>,
    pub created_at: String,
    pub expires_at: Option<i64>,
    pub revoked_at: Option<i64>,
    pub last_used_at: Option<i64>,
}

#[verifier::ext_equal]
pub struct ApiKeyRowView {
    pub id: i64,
    pub scope: ApiKeyScope,
    pub key_hash: Seq<char>,
    pub recipient_fingerprint: Option<Seq<char>>,
    pub label: Option<Seq<char>>,
    pub created_at: Seq<char>,
    pub expires_at: Option<i64>,
    pub revoked_at: Option<i64>,
    pub last_used_at: Option<i64>,
}

impl View for ApiKeyRow {
    type V = ApiKeyRowView;

    open spec fn view(&self) -> ApiKeyRowView {
        ApiKeyRowView {
            id: self.id,
            scope: self.scope,
            key_hash: self.key_hash@,
            recipient_fingerprint: optional_text(self.recipient_fingerprint),
            label: optional_text(self.label),
            created_at: self.created_at@,
            expires_at: self.expires_at,
            revoked_at: self.revoked_at,
            last_used_at: self.last_used_at,
        }
    }
}

/// All keys, in the order of their ids.
#[derive(Debug)]
pub struct ApiKeys {
    pub rows: Vec<ApiKeyRow>,
}

impl View for ApiKeys {
    type V = Seq<ApiKeyRowView>;

    open spec fn view(&self) -> Seq<ApiKeyRowView> {
        Seq::new(self.rows@.len(), |i: int| self.rows@[i]@)
    }
}

/// A key that was just made, and its bearer.
#[derive(Debug)]
pub struct CreatedApiKey {
    pub id: i64,
    pub token: String,
}

/// A key that a bearer was recognised as.
#[derive(Debug)]
pub struct AuthedKey {
    pub id: i64,
    pub scope: ApiKeyScope,
    pub recipient_fingerprint: Option<String>,
}

/// Ids are positive and ascend, and no two keys have one digest.
pub open spec fn api_keys_wf(rows: Seq<ApiKeyRowView>) -> bool {
    &&& forall|i: int| 0 <= i < rows.len() ==> (#[trigger] rows[i]).id > 0
    &&& forall|i: int, j: int|
        0 <= i < j < rows.len() ==> (#[trigger] rows[i]).id < (#[trigger] rows[j]).id
    &&& forall|i: int, j: int|
        0 <= i < j < rows.len() ==> (#[trigger] rows[i]).key_hash != (#[trigger] rows[j]).key_hash
}

/// The id that the next key gets.
pub open spec fn next_api_key_id(rows: Seq<ApiKeyRowView>) -> int {
    if rows.len() == 0 {
        1
    } else {
        rows.last().id + 1
    }
}

/// Where the key with a digest stands.
pub open spec fn hash_place(rows: Seq<ApiKeyRowView>, key_hash: Seq<char>) -> Option<int> {
    if exists|i: int| 0 <= i < rows.len() && (#[trigger] rows[i]).key_hash == key_hash {
        Some(choose|i: int| 0 <= i < rows.len() && (#[trigger] rows[i]).key_hash == key_hash)
    } else {
        None
    }
}

/// Where the key with an id stands.
pub open spec fn api_key_place(rows: Seq<ApiKeyRowView>, id: i64) -> Option<int> {
    if exists|i: int| 0 <= i < rows.len() && (#[trigger] rows[i]).id == id {
        Some(choose|i: int| 0 <= i < rows.len() && (#[trigger] rows[i]).id == id)
    } else {
        None
    }
}

/// The bytes behind a bearer, if it is one.
pub open spec fn bearer_raw(token: Seq<char>) -> Option<Seq<u8>> {
    if begins_with(token, "kq_"@) {
        base64url_bytes(token.skip(3))
    } else {
        None
    }
}

/// The digest of a bearer, if it is one.
pub open spec fn bearer_digest(token: Seq<char>) -> Option<Seq<char>> {
    match bearer_raw(token) {
        Some(raw) => Some(hex_text(sha256(raw))),
        None => None,
    }
}

/// Where the key that a bearer was handed out for stands.
pub open spec fn bearer_place(rows: Seq<ApiKeyRowView>, token: Seq<char>) -> Option<int> {
    match bearer_digest(token) {
        Some(digest) => hash_place(rows, digest),
        None => None,
    }
}

/// The digest of a bearer, if it is one.
pub fn hash_bearer(token: &str) -> (r: Result<String, Error>)
    ensures
        match r {
            Ok(digest) => bearer_digest(token@) == Some(digest@) && is_digest_text(digest@),
            Err(e) => bearer_digest(token@) is None && e == Error::InvalidApiKey,
        },
{
    let chars = chars_of(token);
    if !has_prefix(chars.as_slice(), "kq_") {
        return Err(Error::InvalidApiKey);
    }
    proof {
        reveal_strlit("kq_");
    }
    let body = text_of(part(chars.as_slice(), 3, chars.len()).as_slice());
    assert(body@ =~= token@.skip(3));
    match base64url_decode(body.as_str()) {
        Some(raw) => {
            let digest = sha256_digest(raw.as_slice());
            proof {
                lemma_hex_digest_text(digest@);
            }
            Ok(hex_encode(&digest))
        },
        None => Err(Error::InvalidApiKey),
    }
}

/// A fresh bearer and the digest that is kept of it.
fn generate_bearer() -> (r: (String, String))
    ensures
        bearer_digest(r.0@) == Some(r.1@),
        exists|raw: Seq<u8>|
            raw.len() == BEARER_LEN && r.0@ == "kq_"@ + #[trigger] base64url_text(raw),
{
    let raw = random_bytes(BEARER_LEN);
    let body = base64url_encode(raw.as_slice());
    let token = concat("kq_", body.as_str());
    proof {
        reveal_strlit("kq_");
        assert(token@.skip(3) =~= body@);
        assert(token@.take(3) =~= "kq_"@);
    }
    let digest = hex_encode(&sha256_digest(raw.as_slice()));
    (token, digest)
}

impl ApiKeys {
    pub fn new() -> (r: ApiKeys)
        ensures
            r@ == Seq::<ApiKeyRowView>::empty(),
            api_keys_wf(r@),
    {
        ApiKeys { rows: Vec::new() }
    }

    fn find_hash(&self, key_hash: &str) -> (r: Option<usize>)
        requires
            api_keys_wf(self@),
        ensures
            r is Some <==> hash_place(self@, key_hash@) is Some,
            r matches Some(i) ==> i < self@.len() && hash_place(self@, key_hash@) == Some(i as int)
                && self@[i as int].key_hash == key_hash@,
    {
        let mut i: usize = 0;
        while i < self.rows.len()
            invariant
                i <= self.rows.len(),
                api_keys_wf(self@),
                forall|k: int| 0 <= k < i ==> (#[trigger] self@[k]).key_hash != key_hash@,
            decreases self.rows.len() - i,
        {
            assert(self@[i as int] == self.rows@[i as int]@);
            if text_equal(self.rows[i].key_hash.as_str(), key_hash) {
                proof {
                    let found = hash_place(self@, key_hash@)->0;
                    assert(self@[found].key_hash == key_hash@);
                    assert(found == i);
                }
                return Some(i);
            }
            i += 1;
        }
        None
    }

    fn find_id(&self, id: i64) -> (r: Option<usize>)
        requires
            api_keys_wf(self@),
        ensures
            r is Some <==> api_key_place(self@, id) is Some,
            r matches Some(i) ==> i < self@.len() && api_key_place(self@, id) == Some(i as int)
                && self@[i as int].id == id,
    {
        let mut i: usize = 0;
        while i < self.rows.len()
            invariant
                i <= self.rows.len(),
                api_keys_wf(self@),
                forall|k: int| 0 <= k < i ==> (#[trigger] self@[k]).id != id,
            decreases self.rows.len() - i,
        {
            assert(self@[i as int] == self.rows@[i as int]@);
            if self.rows[i].id == id {
                proof {
                    let found = api_key_place(self@, id)->0;
                    assert(self@[found].id == id);
                    assert(found == i);
                }
                return Some(i);
            }
            i += 1;
        }
        None
    }

    fn next_id(&self) -> (r: i64)
        requires
            api_keys_wf(self@),
            next_api_key_id(self@) <= i64::MAX,
        ensures
            r == next_api_key_id(self@),
    {
        let count: usize = self.rows.len();
        if count == 0 {
            1
        } else {
            assert(self@[count - 1] == self.rows@[count - 1]@);
            self.rows[count - 1].id + 1
        }
    }

    fn push(&mut self, row: ApiKeyRow)
        requires
            api_keys_wf(old(self)@),
            row@.id == next_api_key_id(old(self)@),
            hash_place(old(self)@, row@.key_hash) is None,
        ensures
            api_keys_wf(final(self)@),
            final(self)@ == old(self)@.push(row@),
    {
        let ghost before = self@;
        let ghost added = row@;
        self.rows.push(row);
        proof {
            let after = self@;
            assert(after =~= before.push(added));
            let count = before.len();
            if count > 0 {
                assert(before[count - 1].id > 0);
            }
            assert forall|a: int, b: int| 0 <= a < b < after.len() implies (#[trigger] after[a]).id
                < (#[trigger] after[b]).id && after[a].key_hash != after[b].key_hash by {
                if b == before.len() {
                    assert(after[a] == before[a]);
                    if a < before.len() - 1 {
                        assert(before[a].id < before[before.len() - 1].id);
                    }
                } else {
                    assert(before[a].id < before[b].id);
                }
            }
            assert forall|a: int| 0 <= a < after.len() implies (#[trigger] after[a]).id > 0 by {
                if a < before.len() {
                    assert(after[a] == before[a]);
                }
            }
        }
    }
}

/// When a key with a time to live ends. Zero seconds, and an end beyond the
/// calendar, are none.
pub open spec fn key_end(now: i64, ttl_seconds: Option<i64>) -> Result<Option<i64>, Error> {
    match ttl_seconds {
        None => Ok(None),
        Some(seconds) => if seconds == 0 || instant_after(now, seconds) is None {
            Err(Error::InvalidApiKeyRequest)
        } else {
            Ok(instant_after(now, seconds))
        },
    }
}

/// Why a key cannot be made, if it cannot. A key that pulls is bound to a
/// recipient, and no other is.
pub open spec fn request_fault(
    scope: ApiKeyScope,
    recipient_fingerprint: Option<Seq<char>>,
    ttl_seconds: Option<i64>,
    now: i64,
) -> Option<Error> {
    if (scope == ApiKeyScope::InboxPull) != (recipient_fingerprint is Some) {
        Some(Error::InvalidApiKeyRequest)
    } else {
        fault_of(key_end(now, ttl_seconds))
    }
}

/// The row of a new key.
pub open spec fn new_row(
    id: int,
    request: NewApiKey,
    key_hash: Seq<char>,
    created_at: Seq<char>,
    now: i64,
) -> ApiKeyRowView {
    ApiKeyRowView {
        id: id as i64,
        scope: request.scope,
        key_hash,
        recipient_fingerprint: optional_text(request.recipient_fingerprint),
        label: optional_text(request.label),
        created_at,
        expires_at: match request.ttl_seconds {
            None => None,
            Some(seconds) => instant_after(now, seconds),
        },
        revoked_at: None,
        last_used_at: None,
    }
}

/// Adds a key under the digest of its bearer.
pub fn add_key(
    keys: &mut ApiKeys,
    request: &NewApiKey,
    key_hash: &str,
    created_at: &str,
    now: i64,
) -> (r: Result<i64, Error>)
    requires
        api_keys_wf(old(keys)@),
        next_api_key_id(old(keys)@) <= i64::MAX,
    ensures
        api_keys_wf(final(keys)@),
        fault_of(r) == (match request_fault(
            request.scope,
            optional_text(request.recipient_fingerprint),
            request.ttl_seconds,
            now,
        ) {
            Some(e) => Some(e),
            None => if hash_place(old(keys)@, key_hash@) is Some {
                Some(Error::Db(StoreError::ApiKeyHash))
            } else {
                None
            },
        }),
        r is Err ==> final(keys)@ == old(keys)@,
        r matches Ok(id) ==> id == next_api_key_id(old(keys)@) && final(keys)@ == old(keys)@.push(
            new_row(id as int, *request, key_hash@, created_at@, now),
        ),
{
    let pulls = match request.scope {
        ApiKeyScope::InboxPull => true,
        _ => false,
    };
    if pulls != request.recipient_fingerprint.is_some() {
        return Err(Error::InvalidApiKeyRequest);
    }
    let expires_at: Option<i64> = match request.ttl_seconds {
        None => None,
        Some(seconds) => {
            if seconds == 0 {
                return Err(Error::InvalidApiKeyRequest);
            }
            match after(now, seconds) {
                Some(end) => Some(end),
                None => return Err(Error::InvalidApiKeyRequest),
            }
        },
    };
    if keys.find_hash(key_hash).is_some() {
        return Err(Error::Db(StoreError::ApiKeyHash));
    }
    let id: i64 = keys.next_id();
    keys.push(
        ApiKeyRow {
            id,
            scope: request.scope,
            key_hash: key_hash.to_owned(),
            recipient_fingerprint: copy_text(&request.recipient_fingerprint),
            label: copy_text(&request.label),
            created_at: created_at.to_owned(),
            expires_at,
            revoked_at: None,
            last_used_at: None,
        },
    );
    Ok(id)
}

/// Some bearer is recognised as one of the keys. Only then can one that is drawn
/// be taken already.
pub open spec fn bearer_may_be_taken(rows: Seq<ApiKeyRowView>) -> bool {
    exists|token: Seq<char>| #[trigger] bearer_place(rows, token) is Some
}

/// A key that was just made stands last, and its bearer is recognised as it.
pub open spec fn minted(rows: Seq<ApiKeyRowView>, id: i64, token: Seq<char>) -> bool {
    &&& rows.len() > 0
    &&& rows.last().id == id
    &&& bearer_digest(token) == Some(rows.last().key_hash)
    &&& bearer_place(rows, token) == Some(rows.len() - 1)
    &&& begins_with(token, "kq_"@)
}

proof fn lemma_minted(rows: Seq<ApiKeyRowView>, token: Seq<char>)
    requires
        api_keys_wf(rows),
        rows.len() > 0,
        bearer_digest(token) == Some(rows.last().key_hash),
    ensures
        minted(rows, rows.last().id, token),
{
    let digest = rows.last().key_hash;
    assert(rows[rows.len() - 1].key_hash == digest);
    let found = hash_place(rows, digest)->0;
    assert(rows[found].key_hash == digest);
    assert(found == rows.len() - 1);
}

/// Makes a key with a fresh bearer, which is handed out once.
///
/// Should the digest of the bearer that is drawn be taken already, the key is
/// refused.
pub fn create(keys: &mut ApiKeys, request: &NewApiKey, created_at: &str, now: i64) -> (r: Result<
    CreatedApiKey,
    Error,
>)
    requires
        api_keys_wf(old(keys)@),
        next_api_key_id(old(keys)@) <= i64::MAX,
    ensures
        api_keys_wf(final(keys)@),
        r is Err ==> final(keys)@ == old(keys)@,
        request_fault(
            request.scope,
            optional_text(request.recipient_fingerprint),
            request.ttl_seconds,
            now,
        ) matches Some(e) ==> fault_of(r) == Some(e),
        request_fault(
            request.scope,
            optional_text(request.recipient_fingerprint),
            request.ttl_seconds,
            now,
        ) is None ==> r is Ok || fault_of(r) == Some(Error::Db(StoreError::ApiKeyHash))
            && bearer_may_be_taken(old(keys)@),
        r matches Ok(created) ==> {
            &&& created.id == next_api_key_id(old(keys)@)
            &&& final(keys)@ == old(keys)@.push(
                new_row(
                    created.id as int,
                    *request,
                    final(keys)@.last().key_hash,
                    created_at@,
                    now,
                ),
            )
            &&& minted(final(keys)@, created.id, created.token@)
        },
{
    let (token, digest) = generate_bearer();
    let ghost before = keys@;
    match add_key(keys, request, digest.as_str(), created_at, now) {
        Ok(id) => {
            proof {
                lemma_minted(keys@, token@);
            }
            Ok(CreatedApiKey { id, token })
        },
        Err(e) => {
            assert(hash_place(before, digest@) is Some ==> bearer_place(before, token@) is Some);
            Err(e)
        },
    }
}

/// Makes a first key that may do everything, where there is no key yet.
pub fn bootstrap_admin_if_empty(keys: &mut ApiKeys, created_at: &str, now: i64) -> (r: Option<
    CreatedApiKey,
>)
    requires
        api_keys_wf(old(keys)@),
    ensures
        api_keys_wf(final(keys)@),
        r is Some <==> old(keys)@.len() == 0,
        r is None ==> final(keys)@ == old(keys)@,
        r matches Some(created) ==> {
            &&& created.id == 1
            &&& final(keys)@ == seq![
                ApiKeyRowView {
                    id: 1,
                    scope: ApiKeyScope::Admin,
                    key_hash: final(keys)@[0].key_hash,
                    recipient_fingerprint: None,
                    label: None,
                    created_at: created_at@,
                    expires_at: None,
                    revoked_at: None,
                    last_used_at: None,
                },
            ]
            &&& minted(final(keys)@, created.id, created.token@)
        },
{
    if keys.rows.len() != 0 {
        return None;
    }
    let request = NewApiKey {
        scope: ApiKeyScope::Admin,
        recipient_fingerprint: None,
        label: None,
        ttl_seconds: None,
    };
    match create(keys, &request, created_at, now) {
        Ok(created) => Some(created),
        Err(_) => None,
    }
}

impl ApiKeyRowView {
    /// Why the key does not serve for a scope, if it does not.
    pub open spec fn fault(self, required: ApiKeyScope, now: i64) -> Option<Error> {
        if self.revoked_at is Some {
            Some(Error::ApiKeyRevoked)
        } else if self.expires_at matches Some(end) && end <= now {
            Some(Error::ApiKeyExpired)
        } else if self.scope != required {
            Some(Error::ApiKeyScopeDenied)
        } else {
            None
        }
    }
}

/// Why a bearer does not serve for a scope, if it does not.
pub open spec fn bearer_fault(
    rows: Seq<ApiKeyRowView>,
    token: Seq<char>,
    required: ApiKeyScope,
    now: i64,
) -> Option<Error> {
    match bearer_place(rows, token) {
        None => Some(Error::InvalidApiKey),
        Some(i) => rows[i].fault(required, now),
    }
}

/// The keys after a bearer was used: the use is put on record.
pub open spec fn after_use(rows: Seq<ApiKeyRowView>, token: Seq<char>, now: i64) -> Seq<
    ApiKeyRowView,
> {
    match bearer_place(rows, token) {
        None => rows,
        Some(i) => rows.update(i, ApiKeyRowView { last_used_at: Some(now), ..rows[i] }),
    }
}

/// Recognises a bearer for a scope.
pub fn authenticate(keys: &mut ApiKeys, token: &str, required: ApiKeyScope, now: i64) -> (r: Result<
    AuthedKey,
    Error,
>)
    requires
        api_keys_wf(old(keys)@),
    ensures
        api_keys_wf(final(keys)@),
        fault_of(r) == bearer_fault(old(keys)@, token@, required, now),
        r is Err ==> final(keys)@ == old(keys)@,
        r matches Ok(key) ==> {
            &&& final(keys)@ == after_use(old(keys)@, token@, now)
            &&& bearer_place(old(keys)@, token@) matches Some(i) && {
                &&& key.id == old(keys)@[i].id
                &&& key.scope == old(keys)@[i].scope
                &&& optional_text(key.recipient_fingerprint) == old(keys)@[i].recipient_fingerprint
            }
        },
{
    let digest = match hash_bearer(token) {
        Ok(digest) => digest,
        Err(e) => return Err(e),
    };
    let i = match keys.find_hash(digest.as_str()) {
        Some(i) => i,
        None => return Err(Error::InvalidApiKey),
    };
    let ghost before = keys@;
    assert(before[i as int] == keys.rows@[i as int]@);
    if keys.rows[i].revoked_at.is_some() {
        return Err(Error::ApiKeyRevoked);
    }
    if let Some(end) = keys.rows[i].expires_at {
        if end <= now {
            return Err(Error::ApiKeyExpired);
        }
    }
    if keys.rows[i].scope != required {
        return Err(Error::ApiKeyScopeDenied);
    }
    keys.rows[i].last_used_at = Some(now);
    proof {
        assert(keys@ =~= before.update(
            i as int,
            ApiKeyRowView { last_used_at: Some(now), ..before[i as int] },
        ));
        lemma_same_identity(before, keys@);
    }
    Ok(
        AuthedKey {
            id: keys.rows[i].id,
            scope: keys.rows[i].scope,
            recipient_fingerprint: copy_text(&keys.rows[i].recipient_fingerprint),
        },
    )
}

proof fn lemma_same_identity(before: Seq<ApiKeyRowView>, after: Seq<ApiKeyRowView>)
    requires
        api_keys_wf(before),
        after.len() == before.len(),
        forall|k: int|
            0 <= k < before.len() ==> (#[trigger] after[k]).id == before[k].id && after[k].key_hash
                == before[k].key_hash,
    ensures
        api_keys_wf(after),
{
    assert forall|a: int, b: int| 0 <= a < b < after.len() implies (#[trigger] after[a]).id < (
    #[trigger] after[b]).id && after[a].key_hash != after[b].key_hash by {
        assert(before[a].id < before[b].id);
        assert(before[a].key_hash != before[b].key_hash);
    }
    assert forall|a: int| 0 <= a < after.len() implies (#[trigger] after[a]).id > 0 by {
        assert(before[a].id > 0);
    }
}

/// A key as it is shown: without its digest.
#[derive(Debug)]
pub struct ApiKeyInfo {
    pub id: i64,
    pub scope: ApiKeyScope,
    pub recipient_fingerprint: Option<String>,
    pub label: Option<String>,
    pub created_at: String,
    pub expires_at: Option<i64>,
    pub revoked_at: Option<i64>,
    pub last_used_at: Option<i64>,
}

/// What is shown is the key.
pub open spec fn shows(info: ApiKeyInfo, row: ApiKeyRowView) -> bool {
    &&& info.id == row.id
    &&& info.scope == row.scope
    &&& optional_text(info.recipient_fingerprint) == row.recipient_fingerprint
    &&& optional_text(info.label) == row.label
    &&& info.created_at@ == row.created_at
    &&& info.expires_at == row.expires_at
    &&& info.revoked_at == row.revoked_at
    &&& info.last_used_at == row.last_used_at
}

/// All keys, in the order of their ids.
pub fn list(keys: &ApiKeys) -> (r: Vec<ApiKeyInfo>)
    ensures
        r@.len() == keys@.len(),
        forall|i: int| 0 <= i < r@.len() ==> shows(#[trigger] r@[i], keys@[i]),
{
    let mut out: Vec<ApiKeyInfo> = Vec::new();
    let mut i: usize = 0;
    while i < keys.rows.len()
        invariant
            i <= keys.rows.len(),
            out@.len() == i,
            forall|k: int| 0 <= k < i ==> shows(#[trigger] out@[k], keys@[k]),
        decreases keys.rows.len() - i,
    {
        let row = &keys.rows[i];
        assert(keys@[i as int] == row@);
        out.push(
            ApiKeyInfo {
                id: row.id,
                scope: row.scope,
                recipient_fingerprint: copy_text(&row.recipient_fingerprint),
                label: copy_text(&row.label),
                created_at: row.created_at.as_str().to_owned(),
                expires_at: row.expires_at,
                revoked_at: row.revoked_at,
                last_used_at: row.last_used_at,
            },
        );
        i += 1;
    }
    out
}

/// Whether a key is good, and what it is for. Of a key that is not, nothing is
/// told.
#[derive(Debug, PartialEq, Eq)]
pub struct KeyCheck {
    pub valid: bool,
    pub id: Option<i64>,
    pub scope: Option<String>,
    pub recipient_fingerprint: Option<String>,
    pub label: Option<String>,
}

#[verifier::ext_equal]
pub struct KeyCheckView {
    pub valid: bool,
    pub id: Option<i64>,
    pub scope: Option<Seq<char>>,
    pub recipient_fingerprint: Option<Seq<char>>,
    pub label: Option<Seq<char>>,
}

impl View for KeyCheck {
    type V = KeyCheckView;

    open spec fn view(&self) -> KeyCheckView {
        KeyCheckView {
            valid: self.valid,
            id: self.id,
            scope: optional_text(self.scope),
            recipient_fingerprint: optional_text(self.recipient_fingerprint),
            label: optional_text(self.label),
        }
    }
}

/// What is told of the key at a place.
pub open spec fn checked(rows: Seq<ApiKeyRowView>, place: Option<int>, now: i64) -> KeyCheckView {
    match place {
        Some(i) => if rows[i].fault(rows[i].scope, now) is None {
            KeyCheckView {
                valid: true,
                id: Some(rows[i].id),
                scope: Some(rows[i].scope.text()),
                recipient_fingerprint: rows[i].recipient_fingerprint,
                label: rows[i].label,
            }
        } else {
            unknown_key()
        },
        None => unknown_key(),
    }
}

/// What is told of a key that is not good.
pub open spec fn unknown_key() -> KeyCheckView {
    KeyCheckView { valid: false, id: None, scope: None, recipient_fingerprint: None, label: None }
}

/// Whether the key with a digest is good. No use is put on record.
pub fn check_hash(keys: &ApiKeys, key_hash: &str, now: i64) -> (r: KeyCheck)
    requires
        api_keys_wf(keys@),
    ensures
        r@ == checked(keys@, hash_place(keys@, key_hash@), now),
{
    let unknown = KeyCheck {
        valid: false,
        id: None,
        scope: None,
        recipient_fingerprint: None,
        label: None,
    };
    match keys.find_hash(key_hash) {
        None => unknown,
        Some(i) => {
            assert(keys@[i as int] == keys.rows@[i as int]@);
            let row = &keys.rows[i];
            let ended = match row.expires_at {
                Some(end) => end <= now,
                None => false,
            };
            if row.revoked_at.is_some() || ended {
                return unknown;
            }
            KeyCheck {
                valid: true,
                id: Some(row.id),
                scope: Some(row.scope.as_str().to_owned()),
                recipient_fingerprint: copy_text(&row.recipient_fingerprint),
                label: copy_text(&row.label),
            }
        },
    }
}

/// Whether a bearer is good. No use is put on record.
pub fn check_token(keys: &ApiKeys, token: &str, now: i64) -> (r: KeyCheck)
    requires
        api_keys_wf(keys@),
    ensures
        r@ == checked(keys@, bearer_place(keys@, token@), now),
{
    match hash_bearer(token) {
        Ok(digest) => check_hash(keys, digest.as_str(), now),
        Err(_) => KeyCheck {
            valid: false,
            id: None,
            scope: None,
            recipient_fingerprint: None,
            label: None,
        },
    }
}

/// The keys with one of them revoked.
pub open spec fn with_revoked(rows: Seq<ApiKeyRowView>, i: int, now: i64) -> Seq<ApiKeyRowView> {
    rows.update(i, ApiKeyRowView { revoked_at: Some(now), ..rows[i] })
}

/// Revokes a key.
pub fn revoke(keys: &mut ApiKeys, id: i64, now: i64) -> (r: Result<(), Error>)
    requires
        api_keys_wf(old(keys)@),
    ensures
        api_keys_wf(final(keys)@),
        match api_key_place(old(keys)@, id) {
            None => fault_of(r) == Some(Error::ApiKeyNotFound) && final(keys)@ == old(keys)@,
            Some(i) => r is Ok && final(keys)@ == with_revoked(old(keys)@, i, now),
        },
{
    let ghost before = keys@;
    match keys.find_id(id) {
        None => Err(Error::ApiKeyNotFound),
        Some(i) => {
            assert(before[i as int] == keys.rows@[i as int]@);
            keys.rows[i].revoked_at = Some(now);
            proof {
                assert(keys@ =~= with_revoked(before, i as int, now));
                lemma_same_identity(before, keys@);
            }
            Ok(())
        },
    }
}

/// Why a key cannot be replaced by one under a digest, if it cannot.
pub open spec fn rotation_fault(rows: Seq<ApiKeyRowView>, id: i64, key_hash: Seq<char>) -> Option<
    Error,
> {
    match api_key_place(rows, id) {
        None => Some(Error::ApiKeyNotFound),
        Some(i) => if rows[i].revoked_at is Some {
            Some(Error::ApiKeyRevoked)
        } else if hash_place(rows, key_hash) is Some {
            Some(Error::Db(StoreError::ApiKeyHash))
        } else {
            None
        },
    }
}

/// The keys with the one at a place revoked, and one of the same kind behind them.
pub open spec fn with_rotated(
    rows: Seq<ApiKeyRowView>,
    i: int,
    new_id: i64,
    key_hash: Seq<char>,
    created_at: Seq<char>,
    now: i64,
) -> Seq<ApiKeyRowView> {
    with_revoked(rows, i, now).push(
        ApiKeyRowView { id: new_id, key_hash, created_at, last_used_at: None, ..rows[i] },
    )
}

/// Replaces a key that is not revoked by one of the same kind under the digest of
/// another bearer, and revokes it.
pub fn rotate_to(keys: &mut ApiKeys, id: i64, key_hash: &str, created_at: &str, now: i64) -> (r:
    Result<i64, Error>)
    requires
        api_keys_wf(old(keys)@),
        next_api_key_id(old(keys)@) <= i64::MAX,
    ensures
        api_keys_wf(final(keys)@),
        r is Err ==> final(keys)@ == old(keys)@,
        fault_of(r) == rotation_fault(old(keys)@, id, key_hash@),
        r matches Ok(new_id) ==> {
            &&& new_id == next_api_key_id(old(keys)@)
            &&& final(keys)@ == with_rotated(
                old(keys)@,
                api_key_place(old(keys)@, id)->0,
                new_id,
                key_hash@,
                created_at@,
                now,
            )
        },
{
    let ghost before = keys@;
    let i = match keys.find_id(id) {
        Some(i) => i,
        None => return Err(Error::ApiKeyNotFound),
    };
    assert(before[i as int] == keys.rows@[i as int]@);
    if keys.rows[i].revoked_at.is_some() {
        return Err(Error::ApiKeyRevoked);
    }
    if keys.find_hash(key_hash).is_some() {
        return Err(Error::Db(StoreError::ApiKeyHash));
    }
    let new_id: i64 = keys.next_id();
    let row = ApiKeyRow {
        id: new_id,
        scope: keys.rows[i].scope,
        key_hash: key_hash.to_owned(),
        recipient_fingerprint: copy_text(&keys.rows[i].recipient_fingerprint),
        label: copy_text(&keys.rows[i].label),
        created_at: created_at.to_owned(),
        expires_at: keys.rows[i].expires_at,
        revoked_at: None,
        last_used_at: None,
    };
    keys.rows[i].revoked_at = Some(now);
    let ghost middle = keys@;
    proof {
        assert(middle =~= with_revoked(before, i as int, now));
        lemma_same_identity(before, middle);
        assert(middle.len() == before.len());
        assert(middle[middle.len() - 1].id == before[before.len() - 1].id);
        if hash_place(middle, row@.key_hash) is Some {
            let k = choose|k: int|
                0 <= k < middle.len() && (#[trigger] middle[k]).key_hash == row@.key_hash;
            assert(before[k].key_hash == row@.key_hash);
        }
    }
    keys.push(row);
    Ok(new_id)
}

/// Replaces a key that is not revoked by a fresh one of the same kind, and
/// revokes it.
///
/// Should the digest of the bearer that is drawn be taken already, nothing
/// changes.
pub fn rotate(keys: &mut ApiKeys, id: i64, created_at: &str, now: i64) -> (r: Result<
    CreatedApiKey,
    Error,
>)
    requires
        api_keys_wf(old(keys)@),
        next_api_key_id(old(keys)@) <= i64::MAX,
    ensures
        api_keys_wf(final(keys)@),
        r is Err ==> final(keys)@ == old(keys)@,
        match api_key_place(old(keys)@, id) {
            None => fault_of(r) == Some(Error::ApiKeyNotFound),
            Some(i) => if old(keys)@[i].revoked_at is Some {
                fault_of(r) == Some(Error::ApiKeyRevoked)
            } else {
                &&& r is Ok || fault_of(r) == Some(Error::Db(StoreError::ApiKeyHash))
                    && bearer_may_be_taken(old(keys)@)
                &&& r matches Ok(created) ==> {
                    &&& created.id == next_api_key_id(old(keys)@)
                    &&& final(keys)@ == with_rotated(
                        old(keys)@,
                        i,
                        created.id,
                        final(keys)@.last().key_hash,
                        created_at@,
                        now,
                    )
                    &&& minted(final(keys)@, created.id, created.token@)
                }
            },
        },
{
    let (token, digest) = generate_bearer();
    let ghost before = keys@;
    match rotate_to(keys, id, digest.as_str(), created_at, now) {
        Ok(new_id) => {
            proof {
                lemma_minted(keys@, token@);
            }
            Ok(CreatedApiKey { id: new_id, token })
        },
        Err(e) => {
            assert(hash_place(before, digest@) is Some ==> bearer_place(before, token@) is Some);
            Err(e)
        },
    }
}

/// A bearer of a key that is not revoked, not over and of the right scope is
/// recognised, also after other keys were made.
pub proof fn bearer_stays_good(
    rows: Seq<ApiKeyRowView>,
    later: Seq<ApiKeyRowView>,
    token: Seq<char>,
    required: ApiKeyScope,
    now: i64,
)
    requires
        api_keys_wf(rows + later),
        bearer_fault(rows, token, required, now) is None,
    ensures
        bearer_fault(rows + later, token, required, now) is None,
{
    let all = rows + later;
    let digest = bearer_digest(token)->0;
    let i = hash_place(rows, digest)->0;
    assert(rows[i].key_hash == digest);
    assert(all[i] == rows[i]);
    let j = hash_place(all, digest)->0;
    assert(all[j].key_hash == digest);
    if i < j {
        assert(all[i].key_hash != all[j].key_hash);
    } else if j < i {
        assert(all[j].key_hash != all[i].key_hash);
    }
}

/// A check tells of a bearer what its use would: it is good exactly where it would
/// be let in for some scope.
pub proof fn check_tells_what_use_would(rows: Seq<ApiKeyRowView>, token: Seq<char>, now: i64)
    ensures
        checked(rows, bearer_place(rows, token), now).valid <==> exists|scope: ApiKeyScope|
            #[trigger]
            bearer_fault(rows, token, scope, now) is None,
{
    if let Some(i) = bearer_place(rows, token) {
        let own = bearer_fault(rows, token, rows[i].scope, now);
        assert(own == rows[i].fault(rows[i].scope, now));
    }
}

/// A revoked key serves for nothing.
pub proof fn revoked_key_is_refused(
    rows: Seq<ApiKeyRowView>,
    token: Seq<char>,
    at: i64,
    required: ApiKeyScope,
    now: i64,
)
    requires
        api_keys_wf(rows),
        bearer_place(rows, token) is Some,
    ensures
        bearer_fault(
            with_revoked(rows, bearer_place(rows, token)->0, at),
            token,
            required,
            now,
        ) == Some(Error::ApiKeyRevoked),
{
    let digest = bearer_digest(token)->0;
    let i = hash_place(rows, digest)->0;
    assert(rows[i].key_hash == digest);
    let after = with_revoked(rows, i, at);
    assert(after[i].key_hash == digest);
    let j = hash_place(after, digest)->0;
    assert(after[j].key_hash == digest);
    assert(rows[j].key_hash == digest);
    if i < j {
        assert(rows[i].key_hash != rows[j].key_hash);
    } else if j < i {
        assert(rows[j].key_hash != rows[i].key_hash);
    }
}

proof fn lemma_one_key_per_digest(rows: Seq<ApiKeyRowView>, i: int, key_hash: Seq<char>)
    requires
        api_keys_wf(rows),
        0 <= i < rows.len(),
        rows[i].key_hash == key_hash,
    ensures
        hash_place(rows, key_hash) == Some(i),
{
    let k = hash_place(rows, key_hash)->0;
    assert(rows[k].key_hash == key_hash);
    if k < i {
        assert(rows[k].key_hash != rows[i].key_hash);
    } else if i < k {
        assert(rows[i].key_hash != rows[k].key_hash);
    }
}

proof fn lemma_one_key_per_id(rows: Seq<ApiKeyRowView>, i: int, id: i64)
    requires
        api_keys_wf(rows),
        0 <= i < rows.len(),
        rows[i].id == id,
    ensures
        api_key_place(rows, id) == Some(i),
{
    let k = api_key_place(rows, id)->0;
    assert(rows[k].id == id);
    if k < i {
        assert(rows[k].id < rows[i].id);
    } else if i < k {
        assert(rows[i].id < rows[k].id);
    }
}

/// A key can be made exactly where it is bound to a recipient if it pulls and to none
/// otherwise, and has no end or one other than now that the calendar has.
pub proof fn keys_that_can_be_made(
    scope: ApiKeyScope,
    recipient_fingerprint: Option<Seq<char>>,
    ttl_seconds: Option<i64>,
    now: i64,
)
    ensures
        request_fault(scope, recipient_fingerprint, ttl_seconds, now) is None <==> {
            &&& recipient_fingerprint is Some <==> scope == ApiKeyScope::InboxPull
            &&& ttl_seconds matches Some(seconds) ==> seconds != 0 && -210866760000 <= now + seconds
                <= 253402300799
        },
        request_fault(scope, recipient_fingerprint, ttl_seconds, now) matches Some(e) ==> e
            == Error::InvalidApiKeyRequest,
{
}

/// A new key is what was asked for: its scope, recipient and label, an end so many
/// seconds from now or none, and neither revoked nor used.
pub proof fn new_key_is_what_was_asked_for(
    id: i64,
    request: NewApiKey,
    key_hash: Seq<char>,
    created_at: Seq<char>,
    now: i64,
)
    requires
        request_fault(
            request.scope,
            optional_text(request.recipient_fingerprint),
            request.ttl_seconds,
            now,
        ) is None,
    ensures
        ({
            let row = new_row(id as int, request, key_hash, created_at, now);
            &&& row.id == id
            &&& row.scope == request.scope
            &&& row.key_hash == key_hash
            &&& row.recipient_fingerprint == optional_text(request.recipient_fingerprint)
            &&& row.label == optional_text(request.label)
            &&& row.created_at == created_at
            &&& row.expires_at is Some <==> request.ttl_seconds is Some
            &&& request.ttl_seconds matches Some(seconds) ==> row.expires_at->0 == now + seconds
            &&& row.revoked_at is None
            &&& row.last_used_at is None
        }),
{
}

/// A key serves for its own scope and no other, while it is not revoked and before its
/// end; one without an end has none. The refusals go in this order.
pub proof fn key_serves_for_its_own_scope(row: ApiKeyRowView, required: ApiKeyScope, now: i64)
    ensures
        row.revoked_at is Some ==> row.fault(required, now) == Some(Error::ApiKeyRevoked),
        row.revoked_at is None && row.expires_at is Some && now >= row.expires_at->0 ==> row.fault(
            required,
            now,
        ) == Some(Error::ApiKeyExpired),
        row.revoked_at is None && (row.expires_at is None || now < row.expires_at->0) ==> row.fault(
            required,
            now,
        ) == (if row.scope == required {
            None
        } else {
            Some(Error::ApiKeyScopeDenied)
        }),
{
}

/// A bearer is recognised as the key that keeps its digest, and as none where no key
/// does or it is no bearer.
pub proof fn bearer_leads_to_its_key(
    rows: Seq<ApiKeyRowView>,
    token: Seq<char>,
    required: ApiKeyScope,
    now: i64,
    i: int,
)
    requires
        api_keys_wf(rows),
    ensures
        0 <= i < rows.len() && begins_with(token, "kq_"@) && base64url_bytes(token.skip(3)) is Some
            && rows[i].key_hash == hex_text(sha256(base64url_bytes(token.skip(3))->0)) ==> {
            &&& bearer_place(rows, token) == Some(i)
            &&& bearer_fault(rows, token, required, now) == rows[i].fault(required, now)
        },
        !begins_with(token, "kq_"@) || base64url_bytes(token.skip(3)) is None || (forall|k: int|
            0 <= k < rows.len() ==> (#[trigger] rows[k]).key_hash != hex_text(
                sha256(base64url_bytes(token.skip(3))->0),
            )) ==> bearer_fault(rows, token, required, now) == Some(Error::InvalidApiKey),
{
    if 0 <= i < rows.len() && begins_with(token, "kq_"@) && base64url_bytes(token.skip(3)) is Some
        && rows[i].key_hash == hex_text(sha256(base64url_bytes(token.skip(3))->0)) {
        lemma_one_key_per_digest(rows, i, rows[i].key_hash);
    }
}

/// A use puts its moment on record with the key that was used, and changes nothing
/// else.
pub proof fn use_touches_one_key(rows: Seq<ApiKeyRowView>, token: Seq<char>, now: i64, j: int)
    requires
        api_keys_wf(rows),
        0 <= j < rows.len(),
    ensures
        ({
            let after = after_use(rows, token, now);
            &&& after.len() == rows.len()
            &&& bearer_place(rows, token) != Some(j) ==> after[j] == rows[j]
            &&& bearer_place(rows, token) == Some(j) ==> {
                &&& after[j].last_used_at == Some(now)
                &&& after[j].id == rows[j].id
                &&& after[j].scope == rows[j].scope
                &&& after[j].key_hash == rows[j].key_hash
                &&& after[j].recipient_fingerprint == rows[j].recipient_fingerprint
                &&& after[j].label == rows[j].label
                &&& after[j].created_at == rows[j].created_at
                &&& after[j].expires_at == rows[j].expires_at
                &&& after[j].revoked_at == rows[j].revoked_at
            }
        }),
{
}

/// Revoking a key touches no other, and of the one only whether it is revoked.
pub proof fn revoking_touches_one_key(rows: Seq<ApiKeyRowView>, i: int, now: i64, j: int)
    requires
        api_keys_wf(rows),
        0 <= i < rows.len(),
        0 <= j < rows.len(),
    ensures
        ({
            let after = with_revoked(rows, i, now);
            &&& after.len() == rows.len()
            &&& j != i ==> after[j] == rows[j]
            &&& after[i].revoked_at == Some(now)
            &&& after[i].id == rows[i].id
            &&& after[i].scope == rows[i].scope
            &&& after[i].key_hash == rows[i].key_hash
            &&& after[i].recipient_fingerprint == rows[i].recipient_fingerprint
            &&& after[i].label == rows[i].label
            &&& after[i].created_at == rows[i].created_at
            &&& after[i].expires_at == rows[i].expires_at
            &&& after[i].last_used_at == rows[i].last_used_at
            &&& api_key_place(rows, rows[i].id) == Some(i)
        }),
{
    lemma_one_key_per_id(rows, i, rows[i].id);
}

/// A key can be replaced exactly where it is there, not revoked, and no key has the new
/// digest. Its successor has the same scope, recipient, label and end, was not used and
/// serves where it did; it serves no more, and no other key changes.
pub proof fn successor_takes_over(
    rows: Seq<ApiKeyRowView>,
    i: int,
    new_id: i64,
    key_hash: Seq<char>,
    created_at: Seq<char>,
    required: ApiKeyScope,
    now: i64,
    later: i64,
)
    requires
        api_keys_wf(rows),
        0 <= i < rows.len(),
    ensures
        rotation_fault(rows, rows[i].id, key_hash) is None <==> rows[i].revoked_at is None && (
        forall|k: int| 0 <= k < rows.len() ==> (#[trigger] rows[k]).key_hash != key_hash),
        rows[i].revoked_at is Some ==> rotation_fault(rows, rows[i].id, key_hash) == Some(
            Error::ApiKeyRevoked,
        ),
        rows[i].revoked_at is None ==> ({
            let after = with_rotated(rows, i, new_id, key_hash, created_at, now);
            let old_key = after[i];
            let new_key = after[rows.len() as int];
            &&& after.len() == rows.len() + 1
            &&& forall|j: int| 0 <= j < rows.len() && j != i ==> (#[trigger] after[j]) == rows[j]
            &&& old_key.revoked_at == Some(now)
            &&& old_key.key_hash == rows[i].key_hash && old_key.id == rows[i].id
            &&& old_key.fault(required, later) == Some(Error::ApiKeyRevoked)
            &&& new_key.id == new_id
            &&& new_key.key_hash == key_hash
            &&& new_key.created_at == created_at
            &&& new_key.scope == rows[i].scope
            &&& new_key.recipient_fingerprint == rows[i].recipient_fingerprint
            &&& new_key.label == rows[i].label
            &&& new_key.expires_at == rows[i].expires_at
            &&& new_key.revoked_at is None
            &&& new_key.last_used_at is None
            &&& new_key.fault(required, later) == rows[i].fault(required, later)
        }),
{
    lemma_one_key_per_id(rows, i, rows[i].id);
}

/// What is told of a good key is its own id, scope, recipient and label; of one that is
/// revoked or over, nothing.
pub proof fn check_tells_of_good_keys_only(rows: Seq<ApiKeyRowView>, i: int, now: i64)
    requires
        0 <= i < rows.len(),
    ensures
        ({
            let told = checked(rows, Some(i), now);
            let good = rows[i].revoked_at is None && (rows[i].expires_at is None || now
                < rows[i].expires_at->0);
            &&& told.valid == good
            &&& good ==> told.id == Some(rows[i].id) && told.scope == Some(rows[i].scope.text())
                && told.recipient_fingerprint == rows[i].recipient_fingerprint && told.label
                == rows[i].label
            &&& !good ==> told.id is None && told.scope is None && told.recipient_fingerprint
                is None && told.label is None
        }),
        !checked(rows, None, now).valid,
        checked(rows, None, now).id is None,
        checked(rows, None, now).scope is None,
        checked(rows, None, now).recipient_fingerprint is None,
        checked(rows, None, now).label is None,
{
}

/// Keys are counted from one on, without a gap.
pub proof fn key_ids_count_on(rows: Seq<ApiKeyRowView>, row: ApiKeyRowView)
    ensures
        next_api_key_id(Seq::<ApiKeyRowView>::empty()) == 1,
        row.id == next_api_key_id(rows) ==> next_api_key_id(rows.push(row)) == next_api_key_id(rows) + 1,
{
}

/// A bearer that was just made is recognised as that of the last key, which is kept under
/// its digest, and starts as bearers do.
pub proof fn new_bearer_is_recognised(rows: Seq<ApiKeyRowView>, id: i64, token: Seq<char>)
    requires
        minted(rows, id, token),
    ensures
        rows.len() > 0,
        rows.last().id == id,
        bearer_place(rows, token) == Some(rows.len() - 1),
        begins_with(token, "kq_"@),
        base64url_bytes(token.skip(3)) matches Some(raw) && rows.last().key_hash == hex_text(
            sha256(raw),
        ),
{
}

} // verus!
