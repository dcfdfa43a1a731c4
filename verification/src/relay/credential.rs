//! The relay keys that a client holds.
//!
//! The relay keeps only the digest of a bearer. The client keeps that digest too,
//! and the bearer itself encrypted under a key of its own, so that it does not
//! show in a listing of digests.

use vstd::prelude::*;
use vstd::string::*;
use vstd::utf8::*;

use crate::bytes::copy_bytes;
use crate::crypto::{
    aes_gcm_opened, aes_gcm_sealed, decrypt, encrypt, nonce_array, random_key, random_nonce, wipe,
    DecryptError, KEY_LEN, MAX_PLAINTEXT_LEN, NONCE_LEN,
};
use crate::encoding::text_from_utf8;
use crate::error::{fault_of, Error};
use crate::sealing::key_array;
use crate::text::{
    chars_of, copy_text, end_stripped, is_white, optional_text, start_trimmed, strip_end,
    text_equal, text_of, trim, trimmed, trimming_is_final,
};

verus! {

/// A relay key in the clear.
#[derive(Debug)]
pub struct StoredRelayKey {
    pub relay_url: String,
    pub scope: String,
    pub key_hash: String,
    pub token: String,
    pub remote_id: Option<i64>,
    pub label: Option<String>,
}

#[verifier::ext_equal]
pub struct StoredRelayKeyView {
    pub relay_url: Seq<char>,
    pub scope: Seq<char>,
    pub key_hash: Seq<char>,
    pub token: Seq<char>,
    pub remote_id: Option<i64>,
    pub label: Option<Seq<char>>,
}

impl View for StoredRelayKey {
    type V = StoredRelayKeyView;

    open spec fn view(&self) -> StoredRelayKeyView {
        StoredRelayKeyView {
            relay_url: self.relay_url@,
            scope: self.scope@,
            key_hash: self.key_hash@,
            token: self.token@,
            remote_id: self.remote_id,
            label: optional_text(self.label),
        }
    }
}

/// A relay key as it is kept.
#[derive(Debug)]
pub struct RelayKeyRow {
    pub relay_url: String,
    pub scope: String,
    pub key_hash: String,
    pub wrap_key: Vec<u8>,
    pub wrap_nonce: Vec<u8>,
    pub wrapped_token: Vec<u8>,
    pub remote_id: Option<i64>,
    pub label: Option<String>,
    pub last_checked_at: i64,
}

#[verifier::ext_equal]
pub struct RelayKeyRowView {
    pub relay_url: Seq<char>,
    pub scope: Seq<char>,
    pub key_hash: Seq<char>,
    pub wrap_key: Seq<u8>,
    pub wrap_nonce: Seq<u8>,
    pub wrapped_token: Seq<u8>,
    pub remote_id: Option<i64>,
    pub label: Option<Seq<char>>,
    pub last_checked_at: i64,
}

impl View for RelayKeyRow {
    type V = RelayKeyRowView;

    open spec fn view(&self) -> RelayKeyRowView {
        RelayKeyRowView {
            relay_url: self.relay_url@,
            scope: self.scope@,
            key_hash: self.key_hash@,
            wrap_key: self.wrap_key@,
            wrap_nonce: self.wrap_nonce@,
            wrapped_token: self.wrapped_token@,
            remote_id: self.remote_id,
            label: optional_text(self.label),
            last_checked_at: self.last_checked_at,
        }
    }
}

/// All relay keys of a client.
#[derive(Debug)]
pub struct RelayKeys {
    pub rows: Vec<RelayKeyRow>,
}

impl View for RelayKeys {
    type V = Seq<RelayKeyRowView>;

    open spec fn view(&self) -> Seq<RelayKeyRowView> {
        Seq::new(self.rows@.len(), |i: int| self.rows@[i]@)
    }
}

impl RelayKeyRowView {
    pub open spec fn is_for(self, relay_url: Seq<char>, scope: Seq<char>) -> bool {
        self.relay_url == relay_url && self.scope == scope
    }

    /// The key in the clear, or why it cannot be read.
    pub open spec fn unwrapped(self) -> Result<StoredRelayKeyView, Error> {
        if self.wrap_key.len() != KEY_LEN || self.wrap_nonce.len() != NONCE_LEN {
            Err(Error::IntegrityCheckFailed)
        } else {
            match token_in(aes_gcm_opened(self.wrap_key, self.wrap_nonce, self.wrapped_token)) {
                Ok(token) => Ok(
                    StoredRelayKeyView {
                        relay_url: self.relay_url,
                        scope: self.scope,
                        key_hash: self.key_hash,
                        token,
                        remote_id: self.remote_id,
                        label: self.label,
                    },
                ),
                Err(e) => Err(e),
            }
        }
    }
}

/// The bearer that a decrypted plaintext spells.
pub open spec fn token_in(opened: Option<Seq<u8>>) -> Result<Seq<char>, Error> {
    match opened {
        Some(plaintext) => if valid_utf8(plaintext) {
            Ok(decode_utf8(plaintext))
        } else {
            Err(Error::IntegrityCheckFailed)
        },
        None => Err(Error::IntegrityCheckFailed),
    }
}

/// No relay has two keys of one scope.
pub open spec fn relay_keys_wf(rows: Seq<RelayKeyRowView>) -> bool {
    forall|i: int, j: int|
        0 <= i < j < rows.len() ==> !(#[trigger] rows[i]).is_for(
            (#[trigger] rows[j]).relay_url,
            rows[j].scope,
        )
}

/// Where the key of a relay and a scope stands.
pub open spec fn relay_key_place(
    rows: Seq<RelayKeyRowView>,
    relay_url: Seq<char>,
    scope: Seq<char>,
) -> Option<int> {
    if exists|i: int| 0 <= i < rows.len() && (#[trigger] rows[i]).is_for(relay_url, scope) {
        Some(
            choose|i: int| 0 <= i < rows.len() && (#[trigger] rows[i]).is_for(relay_url, scope),
        )
    } else {
        None
    }
}

/// The form in which the address of a relay is kept: without white space around
/// it, and without slashes at its end.
pub open spec fn normal_url(url: Seq<char>) -> Seq<char> {
    end_stripped(trimmed(url), '/')
}

/// The form in which the address of a relay is kept.
pub fn normalize_url(url: &str) -> (r: String)
    ensures
        r@ == normal_url(url@),
{
    let chars = chars_of(url);
    let inner = trim(chars.as_slice());
    text_of(strip_end(inner.as_slice(), '/').as_slice())
}

impl RelayKeys {
    pub fn new() -> (r: RelayKeys)
        ensures
            r@ == Seq::<RelayKeyRowView>::empty(),
            relay_keys_wf(r@),
    {
        RelayKeys { rows: Vec::new() }
    }

    fn find(&self, relay_url: &str, scope: &str) -> (r: Option<usize>)
        requires
            relay_keys_wf(self@),
        ensures
            r is Some <==> relay_key_place(self@, relay_url@, scope@) is Some,
            r matches Some(i) ==> i < self@.len() && relay_key_place(self@, relay_url@, scope@)
                == Some(i as int) && self@[i as int].is_for(relay_url@, scope@),
    {
        let mut i: usize = 0;
        while i < self.rows.len()
            invariant
                i <= self.rows.len(),
                relay_keys_wf(self@),
                forall|k: int| 0 <= k < i ==> !(#[trigger] self@[k]).is_for(relay_url@, scope@),
            decreases self.rows.len() - i,
        {
            assert(self@[i as int] == self.rows@[i as int]@);
            if text_equal(self.rows[i].relay_url.as_str(), relay_url) && text_equal(
                self.rows[i].scope.as_str(),
                scope,
            ) {
                proof {
                    assert(self@[i as int].is_for(relay_url@, scope@));
                    let found = relay_key_place(self@, relay_url@, scope@)->0;
                    assert(self@[found].is_for(relay_url@, scope@));
                    if i < found {
                        assert(!self@[i as int].is_for(self@[found].relay_url, self@[found].scope));
                    }
                }
                return Some(i);
            }
            i += 1;
        }
        None
    }
}

/// A row that gives the key back.
pub open spec fn keeps(row: RelayKeyRowView, key: StoredRelayKeyView, now: i64) -> bool {
    &&& row.unwrapped() == Ok::<StoredRelayKeyView, Error>(
        StoredRelayKeyView { relay_url: normal_url(key.relay_url), ..key },
    )
    &&& row.relay_url == normal_url(key.relay_url)
    &&& row.scope == key.scope
    &&& row.last_checked_at == now
    &&& row.wrapped_token == aes_gcm_sealed(row.wrap_key, row.wrap_nonce, encode_utf8(key.token))
}

/// Keeps a key, in place of another one of the same relay and scope. Whatever is
/// drawn to encrypt the bearer, the row gives it back.
pub fn save(keys: &mut RelayKeys, key: &StoredRelayKey, now: i64)
    requires
        relay_keys_wf(old(keys)@),
        encode_utf8(key.token@).len() <= MAX_PLAINTEXT_LEN,
    ensures
        relay_keys_wf(final(keys)@),
        match relay_key_place(old(keys)@, normal_url(key.relay_url@), key.scope@) {
            Some(i) => {
                &&& final(keys)@ == old(keys)@.update(i, final(keys)@[i])
                &&& keeps(final(keys)@[i], key@, now)
            },
            None => {
                &&& final(keys)@ == old(keys)@.push(final(keys)@.last())
                &&& keeps(final(keys)@.last(), key@, now)
            },
        },
{
    let relay_url = normalize_url(key.relay_url.as_str());
    let mut wrap_key = random_key();
    let wrap_nonce = random_nonce();
    let wrapped_token = encrypt(&wrap_key, &wrap_nonce, key.token.as_str().as_bytes());
    let found = keys.find(relay_url.as_str(), key.scope.as_str());
    let row = RelayKeyRow {
        relay_url,
        scope: key.scope.as_str().to_owned(),
        key_hash: key.key_hash.as_str().to_owned(),
        wrap_key: copy_bytes(&wrap_key),
        wrap_nonce: copy_bytes(&wrap_nonce),
        wrapped_token,
        remote_id: key.remote_id,
        label: copy_text(&key.label),
        last_checked_at: now,
    };
    wipe(&mut wrap_key);
    let ghost added = row@;
    let ghost before = keys@;
    proof {
        encode_utf8_valid_utf8(key.token@);
        encode_utf8_decode_utf8(key.token@);
        assert(keeps(added, key@, now));
    }
    match found {
        Some(i) => {
            keys.rows.set(i, row);
            proof {
                let after = keys@;
                assert(after =~= before.update(i as int, added));
                assert forall|a: int, b: int| 0 <= a < b < after.len() implies !(
                #[trigger] after[a]).is_for((#[trigger] after[b]).relay_url, after[b].scope) by {
                    assert(!before[a].is_for(before[b].relay_url, before[b].scope));
                }
            }
        },
        None => {
            keys.rows.push(row);
            proof {
                let after = keys@;
                assert(after =~= before.push(added));
                assert forall|a: int, b: int| 0 <= a < b < after.len() implies !(
                #[trigger] after[a]).is_for((#[trigger] after[b]).relay_url, after[b].scope) by {
                    if b < before.len() {
                        assert(!before[a].is_for(before[b].relay_url, before[b].scope));
                    } else {
                        assert(!before[a].is_for(added.relay_url, added.scope));
                    }
                }
            }
        },
    }
}

/// The bearer that a decrypted plaintext spells.
pub fn token_from(opened: Result<Vec<u8>, DecryptError>) -> (r: Result<String, Error>)
    ensures
        token_in(
            match opened {
                Ok(plaintext) => Some(plaintext@),
                Err(_) => None,
            },
        ) == (match r {
            Ok(token) => Ok(token@),
            Err(e) => Err(e),
        }),
{
    match opened {
        Err(_) => Err(Error::IntegrityCheckFailed),
        Ok(plaintext) => match text_from_utf8(plaintext) {
            Some(token) => {
                proof {
                    encode_utf8_decode_utf8(token@);
                }
                Ok(token)
            },
            None => Err(Error::IntegrityCheckFailed),
        },
    }
}

/// The outcome of reading a row.
pub open spec fn read_result(r: Result<StoredRelayKey, Error>) -> Result<
    StoredRelayKeyView,
    Error,
> {
    match r {
        Ok(key) => Ok(key@),
        Err(e) => Err(e),
    }
}

/// Reads a key in the clear.
pub fn unwrap_row(row: &RelayKeyRow) -> (r: Result<StoredRelayKey, Error>)
    ensures
        read_result(r) == row@.unwrapped(),
{
    let wrap_key = match key_array(row.wrap_key.as_slice()) {
        Some(key) => key,
        None => return Err(Error::IntegrityCheckFailed),
    };
    let wrap_nonce = match nonce_array(row.wrap_nonce.as_slice()) {
        Some(nonce) => nonce,
        None => return Err(Error::IntegrityCheckFailed),
    };
    match token_from(decrypt(&wrap_key, &wrap_nonce, row.wrapped_token.as_slice())) {
        Ok(token) => Ok(
            StoredRelayKey {
                relay_url: row.relay_url.as_str().to_owned(),
                scope: row.scope.as_str().to_owned(),
                key_hash: row.key_hash.as_str().to_owned(),
                token,
                remote_id: row.remote_id,
                label: copy_text(&row.label),
            },
        ),
        Err(e) => Err(e),
    }
}

/// The key of a relay and a scope, if there is one.
pub fn get(keys: &RelayKeys, relay_url: &str, scope: &str) -> (r: Result<
    Option<StoredRelayKey>,
    Error,
>)
    requires
        relay_keys_wf(keys@),
    ensures
        match relay_key_place(keys@, normal_url(relay_url@), scope@) {
            None => r matches Ok(None),
            Some(i) => match keys@[i].unwrapped() {
                Ok(key) => r matches Ok(Some(have)) && have@ == key,
                Err(e) => fault_of(r) == Some(e),
            },
        },
{
    let url = normalize_url(relay_url);
    match keys.find(url.as_str(), scope) {
        None => Ok(None),
        Some(i) => {
            assert(keys@[i as int] == keys.rows@[i as int]@);
            match unwrap_row(&keys.rows[i]) {
                Ok(key) => Ok(Some(key)),
                Err(e) => Err(e),
            }
        },
    }
}

/// The rows of a scope among the first `n`.
pub open spec fn of_scope(rows: Seq<RelayKeyRowView>, n: int, scope: Seq<char>) -> Seq<
    RelayKeyRowView,
>
    decreases n,
{
    if n <= 0 {
        Seq::empty()
    } else {
        let before = of_scope(rows, n - 1, scope);
        if rows[n - 1].scope == scope {
            before.push(rows[n - 1])
        } else {
            before
        }
    }
}

/// All keys of a scope. If one of them cannot be read, none is given.
pub fn get_for_scope(keys: &RelayKeys, scope: &str) -> (r: Result<Vec<StoredRelayKey>, Error>)
    ensures
        ({
            let rows = of_scope(keys@, keys@.len() as int, scope@);
            match r {
                Ok(out) => {
                    &&& out@.len() == rows.len()
                    &&& forall|k: int|
                        0 <= k < rows.len() ==> (#[trigger] rows[k]).unwrapped() == Ok::<
                            StoredRelayKeyView,
                            Error,
                        >(out@[k]@)
                },
                Err(e) => {
                    &&& e == Error::IntegrityCheckFailed
                    &&& exists|k: int|
                        0 <= k < rows.len() && (#[trigger] rows[k]).unwrapped() is Err
                },
            }
        }),
{
    let mut out: Vec<StoredRelayKey> = Vec::new();
    let mut i: usize = 0;
    while i < keys.rows.len()
        invariant
            i <= keys.rows.len(),
            ({
                let rows = of_scope(keys@, i as int, scope@);
                &&& out@.len() == rows.len()
                &&& forall|k: int|
                    0 <= k < rows.len() ==> (#[trigger] rows[k]).unwrapped() == Ok::<
                        StoredRelayKeyView,
                        Error,
                    >(out@[k]@)
            }),
        decreases keys.rows.len() - i,
    {
        assert(keys@[i as int] == keys.rows@[i as int]@);
        if text_equal(keys.rows[i].scope.as_str(), scope) {
            match unwrap_row(&keys.rows[i]) {
                Ok(key) => {
                    out.push(key);
                },
                Err(e) => {
                    proof {
                        let rows = of_scope(keys@, i + 1, scope@);
                        assert(rows[rows.len() - 1].unwrapped() is Err);
                        lemma_of_scope_grows(keys@, i + 1, keys@.len() as int, scope@);
                        let all = of_scope(keys@, keys@.len() as int, scope@);
                        assert(all[rows.len() - 1] == rows[rows.len() - 1]);
                    }
                    return Err(e);
                },
            }
        }
        i += 1;
    }
    Ok(out)
}

proof fn lemma_of_scope_grows(rows: Seq<RelayKeyRowView>, m: int, n: int, scope: Seq<char>)
    requires
        0 <= m <= n <= rows.len(),
    ensures
        of_scope(rows, m, scope).len() <= of_scope(rows, n, scope).len(),
        forall|k: int|
            0 <= k < of_scope(rows, m, scope).len() ==> #[trigger] of_scope(rows, n, scope)[k]
                == of_scope(rows, m, scope)[k],
    decreases n - m,
{
    if m < n {
        lemma_of_scope_grows(rows, m, n - 1, scope);
    }
}

/// Puts on record that a key was checked.
pub fn touch_checked(keys: &mut RelayKeys, relay_url: &str, scope: &str, now: i64)
    requires
        relay_keys_wf(old(keys)@),
    ensures
        relay_keys_wf(final(keys)@),
        final(keys)@ == (match relay_key_place(old(keys)@, normal_url(relay_url@), scope@) {
            None => old(keys)@,
            Some(i) => old(keys)@.update(
                i,
                RelayKeyRowView { last_checked_at: now, ..old(keys)@[i] },
            ),
        }),
{
    let url = normalize_url(relay_url);
    let ghost before = keys@;
    if let Some(i) = keys.find(url.as_str(), scope) {
        assert(before[i as int] == keys.rows@[i as int]@);
        keys.rows[i].last_checked_at = now;
        proof {
            let after = keys@;
            assert(after =~= before.update(
                i as int,
                RelayKeyRowView { last_checked_at: now, ..before[i as int] },
            ));
            assert forall|a: int, b: int| 0 <= a < b < after.len() implies !(
            #[trigger] after[a]).is_for((#[trigger] after[b]).relay_url, after[b].scope) by {
                assert(!before[a].is_for(before[b].relay_url, before[b].scope));
            }
        }
    }
}

/// Forgets the key of a relay and a scope, if there is one.
pub fn delete(keys: &mut RelayKeys, relay_url: &str, scope: &str)
    requires
        relay_keys_wf(old(keys)@),
    ensures
        relay_keys_wf(final(keys)@),
        final(keys)@ == (match relay_key_place(old(keys)@, normal_url(relay_url@), scope@) {
            None => old(keys)@,
            Some(i) => old(keys)@.remove(i),
        }),
{
    let url = normalize_url(relay_url);
    let ghost before = keys@;
    if let Some(i) = keys.find(url.as_str(), scope) {
        let _ = keys.rows.remove(i);
        proof {
            let after = keys@;
            assert(after =~= before.remove(i as int));
            assert forall|a: int, b: int| 0 <= a < b < after.len() implies !(
            #[trigger] after[a]).is_for((#[trigger] after[b]).relay_url, after[b].scope) by {
                let x = if a < i {
                    a
                } else {
                    a + 1
                };
                let y = if b < i {
                    b
                } else {
                    b + 1
                };
                assert(!before[x].is_for(before[y].relay_url, before[y].scope));
            }
        }
    }
}

proof fn lemma_end_stripped(s: Seq<char>, c: char)
    ensures
        end_stripped(s, c).len() <= s.len(),
        end_stripped(s, c) == s.take(end_stripped(s, c).len() as int),
        end_stripped(s, c).len() > 0 ==> end_stripped(s, c).last() != c,
        forall|k: int| end_stripped(s, c).len() <= k < s.len() ==> #[trigger] s[k] == c,
    decreases s.len(),
{
    if s.len() > 0 && s.last() == c {
        lemma_end_stripped(s.drop_last(), c);
        let n = end_stripped(s, c).len() as int;
        assert(s.drop_last().take(n) =~= s.take(n));
        assert forall|k: int| n <= k < s.len() implies #[trigger] s[k] == c by {
            if k < s.len() - 1 {
                assert(s.drop_last()[k] == c);
            }
        }
    } else {
        assert(s.take(s.len() as int) =~= s);
    }
}

/// An address is kept in one form: normalising again changes nothing, unless
/// white space stands before the slashes at its end.
pub proof fn normal_url_is_final(url: Seq<char>)
    requires
        normal_url(url).len() > 0 ==> !is_white(normal_url(url).last()),
    ensures
        normal_url(normal_url(url)) == normal_url(url),
{
    let once = normal_url(url);
    trimming_is_final(url);
    lemma_end_stripped(trimmed(url), '/');
    if once.len() > 0 {
        assert(once[0] == trimmed(url)[0]);
    }
    assert(start_trimmed(once) == once);
    assert(trimmed(once) == once);
}

/// The form in which an address is kept starts where its text does and ends in no slash.
/// All that it lacks at the end is slashes.
pub proof fn kept_address_ends_in_no_slash(url: Seq<char>)
    ensures
        normal_url(url).len() > 0 ==> normal_url(url).last() != '/',
        normal_url(url).len() <= trimmed(url).len(),
        normal_url(url) == trimmed(url).take(normal_url(url).len() as int),
        forall|k: int|
            normal_url(url).len() <= k < trimmed(url).len() ==> #[trigger] trimmed(url)[k] == '/',
        trimmed(url).len() > 0 ==> !is_white(trimmed(url)[0]) && !is_white(trimmed(url).last()),
{
    lemma_end_stripped(trimmed(url), '/');
    trimming_is_final(url);
}

/// A relay and a scope lead to the one key that is kept for both.
pub proof fn relay_and_scope_lead_to_their_key(
    rows: Seq<RelayKeyRowView>,
    relay_url: Seq<char>,
    scope: Seq<char>,
    i: int,
)
    requires
        relay_keys_wf(rows),
    ensures
        0 <= i < rows.len() && rows[i].relay_url == relay_url && rows[i].scope == scope
            ==> relay_key_place(rows, relay_url, scope) == Some(i),
        (forall|k: int|
            0 <= k < rows.len() ==> !((#[trigger] rows[k]).relay_url == relay_url && rows[k].scope
                == scope)) ==> relay_key_place(rows, relay_url, scope) is None,
{
    if 0 <= i < rows.len() && rows[i].relay_url == relay_url && rows[i].scope == scope {
        assert(rows[i].is_for(relay_url, scope));
        let k = relay_key_place(rows, relay_url, scope)->0;
        assert(rows[k].is_for(relay_url, scope));
        if k < i {
            assert(!rows[k].is_for(rows[i].relay_url, rows[i].scope));
        } else if i < k {
            assert(!rows[i].is_for(rows[k].relay_url, rows[k].scope));
        }
    }
    if forall|k: int|
        0 <= k < rows.len() ==> !((#[trigger] rows[k]).relay_url == relay_url && rows[k].scope
            == scope) {
        assert forall|k: int| 0 <= k < rows.len() implies !(#[trigger] rows[k]).is_for(
            relay_url,
            scope,
        ) by {}
    }
}

/// A kept key is read back as it was saved, its address in the kept form.
pub proof fn saved_key_is_read_back(row: RelayKeyRowView, key: StoredRelayKeyView, now: i64)
    requires
        keeps(row, key, now),
    ensures
        ({
            let read = row.unwrapped();
            &&& read matches Ok(have) && {
                &&& have.token == key.token
                &&& have.key_hash == key.key_hash
                &&& have.scope == key.scope
                &&& have.remote_id == key.remote_id
                &&& have.label == key.label
                &&& have.relay_url == normal_url(key.relay_url)
            }
            &&& row.key_hash == key.key_hash
            &&& row.remote_id == key.remote_id
            &&& row.label == key.label
            &&& row.scope == key.scope
            &&& row.last_checked_at == now
        }),
{
}

/// The keys of a scope are exactly those that are kept for it, in order.
pub proof fn scope_gathers_its_keys(rows: Seq<RelayKeyRowView>, n: int, scope: Seq<char>)
    requires
        0 <= n <= rows.len(),
    ensures
        forall|row: RelayKeyRowView| #[trigger]
            of_scope(rows, n, scope).contains(row) <==> exists|i: int|
                0 <= i < n && #[trigger] rows[i] == row && row.scope == scope,
        of_scope(rows, n, scope).len() <= n,
    decreases n,
{
    let all = of_scope(rows, n, scope);
    if n > 0 {
        scope_gathers_its_keys(rows, n - 1, scope);
        let before = of_scope(rows, n - 1, scope);
        assert forall|row: RelayKeyRowView| #[trigger] all.contains(row) <==> exists|i: int|
            0 <= i < n && #[trigger] rows[i] == row && row.scope == scope by {
            if all.contains(row) {
                let k = choose|k: int| 0 <= k < all.len() && all[k] == row;
                if k < before.len() {
                    assert(before[k] == row);
                    assert(before.contains(row));
                } else {
                    assert(rows[n - 1] == row);
                }
            }
            if before.contains(row) {
                let k = choose|k: int| 0 <= k < before.len() && before[k] == row;
                assert(all[k] == row);
            }
            if rows[n - 1] == row && row.scope == scope {
                assert(all[before.len() as int] == row);
            }
        }
    } else {
        assert forall|row: RelayKeyRowView| !#[trigger] all.contains(row) by {}
    }
}

/// A kept key is read exactly if its wrapping key and nonce are such and what is wrapped
/// decrypts to text. Anything else was tampered with.
pub proof fn kept_keys_that_are_read(row: RelayKeyRowView)
    ensures
        ({
            let opened = aes_gcm_opened(row.wrap_key, row.wrap_nonce, row.wrapped_token);
            &&& row.unwrapped() is Ok <==> row.wrap_key.len() == 32 && row.wrap_nonce.len() == 12
                && opened is Some && valid_utf8(opened->0)
            &&& row.unwrapped() matches Ok(have) ==> have.token == decode_utf8(opened->0)
                && have.relay_url == row.relay_url && have.scope == row.scope && have.key_hash
                == row.key_hash && have.remote_id == row.remote_id && have.label == row.label
            &&& row.unwrapped() matches Err(e) ==> e == Error::IntegrityCheckFailed
        }),
{
}

} // verus!
