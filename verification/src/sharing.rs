//! Share links for credentials and locked files, limited in time and in uses,
//! and revocable.
//!
//! The bearer token of a share is handed out once. Only its digest is kept, and a
//! token is found by its digest.

use vstd::prelude::*;

use crate::clock::{after, instant_after, utc_of, utc_text};
use crate::crypto::random_bytes;
use crate::encoding::{
    base64url_bytes, base64url_decode, base64url_encode, base64url_text, hex_encode, hex_text,
    sha256, sha256_digest,
};
use crate::error::{fault_of, Error, StoreError};
use crate::locked_files::{file_place, files_wf, LockedFiles};
use crate::text::text_equal;
use crate::vault::{credential_place, vault_wf, Vault};

verus! {

/// The length of a token before it is encoded.
pub const TOKEN_LEN: usize = 32;

/// What is shared.
#[derive(Clone, Copy, PartialEq, Eq, Debug, Structural)]
pub enum ShareKind {
    Credential,
    File,
}

impl ShareKind {
    /// The refusal of a share that would end beyond the calendar.
    pub open spec fn endless(self) -> Error {
        match self {
            ShareKind::Credential => Error::Db(StoreError::CredentialShareEnd),
            ShareKind::File => Error::Db(StoreError::FileShareEnd),
        }
    }

    /// The refusal of a share whose digest is taken.
    pub open spec fn taken(self) -> Error {
        match self {
            ShareKind::Credential => Error::Db(StoreError::CredentialShareToken),
            ShareKind::File => Error::Db(StoreError::FileShareToken),
        }
    }

    fn endless_error(self) -> (r: Error)
        ensures
            r == self.endless(),
    {
        match self {
            ShareKind::Credential => Error::Db(StoreError::CredentialShareEnd),
            ShareKind::File => Error::Db(StoreError::FileShareEnd),
        }
    }

    fn taken_error(self) -> (r: Error)
        ensures
            r == self.taken(),
    {
        match self {
            ShareKind::Credential => Error::Db(StoreError::CredentialShareToken),
            ShareKind::File => Error::Db(StoreError::FileShareToken),
        }
    }
}

/// A share as it is handed out. `expires_at` is the moment at which it is over.
#[derive(Debug)]
pub struct Share {
    pub id: i64,
    pub token: String,
    pub expires_at: String,
}

/// A share as it is kept.
#[derive(Debug)]
pub struct ShareRow {
    pub id: i64,
    pub resource_id: i64,
    pub token_hash: String,
    pub expires_at: i64,
    pub max_uses: Option<i64>,
    pub use_count: i64,
    pub revoked_at: Option<i64>,
}

#[verifier::ext_equal]
pub struct ShareRowView {
    pub id: i64,
    pub resource_id: i64,
    pub token_hash: Seq<char>,
    pub expires_at: i64,
    pub max_uses: Option<i64>,
    pub use_count: i64,
    pub revoked_at: Option<i64>,
}

impl View for ShareRow {
    type V = ShareRowView;

    open spec fn view(&self) -> ShareRowView {
        ShareRowView {
            id: self.id,
            resource_id: self.resource_id,
            token_hash: self.token_hash@,
            expires_at: self.expires_at,
            max_uses: self.max_uses,
            use_count: self.use_count,
            revoked_at: self.revoked_at,
        }
    }
}

impl ShareRowView {
    /// All uses have been made.
    pub open spec fn used_up(self) -> bool {
        self.max_uses matches Some(limit) && self.use_count >= limit
    }

    /// Why the share cannot be redeemed, if it cannot.
    pub open spec fn fault(self, now: i64) -> Option<Error> {
        if self.revoked_at is Some {
            Some(Error::ShareRevoked)
        } else if self.expires_at <= now {
            Some(Error::ShareExpired)
        } else if self.used_up() {
            Some(Error::ShareExhausted)
        } else {
            None
        }
    }
}

/// The shares of one kind of resource, in the order of their ids.
#[derive(Debug)]
pub struct ShareTable {
    pub rows: Vec<ShareRow>,
}

impl View for ShareTable {
    type V = Seq<ShareRowView>;

    open spec fn view(&self) -> Seq<ShareRowView> {
        Seq::new(self.rows@.len(), |i: int| self.rows@[i]@)
    }
}

/// Ids are positive and ascend, no two shares have one digest, and uses can be
/// counted on.
pub open spec fn shares_wf(rows: Seq<ShareRowView>) -> bool {
    &&& forall|i: int|
        0 <= i < rows.len() ==> (#[trigger] rows[i]).id > 0 && 0 <= rows[i].use_count < i64::MAX
    &&& forall|i: int, j: int|
        0 <= i < j < rows.len() ==> (#[trigger] rows[i]).id < (#[trigger] rows[j]).id
    &&& forall|i: int, j: int|
        0 <= i < j < rows.len() ==> (#[trigger] rows[i]).token_hash != (
        #[trigger] rows[j]).token_hash
}

/// The id that the next share gets.
pub open spec fn next_share_id(rows: Seq<ShareRowView>) -> int {
    if rows.len() == 0 {
        1
    } else {
        rows.last().id + 1
    }
}

/// The digest that is kept of a token.
pub open spec fn token_digest(raw: Seq<u8>) -> Seq<char> {
    hex_text(sha256(raw))
}

/// Where the share with a digest stands.
pub open spec fn share_place(rows: Seq<ShareRowView>, token_hash: Seq<char>) -> Option<int> {
    if exists|i: int| 0 <= i < rows.len() && (#[trigger] rows[i]).token_hash == token_hash {
        Some(
            choose|i: int| 0 <= i < rows.len() && (#[trigger] rows[i]).token_hash == token_hash,
        )
    } else {
        None
    }
}

/// Some token is found among the shares. Only then can one that is drawn be taken
/// already.
pub open spec fn token_may_be_taken(rows: Seq<ShareRowView>) -> bool {
    exists|token: Seq<char>| #[trigger] token_place(rows, token) is Some
}

/// Where the share that a token was handed out for stands.
pub open spec fn token_place(rows: Seq<ShareRowView>, token: Seq<char>) -> Option<int> {
    match base64url_bytes(token) {
        None => None,
        Some(raw) => share_place(rows, token_digest(raw)),
    }
}

impl ShareTable {
    pub fn new() -> (r: ShareTable)
        ensures
            r@ == Seq::<ShareRowView>::empty(),
            shares_wf(r@),
    {
        ShareTable { rows: Vec::new() }
    }

    fn find(&self, token_hash: &str) -> (r: Option<usize>)
        requires
            shares_wf(self@),
        ensures
            r is Some <==> share_place(self@, token_hash@) is Some,
            r matches Some(i) ==> i < self@.len() && share_place(self@, token_hash@) == Some(
                i as int,
            ) && self@[i as int].token_hash == token_hash@,
    {
        let mut i: usize = 0;
        while i < self.rows.len()
            invariant
                i <= self.rows.len(),
                shares_wf(self@),
                forall|k: int| 0 <= k < i ==> (#[trigger] self@[k]).token_hash != token_hash@,
            decreases self.rows.len() - i,
        {
            assert(self@[i as int] == self.rows@[i as int]@);
            if text_equal(self.rows[i].token_hash.as_str(), token_hash) {
                proof {
                    let found = share_place(self@, token_hash@)->0;
                    assert(self@[found].token_hash == token_hash@);
                    assert(found == i);
                }
                return Some(i);
            }
            i += 1;
        }
        None
    }
}

/// A fresh token and the digest that is kept of it.
pub fn generate_token() -> (r: (String, String))
    ensures
        exists|raw: Seq<u8>|
            raw.len() == TOKEN_LEN && r.0@ == #[trigger] base64url_text(raw) && base64url_bytes(
                r.0@,
            ) == Some(raw) && r.1@ == token_digest(raw),
{
    let raw = random_bytes(TOKEN_LEN);
    let token = base64url_encode(raw.as_slice());
    let token_hash = hex_encode(&sha256_digest(raw.as_slice()));
    (token, token_hash)
}

/// The digest of a token, if it is one.
pub fn hash_token(token: &str) -> (r: Result<String, Error>)
    ensures
        match r {
            Ok(digest) => base64url_bytes(token@) matches Some(raw) && digest@ == token_digest(raw),
            Err(e) => base64url_bytes(token@) is None && e == Error::InvalidShareToken,
        },
{
    match base64url_decode(token) {
        Some(raw) => Ok(hex_encode(&sha256_digest(raw.as_slice()))),
        None => Err(Error::InvalidShareToken),
    }
}

/// The id of the share that a token was handed out for. No use is made.
pub fn share_id_for_token(shares: &ShareTable, token: &str) -> (r: Result<i64, Error>)
    requires
        shares_wf(shares@),
    ensures
        match r {
            Ok(id) => token_place(shares@, token@) matches Some(i) && shares@[i].id == id,
            Err(e) => token_place(shares@, token@) is None && e == Error::InvalidShareToken,
        },
{
    let token_hash = match hash_token(token) {
        Ok(token_hash) => token_hash,
        Err(e) => return Err(e),
    };
    match shares.find(token_hash.as_str()) {
        Some(i) => {
            assert(shares@[i as int] == shares.rows@[i as int]@);
            Ok(shares.rows[i].id)
        },
        None => Err(Error::InvalidShareToken),
    }
}

/// Why a share cannot be added, if it cannot: it would end beyond the calendar, its
/// digest is taken, or its resource is not known.
pub open spec fn share_fault(
    rows: Seq<ShareRowView>,
    kind: ShareKind,
    known: bool,
    token_hash: Seq<char>,
    ttl_seconds: i64,
    now: i64,
) -> Option<Error> {
    if instant_after(now, ttl_seconds) is None {
        Some(kind.endless())
    } else if share_place(rows, token_hash) is Some {
        Some(kind.taken())
    } else if !known {
        Some(Error::Db(StoreError::ForeignKey))
    } else {
        None
    }
}

/// Adds a share of a resource under the digest of its token.
pub fn add_share(
    shares: &mut ShareTable,
    kind: ShareKind,
    known: bool,
    resource_id: i64,
    token_hash: String,
    ttl_seconds: i64,
    max_uses: Option<i64>,
    now: i64,
) -> (r: Result<(i64, i64), Error>)
    requires
        shares_wf(old(shares)@),
        next_share_id(old(shares)@) <= i64::MAX,
    ensures
        shares_wf(final(shares)@),
        fault_of(r) == share_fault(old(shares)@, kind, known, token_hash@, ttl_seconds, now),
        r is Err ==> final(shares)@ == old(shares)@,
        r matches Ok((id, expires_at)) ==> {
            &&& id == next_share_id(old(shares)@)
            &&& instant_after(now, ttl_seconds) == Some(expires_at)
            &&& final(shares)@ == old(shares)@.push(
                ShareRowView {
                    id,
                    resource_id,
                    token_hash: token_hash@,
                    expires_at,
                    max_uses,
                    use_count: 0,
                    revoked_at: None,
                },
            )
        },
{
    let expires_at: i64 = match after(now, ttl_seconds) {
        Some(expires_at) => expires_at,
        None => return Err(kind.endless_error()),
    };
    if shares.find(token_hash.as_str()).is_some() {
        return Err(kind.taken_error());
    }
    if !known {
        return Err(Error::Db(StoreError::ForeignKey));
    }
    let ghost before = shares@;
    let count: usize = shares.rows.len();
    let id: i64 = if count == 0 {
        1
    } else {
        assert(before[count - 1] == shares.rows@[count - 1]@);
        shares.rows[count - 1].id + 1
    };
    let row = ShareRow {
        id,
        resource_id,
        token_hash,
        expires_at,
        max_uses,
        use_count: 0,
        revoked_at: None,
    };
    let ghost added = row@;
    shares.rows.push(row);
    proof {
        let after = shares@;
        assert(after =~= before.push(added));
        if count > 0 {
            assert(before[count - 1].id > 0);
        }
        assert forall|a: int, b: int| 0 <= a < b < after.len() implies (#[trigger] after[a]).id < (
        #[trigger] after[b]).id && after[a].token_hash != after[b].token_hash by {
            if b == before.len() {
                assert(after[a] == before[a]);
                if a < before.len() - 1 {
                    assert(before[a].id < before[before.len() - 1].id);
                }
            } else {
                assert(before[a].id < before[b].id);
            }
        }
        assert forall|a: int| 0 <= a < after.len() implies (#[trigger] after[a]).id > 0 && 0
            <= after[a].use_count < i64::MAX by {
            if a < before.len() {
                assert(after[a] == before[a]);
            }
        }
    }
    Ok((id, expires_at))
}

/// A share that was just handed out for a resource.
pub open spec fn handed_out(
    rows: Seq<ShareRowView>,
    share: Share,
    resource_id: i64,
    ttl_seconds: i64,
    max_uses: Option<i64>,
    now: i64,
) -> bool {
    &&& rows.len() > 0
    &&& token_place(rows, share.token@) == Some(rows.len() - 1)
    &&& instant_after(now, ttl_seconds) == Some(rows.last().expires_at)
    &&& share.expires_at@ == utc_of(rows.last().expires_at as int)
    &&& base64url_bytes(share.token@) matches Some(raw) && {
        &&& raw.len() == TOKEN_LEN
        &&& share.token@ == base64url_text(raw)
        &&& rows.last() == ShareRowView {
            id: share.id,
            resource_id,
            token_hash: token_digest(raw),
            expires_at: rows.last().expires_at,
            max_uses,
            use_count: 0,
            revoked_at: None,
        }
    }
}

/// Why a share was refused, if it may have been: it would end beyond the calendar,
/// the token that was drawn is taken, or the resource is not known.
pub open spec fn may_be_refused(
    rows: Seq<ShareRowView>,
    kind: ShareKind,
    known: bool,
    ttl_seconds: i64,
    now: i64,
    e: Error,
) -> bool {
    if instant_after(now, ttl_seconds) is None {
        e == kind.endless()
    } else {
        ||| e == kind.taken() && token_may_be_taken(rows)
        ||| e == Error::Db(StoreError::ForeignKey) && !known
    }
}

/// Creates a share of a resource.
///
/// Should the digest of the token that is drawn be taken already, the share is
/// refused.
fn create_share(
    shares: &mut ShareTable,
    kind: ShareKind,
    known: bool,
    resource_id: i64,
    ttl_seconds: i64,
    max_uses: Option<i64>,
    now: i64,
) -> (r: Result<Share, Error>)
    requires
        shares_wf(old(shares)@),
        next_share_id(old(shares)@) <= i64::MAX,
    ensures
        shares_wf(final(shares)@),
        instant_after(now, ttl_seconds) is None || !known ==> r is Err,
        match r {
            Ok(share) => {
                &&& share.id == next_share_id(old(shares)@)
                &&& final(shares)@ == old(shares)@.push(final(shares)@.last())
                &&& handed_out(final(shares)@, share, resource_id, ttl_seconds, max_uses, now)
            },
            Err(e) => may_be_refused(old(shares)@, kind, known, ttl_seconds, now, e)
                && final(shares)@ == old(shares)@,
        },
{
    let (token, token_hash) = generate_token();
    let ghost digest = token_hash@;
    assert(token_place(shares@, token@) == share_place(shares@, digest));
    match add_share(shares, kind, known, resource_id, token_hash, ttl_seconds, max_uses, now) {
        Ok((id, expires_at)) => {
            proof {
                let rows = shares@;
                assert(rows[rows.len() - 1].token_hash == digest);
                let found = share_place(rows, digest)->0;
                assert(rows[found].token_hash == digest);
                assert(found == rows.len() - 1);
            }
            Ok(Share { id, token, expires_at: utc_text(expires_at) })
        },
        Err(e) => Err(e),
    }
}

/// The shares after one was redeemed, and the resource or the refusal.
///
/// `place` is where the share stands, if there is one.
pub open spec fn redeemed(rows: Seq<ShareRowView>, place: Option<int>, now: i64) -> (
    Seq<ShareRowView>,
    Result<i64, Error>,
) {
    match place {
        None => (rows, Err(Error::InvalidShareToken)),
        Some(i) => match rows[i].fault(now) {
            Some(e) => (rows, Err(e)),
            None => (
                rows.update(
                    i,
                    ShareRowView { use_count: (rows[i].use_count + 1) as i64, ..rows[i] },
                ),
                Ok(rows[i].resource_id),
            ),
        },
    }
}

/// Some use of every share is left to be counted.
pub open spec fn uses_countable(rows: Seq<ShareRowView>) -> bool {
    forall|i: int| 0 <= i < rows.len() ==> (#[trigger] rows[i]).use_count < i64::MAX - 1
}

/// Makes one use of the share with a digest, if it may be used.
pub fn redeem_digest(shares: &mut ShareTable, token_hash: &str, now: i64) -> (r: Result<i64, Error>)
    requires
        shares_wf(old(shares)@),
        uses_countable(old(shares)@),
    ensures
        shares_wf(final(shares)@),
        (final(shares)@, r) == redeemed(
            old(shares)@,
            share_place(old(shares)@, token_hash@),
            now,
        ),
{
    let ghost before = shares@;
    let i = match shares.find(token_hash) {
        Some(i) => i,
        None => return Err(Error::InvalidShareToken),
    };
    let ghost row = before[i as int];
    assert(row == shares.rows@[i as int]@);
    if shares.rows[i].revoked_at.is_some() {
        return Err(Error::ShareRevoked);
    }
    if shares.rows[i].expires_at <= now {
        return Err(Error::ShareExpired);
    }
    if let Some(limit) = shares.rows[i].max_uses {
        if shares.rows[i].use_count >= limit {
            return Err(Error::ShareExhausted);
        }
    }
    let count: i64 = shares.rows[i].use_count + 1;
    shares.rows[i].use_count = count;
    assert(shares@ =~= before.update(i as int, ShareRowView { use_count: count, ..row }));
    Ok(shares.rows[i].resource_id)
}

/// Makes one use of the share that a token was handed out for, if it may be
/// used. Whether it may and that it was are one step.
fn redeem_share(shares: &mut ShareTable, token: &str, now: i64) -> (r: Result<i64, Error>)
    requires
        shares_wf(old(shares)@),
        uses_countable(old(shares)@),
    ensures
        shares_wf(final(shares)@),
        (final(shares)@, r) == redeemed(old(shares)@, token_place(old(shares)@, token@), now),
{
    match hash_token(token) {
        Ok(token_hash) => redeem_digest(shares, token_hash.as_str(), now),
        Err(e) => Err(e),
    }
}

/// The shares with one of them revoked.
pub open spec fn revoked_share(rows: Seq<ShareRowView>, id: i64, now: i64) -> Seq<ShareRowView> {
    Seq::new(
        rows.len(),
        |i: int|
            if rows[i].id == id {
                ShareRowView { revoked_at: Some(now), ..rows[i] }
            } else {
                rows[i]
            },
    )
}

/// Revokes a share, if there is one with the id.
fn revoke_share(shares: &mut ShareTable, share_id: i64, now: i64)
    requires
        shares_wf(old(shares)@),
    ensures
        shares_wf(final(shares)@),
        final(shares)@ == revoked_share(old(shares)@, share_id, now),
{
    let ghost before = shares@;
    let mut i: usize = 0;
    while i < shares.rows.len()
        invariant
            i <= shares.rows.len(),
            shares@.len() == before.len(),
            forall|k: int|
                0 <= k < before.len() ==> (#[trigger] shares@[k]) == (if k < i {
                    revoked_share(before, share_id, now)[k]
                } else {
                    before[k]
                }),
        decreases shares.rows.len() - i,
    {
        assert(shares@[i as int] == shares.rows@[i as int]@);
        let ghost earlier = shares@;
        if shares.rows[i].id == share_id {
            shares.rows[i].revoked_at = Some(now);
        }
        proof {
            assert forall|k: int| 0 <= k < before.len() implies (#[trigger] shares@[k]) == (if k
                < i + 1 {
                revoked_share(before, share_id, now)[k]
            } else {
                before[k]
            }) by {
                assert(earlier[k] == (if k < i {
                    revoked_share(before, share_id, now)[k]
                } else {
                    before[k]
                }));
            }
        }
        i += 1;
    }
    proof {
        let after = shares@;
        assert(after =~= revoked_share(before, share_id, now));
        assert forall|a: int, b: int| 0 <= a < b < after.len() implies (#[trigger] after[a]).id < (
        #[trigger] after[b]).id && after[a].token_hash != after[b].token_hash by {
            assert(before[a].id < before[b].id);
            assert(before[a].token_hash != before[b].token_hash);
        }
        assert forall|a: int| 0 <= a < after.len() implies (#[trigger] after[a]).id > 0 && 0
            <= after[a].use_count < i64::MAX by {
            assert(before[a].id > 0);
        }
    }
}

/// The id of the credential share that a token was handed out for.
pub fn credential_share_id_for_token(shares: &ShareTable, token: &str) -> (r: Result<i64, Error>)
    requires
        shares_wf(shares@),
    ensures
        match r {
            Ok(id) => token_place(shares@, token@) matches Some(i) && shares@[i].id == id,
            Err(e) => token_place(shares@, token@) is None && e == Error::InvalidShareToken,
        },
{
    share_id_for_token(shares, token)
}

/// The id of the file share that a token was handed out for.
pub fn file_share_id_for_token(shares: &ShareTable, token: &str) -> (r: Result<i64, Error>)
    requires
        shares_wf(shares@),
    ensures
        match r {
            Ok(id) => token_place(shares@, token@) matches Some(i) && shares@[i].id == id,
            Err(e) => token_place(shares@, token@) is None && e == Error::InvalidShareToken,
        },
{
    share_id_for_token(shares, token)
}

/// Creates a share of a credential of the vault.
pub fn create_credential_share(
    shares: &mut ShareTable,
    vault: &Vault,
    credential_id: i64,
    ttl_seconds: i64,
    max_uses: Option<i64>,
    now: i64,
) -> (r: Result<Share, Error>)
    requires
        shares_wf(old(shares)@),
        vault_wf(vault@),
        next_share_id(old(shares)@) <= i64::MAX,
    ensures
        shares_wf(final(shares)@),
        credential_place(vault@, credential_id) is None ==> r is Err,
        instant_after(now, ttl_seconds) is None ==> r is Err,
        match r {
            Ok(share) => {
                &&& share.id == next_share_id(old(shares)@)
                &&& final(shares)@ == old(shares)@.push(final(shares)@.last())
                &&& handed_out(final(shares)@, share, credential_id, ttl_seconds, max_uses, now)
            },
            Err(e) => may_be_refused(
                old(shares)@,
                ShareKind::Credential,
                credential_place(vault@, credential_id) is Some,
                ttl_seconds,
                now,
                e,
            ) && final(shares)@ == old(shares)@,
        },
{
    let known = vault.find(credential_id).is_some();
    create_share(
        shares,
        ShareKind::Credential,
        known,
        credential_id,
        ttl_seconds,
        max_uses,
        now,
    )
}

/// Creates a share of a locked file.
pub fn create_file_share(
    shares: &mut ShareTable,
    files: &LockedFiles,
    file_id: i64,
    ttl_seconds: i64,
    max_uses: Option<i64>,
    now: i64,
) -> (r: Result<Share, Error>)
    requires
        shares_wf(old(shares)@),
        files_wf(files@),
        next_share_id(old(shares)@) <= i64::MAX,
    ensures
        shares_wf(final(shares)@),
        file_place(files@, file_id) is None ==> r is Err,
        instant_after(now, ttl_seconds) is None ==> r is Err,
        match r {
            Ok(share) => {
                &&& share.id == next_share_id(old(shares)@)
                &&& final(shares)@ == old(shares)@.push(final(shares)@.last())
                &&& handed_out(final(shares)@, share, file_id, ttl_seconds, max_uses, now)
            },
            Err(e) => may_be_refused(
                old(shares)@,
                ShareKind::File,
                file_place(files@, file_id) is Some,
                ttl_seconds,
                now,
                e,
            ) && final(shares)@ == old(shares)@,
        },
{
    let known = files.find(file_id).is_some();
    create_share(shares, ShareKind::File, known, file_id, ttl_seconds, max_uses, now)
}

/// Redeems a token for the id of its credential.
pub fn redeem_credential_share(shares: &mut ShareTable, token: &str, now: i64) -> (r: Result<
    i64,
    Error,
>)
    requires
        shares_wf(old(shares)@),
        uses_countable(old(shares)@),
    ensures
        shares_wf(final(shares)@),
        (final(shares)@, r) == redeemed(old(shares)@, token_place(old(shares)@, token@), now),
{
    redeem_share(shares, token, now)
}

/// Redeems a token for the id of its file.
pub fn redeem_file_share(shares: &mut ShareTable, token: &str, now: i64) -> (r: Result<i64, Error>)
    requires
        shares_wf(old(shares)@),
        uses_countable(old(shares)@),
    ensures
        shares_wf(final(shares)@),
        (final(shares)@, r) == redeemed(old(shares)@, token_place(old(shares)@, token@), now),
{
    redeem_share(shares, token, now)
}

/// Revokes a credential share, if there is one with the id.
pub fn revoke_credential_share(shares: &mut ShareTable, share_id: i64, now: i64)
    requires
        shares_wf(old(shares)@),
    ensures
        shares_wf(final(shares)@),
        final(shares)@ == revoked_share(old(shares)@, share_id, now),
{
    revoke_share(shares, share_id, now)
}

/// Revokes a file share, if there is one with the id.
pub fn revoke_file_share(shares: &mut ShareTable, share_id: i64, now: i64)
    requires
        shares_wf(old(shares)@),
    ensures
        shares_wf(final(shares)@),
        final(shares)@ == revoked_share(old(shares)@, share_id, now),
{
    revoke_share(shares, share_id, now)
}

/// The shares after one of them was asked for at some instants, one after the
/// other, and how many times it was given.
pub open spec fn redeemed_at(rows: Seq<ShareRowView>, i: int, times: Seq<i64>) -> (
    Seq<ShareRowView>,
    nat,
)
    decreases times.len(),
{
    if times.len() == 0 {
        (rows, 0)
    } else {
        let (before, given) = redeemed_at(rows, i, times.drop_last());
        let (after, outcome) = redeemed(before, Some(i), times.last());
        (
            after,
            if outcome is Ok {
                given + 1
            } else {
                given
            },
        )
    }
}

/// A share is given no more often than it may be used, however often and
/// whenever it is asked for.
pub proof fn uses_stay_within_the_limit(rows: Seq<ShareRowView>, i: int, times: Seq<i64>)
    requires
        0 <= i < rows.len(),
        0 <= rows[i].use_count,
        rows[i].use_count + times.len() < i64::MAX,
        rows[i].max_uses matches Some(limit) && rows[i].use_count <= limit,
    ensures
        ({
            let (after, given) = redeemed_at(rows, i, times);
            &&& after.len() == rows.len()
            &&& after[i].max_uses == rows[i].max_uses
            &&& after[i].use_count == rows[i].use_count + given
            &&& after[i].use_count <= rows[i].max_uses->0
            &&& given <= times.len()
        }),
    decreases times.len(),
{
    if times.len() > 0 {
        uses_stay_within_the_limit(rows, i, times.drop_last());
    }
}

/// A share that is neither revoked nor over is given each time that it is asked
/// for, up to its limit.
pub proof fn uses_are_granted_up_to_the_limit(rows: Seq<ShareRowView>, i: int, times: Seq<i64>)
    requires
        0 <= i < rows.len(),
        0 <= rows[i].use_count,
        rows[i].use_count + times.len() < i64::MAX,
        rows[i].revoked_at is None,
        forall|k: int| 0 <= k < times.len() ==> (#[trigger] times[k]) < rows[i].expires_at,
        rows[i].max_uses matches Some(limit) ==> rows[i].use_count + times.len() <= limit,
    ensures
        ({
            let (after, given) = redeemed_at(rows, i, times);
            &&& given == times.len()
            &&& after.len() == rows.len()
            &&& after[i] == (ShareRowView {
                use_count: (rows[i].use_count + times.len()) as i64,
                ..rows[i]
            })
        }),
    decreases times.len(),
{
    if times.len() > 0 {
        assert forall|k: int| 0 <= k < times.drop_last().len() implies (
        #[trigger] times.drop_last()[k]) < rows[i].expires_at by {
            assert(times[k] < rows[i].expires_at);
        }
        uses_are_granted_up_to_the_limit(rows, i, times.drop_last());
        assert(times[times.len() - 1] < rows[i].expires_at);
    }
}

/// A revoked share is never given again.
pub proof fn revoked_share_is_refused(rows: Seq<ShareRowView>, i: int, at: i64, now: i64)
    requires
        0 <= i < rows.len(),
    ensures
        redeemed(revoked_share(rows, rows[i].id, at), Some(i), now) == (
            revoked_share(rows, rows[i].id, at),
            Err::<i64, Error>(Error::ShareRevoked),
        ),
{
}

/// Redeeming one share leaves the others as they are, and a refusal leaves all.
pub proof fn redeeming_touches_one_share(rows: Seq<ShareRowView>, i: int, j: int, now: i64)
    requires
        0 <= i < rows.len(),
        0 <= j < rows.len(),
    ensures
        redeemed(rows, Some(i), now).0.len() == rows.len(),
        i != j || redeemed(rows, Some(i), now).1 is Err ==> redeemed(rows, Some(i), now).0[j]
            == rows[j],
{
}

/// A share that was just handed out is redeemed by its token for its resource,
/// before it is over and with a use allowed.
pub proof fn fresh_share_is_redeemed(
    rows: Seq<ShareRowView>,
    share: Share,
    resource_id: i64,
    ttl_seconds: i64,
    max_uses: Option<i64>,
    created: i64,
    now: i64,
)
    requires
        handed_out(rows, share, resource_id, ttl_seconds, max_uses, created),
        now < created + ttl_seconds,
        max_uses matches Some(limit) ==> limit > 0,
    ensures
        redeemed(rows, token_place(rows, share.token@), now).1 == Ok::<i64, Error>(resource_id),
{
}

/// Revoking a share touches no other, and of the one only whether it is revoked. The
/// others are redeemed as before.
pub proof fn revoking_touches_one_share(rows: Seq<ShareRowView>, id: i64, at: i64, i: int, now: i64)
    requires
        0 <= i < rows.len(),
    ensures
        ({
            let after = revoked_share(rows, id, at);
            &&& after.len() == rows.len()
            &&& rows[i].id != id ==> after[i] == rows[i] && redeemed(after, Some(i), now).1
                == redeemed(rows, Some(i), now).1
            &&& rows[i].id == id ==> {
                &&& after[i].revoked_at == Some(at)
                &&& after[i].id == rows[i].id
                &&& after[i].resource_id == rows[i].resource_id
                &&& after[i].token_hash == rows[i].token_hash
                &&& after[i].expires_at == rows[i].expires_at
                &&& after[i].max_uses == rows[i].max_uses
                &&& after[i].use_count == rows[i].use_count
            }
        }),
{
}

/// A share is given exactly where it is not revoked, not over and not used up. It is
/// over from the moment at which it ends, and used up once its uses are as many as
/// allowed; one without a limit never is. The refusals go in this order, and each use is
/// counted once.
pub proof fn share_is_given_while_it_is_good(rows: Seq<ShareRowView>, i: int, now: i64)
    requires
        shares_wf(rows),
        0 <= i < rows.len(),
    ensures
        ({
            let row = rows[i];
            let (after, outcome) = redeemed(rows, Some(i), now);
            &&& row.revoked_at is Some ==> outcome == Err::<i64, Error>(Error::ShareRevoked)
            &&& row.revoked_at is None && now >= row.expires_at ==> outcome == Err::<i64, Error>(
                Error::ShareExpired,
            )
            &&& row.revoked_at is None && now < row.expires_at && (row.max_uses matches Some(limit)
                && row.use_count >= limit) ==> outcome == Err::<i64, Error>(Error::ShareExhausted)
            &&& row.revoked_at is None && now < row.expires_at && (row.max_uses is None
                || row.use_count < row.max_uses->0) ==> {
                &&& outcome == Ok::<i64, Error>(row.resource_id)
                &&& after[i].use_count == row.use_count + 1
                &&& after[i].id == row.id
                &&& after[i].resource_id == row.resource_id
                &&& after[i].token_hash == row.token_hash
                &&& after[i].expires_at == row.expires_at
                &&& after[i].max_uses == row.max_uses
                &&& after[i].revoked_at is None
            }
            &&& outcome is Err ==> after == rows
        }),
{
}

/// A token leads to the share whose digest it has, and a text that is none, or whose
/// digest no share has, is refused.
pub proof fn token_leads_to_its_share(rows: Seq<ShareRowView>, token: Seq<char>, i: int, now: i64)
    requires
        shares_wf(rows),
    ensures
        0 <= i < rows.len() && base64url_bytes(token) is Some && rows[i].token_hash == hex_text(
            sha256(base64url_bytes(token)->0),
        ) ==> token_place(rows, token) == Some(i),
        base64url_bytes(token) is None || (forall|k: int|
            0 <= k < rows.len() ==> (#[trigger] rows[k]).token_hash != hex_text(
                sha256(base64url_bytes(token)->0),
            )) ==> redeemed(rows, token_place(rows, token), now) == (
            rows,
            Err::<i64, Error>(Error::InvalidShareToken),
        ),
{
    if 0 <= i < rows.len() && base64url_bytes(token) is Some && rows[i].token_hash == hex_text(
        sha256(base64url_bytes(token)->0),
    ) {
        let k = token_place(rows, token)->0;
        assert(rows[k].token_hash == rows[i].token_hash);
        if k < i {
            assert(rows[k].token_hash != rows[i].token_hash);
        } else if i < k {
            assert(rows[i].token_hash != rows[k].token_hash);
        }
    }
}

/// A share can be added exactly where it ends within the calendar, no other has its
/// digest and its resource is known.
pub proof fn share_is_added_where_nothing_forbids(
    rows: Seq<ShareRowView>,
    kind: ShareKind,
    known: bool,
    token_hash: Seq<char>,
    ttl_seconds: i64,
    now: i64,
)
    ensures
        share_fault(rows, kind, known, token_hash, ttl_seconds, now) is None <==> {
            &&& -210866760000 <= now + ttl_seconds <= 253402300799
            &&& forall|i: int|
                0 <= i < rows.len() ==> (#[trigger] rows[i]).token_hash != token_hash
            &&& known
        },
        share_fault(rows, kind, known, token_hash, ttl_seconds, now) == Some(
            Error::Db(StoreError::ForeignKey),
        ) ==> !known,
{
}

/// Shares are counted from one on, without a gap.
pub proof fn share_ids_count_on(rows: Seq<ShareRowView>, row: ShareRowView)
    ensures
        next_share_id(Seq::<ShareRowView>::empty()) == 1,
        row.id == next_share_id(rows) ==> next_share_id(rows.push(row)) == next_share_id(rows) + 1,
{
}

/// A share that was handed out is found by its token, which is 32 bytes in text, and is
/// kept under the digest of these alone. It ends so many seconds from now, can be used as
/// often as was asked for, and was neither used nor revoked.
pub proof fn handed_out_share_is_as_asked(
    rows: Seq<ShareRowView>,
    share: Share,
    resource_id: i64,
    ttl_seconds: i64,
    max_uses: Option<i64>,
    now: i64,
)
    requires
        handed_out(rows, share, resource_id, ttl_seconds, max_uses, now),
    ensures
        token_place(rows, share.token@) == Some(rows.len() - 1),
        base64url_bytes(share.token@) matches Some(raw) && raw.len() == 32 && rows.last().token_hash
            == hex_text(sha256(raw)) && share.token@ == base64url_text(raw),
        rows.last().id == share.id,
        rows.last().resource_id == resource_id,
        rows.last().expires_at == now + ttl_seconds,
        rows.last().max_uses == max_uses,
        rows.last().use_count == 0,
        rows.last().revoked_at is None,
        share.expires_at@ == utc_of(now + ttl_seconds),
{
}

} // verus!
