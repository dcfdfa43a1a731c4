//! What the relay answers: who is let in, what each request does, and which
//! status a failure is answered with. Nothing here opens an envelope.

use vstd::prelude::*;

use crate::encoding::{base64_bytes, base64_decode, base64_encode, base64_text};
use crate::error::Error;
use crate::relay::api_key::{
    after_use, api_key_place, api_keys_wf, authenticate, bearer_fault, bearer_place, check_hash,
    check_token, checked, hash_place, list, revoke, shows, with_revoked, ApiKeyInfo, ApiKeyRowView,
    ApiKeyScope, ApiKeys, KeyCheck,
};
use crate::relay::client::{InboxAccepted, InboxEnvelope, InboxList};
use crate::relay::mailbox::{
    envelope_place, envelope_recipient, envelope_views, is_envelope, list_after, mailbox_wf, next_envelope_id,
    page_size, recipient_of, store, waiting, Mailbox, StoredEnvelopeView, MAX_PAGE,
};
use crate::relay::org_tree::{
    all_merged, context_for_fingerprint, contexts_for_fingerprint, doc_place, docs_wf, merge_all,
    merging_stops, published, put_public_tree, slices, tree_views, with_published, OrgTrees,
};
use crate::relay::public_tree::{tree_fault, PublicTree};
use crate::relay::visibility::slice_of;
use crate::text::{begins_with, chars_of, has_prefix, part, text_of};

verus! {

/// The largest envelope that is taken.
pub const MAX_ENVELOPE_BYTES: usize = 1024 * 1024;

pub const OK: u16 = 200;

pub const CREATED: u16 = 201;

pub const NO_CONTENT: u16 = 204;

pub const BAD_REQUEST: u16 = 400;

pub const UNAUTHORIZED: u16 = 401;

pub const FORBIDDEN: u16 = 403;

pub const NOT_FOUND: u16 = 404;

pub const PAYLOAD_TOO_LARGE: u16 = 413;

pub const INTERNAL_SERVER_ERROR: u16 = 500;

/// How a failure is answered.
#[derive(Debug)]
pub struct ApiError {
    pub status: u16,
    pub message: &'static str,
}

/// The status that an error is answered with.
pub open spec fn status_of(e: Error) -> u16 {
    match e {
        Error::InvalidApiKey | Error::ApiKeyExpired | Error::ApiKeyRevoked => UNAUTHORIZED,
        Error::ApiKeyScopeDenied => FORBIDDEN,
        Error::InvalidApiKeyRequest
        | Error::InvalidBridgePackage
        | Error::InvalidPublicKey
        | Error::InvalidTreeSpec
        | Error::DuplicateNodeLabel
        | Error::InvalidBridge
        | Error::InvalidInboxPage => BAD_REQUEST,
        Error::ApiKeyNotFound | Error::TreeNotFound | Error::NodeNotFound => NOT_FOUND,
        Error::BundleFieldTooLarge => PAYLOAD_TOO_LARGE,
        _ => INTERNAL_SERVER_ERROR,
    }
}

/// The message that an error is answered with. Why a key is not let in is not
/// told.
pub open spec fn answer_of(e: Error) -> Seq<char> {
    if status_of(e) == UNAUTHORIZED {
        "unauthorized"@
    } else if status_of(e) == FORBIDDEN {
        "forbidden"@
    } else {
        e.text()
    }
}

/// The failure is the answer to an error.
pub open spec fn answers(failure: ApiError, e: Error) -> bool {
    failure.status == status_of(e) && failure.message@ == answer_of(e)
}

impl ApiError {
    /// The answer to a request without a key.
    pub fn unauthorized() -> (r: ApiError)
        ensures
            answers(r, Error::InvalidApiKey),
    {
        ApiError { status: UNAUTHORIZED, message: "unauthorized" }
    }

    /// The answer to an error.
    pub fn of(e: Error) -> (r: ApiError)
        ensures
            answers(r, e),
    {
        match e {
            Error::InvalidApiKey | Error::ApiKeyExpired | Error::ApiKeyRevoked => ApiError {
                status: UNAUTHORIZED,
                message: "unauthorized",
            },
            Error::ApiKeyScopeDenied => ApiError { status: FORBIDDEN, message: "forbidden" },
            Error::InvalidApiKeyRequest
            | Error::InvalidBridgePackage
            | Error::InvalidPublicKey
            | Error::InvalidTreeSpec
            | Error::DuplicateNodeLabel
            | Error::InvalidBridge
            | Error::InvalidInboxPage => ApiError { status: BAD_REQUEST, message: e.message() },
            Error::ApiKeyNotFound | Error::TreeNotFound | Error::NodeNotFound => ApiError {
                status: NOT_FOUND,
                message: e.message(),
            },
            Error::BundleFieldTooLarge => ApiError {
                status: PAYLOAD_TOO_LARGE,
                message: e.message(),
            },
            _ => ApiError { status: INTERNAL_SERVER_ERROR, message: e.message() },
        }
    }
}

/// A header of a request.
#[derive(Clone, Copy, Debug)]
pub enum HeaderText<'a> {
    /// There is none.
    Absent,
    /// There is one that is no text.
    Opaque,
    Text(&'a str),
}

/// The token that a request's headers hold, if they hold one: behind the word
/// `Bearer`, or else as it is in the second header. A header that is no text
/// spoils the request.
pub open spec fn token_in_headers(authorization: HeaderText, x_api_key: HeaderText) -> Option<
    Seq<char>,
> {
    match authorization {
        HeaderText::Opaque => None,
        _ => if authorization matches HeaderText::Text(text) && begins_with(text@, "Bearer "@)
            && text@.len() > 7 {
            Some(authorization->Text_0@.skip(7))
        } else {
            match x_api_key {
                HeaderText::Text(text) => if text@.len() > 0 {
                    Some(text@)
                } else {
                    None
                },
                _ => None,
            }
        },
    }
}

/// The token that a request's headers hold.
pub fn token_from_headers(authorization: HeaderText, x_api_key: HeaderText) -> (r: Result<
    String,
    ApiError,
>)
    ensures
        match r {
            Ok(token) => token_in_headers(authorization, x_api_key) == Some(token@),
            Err(failure) => token_in_headers(authorization, x_api_key) is None && answers(
                failure,
                Error::InvalidApiKey,
            ),
        },
{
    proof {
        reveal_strlit("Bearer ");
    }
    match authorization {
        HeaderText::Absent => {},
        HeaderText::Opaque => {
            return Err(ApiError::unauthorized());
        },
        HeaderText::Text(text) => {
            let chars = chars_of(text);
            if has_prefix(chars.as_slice(), "Bearer ") && chars.len() > 7 {
                let token = part(chars.as_slice(), 7, chars.len());
                assert(token@ =~= text@.skip(7));
                return Ok(text_of(token.as_slice()));
            }
        },
    }
    match x_api_key {
        HeaderText::Text(text) => if text.is_empty() {
            Err(ApiError::unauthorized())
        } else {
            Ok(text.to_owned())
        },
        _ => Err(ApiError::unauthorized()),
    }
}

/// Why an envelope that was sent is not taken, if it is not.
pub open spec fn post_fault(
    keys: Seq<ApiKeyRowView>,
    token: Seq<char>,
    envelope: Seq<u8>,
    now: i64,
) -> Option<Error> {
    if envelope.len() > MAX_ENVELOPE_BYTES {
        Some(Error::BundleFieldTooLarge)
    } else {
        match bearer_fault(keys, token, ApiKeyScope::InboxPush, now) {
            Some(e) => Some(e),
            None => if is_envelope(envelope) {
                None
            } else {
                Some(Error::InvalidBridgePackage)
            },
        }
    }
}

/// What taking an envelope does to the mailbox, and what is answered.
pub open spec fn taken(
    before: Seq<StoredEnvelopeView>,
    after: Seq<StoredEnvelopeView>,
    envelope: Seq<u8>,
    status: u16,
    accepted: InboxAccepted,
) -> bool {
    &&& accepted.recipient_fingerprint@ == recipient_of(envelope)
    &&& match envelope_place(before, envelope) {
        Some(i) => {
            &&& status == OK
            &&& accepted.id == before[i].id
            &&& after == before
        },
        None => {
            &&& status == CREATED
            &&& accepted.id == next_envelope_id(before)
            &&& after == before.push(
                StoredEnvelopeView {
                    id: accepted.id,
                    recipient_fingerprint: recipient_of(envelope),
                    bytes: envelope,
                },
            )
        },
    }
}

/// The envelope that a push in JSON holds, or a pulled one: its bytes come in
/// padded base64.
pub fn pushed_envelope(text: &str) -> (r: Result<Vec<u8>, Error>)
    ensures
        match r {
            Ok(bytes) => base64_bytes(text@) == Some(bytes@),
            Err(e) => base64_bytes(text@) is None && e == Error::InvalidBridgePackage,
        },
{
    match base64_decode(text) {
        Some(bytes) => Ok(bytes),
        None => Err(Error::InvalidBridgePackage),
    }
}

/// Takes an envelope from the holder of a key that may push, and merges the trees
/// that come with it. The status tells whether the envelope is new. Where a tree
/// cannot be merged, neither the envelope nor any tree is taken.
pub fn post_inbox(
    keys: &mut ApiKeys,
    mailbox: &mut Mailbox,
    trees: &mut OrgTrees,
    token: &str,
    envelope: &[u8],
    sent: &Vec<PublicTree>,
    now: i64,
) -> (r: Result<(u16, InboxAccepted), ApiError>)
    requires
        api_keys_wf(old(keys)@),
        mailbox_wf(old(mailbox)@),
        docs_wf(old(trees)@),
        next_envelope_id(old(mailbox)@) <= i64::MAX,
    ensures
        api_keys_wf(final(keys)@),
        mailbox_wf(final(mailbox)@),
        docs_wf(final(trees)@),
        final(keys)@ == (if envelope@.len() > MAX_ENVELOPE_BYTES {
            old(keys)@
        } else {
            used(old(keys)@, token@, ApiKeyScope::InboxPush, now)
        }),
        r is Err ==> final(mailbox)@ == old(mailbox)@ && final(trees)@ == old(trees)@,
        match post_fault(old(keys)@, token@, envelope@, now) {
            Some(e) => r matches Err(failure) && answers(failure, e),
            None => match r {
                Ok((status, accepted)) => {
                    &&& taken(old(mailbox)@, final(mailbox)@, envelope@, status, accepted)
                    &&& all_merged(old(trees)@, final(trees)@, tree_views(sent@))
                },
                Err(failure) => exists|e: Error| #[trigger]
                    merging_stops(old(trees)@, tree_views(sent@), e) && answers(failure, e),
            },
        },
{
    if envelope.len() > MAX_ENVELOPE_BYTES {
        return Err(ApiError::of(Error::BundleFieldTooLarge));
    }
    match authenticate(keys, token, ApiKeyScope::InboxPush, now) {
        Ok(_) => {},
        Err(e) => {
            return Err(ApiError::of(e));
        },
    }
    match envelope_recipient(envelope) {
        Ok(_) => {},
        Err(e) => {
            return Err(ApiError::of(e));
        },
    }
    let merged = match merge_all(trees, sent) {
        Ok(merged) => merged,
        Err(e) => {
            return Err(ApiError::of(e));
        },
    };
    match store(mailbox, envelope) {
        Ok((id, recipient_fingerprint, duplicate)) => {
            let status: u16 = if duplicate {
                OK
            } else {
                CREATED
            };
            *trees = merged;
            Ok((status, InboxAccepted { id, recipient_fingerprint }))
        },
        Err(e) => Err(ApiError::of(e)),
    }
}

/// The keys after a bearer was presented for a scope.
pub open spec fn used(
    keys: Seq<ApiKeyRowView>,
    token: Seq<char>,
    required: ApiKeyScope,
    now: i64,
) -> Seq<ApiKeyRowView> {
    if bearer_fault(keys, token, required, now) is None {
        after_use(keys, token, now)
    } else {
        keys
    }
}

/// Whom a bearer pulls for, or why it does not.
pub open spec fn puller(keys: Seq<ApiKeyRowView>, token: Seq<char>, now: i64) -> Result<
    Seq<char>,
    Error,
> {
    match bearer_fault(keys, token, ApiKeyScope::InboxPull, now) {
        Some(e) => Err(e),
        None => match keys[bearer_place(keys, token)->0].recipient_fingerprint {
            Some(fingerprint) => Ok(fingerprint),
            None => Err(Error::ApiKeyScopeDenied),
        },
    }
}

fn authenticate_puller(keys: &mut ApiKeys, token: &str, now: i64) -> (r: Result<String, Error>)
    requires
        api_keys_wf(old(keys)@),
    ensures
        api_keys_wf(final(keys)@),
        puller(old(keys)@, token@, now) == (match r {
            Ok(fingerprint) => Ok(fingerprint@),
            Err(e) => Err(e),
        }),
        final(keys)@ == used(old(keys)@, token@, ApiKeyScope::InboxPull, now),
{
    match authenticate(keys, token, ApiKeyScope::InboxPull, now) {
        Ok(key) => match key.recipient_fingerprint {
            Some(fingerprint) => Ok(fingerprint),
            None => Err(Error::ApiKeyScopeDenied),
        },
        Err(e) => Err(e),
    }
}

/// An envelope as it is handed out.
pub open spec fn handed(envelope: InboxEnvelope, row: StoredEnvelopeView) -> bool {
    &&& envelope.id == row.id
    &&& envelope.recipient_fingerprint@ == row.recipient_fingerprint
    &&& envelope.bytes@ == base64_text(row.bytes)
}

/// Hands out the envelopes that wait for the holder of a key that may pull, and
/// shows it its part of each tree.
pub fn get_inbox(
    keys: &mut ApiKeys,
    mailbox: &Mailbox,
    trees: &OrgTrees,
    token: &str,
    after: Option<i64>,
    limit: Option<i64>,
    now: i64,
) -> (r: Result<InboxList, ApiError>)
    requires
        api_keys_wf(old(keys)@),
    ensures
        api_keys_wf(final(keys)@),
        final(keys)@ == used(old(keys)@, token@, ApiKeyScope::InboxPull, now),
        match puller(old(keys)@, token@, now) {
            Err(e) => r matches Err(failure) && answers(failure, e),
            Ok(fingerprint) => if !(1 <= page_size(limit) <= MAX_PAGE) {
                r matches Err(failure) && answers(failure, Error::InvalidInboxPage)
            } else {
                let all = waiting(mailbox@, mailbox@.len() as int, fingerprint, after);
                let size = page_size(limit);
                r matches Ok(list) && {
                    &&& list.envelopes@.len() == if all.len() < size {
                        all.len() as int
                    } else {
                        size
                    }
                    &&& forall|k: int|
                        0 <= k < list.envelopes@.len() ==> handed(
                            #[trigger] list.envelopes@[k],
                            all[k],
                        )
                    &&& tree_views(list.trees@) == slices(
                        trees@,
                        trees@.len() as int,
                        fingerprint,
                    )
                    &&& list.next_after == (if all.len() > size {
                        Some(all[size - 1].id)
                    } else {
                        None
                    })
                }
            },
        },
{
    let fingerprint = match authenticate_puller(keys, token, now) {
        Ok(fingerprint) => fingerprint,
        Err(e) => return Err(ApiError::of(e)),
    };
    let page = match list_after(mailbox, fingerprint.as_str(), after, limit) {
        Ok(page) => page,
        Err(e) => return Err(ApiError::of(e)),
    };
    let ghost listed = envelope_views(page.envelopes@);
    let ghost all = waiting(mailbox@, mailbox@.len() as int, fingerprint@, after);
    assert(listed == all.take(listed.len() as int));
    let mut envelopes: Vec<InboxEnvelope> = Vec::new();
    let mut i: usize = 0;
    while i < page.envelopes.len()
        invariant
            i <= page.envelopes.len(),
            listed == envelope_views(page.envelopes@),
            envelopes@.len() == i,
            forall|k: int| 0 <= k < i ==> handed(#[trigger] envelopes@[k], listed[k]),
        decreases page.envelopes.len() - i,
    {
        let row = &page.envelopes[i];
        assert(listed[i as int] == row@);
        envelopes.push(
            InboxEnvelope {
                id: row.id,
                recipient_fingerprint: row.recipient_fingerprint.as_str().to_owned(),
                bytes: base64_encode(row.bytes.as_slice()),
            },
        );
        i += 1;
    }
    proof {
        assert forall|k: int| 0 <= k < envelopes@.len() implies handed(
            #[trigger] envelopes@[k],
            all[k],
        ) by {
            assert(listed[k] == all[k]);
        }
    }
    let shown = contexts_for_fingerprint(trees, fingerprint.as_str());
    Ok(InboxList { envelopes, trees: shown, next_after: page.next_after })
}

/// Publishes a tree for the holder of a key that may do everything.
pub fn put_tree(
    keys: &mut ApiKeys,
    trees: &mut OrgTrees,
    token: &str,
    tree: &PublicTree,
    now: i64,
) -> (r: Result<PublicTree, ApiError>)
    requires
        api_keys_wf(old(keys)@),
        docs_wf(old(trees)@),
    ensures
        api_keys_wf(final(keys)@),
        docs_wf(final(trees)@),
        final(keys)@ == used(old(keys)@, token@, ApiKeyScope::Admin, now),
        match (bearer_fault(old(keys)@, token@, ApiKeyScope::Admin, now), tree_fault(tree@)) {
            (Some(e), _) => {
                &&& r matches Err(failure) && answers(failure, e)
                &&& final(trees)@ == old(trees)@
            },
            (None, Some(e)) => {
                &&& r matches Err(failure) && answers(failure, e)
                &&& final(trees)@ == old(trees)@
            },
            (None, None) => r matches Ok(stored) && {
                &&& stored@ == published(old(trees)@, tree@)
                &&& with_published(old(trees)@, final(trees)@, tree@)
            },
        },
{
    match authenticate(keys, token, ApiKeyScope::Admin, now) {
        Ok(_) => {},
        Err(e) => {
            return Err(ApiError::of(e));
        },
    }
    match put_public_tree(trees, tree) {
        Ok(stored) => Ok(stored),
        Err(e) => Err(ApiError::of(e)),
    }
}

/// Shows the holder of a key that may pull its part of a tree.
pub fn get_tree_context(
    keys: &mut ApiKeys,
    trees: &OrgTrees,
    token: &str,
    label: &str,
    now: i64,
) -> (r: Result<PublicTree, ApiError>)
    requires
        api_keys_wf(old(keys)@),
        docs_wf(trees@),
    ensures
        api_keys_wf(final(keys)@),
        final(keys)@ == used(old(keys)@, token@, ApiKeyScope::InboxPull, now),
        match puller(old(keys)@, token@, now) {
            Err(e) => r matches Err(failure) && answers(failure, e),
            Ok(fingerprint) => match doc_place(trees@, label@) {
                None => r matches Err(failure) && answers(failure, Error::TreeNotFound),
                Some(i) => match slice_of(trees@[i].document, fingerprint) {
                    None => r matches Err(failure) && answers(failure, Error::NodeNotFound),
                    Some(slice) => r matches Ok(tree) && tree@ == slice,
                },
            },
        },
{
    let fingerprint = match authenticate_puller(keys, token, now) {
        Ok(fingerprint) => fingerprint,
        Err(e) => return Err(ApiError::of(e)),
    };
    match context_for_fingerprint(trees, label, fingerprint.as_str()) {
        Ok(tree) => Ok(tree),
        Err(e) => Err(ApiError::of(e)),
    }
}

/// Shows the holder of a key that may do everything all keys.
pub fn list_keys(keys: &mut ApiKeys, token: &str, now: i64) -> (r: Result<Vec<ApiKeyInfo>, ApiError>)
    requires
        api_keys_wf(old(keys)@),
    ensures
        api_keys_wf(final(keys)@),
        final(keys)@ == used(old(keys)@, token@, ApiKeyScope::Admin, now),
        match bearer_fault(old(keys)@, token@, ApiKeyScope::Admin, now) {
            Some(e) => r matches Err(failure) && answers(failure, e),
            None => r matches Ok(infos) && {
                &&& infos@.len() == final(keys)@.len()
                &&& forall|i: int|
                    0 <= i < infos@.len() ==> shows(#[trigger] infos@[i], final(keys)@[i])
            },
        },
{
    match authenticate(keys, token, ApiKeyScope::Admin, now) {
        Ok(_) => Ok(list(keys)),
        Err(e) => Err(ApiError::of(e)),
    }
}

/// Revokes a key for the holder of a key that may do everything.
pub fn revoke_key(keys: &mut ApiKeys, token: &str, id: i64, now: i64) -> (r: Result<u16, ApiError>)
    requires
        api_keys_wf(old(keys)@),
    ensures
        api_keys_wf(final(keys)@),
        match bearer_fault(old(keys)@, token@, ApiKeyScope::Admin, now) {
            Some(e) => {
                &&& r matches Err(failure) && answers(failure, e)
                &&& final(keys)@ == old(keys)@
            },
            None => {
                let after = after_use(old(keys)@, token@, now);
                match api_key_place(after, id) {
                    None => {
                        &&& r matches Err(failure) && answers(failure, Error::ApiKeyNotFound)
                        &&& final(keys)@ == after
                    },
                    Some(i) => r matches Ok(status) && status == NO_CONTENT && final(keys)@
                        == with_revoked(after, i, now),
                }
            },
        },
{
    match authenticate(keys, token, ApiKeyScope::Admin, now) {
        Ok(_) => {},
        Err(e) => {
            return Err(ApiError::of(e));
        },
    }
    match revoke(keys, id, now) {
        Ok(()) => Ok(NO_CONTENT),
        Err(e) => Err(ApiError::of(e)),
    }
}

/// Tells anyone who has a bearer, or the digest of one, whether it is good.
pub fn keycheck(keys: &ApiKeys, token: Option<&str>, key_hash: Option<&str>, now: i64) -> (r:
    Result<KeyCheck, ApiError>)
    requires
        api_keys_wf(keys@),
    ensures
        match (token, key_hash) {
            (Some(token), _) => r matches Ok(check) && check@ == checked(
                keys@,
                bearer_place(keys@, token@),
                now,
            ),
            (None, Some(digest)) => r matches Ok(check) && check@ == checked(
                keys@,
                hash_place(keys@, digest@),
                now,
            ),
            (None, None) => r matches Err(failure) && answers(failure, Error::InvalidApiKeyRequest),
        },
{
    match (token, key_hash) {
        (Some(token), _) => Ok(check_token(keys, token, now)),
        (None, Some(digest)) => Ok(check_hash(keys, digest, now)),
        (None, None) => Err(ApiError::of(Error::InvalidApiKeyRequest)),
    }
}

/// Keys that are not let in are answered alike, whatever is wrong with them.
pub proof fn refusals_tell_nothing(a: Error, b: Error)
    requires
        status_of(a) == UNAUTHORIZED,
        status_of(b) == UNAUTHORIZED,
    ensures
        answer_of(a) == answer_of(b),
{
}

/// An error is answered with its status: 401 for a key that is not good, 403 for one that
/// may not, 400 for a request that is malformed, 404 for what is not there, 413 for what is
/// too large, and 500 for everything else.
pub proof fn errors_have_their_status(e: Error)
    ensures
        status_of(e) == 401 <==> e == Error::InvalidApiKey || e == Error::ApiKeyExpired || e
            == Error::ApiKeyRevoked,
        status_of(e) == 403 <==> e == Error::ApiKeyScopeDenied,
        status_of(e) == 400 <==> e == Error::InvalidApiKeyRequest || e
            == Error::InvalidBridgePackage || e == Error::InvalidPublicKey || e
            == Error::InvalidTreeSpec || e == Error::DuplicateNodeLabel || e == Error::InvalidBridge
            || e == Error::InvalidInboxPage,
        status_of(e) == 404 <==> e == Error::ApiKeyNotFound || e == Error::TreeNotFound || e
            == Error::NodeNotFound,
        status_of(e) == 413 <==> e == Error::BundleFieldTooLarge,
        status_of(e) == 401 || status_of(e) == 403 || status_of(e) == 400 || status_of(e) == 404
            || status_of(e) == 413 || status_of(e) == 500,
        status_of(e) == 401 ==> answer_of(e) == "unauthorized"@,
        status_of(e) == 403 ==> answer_of(e) == "forbidden"@,
        status_of(e) != 401 && status_of(e) != 403 ==> answer_of(e) == e.text(),
{
}

/// A token behind the word in the first header is taken as it is, whatever the second
/// header says. Without it the second header counts, unless the first is no text.
pub proof fn token_stands_in_either_header(
    authorization: HeaderText,
    x_api_key: HeaderText,
    token: Seq<char>,
)
    ensures
        authorization matches HeaderText::Text(text) && text@ == "Bearer "@ + token && token.len()
            > 0 ==> token_in_headers(authorization, x_api_key) == Some(token),
        authorization is Opaque ==> token_in_headers(authorization, x_api_key) is None,
        authorization is Absent && (x_api_key matches HeaderText::Text(text) && text@ == token)
            && token.len() > 0 ==> token_in_headers(authorization, x_api_key) == Some(token),
        authorization is Absent && !(x_api_key is Text) ==> token_in_headers(
            authorization,
            x_api_key,
        ) is None,
        token_in_headers(authorization, x_api_key) matches Some(found) ==> found.len() > 0 && (
        (authorization matches HeaderText::Text(text) && text@ == "Bearer "@ + found) || (
        x_api_key matches HeaderText::Text(text) && text@ == found)),
{
    reveal_strlit("Bearer ");
    if let HeaderText::Text(text) = authorization {
        if text@ == "Bearer "@ + token {
            assert(text@.take(7) =~= "Bearer "@);
            assert(text@.skip(7) =~= token);
        }
        if begins_with(text@, "Bearer "@) && text@.len() > 7 {
            assert(text@ =~= "Bearer "@ + text@.skip(7));
        }
    }
}

/// An envelope is taken exactly if it is a mebibyte at most, the bearer may push, and it is
/// an envelope. What is too large is refused before anything else is looked at.
pub proof fn envelopes_that_are_taken(
    keys: Seq<ApiKeyRowView>,
    token: Seq<char>,
    envelope: Seq<u8>,
    now: i64,
)
    ensures
        post_fault(keys, token, envelope, now) is None <==> {
            &&& envelope.len() <= 1048576
            &&& bearer_fault(keys, token, ApiKeyScope::InboxPush, now) is None
            &&& is_envelope(envelope)
        },
        envelope.len() > 1048576 ==> post_fault(keys, token, envelope, now) == Some(
            Error::BundleFieldTooLarge,
        ),
        envelope.len() <= 1048576 && bearer_fault(keys, token, ApiKeyScope::InboxPush, now) is Some
            ==> post_fault(keys, token, envelope, now) == bearer_fault(
            keys,
            token,
            ApiKeyScope::InboxPush,
            now,
        ),
{
}

/// An envelope that is there already is answered as such and not kept again. Any other is
/// kept behind all the rest, under an id of its own.
pub proof fn envelopes_are_kept_once(
    before: Seq<StoredEnvelopeView>,
    after: Seq<StoredEnvelopeView>,
    envelope: Seq<u8>,
    status: u16,
    accepted: InboxAccepted,
)
    requires
        mailbox_wf(before),
        taken(before, after, envelope, status, accepted),
    ensures
        status == 200 || status == 201,
        status == 200 ==> after == before,
        status == 200 <==> exists|i: int|
            0 <= i < before.len() && (#[trigger] before[i]).bytes == envelope,
        status == 200 ==> exists|i: int|
            0 <= i < before.len() && (#[trigger] before[i]).bytes == envelope && before[i].id
                == accepted.id,
        status == 201 ==> after.len() == before.len() + 1 && after.last().bytes == envelope
            && after.last().id == accepted.id && after.drop_last() == before,
        status == 201 ==> forall|i: int|
            0 <= i < before.len() ==> (#[trigger] before[i]).id < accepted.id,
        accepted.recipient_fingerprint@ == recipient_of(envelope),
{
    if status == 201 {
        assert(after.drop_last() =~= before);
    }
}

/// A bearer pulls for the one that its key is bound to, where it may pull at all.
pub proof fn bearer_pulls_for_its_own(keys: Seq<ApiKeyRowView>, token: Seq<char>, now: i64)
    ensures
        puller(keys, token, now) matches Ok(fingerprint) ==> bearer_fault(
            keys,
            token,
            ApiKeyScope::InboxPull,
            now,
        ) is None && bearer_place(keys, token) is Some
            && keys[bearer_place(keys, token)->0].recipient_fingerprint == Some(fingerprint),
        bearer_fault(keys, token, ApiKeyScope::InboxPull, now) matches Some(e) ==> puller(
            keys,
            token,
            now,
        ) == Err::<Seq<char>, Error>(e),
        bearer_fault(keys, token, ApiKeyScope::InboxPull, now) is None && keys[bearer_place(
            keys,
            token,
        )->0].recipient_fingerprint is None ==> puller(keys, token, now) == Err::<
            Seq<char>,
            Error,
        >(Error::ApiKeyScopeDenied),
        bearer_fault(keys, token, ApiKeyScope::InboxPull, now) is None && keys[bearer_place(
            keys,
            token,
        )->0].recipient_fingerprint is Some ==> puller(keys, token, now) is Ok,
{
}

/// A bearer that is refused leaves the keys as they are.
pub proof fn refused_bearers_change_nothing(
    keys: Seq<ApiKeyRowView>,
    token: Seq<char>,
    required: ApiKeyScope,
    now: i64,
)
    ensures
        bearer_fault(keys, token, required, now) is Some ==> used(keys, token, required, now)
            == keys,
        used(keys, token, required, now).len() == keys.len(),
{
}

/// A failure is answered with the status and the message of its error, and with nothing of
/// another.
pub proof fn failures_answer_their_error(failure: ApiError, e: Error)
    requires
        answers(failure, e),
    ensures
        failure.status == status_of(e),
        failure.message@ == answer_of(e),
{
}

/// What is done, made or gone is answered as such.
pub proof fn good_answers_have_their_status(
    before: Seq<StoredEnvelopeView>,
    after: Seq<StoredEnvelopeView>,
    envelope: Seq<u8>,
    status: u16,
    accepted: InboxAccepted,
)
    requires
        taken(before, after, envelope, status, accepted),
    ensures
        after == before ==> status == 200,
        after.len() > before.len() ==> status == 201,
        NO_CONTENT == 204,
{
}

} // verus!
