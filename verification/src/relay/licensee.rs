//! Issuer keys of the relay: whose holder may make bearer keys on its host.

use vstd::prelude::*;

use crate::crypto::random_bytes;
use crate::encoding::{
    base64url_bytes, base64url_decode, base64url_encode, hex_encode, hex_text, sha256,
    sha256_digest,
};
use crate::error::{fault_of, Error};
use crate::relay::api_key::BEARER_LEN;
use crate::text::{begins_with, chars_of, concat, has_prefix, lent_text, part, text_equal, text_of};

verus! {

/// An issuer key as it is kept.
#[derive(Debug)]
pub struct LicenseeRow {
    pub key_hash: String,
    pub created_at: String,
}

/// All issuer keys.
#[derive(Debug)]
pub struct Licensees {
    pub rows: Vec<LicenseeRow>,
}

#[verifier::ext_equal]
pub struct LicenseeRowView {
    pub key_hash: Seq<char>,
    pub created_at: Seq<char>,
}

impl View for LicenseeRow {
    type V = LicenseeRowView;

    open spec fn view(&self) -> LicenseeRowView {
        LicenseeRowView { key_hash: self.key_hash@, created_at: self.created_at@ }
    }
}

impl View for Licensees {
    type V = Seq<LicenseeRowView>;

    open spec fn view(&self) -> Seq<LicenseeRowView> {
        Seq::new(self.rows@.len(), |i: int| self.rows@[i]@)
    }
}

/// An issuer key that was just made.
#[derive(Debug)]
pub struct CreatedLicensee {
    pub token: String,
}

/// The digest of an issuer key, if a text is one.
pub open spec fn licensee_digest(token: Seq<char>) -> Option<Seq<char>> {
    if begins_with(token, "kql_"@) {
        match base64url_bytes(token.skip(4)) {
            Some(raw) => Some(hex_text(sha256(raw))),
            None => None,
        }
    } else {
        None
    }
}

/// A text is one of the issuer keys.
pub open spec fn is_licensee(rows: Seq<LicenseeRowView>, token: Seq<char>) -> bool {
    licensee_digest(token) matches Some(digest) && exists|i: int|
        0 <= i < rows.len() && (#[trigger] rows[i]).key_hash == digest
}

/// The first issuer key, and its bearer.
pub open spec fn first_issuer(
    rows: Seq<LicenseeRowView>,
    token: Seq<char>,
    created_at: Seq<char>,
) -> bool {
    &&& rows.len() == 1
    &&& licensee_digest(token) == Some(rows[0].key_hash)
    &&& rows[0].created_at == created_at
}

impl Licensees {
    pub fn new() -> (r: Licensees)
        ensures
            r@ == Seq::<LicenseeRowView>::empty(),
    {
        Licensees { rows: Vec::new() }
    }
}

fn hash_licensee(token: &str) -> (r: Option<String>)
    ensures
        crate::text::optional_text(r) == licensee_digest(token@),
{
    let chars = chars_of(token);
    if !has_prefix(chars.as_slice(), "kql_") {
        return None;
    }
    proof {
        reveal_strlit("kql_");
    }
    let body = text_of(part(chars.as_slice(), 4, chars.len()).as_slice());
    assert(body@ =~= token@.skip(4));
    match base64url_decode(body.as_str()) {
        Some(raw) => Some(hex_encode(&sha256_digest(raw.as_slice()))),
        None => None,
    }
}

/// Recognises an issuer key.
pub fn authenticate_licensee(licensees: &Licensees, token: &str) -> (r: Result<(), Error>)
    ensures
        fault_of(r) == (if is_licensee(licensees@, token@) {
            None
        } else {
            Some(Error::InvalidLicenseeKey)
        }),
{
    let digest = match hash_licensee(token) {
        Some(digest) => digest,
        None => return Err(Error::InvalidLicenseeKey),
    };
    let mut i: usize = 0;
    while i < licensees.rows.len()
        invariant
            i <= licensees.rows.len(),
            licensee_digest(token@) == Some(digest@),
            forall|k: int| 0 <= k < i ==> (#[trigger] licensees@[k]).key_hash != digest@,
        decreases licensees.rows.len() - i,
    {
        assert(licensees@[i as int] == licensees.rows@[i as int]@);
        if text_equal(licensees.rows[i].key_hash.as_str(), digest.as_str()) {
            return Ok(());
        }
        i += 1;
    }
    Err(Error::InvalidLicenseeKey)
}

/// Makes the first issuer key, where there is none yet. It is handed out once.
pub fn bootstrap_licensee_if_empty(licensees: &mut Licensees, created_at: &str) -> (r: Option<
    CreatedLicensee,
>)
    ensures
        r is Some <==> old(licensees)@.len() == 0,
        r is None ==> final(licensees)@ == old(licensees)@,
        r matches Some(created) ==> {
            &&& first_issuer(final(licensees)@, created.token@, created_at@)
            &&& is_licensee(final(licensees)@, created.token@)
        },
{
    if licensees.rows.len() != 0 {
        return None;
    }
    let raw = random_bytes(BEARER_LEN);
    let body = base64url_encode(raw.as_slice());
    let token = concat("kql_", body.as_str());
    proof {
        reveal_strlit("kql_");
        assert(token@.skip(4) =~= body@);
        assert(token@.take(4) =~= "kql_"@);
    }
    let key_hash = hex_encode(&sha256_digest(raw.as_slice()));
    let row = LicenseeRow { key_hash, created_at: created_at.to_owned() };
    let ghost added = row@;
    licensees.rows.push(row);
    assert(licensees@[0] == added);
    Some(CreatedLicensee { token })
}

/// What stands in the way of making a key on the host: nothing for the first
/// issuer, who gets the issuer key with it, and otherwise an issuer key that is
/// not known. Where none is supplied, one has still to be asked for.
pub fn authorize_licensee_or_bootstrap(
    licensees: &mut Licensees,
    supplied: Option<&str>,
    created_at: &str,
) -> (r: Result<Option<CreatedLicensee>, Error>)
    ensures
        if old(licensees)@.len() == 0 {
            r matches Ok(Some(created)) && {
                &&& first_issuer(final(licensees)@, created.token@, created_at@)
                &&& is_licensee(final(licensees)@, created.token@)
            }
        } else {
            &&& final(licensees)@ == old(licensees)@
            &&& match lent_text(supplied) {
                None => r matches Ok(None),
                Some(token) => if is_licensee(old(licensees)@, token) {
                    r matches Ok(None)
                } else {
                    fault_of(r) == Some(Error::InvalidLicenseeKey)
                },
            }
        },
{
    if let Some(created) = bootstrap_licensee_if_empty(licensees, created_at) {
        return Ok(Some(created));
    }
    match supplied {
        None => Ok(None),
        Some(token) => match authenticate_licensee(licensees, token) {
            Ok(()) => Ok(None),
            Err(e) => Err(e),
        },
    }
}

/// A text is an issuer key exactly where it is the prefix and an encoding of bytes whose
/// digest is kept.
pub proof fn issuer_keys_are_those_kept(rows: Seq<LicenseeRowView>, token: Seq<char>)
    ensures
        is_licensee(rows, token) <==> begins_with(token, "kql_"@) && base64url_bytes(token.skip(4))
            is Some && exists|i: int|
            0 <= i < rows.len() && (#[trigger] rows[i]).key_hash == hex_text(
                sha256(base64url_bytes(token.skip(4))->0),
            ),
{
}

/// The first issuer key is the only one, is recognised by its bearer, and was made when it
/// was.
pub proof fn first_issuer_is_recognised(
    rows: Seq<LicenseeRowView>,
    token: Seq<char>,
    created_at: Seq<char>,
)
    requires
        first_issuer(rows, token, created_at),
    ensures
        rows.len() == 1,
        is_licensee(rows, token),
        rows[0].created_at == created_at,
{
    assert(Some(rows[0].key_hash) == licensee_digest(token));
}

} // verus!
