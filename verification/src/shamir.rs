//! Threshold sharing over GF(256).
//!
//! A share is its encoding: one byte for the x-coordinate, then one byte of
//! y-coordinate for each byte of the secret.

use vstd::prelude::*;

use crate::bytes::{byte_views, xor_bytes};

verus! {

/// No two of the shares have the same x-coordinate.
pub open spec fn distinct_xs(shares: Seq<Seq<u8>>) -> bool {
    forall|i: int, j: int|
        0 <= i < j < shares.len() ==> (#[trigger] shares[i])[0] != (#[trigger] shares[j])[0]
}

/// The x-coordinates that occur among the shares.
pub open spec fn x_set(shares: Seq<Seq<u8>>) -> Set<u8> {
    shares.map_values(|s: Seq<u8>| s[0]).to_set()
}

/// All shares have the same length.
pub open spec fn same_length(shares: Seq<Seq<u8>>) -> bool {
    forall|i: int, j: int|
        0 <= i < shares.len() && 0 <= j < shares.len() ==> (#[trigger] shares[i]).len() == (
        #[trigger] shares[j]).len()
}

/// `picked` is a choice of enough of the dealt shares, none of them twice.
pub open spec fn quorum_of(picked: Seq<Seq<u8>>, dealt: Seq<Seq<u8>>, threshold: u8) -> bool {
    &&& picked.len() >= 1
    &&& picked.len() >= threshold
    &&& distinct_xs(picked)
    &&& forall|i: int| 0 <= i < picked.len() ==> dealt.contains(#[trigger] picked[i])
}

/// Two rows of shares with the same x-coordinates and lengths, place by place.
pub open spec fn same_shape(a: Seq<Seq<u8>>, b: Seq<Seq<u8>>) -> bool {
    &&& a.len() == b.len()
    &&& forall|i: int|
        #![trigger a[i]]
        #![trigger b[i]]
        0 <= i < a.len() ==> a[i].len() == b[i].len() && a[i][0] == b[i][0]
}

/// The sum of two share encodings: the first one's x-coordinate, the
/// y-coordinates added.
pub open spec fn share_sum(a: Seq<u8>, b: Seq<u8>) -> Seq<u8> {
    Seq::new(a.len(), |i: int| if i == 0 { a[0] } else { a[i] ^ b[i] })
}

/// The sums of two rows of shares, place by place.
pub open spec fn share_sums(a: Seq<Seq<u8>>, b: Seq<Seq<u8>>) -> Seq<Seq<u8>> {
    Seq::new(a.len(), |i: int| share_sum(a[i], b[i]))
}

/// Coefficients of one polynomial for each byte of a secret of so many bytes: one
/// row of them for each degree from one to below the threshold.
pub open spec fn coefficient_rows(
    coefficients: Seq<Seq<u8>>,
    threshold: u8,
    len: nat,
) -> bool {
    &&& coefficients.len() == threshold - 1
    &&& forall|j: int| 0 <= j < coefficients.len() ==> (#[trigger] coefficients[j]).len() == len
}

/// The sums of two rows of coefficients, degree by degree.
pub open spec fn coefficient_sums(a: Seq<Seq<u8>>, b: Seq<Seq<u8>>) -> Seq<Seq<u8>> {
    Seq::new(a.len(), |j: int| xor_bytes(a[j], b[j]))
}

/// The share that a dealer of `blahaj` evaluates at an x-coordinate: the constant
/// terms of the polynomials are the secret's bytes.
pub uninterp spec fn evaluated(secret: Seq<u8>, coefficients: Seq<Seq<u8>>, x: u8) -> Seq<u8>;

/// The shares are values of polynomials of degree below the threshold, whose
/// constant terms are the secret.
pub open spec fn on_polynomials(
    shares: Seq<Seq<u8>>,
    secret: Seq<u8>,
    coefficients: Seq<Seq<u8>>,
    threshold: u8,
) -> bool {
    &&& coefficient_rows(coefficients, threshold, secret.len())
    &&& forall|i: int|
        0 <= i < shares.len() ==> (#[trigger] shares[i]) == evaluated(
            secret,
            coefficients,
            shares[i][0],
        )
}

/// Adding one of the shares to the value of other polynomials at its x-coordinate
/// gives the value of the sums.
pub open spec fn adds_to_polynomials(
    shares: Seq<Seq<u8>>,
    secret: Seq<u8>,
    coefficients: Seq<Seq<u8>>,
    threshold: u8,
) -> bool {
    forall|base: Seq<u8>, others: Seq<Seq<u8>>, i: int|
        #![trigger share_sum(evaluated(base, others, shares[i][0]), shares[i])]
        0 <= i < shares.len() && base.len() == secret.len() && coefficient_rows(
            others,
            threshold,
            secret.len(),
        ) ==> share_sum(evaluated(base, others, shares[i][0]), shares[i]) == evaluated(
            xor_bytes(base, secret),
            coefficient_sums(others, coefficients),
            shares[i][0],
        )
}

/// The shares are values of such polynomials, and adding them adds these.
pub open spec fn dealt_from(shares: Seq<Seq<u8>>, secret: Seq<u8>, threshold: u8) -> bool {
    exists|coefficients: Seq<Seq<u8>>|
        {
            &&& #[trigger] on_polynomials(shares, secret, coefficients, threshold)
            &&& adds_to_polynomials(shares, secret, coefficients, threshold)
        }
}

/// What the dealer promises of its shares, gathered.
pub(crate) proof fn lemma_dealt_from(shares: Seq<Seq<u8>>, secret: Seq<u8>, threshold: u8)
    requires
        exists|coefficients: Seq<Seq<u8>>|
            (coefficient_rows(coefficients, threshold, secret.len()) && (forall|i: int|
                0 <= i < shares.len() ==> (#[trigger] shares[i]) == evaluated(
                    secret,
                    coefficients,
                    shares[i][0],
                )) && #[trigger] adds_to_polynomials(shares, secret, coefficients, threshold)),
    ensures
        dealt_from(shares, secret, threshold),
        of_degree_below(shares, secret, threshold),
{
    let c = choose|c: Seq<Seq<u8>>|
        (coefficient_rows(c, threshold, secret.len()) && (forall|i: int|
            0 <= i < shares.len() ==> (#[trigger] shares[i]) == evaluated(secret, c, shares[i][0]))
            && #[trigger] adds_to_polynomials(shares, secret, c, threshold));
    assert(on_polynomials(shares, secret, c, threshold));
}

/// Some polynomials of degree below the threshold go through the shares and have
/// the secret as their constant terms.
pub open spec fn of_degree_below(shares: Seq<Seq<u8>>, secret: Seq<u8>, threshold: u8) -> bool {
    exists|coefficients: Seq<Seq<u8>>| #[trigger]
        on_polynomials(shares, secret, coefficients, threshold)
}

/// What `blahaj::Sharks::recover` interpolates from shares that it accepts.
pub uninterp spec fn interpolated(shares: Seq<Seq<u8>>) -> Seq<u8>;

/// The accepting condition of `blahaj::Sharks::recover`.
pub open spec fn recoverable(threshold: u8, shares: Seq<Seq<u8>>) -> bool {
    &&& shares.len() > 0
    &&& same_length(shares)
    &&& x_set(shares).len() >= threshold
}

/// Calls `blahaj::Sharks::dealer_rng` with the operating system's randomness
/// and takes the first `count` shares.
///
/// The dealer hands out the x-coordinates 1, 2, 3 and so on, and stops after
/// 255. Each byte of the secret is the constant term of a random polynomial of
/// degree below the threshold, and a share holds the values of these
/// polynomials at its x-coordinate. Hence any quorum of the dealt shares
/// interpolates to the secret. Interpolation is linear in the y-coordinates, so
/// a quorum of the dealt shares that is added to other shares at the same
/// x-coordinates adds the secret to what those interpolate to.
///
/// For each byte the dealer draws one coefficient less than the threshold. What
/// share it then evaluates depends on the secret, these coefficients and the
/// x-coordinate alone, and is named by `evaluated`. Evaluation is linear in the
/// coefficients, so a dealt share that is added to the value of other polynomials
/// at its x-coordinate gives the value of the sums.
#[verifier::external_body]
pub(crate) fn deal(threshold: u8, secret: &[u8], count: usize) -> (r: Vec<Vec<u8>>)
    ensures
        r@.len() == if count <= 255 { count as int } else { 255 },
        forall|i: int|
            0 <= i < r@.len() ==> (#[trigger] r@[i])@.len() == secret@.len() + 1 && r@[i]@[0] == i
                + 1,
        secret@.len() > 0 ==> forall|picked: Seq<Seq<u8>>| #[trigger]
            quorum_of(picked, byte_views(r@), threshold) ==> interpolated(picked) == secret@,
        secret@.len() > 0 ==> forall|base: Seq<Seq<u8>>, picked: Seq<Seq<u8>>|
            #![trigger share_sums(base, picked)]
            quorum_of(picked, byte_views(r@), threshold) && same_shape(base, picked) ==> {
                &&& interpolated(base).len() == secret@.len()
                &&& interpolated(share_sums(base, picked)) == xor_bytes(
                    interpolated(base),
                    secret@,
                )
            },
        r@.len() > 0 && threshold >= 1 ==> (exists|coefficients: Seq<Seq<u8>>|
            (coefficient_rows(coefficients, threshold, secret@.len()) && (forall|i: int|
                0 <= i < r@.len() ==> (#[trigger] byte_views(r@)[i]) == evaluated(
                    secret@,
                    coefficients,
                    byte_views(r@)[i][0],
                )) && #[trigger] adds_to_polynomials(
                byte_views(r@),
                secret@,
                coefficients,
                threshold,
            ))),
{
    blahaj::Sharks(threshold)
        .dealer_rng(secret, &mut rand::rngs::OsRng)
        .take(count)
        .map(|share| Vec::from(&share))
        .collect()
}

/// Calls `blahaj::Sharks::recover` on share encodings.
///
/// It refuses shares of different lengths, and shares with fewer distinct
/// x-coordinates than the threshold or none at all. What it interpolates from
/// the others depends on these alone and is named by `interpolated`; it holds
/// one byte for each y-coordinate of a share.
#[verifier::external_body]
pub(crate) fn recover(threshold: u8, shares: &Vec<Vec<u8>>) -> (r: Option<Vec<u8>>)
    requires
        forall|i: int| 0 <= i < shares@.len() ==> (#[trigger] shares@[i])@.len() >= 2,
    ensures
        r is Some <==> recoverable(threshold, byte_views(shares@)),
        r matches Some(secret) ==> secret@ == interpolated(byte_views(shares@)) && secret@.len() + 1
            == shares@[0]@.len(),
{
    let parsed: Vec<blahaj::Share> = shares
        .iter()
        .map(|share| blahaj::Share::try_from(share.as_slice()).expect("a share of two bytes or more"))
        .collect();
    blahaj::Sharks(threshold).recover(parsed.iter()).ok()
}

} // verus!
