//! Proactive refresh of threshold shares.
//!
//! Each surviving holder draws a random polynomial whose constant term is
//! zero. Its values at the survivors' x-coordinates are added into their
//! shares. The secret stays what it was; a share that missed the update no
//! longer fits the others.

use std::collections::HashMap;

use vstd::prelude::*;

use crate::bytes::{byte_views, copy_bytes, lemma_xor_zero, xor_bytes, zero_bytes, zeros};
use crate::error::Error;
use crate::shamir::{
    adds_to_polynomials, coefficient_rows, coefficient_sums, deal, dealt_from, distinct_xs,
    evaluated, interpolated, lemma_dealt_from, of_degree_below, on_polynomials, quorum_of, same_shape, share_sum, share_sums,
};

verus! {

broadcast use vstd::std_specs::hash::group_hash_axioms;

/// Every coordinate is usable for a share and none occurs twice.
pub open spec fn distinct_nonzero(xs: Seq<u8>) -> bool {
    &&& forall|i: int| 0 <= i < xs.len() ==> #[trigger] xs[i] != 0
    &&& xs.no_duplicates()
}

/// Adding a quorum of the deltas to shares at the same x-coordinates leaves
/// what those shares interpolate to as it was.
pub open spec fn blinds(deltas: Seq<Seq<u8>>, threshold: u8) -> bool {
    forall|base: Seq<Seq<u8>>, picked: Seq<Seq<u8>>|
        #![trigger share_sums(base, picked)]
        quorum_of(picked, deltas, threshold) && same_shape(base, picked) ==> interpolated(
            share_sums(base, picked),
        ) == interpolated(base)
}

/// The deltas are values of polynomials of degree below the threshold whose
/// constant terms are zero, and adding them adds these polynomials.
pub open spec fn zero_polynomials(deltas: Seq<Seq<u8>>, threshold: u8, secret_len: nat) -> bool {
    dealt_from(deltas, zero_bytes(secret_len), threshold)
}

/// Every quorum of the deltas gives zeros.
pub open spec fn recover_zeros(deltas: Seq<Seq<u8>>, threshold: u8, secret_len: nat) -> bool {
    forall|picked: Seq<Seq<u8>>| #[trigger]
        quorum_of(picked, deltas, threshold) ==> interpolated(picked) == zero_bytes(secret_len)
}

/// The shares at the chosen places.
pub open spec fn chosen(shares: Seq<Seq<u8>>, places: Seq<int>) -> Seq<Seq<u8>> {
    Seq::new(places.len(), |k: int| shares[places[k]])
}

/// A choice of at least `threshold` different places out of `n`.
pub open spec fn quorum_places(places: Seq<int>, n: nat, threshold: u8) -> bool {
    &&& places.len() >= threshold
    &&& places.no_duplicates()
    &&& forall|k: int| 0 <= k < places.len() ==> 0 <= #[trigger] places[k] < n
}

/// Every quorum of the shares interpolates to what the shares at the same
/// places did before, and every share kept its x-coordinate and its length.
pub open spec fn refreshed(before: Seq<Seq<u8>>, after: Seq<Seq<u8>>, threshold: u8) -> bool {
    &&& same_shape(before, after)
    &&& forall|places: Seq<int>| #[trigger]
        quorum_places(places, before.len(), threshold) ==> interpolated(chosen(after, places))
            == interpolated(chosen(before, places))
}

/// The shares can be refreshed among their holders: there are enough of them,
/// all of one length with at least one y-coordinate, at distinct places.
pub open spec fn refreshable(shares: Seq<Seq<u8>>, threshold: u8) -> bool {
    &&& threshold >= 2
    &&& shares.len() >= threshold
    &&& shares[0].len() >= 2
    &&& forall|i: int| 0 <= i < shares.len() ==> (#[trigger] shares[i]).len() == shares[0].len()
    &&& distinct_nonzero(shares.map_values(|s: Seq<u8>| s[0]))
}

pub(crate) fn require_distinct_nonzero_xs(xs: &[u8]) -> (r: Result<(), Error>)
    ensures
        r is Ok <==> distinct_nonzero(xs@),
        r matches Err(e) ==> e == Error::ShareShapeMismatch,
{
    let mut i: usize = 0;
    while i < xs.len()
        invariant
            i <= xs.len(),
            forall|a: int| 0 <= a < i ==> #[trigger] xs@[a] != 0,
            forall|a: int, b: int| 0 <= a < b < i ==> xs@[a] != xs@[b],
        decreases xs.len() - i,
    {
        if xs[i] == 0 {
            assert(xs@[i as int] == 0);
            return Err(Error::ShareShapeMismatch);
        }
        let mut j: usize = 0;
        while j < i
            invariant
                j <= i < xs.len(),
                forall|a: int| 0 <= a < j ==> xs@[a] != xs@[i as int],
            decreases i - j,
        {
            if xs[j] == xs[i] {
                return Err(Error::ShareShapeMismatch);
            }
            j += 1;
        }
        i += 1;
    }
    Ok(())
}

/// The dealt shares at the given x-coordinates, by these. The shares stand in the
/// order of their x-coordinates, from one on without a gap.
pub fn deltas_at(dealt: &Vec<Vec<u8>>, xs: &[u8]) -> (r: HashMap<u8, Vec<u8>>)
    requires
        forall|i: int| 0 <= i < xs@.len() ==> 1 <= #[trigger] xs@[i] <= dealt@.len(),
    ensures
        r@.dom() == xs@.to_set(),
        forall|x: u8| #[trigger] r@.contains_key(x) ==> r@[x]@ == dealt@[x - 1]@,
{
    let mut by_x: HashMap<u8, Vec<u8>> = HashMap::new();
    let mut i: usize = 0;
    while i < xs.len()
        invariant
            i <= xs.len(),
            forall|k: int| 0 <= k < xs@.len() ==> 1 <= #[trigger] xs@[k] <= dealt@.len(),
            by_x@.dom() == xs@.take(i as int).to_set(),
            forall|x: u8| #[trigger] by_x@.contains_key(x) ==> by_x@[x]@ == dealt@[x - 1]@,
        decreases xs.len() - i,
    {
        let x: u8 = xs[i];
        assert(1 <= xs@[i as int] <= dealt@.len());
        let place: usize = (x - 1) as usize;
        let share: Vec<u8> = copy_bytes(dealt[place].as_slice());
        by_x.insert(x, share);
        proof {
            let before = xs@.take(i as int);
            let after = xs@.take(i + 1);
            assert(after =~= before.push(x));
            assert forall|y: u8| after.to_set().contains(y) <==> before.to_set().insert(x).contains(
                y,
            ) by {
                if before.contains(y) {
                    let k = choose|k: int| 0 <= k < before.len() && before[k] == y;
                    assert(after[k] == y);
                }
                assert(after[i as int] == x);
                if after.contains(y) {
                    let k = choose|k: int| 0 <= k < after.len() && after[k] == y;
                    if k < i {
                        assert(before[k] == y);
                    }
                }
            }
            assert(after.to_set() =~= before.to_set().insert(x));
            assert(by_x@.dom() =~= after.to_set());
        }
        i += 1;
    }
    assert(xs@.take(i as int) =~= xs@);
    by_x
}

/// Draws one polynomial of degree below `threshold` with constant term zero
/// for each of `secret_len` bytes, and evaluates it at each x-coordinate.
///
/// Every field element is dealt, so that the coordinates may have gaps.
pub fn generate_zero_deltas(threshold: u8, secret_len: usize, xs: &[u8]) -> (r: Result<
    HashMap<u8, Vec<u8>>,
    Error,
>)
    ensures
        r is Ok <==> threshold >= 2 && secret_len > 0 && xs@.len() > 0 && distinct_nonzero(xs@),
        r matches Err(e) ==> e == Error::ShareShapeMismatch,
        r matches Ok(deltas) ==> {
            &&& deltas@.dom() == xs@.to_set()
            &&& forall|x: u8| #[trigger]
                deltas@.contains_key(x) ==> deltas@[x]@.len() == secret_len + 1 && deltas@[x]@[0]
                    == x
            &&& recover_zeros(
                xs@.map_values(|x: u8| deltas@[x]@),
                threshold,
                secret_len as nat,
            )
            &&& zero_polynomials(
                xs@.map_values(|x: u8| deltas@[x]@),
                threshold,
                secret_len as nat,
            )
            &&& blinds(xs@.map_values(|x: u8| deltas@[x]@), threshold)
        },
{
    if threshold < 2 || secret_len == 0 || xs.len() == 0 {
        return Err(Error::ShareShapeMismatch);
    }
    match require_distinct_nonzero_xs(xs) {
        Ok(()) => {},
        Err(e) => { return Err(e); },
    }
    let zero = zeros(secret_len);
    let all = deal(threshold, zero.as_slice(), 255);
    let by_x = deltas_at(&all, xs);
    proof {
        let deltas = xs@.map_values(|x: u8| by_x@[x]@);
        let dealt = byte_views(all@);
        assert(zero@ =~= zero_bytes(secret_len as nat));
        assert forall|m: int| 0 <= m < deltas.len() implies 0 <= xs@[m] - 1 < dealt.len()
            && #[trigger] deltas[m] == dealt[xs@[m] - 1] && deltas[m].len() == secret_len + 1
            && deltas[m][0] == xs@[m] by {
            let x = xs@[m];
            assert(x != 0);
            assert(xs@.to_set().contains(x));
            assert(by_x@.contains_key(x));
            assert(dealt[x - 1] == all@[x - 1]@);
        }
        assert forall|x: u8| #[trigger] by_x@.contains_key(x) implies by_x@[x]@.len() == secret_len
            + 1 && by_x@[x]@[0] == x by {
            let m = choose|m: int| 0 <= m < xs@.len() && xs@[m] == x;
            assert(deltas[m] == by_x@[x]@);
        }
        assert(byte_views(all@).len() == all@.len());
        lemma_dealt_from(dealt, zero@, threshold);
        assert(blinds(dealt, threshold)) by {
            assert forall|base: Seq<Seq<u8>>, picked: Seq<Seq<u8>>|
                #![trigger share_sums(base, picked)]
                quorum_of(picked, dealt, threshold) && same_shape(
                    base,
                    picked,
                ) implies interpolated(share_sums(base, picked)) == interpolated(base) by {
                assert(share_sums(base, picked).len() == base.len());
                lemma_xor_zero(interpolated(base), secret_len as nat);
            }
        }
        lemma_picked_deltas(dealt, deltas, threshold, secret_len as nat);
    }
    Ok(by_x)
}

/// What holds of dealt shares of zeros holds of deltas picked from them.
proof fn lemma_picked_deltas(
    dealt: Seq<Seq<u8>>,
    deltas: Seq<Seq<u8>>,
    threshold: u8,
    secret_len: nat,
)
    requires
        forall|m: int| 0 <= m < deltas.len() ==> dealt.contains(#[trigger] deltas[m]),
        recover_zeros(dealt, threshold, secret_len),
        zero_polynomials(dealt, threshold, secret_len),
        blinds(dealt, threshold),
    ensures
        recover_zeros(deltas, threshold, secret_len),
        zero_polynomials(deltas, threshold, secret_len),
        blinds(deltas, threshold),
{
    assert forall|picked: Seq<Seq<u8>>| #[trigger] quorum_of(picked, deltas, threshold) implies
        quorum_of(picked, dealt, threshold) by {
        assert forall|k: int| 0 <= k < picked.len() implies dealt.contains(#[trigger] picked[k]) by {
            assert(deltas.contains(picked[k]));
        }
    }
    assert forall|base: Seq<Seq<u8>>, picked: Seq<Seq<u8>>|
        #![trigger share_sums(base, picked)]
        quorum_of(picked, deltas, threshold) && same_shape(base, picked) implies interpolated(
        share_sums(base, picked),
    ) == interpolated(base) by {
        assert(quorum_of(picked, dealt, threshold));
        assert(share_sums(base, picked).len() == base.len());
    }
    let zero = zero_bytes(secret_len);
    let c = choose|c: Seq<Seq<u8>>|
        #[trigger] on_polynomials(dealt, zero, c, threshold) && adds_to_polynomials(
            dealt,
            zero,
            c,
            threshold,
        );
    assert forall|m: int| 0 <= m < deltas.len() implies (#[trigger] deltas[m]) == evaluated(
        zero,
        c,
        deltas[m][0],
    ) by {
        let i = choose|i: int| 0 <= i < dealt.len() && dealt[i] == deltas[m];
        assert(dealt[i] == evaluated(zero, c, dealt[i][0]));
    }
    assert(on_polynomials(deltas, zero, c, threshold));
    assert forall|base: Seq<u8>, others: Seq<Seq<u8>>, m: int|
        #![trigger share_sum(evaluated(base, others, deltas[m][0]), deltas[m])]
        0 <= m < deltas.len() && base.len() == zero.len() && coefficient_rows(
            others,
            threshold,
            zero.len(),
        ) implies share_sum(evaluated(base, others, deltas[m][0]), deltas[m]) == evaluated(
        xor_bytes(base, zero),
        coefficient_sums(others, c),
        deltas[m][0],
    ) by {
        let i = choose|i: int| 0 <= i < dealt.len() && dealt[i] == deltas[m];
        assert(share_sum(evaluated(base, others, dealt[i][0]), dealt[i]) == evaluated(
            xor_bytes(base, zero),
            coefficient_sums(others, c),
            dealt[i][0],
        ));
    }
    assert(adds_to_polynomials(deltas, zero, c, threshold));
}

/// Bitwise sum of two share encodings that have the same x-coordinate and
/// length.
pub fn apply_deltas(share: &[u8], delta: &[u8]) -> (r: Result<Vec<u8>, Error>)
    ensures
        r is Ok <==> share@.len() >= 2 && share@.len() == delta@.len() && share@[0] == delta@[0],
        r matches Ok(sum) ==> sum@ == share_sum(share@, delta@),
        r matches Err(e) ==> e == Error::ShareShapeMismatch,
{
    add_shares(share, delta)
}

/// Bitwise sum of two share encodings that have the same x-coordinate and
/// length.
pub fn add_shares(a: &[u8], b: &[u8]) -> (r: Result<Vec<u8>, Error>)
    ensures
        r is Ok <==> a@.len() >= 2 && a@.len() == b@.len() && a@[0] == b@[0],
        r matches Ok(sum) ==> sum@ == share_sum(a@, b@),
        r matches Err(e) ==> e == Error::ShareShapeMismatch,
{
    if a.len() < 2 || a.len() != b.len() || a[0] != b[0] {
        return Err(Error::ShareShapeMismatch);
    }
    let mut out: Vec<u8> = Vec::with_capacity(a.len());
    out.push(a[0]);
    let mut i: usize = 1;
    while i < a.len()
        invariant
            1 <= i <= a.len(),
            a@.len() == b@.len(),
            out@.len() == i,
            forall|k: int| 0 <= k < i ==> out@[k] == share_sum(a@, b@)[k],
        decreases a.len() - i,
    {
        out.push(a[i] ^ b[i]);
        i += 1;
    }
    assert(out@ =~= share_sum(a@, b@));
    Ok(out)
}

/// The row of deltas that belongs to a row of shares.
pub open spec fn delta_row(shares: Seq<Seq<u8>>, deltas: Map<u8, Vec<u8>>) -> Seq<Seq<u8>> {
    shares.map_values(|s: Seq<u8>| deltas[s[0]]@)
}

/// Whether each share has a delta at its x-coordinate, of its length.
pub open spec fn deltas_fit(shares: Seq<Seq<u8>>, deltas: Map<u8, Vec<u8>>) -> bool {
    forall|i: int|
        0 <= i < shares.len() ==> {
            &&& (#[trigger] shares[i]).len() >= 2
            &&& deltas.contains_key(shares[i][0])
            &&& deltas[shares[i][0]]@.len() == shares[i].len()
            &&& deltas[shares[i][0]]@[0] == shares[i][0]
        }
}

/// Adds to each share the delta at its x-coordinate. If one of them has none
/// that fits, nothing changes.
pub fn absorb(shares: &mut Vec<Vec<u8>>, deltas: &HashMap<u8, Vec<u8>>) -> (r: Result<(), Error>)
    ensures
        r is Ok <==> deltas_fit(byte_views(old(shares)@), deltas@),
        r is Ok ==> byte_views(final(shares)@) == share_sums(
            byte_views(old(shares)@),
            delta_row(byte_views(old(shares)@), deltas@),
        ),
        r matches Err(e) ==> e == Error::ShareShapeMismatch && *final(shares) == *old(shares),
{
    let ghost before = byte_views(shares@);
    let ghost row = delta_row(before, deltas@);
    let mut sums: Vec<Vec<u8>> = Vec::new();
    let mut i: usize = 0;
    while i < shares.len()
        invariant
            i <= shares.len(),
            before == byte_views(shares@),
            row == delta_row(before, deltas@),
            *shares == *old(shares),
            sums@.len() == i,
            forall|k: int| 0 <= k < i ==> (#[trigger] sums@[k])@ == share_sum(before[k], row[k]),
            forall|k: int|
                0 <= k < i ==> {
                    &&& (#[trigger] before[k]).len() >= 2
                    &&& deltas@.contains_key(before[k][0])
                    &&& deltas@[before[k][0]]@.len() == before[k].len()
                    &&& deltas@[before[k][0]]@[0] == before[k][0]
                },
        decreases shares.len() - i,
    {
        assert(before[i as int] == shares@[i as int]@);
        if shares[i].len() < 2 {
            return Err(Error::ShareShapeMismatch);
        }
        let x: u8 = shares[i][0];
        match deltas.get(&x) {
            None => { return Err(Error::ShareShapeMismatch); },
            Some(delta) => {
                match apply_deltas(shares[i].as_slice(), delta.as_slice()) {
                    Err(e) => { return Err(e); },
                    Ok(sum) => { sums.push(sum); },
                }
            },
        }
        i += 1;
    }
    *shares = sums;
    assert(byte_views(shares@) =~= share_sums(before, row));
    Ok(())
}

proof fn lemma_absorbed_row_keeps_quorums(
    before: Seq<Seq<u8>>,
    row: Seq<Seq<u8>>,
    threshold: u8,
)
    requires
        threshold >= 1,
        same_shape(before, row),
        distinct_nonzero(before.map_values(|s: Seq<u8>| s[0])),
        blinds(row, threshold),
    ensures
        refreshed(before, share_sums(before, row), threshold),
{
    let after = share_sums(before, row);
    let xs = before.map_values(|s: Seq<u8>| s[0]);
    assert forall|i: int|
        #![trigger before[i]]
        #![trigger after[i]]
        0 <= i < before.len() implies before[i].len() == after[i].len() && before[i][0]
        == after[i][0] by {
        assert(row[i].len() == before[i].len());
        if before[i].len() > 0 {
            assert(after[i][0] == before[i][0]);
        } else {
            assert(after[i] =~= before[i]);
        }
    }
    assert forall|places: Seq<int>| #[trigger]
        quorum_places(places, before.len(), threshold) implies interpolated(chosen(after, places))
        == interpolated(chosen(before, places)) by {
        let base = chosen(before, places);
        let picked = chosen(row, places);
        assert(distinct_xs(picked)) by {
            assert forall|i: int, j: int| 0 <= i < j < picked.len() implies (
            #[trigger] picked[i])[0] != (#[trigger] picked[j])[0] by {
                assert(places[i] != places[j]);
                assert(xs[places[i]] != xs[places[j]]);
                assert(row[places[i]][0] == before[places[i]][0]);
                assert(row[places[j]][0] == before[places[j]][0]);
            }
        }
        assert forall|k: int| 0 <= k < picked.len() implies row.contains(#[trigger] picked[k]) by {
            assert(row[places[k]] == picked[k]);
        }
        assert(quorum_of(picked, row, threshold));
        assert forall|i: int|
            #![trigger base[i]]
            #![trigger picked[i]]
            0 <= i < base.len() implies base[i].len() == picked[i].len() && base[i][0]
            == picked[i][0] by {
            assert(before[places[i]].len() == row[places[i]].len());
        }
        assert(same_shape(base, picked));
        assert(share_sums(base, picked) =~= chosen(after, places));
    }
}

/// Refreshing keeps what every quorum gives through any number of rounds.
pub proof fn refreshed_is_transitive(
    first: Seq<Seq<u8>>,
    second: Seq<Seq<u8>>,
    third: Seq<Seq<u8>>,
    threshold: u8,
)
    requires
        refreshed(first, second, threshold),
        refreshed(second, third, threshold),
    ensures
        refreshed(first, third, threshold),
{
    assert forall|i: int|
        #![trigger first[i]]
        #![trigger third[i]]
        0 <= i < first.len() implies first[i].len() == third[i].len() && first[i][0]
        == third[i][0] by {
        assert(first[i].len() == second[i].len() && second[i].len() == third[i].len());
    }
    assert forall|places: Seq<int>| #[trigger]
        quorum_places(places, first.len(), threshold) implies interpolated(chosen(third, places))
        == interpolated(chosen(first, places)) by {
        assert(quorum_places(places, second.len(), threshold));
    }
}

/// The maps of deltas, one for each round.
pub open spec fn round_views(rounds: Seq<HashMap<u8, Vec<u8>>>) -> Seq<Map<u8, Vec<u8>>> {
    rounds.map_values(|deltas: HashMap<u8, Vec<u8>>| deltas@)
}

/// The shares with the deltas of each round added in turn.
pub open spec fn all_absorbed(
    shares: Seq<Seq<u8>>,
    rounds: Seq<Map<u8, Vec<u8>>>,
) -> Seq<Seq<u8>>
    decreases rounds.len(),
{
    if rounds.len() == 0 {
        shares
    } else {
        let before = all_absorbed(shares, rounds.drop_last());
        share_sums(before, delta_row(before, rounds.last()))
    }
}

/// Whether the deltas of every round fit the shares.
pub open spec fn rounds_fit(shares: Seq<Seq<u8>>, rounds: Seq<Map<u8, Vec<u8>>>) -> bool {
    forall|k: int| 0 <= k < rounds.len() ==> deltas_fit(shares, #[trigger] rounds[k])
}

/// Whether every round's deltas fit the shares, leave what every quorum
/// interpolates to as it was, and are values of polynomials whose constant terms
/// are zero.
pub open spec fn blinding_rounds(
    shares: Seq<Seq<u8>>,
    rounds: Seq<Map<u8, Vec<u8>>>,
    threshold: u8,
) -> bool {
    &&& rounds_fit(shares, rounds)
    &&& forall|k: int|
        0 <= k < rounds.len() ==> blinds(delta_row(shares, #[trigger] rounds[k]), threshold)
    &&& forall|k: int|
        0 <= k < rounds.len() ==> zero_polynomials(
            delta_row(shares, #[trigger] rounds[k]),
            threshold,
            (shares[0].len() - 1) as nat,
        )
}

/// The shares absorbed one round of blinding deltas for each of them.
pub open spec fn refreshed_in_rounds(
    before: Seq<Seq<u8>>,
    after: Seq<Seq<u8>>,
    threshold: u8,
) -> bool {
    exists|rounds: Seq<Map<u8, Vec<u8>>>|
        {
            &&& rounds.len() == before.len()
            &&& blinding_rounds(before, rounds, threshold)
            &&& after == #[trigger] all_absorbed(before, rounds)
        }
}

/// Deltas that fit shares fit every row of the same shape.
proof fn lemma_fit_goes_by_shape(
    a: Seq<Seq<u8>>,
    b: Seq<Seq<u8>>,
    deltas: Map<u8, Vec<u8>>,
)
    requires
        same_shape(a, b),
    ensures
        deltas_fit(a, deltas) <==> deltas_fit(b, deltas),
        delta_row(a, deltas) == delta_row(b, deltas),
{
    assert forall|i: int| 0 <= i < a.len() implies #[trigger] delta_row(a, deltas)[i]
        == delta_row(b, deltas)[i] by {
        assert(a[i][0] == b[i][0]);
    }
    assert(delta_row(a, deltas) =~= delta_row(b, deltas));
    if deltas_fit(a, deltas) {
        assert forall|i: int| 0 <= i < b.len() implies {
            &&& (#[trigger] b[i]).len() >= 2
            &&& deltas.contains_key(b[i][0])
            &&& deltas[b[i][0]]@.len() == b[i].len()
            &&& deltas[b[i][0]]@[0] == b[i][0]
        } by {
            assert(a[i].len() >= 2);
        }
    }
    if deltas_fit(b, deltas) {
        assert forall|i: int| 0 <= i < a.len() implies {
            &&& (#[trigger] a[i]).len() >= 2
            &&& deltas.contains_key(a[i][0])
            &&& deltas[a[i][0]]@.len() == a[i].len()
            &&& deltas[a[i][0]]@[0] == a[i][0]
        } by {
            assert(b[i].len() >= 2);
        }
    }
}

/// Deltas that fit have the shares' shape, and adding them keeps it.
proof fn lemma_absorbing_keeps_shape(shares: Seq<Seq<u8>>, deltas: Map<u8, Vec<u8>>)
    requires
        deltas_fit(shares, deltas),
    ensures
        same_shape(shares, delta_row(shares, deltas)),
        same_shape(shares, share_sums(shares, delta_row(shares, deltas))),
{
    let row = delta_row(shares, deltas);
    let after = share_sums(shares, row);
    assert forall|i: int|
        #![trigger shares[i]]
        #![trigger row[i]]
        0 <= i < shares.len() implies shares[i].len() == row[i].len() && shares[i][0]
        == row[i][0] by {}
    assert forall|i: int|
        #![trigger shares[i]]
        #![trigger after[i]]
        0 <= i < shares.len() implies shares[i].len() == after[i].len() && shares[i][0]
        == after[i][0] by {
        assert(row[i].len() == shares[i].len());
        assert(after[i][0] == shares[i][0]);
    }
}

/// Absorbing rounds that fit keeps every share's x-coordinate and length.
proof fn lemma_all_absorbed_keeps_shape(
    shares: Seq<Seq<u8>>,
    rounds: Seq<Map<u8, Vec<u8>>>,
)
    requires
        rounds_fit(shares, rounds),
    ensures
        same_shape(shares, all_absorbed(shares, rounds)),
    decreases rounds.len(),
{
    if rounds.len() > 0 {
        let earlier = rounds.drop_last();
        assert forall|k: int| 0 <= k < earlier.len() implies deltas_fit(
            shares,
            #[trigger] earlier[k],
        ) by {
            assert(earlier[k] == rounds[k]);
        }
        lemma_all_absorbed_keeps_shape(shares, earlier);
        let before = all_absorbed(shares, earlier);
        lemma_fit_goes_by_shape(shares, before, rounds.last());
        assert(deltas_fit(shares, rounds[rounds.len() - 1]));
        lemma_absorbing_keeps_shape(before, rounds.last());
        let after = all_absorbed(shares, rounds);
        assert forall|i: int|
            #![trigger shares[i]]
            #![trigger after[i]]
            0 <= i < shares.len() implies shares[i].len() == after[i].len() && shares[i][0]
            == after[i][0] by {
            assert(shares[i].len() == before[i].len() && before[i].len() == after[i].len());
        }
    }
}

/// Shares that absorb blinding rounds are refreshed: every quorum still
/// interpolates to what it did.
pub proof fn blinding_rounds_refresh(
    shares: Seq<Seq<u8>>,
    rounds: Seq<Map<u8, Vec<u8>>>,
    threshold: u8,
)
    requires
        threshold >= 1,
        distinct_nonzero(shares.map_values(|s: Seq<u8>| s[0])),
        blinding_rounds(shares, rounds, threshold),
    ensures
        refreshed(shares, all_absorbed(shares, rounds), threshold),
    decreases rounds.len(),
{
    if rounds.len() > 0 {
        let earlier = rounds.drop_last();
        let last = rounds.last();
        assert forall|k: int| 0 <= k < earlier.len() implies deltas_fit(
            shares,
            #[trigger] earlier[k],
        ) && blinds(delta_row(shares, earlier[k]), threshold) && zero_polynomials(
            delta_row(shares, earlier[k]),
            threshold,
            (shares[0].len() - 1) as nat,
        ) by {
            assert(earlier[k] == rounds[k]);
        }
        blinding_rounds_refresh(shares, earlier, threshold);
        let before = all_absorbed(shares, earlier);
        assert(rounds[rounds.len() - 1] == last);
        lemma_fit_goes_by_shape(shares, before, last);
        lemma_absorbing_keeps_shape(before, last);
        assert(before.map_values(|s: Seq<u8>| s[0]) =~= shares.map_values(|s: Seq<u8>| s[0])) by {
            assert forall|i: int| 0 <= i < shares.len() implies #[trigger] before[i][0]
                == shares[i][0] by {}
        }
        lemma_absorbed_row_keeps_quorums(before, delta_row(before, last), threshold);
        refreshed_is_transitive(shares, before, all_absorbed(shares, rounds), threshold);
    }
}

/// Shares that absorb blinding rounds stay values of polynomials of degree below
/// the threshold, with the constant terms that they had.
pub proof fn blinding_rounds_keep_the_degree(
    shares: Seq<Seq<u8>>,
    rounds: Seq<Map<u8, Vec<u8>>>,
    secret: Seq<u8>,
    threshold: u8,
)
    requires
        threshold >= 1,
        secret.len() > 0,
        forall|i: int|
            0 <= i < shares.len() ==> (#[trigger] shares[i]).len() == secret.len() + 1,
        of_degree_below(shares, secret, threshold),
        blinding_rounds(shares, rounds, threshold),
    ensures
        of_degree_below(all_absorbed(shares, rounds), secret, threshold),
    decreases rounds.len(),
{
    if rounds.len() > 0 && shares.len() > 0 {
        let earlier = rounds.drop_last();
        let last = rounds.last();
        let len = secret.len();
        assert(shares[0].len() == len + 1);
        assert forall|k: int| 0 <= k < earlier.len() implies deltas_fit(
            shares,
            #[trigger] earlier[k],
        ) && blinds(delta_row(shares, earlier[k]), threshold) && zero_polynomials(
            delta_row(shares, earlier[k]),
            threshold,
            (shares[0].len() - 1) as nat,
        ) by {
            assert(earlier[k] == rounds[k]);
        }
        blinding_rounds_keep_the_degree(shares, earlier, secret, threshold);
        lemma_all_absorbed_keeps_shape(shares, earlier);
        let before = all_absorbed(shares, earlier);
        assert(rounds[rounds.len() - 1] == last);
        lemma_fit_goes_by_shape(shares, before, last);
        lemma_absorbing_keeps_shape(before, last);
        let row = delta_row(before, last);
        let after = all_absorbed(shares, rounds);
        let zero = zero_bytes(len);
        let c = choose|c: Seq<Seq<u8>>| #[trigger] on_polynomials(before, secret, c, threshold);
        let d = choose|d: Seq<Seq<u8>>|
            #[trigger] on_polynomials(row, zero, d, threshold) && adds_to_polynomials(
                row,
                zero,
                d,
                threshold,
            );
        let sums = coefficient_sums(c, d);
        lemma_xor_zero(secret, len);
        assert forall|i: int| 0 <= i < after.len() implies (#[trigger] after[i]) == evaluated(
            secret,
            sums,
            after[i][0],
        ) by {
            assert(before[i] == evaluated(secret, c, before[i][0]));
            assert(before[i][0] == row[i][0]);
            assert(before[i][0] == after[i][0]);
            assert(after[i] == share_sum(evaluated(secret, c, row[i][0]), row[i]));
        }
        assert(coefficient_rows(sums, threshold, len));
        assert(on_polynomials(after, secret, sums, threshold));
    } else if rounds.len() > 0 {
        let c = choose|c: Seq<Seq<u8>>| #[trigger] on_polynomials(shares, secret, c, threshold);
        lemma_all_absorbed_keeps_shape(shares, rounds);
        assert(on_polynomials(all_absorbed(shares, rounds), secret, c, threshold));
    }
}

fn row_fits(shares: &Vec<Vec<u8>>, deltas: &HashMap<u8, Vec<u8>>) -> (r: bool)
    ensures
        r == deltas_fit(byte_views(shares@), deltas@),
{
    let ghost views = byte_views(shares@);
    let mut i: usize = 0;
    while i < shares.len()
        invariant
            i <= shares.len(),
            views == byte_views(shares@),
            forall|k: int|
                0 <= k < i ==> {
                    &&& (#[trigger] views[k]).len() >= 2
                    &&& deltas@.contains_key(views[k][0])
                    &&& deltas@[views[k][0]]@.len() == views[k].len()
                    &&& deltas@[views[k][0]]@[0] == views[k][0]
                },
        decreases shares.len() - i,
    {
        assert(views[i as int] == shares@[i as int]@);
        if shares[i].len() < 2 {
            return false;
        }
        match deltas.get(&shares[i][0]) {
            None => { return false; },
            Some(delta) => {
                if delta.len() != shares[i].len() || delta[0] != shares[i][0] {
                    return false;
                }
            },
        }
        i += 1;
    }
    true
}

/// Adds to each share the delta of every round at its x-coordinate. If one of
/// them has none that fits, nothing changes.
pub fn absorb_all(shares: &mut Vec<Vec<u8>>, rows: &Vec<HashMap<u8, Vec<u8>>>) -> (r: Result<
    (),
    Error,
>)
    ensures
        r is Ok <==> rounds_fit(byte_views(old(shares)@), round_views(rows@)),
        r is Ok ==> byte_views(final(shares)@) == all_absorbed(
            byte_views(old(shares)@),
            round_views(rows@),
        ),
        r matches Err(e) ==> e == Error::ShareShapeMismatch && *final(shares) == *old(shares),
{
    let ghost before = byte_views(shares@);
    let ghost rounds = round_views(rows@);
    let mut k: usize = 0;
    while k < rows.len()
        invariant
            k <= rows.len(),
            *shares == *old(shares),
            before == byte_views(shares@),
            rounds == round_views(rows@),
            forall|j: int| 0 <= j < k ==> deltas_fit(before, #[trigger] rounds[j]),
        decreases rows.len() - k,
    {
        assert(rounds[k as int] == rows@[k as int]@);
        if !row_fits(shares, &rows[k]) {
            return Err(Error::ShareShapeMismatch);
        }
        k += 1;
    }
    k = 0;
    assert(rounds.take(0) =~= Seq::<Map<u8, Vec<u8>>>::empty());
    while k < rows.len()
        invariant
            k <= rows.len(),
            rounds == round_views(rows@),
            rounds_fit(before, rounds),
            byte_views(shares@) == all_absorbed(before, rounds.take(k as int)),
        decreases rows.len() - k,
    {
        let ghost current = byte_views(shares@);
        proof {
            let earlier = rounds.take(k as int);
            assert forall|j: int| 0 <= j < earlier.len() implies deltas_fit(
                before,
                #[trigger] earlier[j],
            ) by {
                assert(earlier[j] == rounds[j]);
            }
            lemma_all_absorbed_keeps_shape(before, earlier);
            assert(rounds[k as int] == rows@[k as int]@);
            lemma_fit_goes_by_shape(before, current, rounds[k as int]);
            assert(rounds.take(k + 1).drop_last() =~= earlier);
        }
        match absorb(shares, &rows[k]) {
            Ok(()) => {},
            Err(e) => { return Err(e); },
        }
        k += 1;
    }
    assert(rounds.take(k as int) =~= rounds);
    Ok(())
}

/// Mutual refresh of the shares of one secret: each survivor draws a blinding
/// polynomial and every share absorbs every delta. Whatever was drawn, every
/// quorum still interpolates to what it did. Shares that cannot be refreshed
/// stay as they are.
pub fn refresh_among(shares: &mut Vec<Vec<u8>>, threshold: u8) -> (r: Result<(), Error>)
    ensures
        r is Ok <==> refreshable(byte_views(old(shares)@), threshold),
        r is Ok ==> refreshed_in_rounds(
            byte_views(old(shares)@),
            byte_views(final(shares)@),
            threshold,
        ),
        r is Ok ==> refreshed(byte_views(old(shares)@), byte_views(final(shares)@), threshold),
        r matches Err(e) ==> e == Error::ShareShapeMismatch && *final(shares) == *old(shares),
{
    let ghost before = byte_views(shares@);
    if shares.len() == 0 || shares.len() < threshold as usize {
        return Err(Error::ShareShapeMismatch);
    }
    assert(before[0] == shares@[0]@);
    if shares[0].len() < 2 {
        return Err(Error::ShareShapeMismatch);
    }
    let share_len: usize = shares[0].len();
    let secret_len: usize = share_len - 1;
    let mut xs: Vec<u8> = Vec::new();
    let mut i: usize = 0;
    while i < shares.len()
        invariant
            i <= shares.len(),
            *shares == *old(shares),
            before == byte_views(shares@),
            shares@.len() > 0,
            before[0].len() == share_len,
            secret_len + 1 == share_len,
            xs@.len() == i,
            forall|k: int| 0 <= k < i ==> (#[trigger] before[k]).len() == secret_len + 1,
            forall|k: int| 0 <= k < i ==> xs@[k] == (#[trigger] before[k])[0],
        decreases shares.len() - i,
    {
        assert(before[i as int] == shares@[i as int]@);
        if shares[i].len() != share_len {
            return Err(Error::ShareShapeMismatch);
        }
        xs.push(shares[i][0]);
        i += 1;
    }
    assert(xs@ =~= before.map_values(|s: Seq<u8>| s[0]));
    match require_distinct_nonzero_xs(xs.as_slice()) {
        Ok(()) => {},
        Err(e) => { return Err(e); },
    }
    if threshold < 2 {
        return Err(Error::ShareShapeMismatch);
    }
    let mut rows: Vec<HashMap<u8, Vec<u8>>> = Vec::new();
    while rows.len() < shares.len()
        invariant
            rows@.len() <= shares@.len(),
            *shares == *old(shares),
            before == byte_views(shares@),
            threshold >= 2,
            secret_len > 0,
            before.len() > 0,
            forall|k: int| 0 <= k < before.len() ==> (#[trigger] before[k]).len() == secret_len + 1,
            xs@ == before.map_values(|s: Seq<u8>| s[0]),
            distinct_nonzero(xs@),
            blinding_rounds(before, round_views(rows@), threshold),
        decreases shares.len() - rows.len(),
    {
        match generate_zero_deltas(threshold, secret_len, xs.as_slice()) {
            Err(e) => { return Err(e); },
            Ok(deltas) => {
                let ghost drawn = round_views(rows@);
                proof {
                    lemma_drawn_deltas_fit(before, xs@, deltas@, secret_len as nat);
                }
                rows.push(deltas);
                proof {
                    let rounds = round_views(rows@);
                    assert(rounds =~= drawn.push(deltas@));
                    assert forall|k: int| 0 <= k < rounds.len() implies deltas_fit(
                        before,
                        #[trigger] rounds[k],
                    ) && blinds(delta_row(before, rounds[k]), threshold) && zero_polynomials(
                        delta_row(before, rounds[k]),
                        threshold,
                        (before[0].len() - 1) as nat,
                    ) by {
                        if k < drawn.len() {
                            assert(rounds[k] == drawn[k]);
                        }
                    }
                }
            },
        }
    }
    proof {
        blinding_rounds_refresh(before, round_views(rows@), threshold);
    }
    absorb_all(shares, &rows)
}

/// Deltas drawn at the shares' x-coordinates fit the shares.
proof fn lemma_drawn_deltas_fit(
    shares: Seq<Seq<u8>>,
    xs: Seq<u8>,
    deltas: Map<u8, Vec<u8>>,
    secret_len: nat,
)
    requires
        secret_len > 0,
        forall|k: int| 0 <= k < shares.len() ==> (#[trigger] shares[k]).len() == secret_len + 1,
        xs == shares.map_values(|s: Seq<u8>| s[0]),
        deltas.dom() == xs.to_set(),
        forall|x: u8| #[trigger]
            deltas.contains_key(x) ==> deltas[x]@.len() == secret_len + 1 && deltas[x]@[0] == x,
    ensures
        deltas_fit(shares, deltas),
        delta_row(shares, deltas) == xs.map_values(|x: u8| deltas[x]@),
{
    assert forall|k: int| 0 <= k < shares.len() implies {
        &&& (#[trigger] shares[k]).len() >= 2
        &&& deltas.contains_key(shares[k][0])
        &&& deltas[shares[k][0]]@.len() == shares[k].len()
        &&& deltas[shares[k][0]]@[0] == shares[k][0]
    } by {
        assert(xs[k] == shares[k][0]);
        assert(xs.to_set().contains(xs[k]));
    }
    assert(delta_row(shares, deltas) =~= xs.map_values(|x: u8| deltas[x]@));
}

/// A sum of shares keeps the first one's coordinate and length, and adds the other bytes
/// bit by bit: added again, the other share cancels itself.
pub proof fn sums_of_shares(share: Seq<u8>, delta: Seq<u8>, i: int)
    requires
        share.len() >= 2,
        delta.len() == share.len(),
    ensures
        share_sum(share, delta).len() == share.len(),
        share_sum(share, delta)[0] == share[0],
        1 <= i < share.len() ==> share_sum(share, delta)[i] == share[i] ^ delta[i],
        share_sum(share_sum(share, delta), delta) == share,
{
    let sum = share_sum(share, delta);
    let back = share_sum(sum, delta);
    assert forall|k: int| 0 <= k < share.len() implies back[k] == share[k] by {
        let a = share[k];
        let b = delta[k];
        assert((a ^ b) ^ b == a) by (bit_vector);
    }
    assert(back =~= share);
}

/// Deltas fit shares exactly if each share has one at its own coordinate that is as long as
/// it is.
pub proof fn deltas_that_fit(shares: Seq<Seq<u8>>, deltas: Map<u8, Vec<u8>>, i: int)
    ensures
        deltas_fit(shares, deltas) && 0 <= i < shares.len() ==> {
            &&& shares[i].len() >= 2
            &&& deltas.contains_key(shares[i][0])
            &&& deltas[shares[i][0]]@.len() == shares[i].len()
            &&& deltas[shares[i][0]]@[0] == shares[i][0]
            &&& delta_row(shares, deltas)[i] == deltas[shares[i][0]]@
        },
        shares.len() == 0 ==> deltas_fit(shares, deltas),
{
}

} // verus!
