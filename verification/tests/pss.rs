//! Proactive refresh of shares.

use std::collections::HashMap;

use blahaj::{Share, Sharks};
use keyquorum::error::Error;
use keyquorum::pss::{
    absorb, absorb_all, add_shares, apply_deltas, deltas_at, generate_zero_deltas, refresh_among,
};
use rand::rngs::OsRng;

fn split_secret(secret: &[u8], threshold: u8, n: usize) -> Vec<Vec<u8>> {
    let sharks = Sharks(threshold);
    sharks
        .dealer_rng(secret, &mut OsRng)
        .take(n)
        .map(|s| Vec::from(&s))
        .collect()
}

fn recover(threshold: u8, shares: &[Vec<u8>]) -> Vec<u8> {
    let parsed: Vec<Share> = shares
        .iter()
        .map(|s| Share::try_from(s.as_slice()).expect("share should parse"))
        .collect();
    Sharks(threshold)
        .recover(parsed.iter())
        .expect("recover should succeed")
}

#[test]
fn pss_refresh_preserves_the_secret_and_invalidates_a_stale_share() {
    let secret = b"the quorum has been reached!!!!";
    let mut shares = split_secret(secret, 2, 3);
    let stale = shares[2].clone();

    shares.truncate(2);
    refresh_among(&mut shares, 2).expect("refresh should succeed");

    assert_eq!(recover(2, &shares), secret);

    let mixed = [shares[0].clone(), stale];
    let recovered = recover(2, &mixed);
    assert_ne!(
        recovered, secret,
        "a pre-refresh share must not reconstruct with a refreshed sibling"
    );
}

#[test]
fn pss_add_shares_rejects_mismatched_x() {
    let a = vec![1, 10, 20];
    let b = vec![2, 10, 20];
    assert!(matches!(add_shares(&a, &b), Err(Error::ShareShapeMismatch)));
}

#[test]
fn pss_refresh_rejects_duplicate_share_coordinates() {
    let secret = b"the quorum has been reached!!!!";
    let shares = split_secret(secret, 2, 2);
    let mut duplicated = vec![shares[0].clone(), shares[0].clone()];
    assert!(matches!(
        refresh_among(&mut duplicated, 2),
        Err(Error::ShareShapeMismatch)
    ));
}

#[test]
fn pss_refresh_rejects_a_threshold_of_one() {
    let secret = b"the quorum has been reached!!!!";
    let mut shares = split_secret(secret, 1, 2);
    assert!(matches!(
        refresh_among(&mut shares, 1),
        Err(Error::ShareShapeMismatch)
    ));
}

#[test]
fn pss_refresh_rejects_fewer_shares_than_the_threshold() {
    let secret = b"the quorum has been reached!!!!";
    let mut shares = split_secret(secret, 2, 2);
    shares.truncate(1);
    assert!(matches!(
        refresh_among(&mut shares, 2),
        Err(Error::ShareShapeMismatch)
    ));
}

#[test]
fn tests_refresh_preserves_the_secret_and_invalidates_a_stale_share() {
    let secret = b"the quorum has been reached!!!!";
    let mut shares = split_secret(secret, 2, 3);
    let stale = shares[2].clone();

    shares.truncate(2);
    refresh_among(&mut shares, 2).expect("refresh should succeed");

    assert_eq!(recover(2, &shares), secret);

    let mixed = [shares[0].clone(), stale];
    let recovered = recover(2, &mixed);
    assert_ne!(
        recovered, secret,
        "a pre-refresh share must not reconstruct with a refreshed sibling"
    );
}

#[test]
fn tests_add_shares_rejects_mismatched_x() {
    let a = vec![1, 10, 20];
    let b = vec![2, 10, 20];
    assert!(matches!(add_shares(&a, &b), Err(Error::ShareShapeMismatch)));
}

#[test]
fn tests_refresh_rejects_duplicate_share_coordinates() {
    let secret = b"the quorum has been reached!!!!";
    let shares = split_secret(secret, 2, 2);
    let mut duplicated = vec![shares[0].clone(), shares[0].clone()];
    assert!(matches!(
        refresh_among(&mut duplicated, 2),
        Err(Error::ShareShapeMismatch)
    ));
}

#[test]
fn tests_refresh_rejects_a_threshold_of_one() {
    let secret = b"the quorum has been reached!!!!";
    let mut shares = split_secret(secret, 1, 2);
    assert!(matches!(
        refresh_among(&mut shares, 1),
        Err(Error::ShareShapeMismatch)
    ));
}

#[test]
fn tests_refresh_rejects_fewer_shares_than_the_threshold() {
    let secret = b"the quorum has been reached!!!!";
    let mut shares = split_secret(secret, 2, 2);
    shares.truncate(1);
    assert!(matches!(
        refresh_among(&mut shares, 2),
        Err(Error::ShareShapeMismatch)
    ));
}

#[test]
fn shares_add_byte_by_byte_in_the_field() {
    assert_eq!(add_shares(&[1, 10, 20], &[1, 3, 20]), Ok(vec![1, 9, 0]));
    assert_eq!(apply_deltas(&[1, 10, 20], &[1, 0, 0]), Ok(vec![1, 10, 20]));
    assert_eq!(add_shares(&[1, 10], &[1, 10, 20]), Err(Error::ShareShapeMismatch));
    assert_eq!(add_shares(&[1], &[1]), Err(Error::ShareShapeMismatch));
}

#[test]
fn adding_a_share_twice_gives_it_back() {
    let share = vec![3, 10, 20];
    let delta = vec![3, 200, 7];
    let once = add_shares(&share, &delta).unwrap();
    assert_ne!(once, share);
    assert_eq!(add_shares(&once, &delta), Ok(share));
}

#[test]
fn deltas_recover_zero() {
    let deltas = generate_zero_deltas(2, 4, &[1, 2, 5]).unwrap();
    let dealt: Vec<Vec<u8>> = [1u8, 2, 5].iter().map(|x| deltas[x].clone()).collect();
    assert_eq!(recover(2, &dealt[..2]), vec![0u8; 4]);
    assert_eq!(recover(2, &dealt[1..]), vec![0u8; 4]);
}

#[test]
fn given_deltas_are_absorbed_by_their_coordinates() {
    let mut shares = vec![vec![1, 10, 20], vec![2, 30, 40]];
    let deltas: HashMap<u8, Vec<u8>> = [(1, vec![1, 1, 1]), (2, vec![2, 2, 2])].into();
    assert_eq!(absorb(&mut shares, &deltas), Ok(()));
    assert_eq!(shares, vec![vec![1, 11, 21], vec![2, 28, 42]]);
}

#[test]
fn a_refused_refresh_keeps_the_shares() {
    let mut shares = vec![vec![1, 10, 20], vec![1, 30, 40]];
    assert_eq!(refresh_among(&mut shares, 2), Err(Error::ShareShapeMismatch));
    assert_eq!(shares, vec![vec![1, 10, 20], vec![1, 30, 40]]);
}

#[test]
fn every_round_is_absorbed_in_turn() {
    let mut shares = vec![vec![1, 10, 20], vec![2, 30, 40]];
    let rounds: Vec<HashMap<u8, Vec<u8>>> = vec![
        [(1, vec![1, 1, 1]), (2, vec![2, 2, 2])].into(),
        [(1, vec![1, 4, 8]), (2, vec![2, 16, 0]), (9, vec![9, 5, 5])].into(),
    ];
    assert_eq!(absorb_all(&mut shares, &rounds), Ok(()));
    assert_eq!(shares, vec![vec![1, 15, 29], vec![2, 12, 42]]);
    assert_eq!(absorb_all(&mut shares, &vec![]), Ok(()));
    assert_eq!(shares, vec![vec![1, 15, 29], vec![2, 12, 42]]);
}

#[test]
fn a_round_that_does_not_fit_leaves_every_share() {
    let fits: HashMap<u8, Vec<u8>> = [(1, vec![1, 1, 1]), (2, vec![2, 2, 2])].into();
    let lacks: HashMap<u8, Vec<u8>> = [(1, vec![1, 1, 1])].into();
    let short: HashMap<u8, Vec<u8>> = [(1, vec![1, 1, 1]), (2, vec![2, 2])].into();
    let misplaced: HashMap<u8, Vec<u8>> = [(1, vec![1, 1, 1]), (2, vec![3, 2, 2])].into();
    for bad in [lacks, short, misplaced] {
        let mut shares = vec![vec![1, 10, 20], vec![2, 30, 40]];
        let rounds = vec![fits.clone(), bad];
        assert_eq!(absorb_all(&mut shares, &rounds), Err(Error::ShareShapeMismatch));
        assert_eq!(shares, vec![vec![1, 10, 20], vec![2, 30, 40]]);
    }
}

#[test]
fn blinding_rounds_keep_the_secret() {
    let mut shares = split_secret(b"secret", 2, 3);
    let rounds: Vec<HashMap<u8, Vec<u8>>> =
        (0..3).map(|_| generate_zero_deltas(2, 6, &[1, 2, 3]).unwrap()).collect();
    assert_eq!(absorb_all(&mut shares, &rounds), Ok(()));
    assert_eq!(recover(2, &shares[..2]), b"secret");
    assert_eq!(recover(2, &shares[1..]), b"secret");
}

#[test]
fn dealt_shares_are_picked_by_their_coordinates() {
    let dealt = vec![vec![1, 10], vec![2, 20], vec![3, 30]];
    let picked = deltas_at(&dealt, &[3, 1, 3]);
    let expected: HashMap<u8, Vec<u8>> = [(1, vec![1, 10]), (3, vec![3, 30])].into();
    assert_eq!(picked, expected);
    assert!(deltas_at(&dealt, &[]).is_empty());
}

#[test]
fn deltas_take_as_many_as_the_threshold_to_recover_zeros() {
    let deltas = generate_zero_deltas(3, 32, &[1, 4, 9, 200]).unwrap();
    let rows: Vec<Vec<u8>> = [1u8, 4, 9, 200].iter().map(|x| deltas[x].clone()).collect();
    assert_eq!(recover(3, &rows[..3]), vec![0u8; 32]);
    assert_eq!(recover(3, &rows[1..]), vec![0u8; 32]);
    assert_ne!(recover(2, &rows[..2]), vec![0u8; 32]);
    for row in &rows {
        assert_ne!(row[1..], [0u8; 32]);
    }
}
