//! The mailbox of the relay.

use keyquorum::error::Error;
use keyquorum::keys::{fingerprint, generate_encryption_keypair};
use keyquorum::relay::mailbox::envelope_recipient;
use keyquorum::relay::{list_after, store, Mailbox};

fn fake_kqpb(public_key: [u8; 32], payload: &[u8]) -> Vec<u8> {
    let mut out = Vec::new();
    out.extend_from_slice(b"KQPB");
    out.push(2);
    out.push(1);
    out.extend_from_slice(&public_key);
    out.extend_from_slice(&(payload.len() as u32).to_be_bytes());
    out.extend_from_slice(payload);
    out
}

fn sample_envelope() -> (Vec<u8>, String) {
    let (_sk, pk) = generate_encryption_keypair();
    let bytes = fake_kqpb(pk, b"opaque-letter");
    (bytes, fingerprint(&pk))
}

#[test]
fn mailbox_stores_bytes_verbatim_and_dedupes() {
    let mut mailbox = Mailbox::new();
    let (envelope, fingerprint) = sample_envelope();
    let (id, fp, dup) = store(&mut mailbox, &envelope).expect("store");
    assert!(!dup);
    assert_eq!(fp, fingerprint);
    let (id2, _, dup2) = store(&mut mailbox, &envelope).expect("dedupe");
    assert!(dup2);
    assert_eq!(id, id2);
    let listed = list_after(&mailbox, &fingerprint, None, None).expect("list");
    assert_eq!(listed.envelopes.len(), 1);
    assert_eq!(listed.envelopes[0].bytes, envelope);
    assert!(listed.next_after.is_none());
}

#[test]
fn mailbox_list_after_pages_and_rejects_invalid_limits() {
    let mut mailbox = Mailbox::new();
    let (_sk, pk) = generate_encryption_keypair();
    let fingerprint = fingerprint(&pk);
    for payload in [b"one".as_slice(), b"two", b"three"] {
        store(&mut mailbox, &fake_kqpb(pk, payload)).expect("store");
    }
    let first = list_after(&mailbox, &fingerprint, None, Some(2)).expect("page");
    assert_eq!(first.envelopes.len(), 2);
    let cursor = first.next_after.expect("continuation");
    assert_eq!(cursor, first.envelopes[1].id);
    let second = list_after(&mailbox, &fingerprint, Some(cursor), Some(2)).expect("rest");
    assert_eq!(second.envelopes.len(), 1);
    assert!(second.next_after.is_none());
    assert!(matches!(
        list_after(&mailbox, &fingerprint, None, Some(0)),
        Err(Error::InvalidInboxPage)
    ));
    assert!(matches!(
        list_after(&mailbox, &fingerprint, None, Some(501)),
        Err(Error::InvalidInboxPage)
    ));
}

#[test]
fn mailbox_rejects_truncated_and_wrong_magic() {
    let mut mailbox = Mailbox::new();
    assert!(matches!(
        store(&mut mailbox, b"KQBN"),
        Err(Error::InvalidBridgePackage)
    ));
    assert!(matches!(
        store(&mut mailbox, b"KQPB\x02"),
        Err(Error::InvalidBridgePackage)
    ));
}

#[test]
fn an_envelope_names_its_recipient() {
    let bytes = fake_kqpb([7u8; 32], b"letter");
    assert_eq!(envelope_recipient(&bytes), Ok(fingerprint(&[7u8; 32])));
    assert_eq!(
        envelope_recipient(&bytes[..bytes.len() - 1]),
        Err(Error::InvalidBridgePackage)
    );
    let mut longer = bytes.clone();
    longer.push(0);
    assert_eq!(envelope_recipient(&longer), Err(Error::InvalidBridgePackage));
}

#[test]
fn a_page_holds_only_what_waits_for_its_reader() {
    let mut mailbox = Mailbox::new();
    let (ours, fp) = sample_envelope();
    let (theirs, _) = sample_envelope();
    store(&mut mailbox, &theirs).unwrap();
    let (id, _, _) = store(&mut mailbox, &ours).unwrap();
    let page = list_after(&mailbox, &fp, None, Some(500)).unwrap();
    assert_eq!(page.envelopes.len(), 1);
    assert_eq!(page.envelopes[0].id, id);
    assert!(list_after(&mailbox, &fp, Some(id), None).unwrap().envelopes.is_empty());
}

#[test]
fn pages_of_every_size_join_up_to_the_whole_mailbox() {
    let mut mailbox = Mailbox::new();
    let (_sk, mine) = generate_encryption_keypair();
    let (_sk, theirs) = generate_encryption_keypair();
    let reader = fingerprint(&mine);
    let mut sent = Vec::new();
    for number in 0u8..7 {
        let envelope = fake_kqpb(mine, &[number]);
        store(&mut mailbox, &envelope).expect("store");
        store(&mut mailbox, &fake_kqpb(theirs, &[number])).expect("store");
        sent.push(envelope);
    }
    for size in 1i64..=8 {
        let mut read = Vec::new();
        let mut after = None;
        loop {
            let page = list_after(&mailbox, &reader, after, Some(size)).expect("page");
            for envelope in &page.envelopes {
                read.push(envelope.bytes.clone());
            }
            after = page.next_after;
            if after.is_none() {
                break;
            }
        }
        assert_eq!(read, sent);
    }
}
