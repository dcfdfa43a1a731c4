//! Envelopes that wait for their recipients. The relay reads nothing of them but
//! the outer header:
//!   magic "KQPB" (4) | version (1) | type (1) | recipient's public key (32)
//!   | payload length (4) | payload

use vstd::prelude::*;

use crate::bytes::{be32, bytes_equal, copy_bytes};
use crate::error::{fault_of, Error};
use crate::keys::{fingerprint, fingerprint_text};
use crate::text::text_equal;

verus! {

/// The length of an envelope's header.
pub const HEADER_LEN: usize = 42;

/// The most envelopes that are listed at once.
pub const MAX_PAGE: i64 = 500;

/// An envelope as it is kept.
#[derive(Debug)]
pub struct StoredEnvelope {
    pub id: i64,
    pub recipient_fingerprint: String,
    pub bytes: Vec<u8>,
}

#[verifier::ext_equal]
pub struct StoredEnvelopeView {
    pub id: i64,
    pub recipient_fingerprint: Seq<char>,
    pub bytes: Seq<u8>,
}

impl View for StoredEnvelope {
    type V = StoredEnvelopeView;

    open spec fn view(&self) -> StoredEnvelopeView {
        StoredEnvelopeView {
            id: self.id,
            recipient_fingerprint: self.recipient_fingerprint@,
            bytes: self.bytes@,
        }
    }
}

pub open spec fn envelope_views(envelopes: Seq<StoredEnvelope>) -> Seq<StoredEnvelopeView> {
    Seq::new(envelopes.len(), |i: int| envelopes[i]@)
}

/// All envelopes, in the order of their ids.
#[derive(Debug)]
pub struct Mailbox {
    pub rows: Vec<StoredEnvelope>,
}

impl View for Mailbox {
    type V = Seq<StoredEnvelopeView>;

    open spec fn view(&self) -> Seq<StoredEnvelopeView> {
        envelope_views(self.rows@)
    }
}

/// Ids are positive and ascend, and no envelope is kept twice.
pub open spec fn mailbox_wf(rows: Seq<StoredEnvelopeView>) -> bool {
    &&& forall|i: int| 0 <= i < rows.len() ==> (#[trigger] rows[i]).id > 0
    &&& forall|i: int, j: int|
        0 <= i < j < rows.len() ==> (#[trigger] rows[i]).id < (#[trigger] rows[j]).id
    &&& forall|i: int, j: int|
        0 <= i < j < rows.len() ==> (#[trigger] rows[i]).bytes != (#[trigger] rows[j]).bytes
}

/// The id that the next envelope gets.
pub open spec fn next_envelope_id(rows: Seq<StoredEnvelopeView>) -> int {
    if rows.len() == 0 {
        1
    } else {
        rows.last().id + 1
    }
}

/// The payload length that a header states.
pub open spec fn stated_len(bytes: Seq<u8>) -> int {
    bytes[38] * 16777216 + bytes[39] * 65536 + bytes[40] * 256 + bytes[41]
}

/// Bytes that are an envelope: its header, and a payload of the stated length.
pub open spec fn is_envelope(bytes: Seq<u8>) -> bool {
    &&& bytes.len() >= HEADER_LEN
    &&& bytes[0] == 0x4b && bytes[1] == 0x51 && bytes[2] == 0x50 && bytes[3] == 0x42
    &&& bytes.len() == HEADER_LEN + stated_len(bytes)
}

/// Whom an envelope is for.
pub open spec fn recipient_of(bytes: Seq<u8>) -> Seq<char> {
    fingerprint_text(bytes.subrange(6, 38))
}

/// Where an envelope with the same bytes stands.
pub open spec fn envelope_place(rows: Seq<StoredEnvelopeView>, bytes: Seq<u8>) -> Option<int> {
    if exists|i: int| 0 <= i < rows.len() && (#[trigger] rows[i]).bytes == bytes {
        Some(choose|i: int| 0 <= i < rows.len() && (#[trigger] rows[i]).bytes == bytes)
    } else {
        None
    }
}

fn check_envelope(bytes: &[u8]) -> (r: bool)
    ensures
        r == is_envelope(bytes@),
{
    if bytes.len() < HEADER_LEN {
        return false;
    }
    if bytes[0] != 0x4b || bytes[1] != 0x51 || bytes[2] != 0x50 || bytes[3] != 0x42 {
        return false;
    }
    let len: u64 = bytes[38] as u64 * 16777216 + bytes[39] as u64 * 65536 + bytes[40] as u64 * 256
        + bytes[41] as u64;
    bytes.len() as u64 - HEADER_LEN as u64 == len
}

/// The fingerprint of the key that an envelope is for.
pub fn envelope_recipient(bytes: &[u8]) -> (r: Result<String, Error>)
    ensures
        match r {
            Ok(recipient) => is_envelope(bytes@) && recipient@ == recipient_of(bytes@),
            Err(e) => !is_envelope(bytes@) && e == Error::InvalidBridgePackage,
        },
{
    if !check_envelope(bytes) {
        return Err(Error::InvalidBridgePackage);
    }
    let mut key: Vec<u8> = Vec::new();
    let mut i: usize = 6;
    while i < 38
        invariant
            6 <= i <= 38,
            bytes@.len() >= HEADER_LEN,
            key@ == bytes@.subrange(6, i as int),
        decreases 38 - i,
    {
        key.push(bytes[i]);
        i += 1;
        assert(bytes@.subrange(6, i as int) =~= bytes@.subrange(6, i - 1).push(bytes@[i - 1]));
    }
    Ok(fingerprint(key.as_slice()))
}

impl Mailbox {
    pub fn new() -> (r: Mailbox)
        ensures
            r@ == Seq::<StoredEnvelopeView>::empty(),
            mailbox_wf(r@),
    {
        Mailbox { rows: Vec::new() }
    }

    fn find(&self, bytes: &[u8]) -> (r: Option<usize>)
        requires
            mailbox_wf(self@),
        ensures
            r is Some <==> envelope_place(self@, bytes@) is Some,
            r matches Some(i) ==> i < self@.len() && envelope_place(self@, bytes@) == Some(
                i as int,
            ),
    {
        let mut i: usize = 0;
        while i < self.rows.len()
            invariant
                i <= self.rows.len(),
                mailbox_wf(self@),
                forall|k: int| 0 <= k < i ==> (#[trigger] self@[k]).bytes != bytes@,
            decreases self.rows.len() - i,
        {
            assert(self@[i as int] == self.rows@[i as int]@);
            if bytes_equal(self.rows[i].bytes.as_slice(), bytes) {
                proof {
                    let found = envelope_place(self@, bytes@)->0;
                    assert(self@[found].bytes == bytes@);
                    assert(found == i);
                }
                return Some(i);
            }
            i += 1;
        }
        None
    }
}

/// Keeps an envelope, as it is. One that is kept already is not kept again: the
/// last part of the result says so.
pub fn store(mailbox: &mut Mailbox, bytes: &[u8]) -> (r: Result<(i64, String, bool), Error>)
    requires
        mailbox_wf(old(mailbox)@),
        next_envelope_id(old(mailbox)@) <= i64::MAX,
    ensures
        mailbox_wf(final(mailbox)@),
        fault_of(r) == (if is_envelope(bytes@) {
            None
        } else {
            Some(Error::InvalidBridgePackage)
        }),
        r is Err ==> final(mailbox)@ == old(mailbox)@,
        r matches Ok((id, recipient, duplicate)) ==> {
            &&& recipient@ == recipient_of(bytes@)
            &&& duplicate == (envelope_place(old(mailbox)@, bytes@) is Some)
            &&& match envelope_place(old(mailbox)@, bytes@) {
                Some(i) => id == old(mailbox)@[i].id && final(mailbox)@ == old(mailbox)@,
                None => id == next_envelope_id(old(mailbox)@) && final(mailbox)@ == old(
                    mailbox,
                )@.push(
                    StoredEnvelopeView {
                        id,
                        recipient_fingerprint: recipient_of(bytes@),
                        bytes: bytes@,
                    },
                ),
            }
        },
{
    let recipient = match envelope_recipient(bytes) {
        Ok(recipient) => recipient,
        Err(e) => return Err(e),
    };
    if let Some(i) = mailbox.find(bytes) {
        assert(mailbox@[i as int] == mailbox.rows@[i as int]@);
        return Ok((mailbox.rows[i].id, recipient, true));
    }
    let ghost before = mailbox@;
    let count: usize = mailbox.rows.len();
    let id: i64 = if count == 0 {
        1
    } else {
        assert(before[count - 1] == mailbox.rows@[count - 1]@);
        mailbox.rows[count - 1].id + 1
    };
    let row = StoredEnvelope {
        id,
        recipient_fingerprint: recipient.as_str().to_owned(),
        bytes: copy_bytes(bytes),
    };
    let ghost added = row@;
    mailbox.rows.push(row);
    proof {
        let after = mailbox@;
        assert(after =~= before.push(added));
        if count > 0 {
            assert(before[count - 1].id > 0);
        }
        assert forall|a: int, b: int| 0 <= a < b < after.len() implies (#[trigger] after[a]).id < (
        #[trigger] after[b]).id && after[a].bytes != after[b].bytes by {
            if b == before.len() {
                assert(after[a] == before[a]);
                if a < before.len() - 1 {
                    assert(before[a].id < before[before.len() - 1].id);
                }
            } else {
                assert(before[a].id < before[b].id);
            }
        }
        assert forall|a: int| 0 <= a < after.len() implies (#[trigger] after[a]).id > 0 by {
            if a < before.len() {
                assert(after[a] == before[a]);
            }
        }
    }
    Ok((id, recipient, false))
}

/// One page of envelopes, and where the next one goes on, if there is one.
#[derive(Debug)]
pub struct InboxPage {
    pub envelopes: Vec<StoredEnvelope>,
    pub next_after: Option<i64>,
}

/// The envelope is for the recipient and comes behind an id.
pub open spec fn waits_for(row: StoredEnvelopeView, recipient: Seq<char>, after: Option<i64>) -> bool {
    row.recipient_fingerprint == recipient && (after matches Some(id) ==> row.id > id)
}

/// The envelopes among the first `n` that wait for a recipient behind an id.
pub open spec fn waiting(
    rows: Seq<StoredEnvelopeView>,
    n: int,
    recipient: Seq<char>,
    after: Option<i64>,
) -> Seq<StoredEnvelopeView>
    decreases n,
{
    if n <= 0 {
        Seq::empty()
    } else {
        let before = waiting(rows, n - 1, recipient, after);
        if waits_for(rows[n - 1], recipient, after) {
            before.push(rows[n - 1])
        } else {
            before
        }
    }
}

/// How many envelopes are listed at once.
pub open spec fn page_size(limit: Option<i64>) -> int {
    match limit {
        Some(limit) => limit as int,
        None => MAX_PAGE as int,
    }
}

/// Lists the envelopes of a recipient behind an id, in the order of their ids, up
/// to a limit between 1 and 500.
pub fn list_after(mailbox: &Mailbox, recipient: &str, after: Option<i64>, limit: Option<i64>) -> (r:
    Result<InboxPage, Error>)
    ensures
        match r {
            Ok(page) => {
                let all = waiting(mailbox@, mailbox@.len() as int, recipient@, after);
                let size = page_size(limit);
                &&& 1 <= size <= MAX_PAGE
                &&& envelope_views(page.envelopes@) == all.take(
                    if all.len() < size {
                        all.len() as int
                    } else {
                        size
                    },
                )
                &&& page.next_after == (if all.len() > size {
                    Some(all[size - 1].id)
                } else {
                    None
                })
            },
            Err(e) => !(1 <= page_size(limit) <= MAX_PAGE) && e == Error::InvalidInboxPage,
        },
{
    let size: i64 = match limit {
        Some(limit) => limit,
        None => MAX_PAGE,
    };
    if size < 1 || size > MAX_PAGE {
        return Err(Error::InvalidInboxPage);
    }
    let count: usize = size as usize;
    let ghost rows = mailbox@;
    let mut envelopes: Vec<StoredEnvelope> = Vec::new();
    let mut more = false;
    let mut i: usize = 0;
    assert(envelope_views(envelopes@) =~= waiting(rows, 0, recipient@, after).take(0));
    while i < mailbox.rows.len()
        invariant
            i <= mailbox.rows.len(),
            rows == mailbox@,
            1 <= count,
            envelopes@.len() <= count,
            ({
                let so_far = waiting(rows, i as int, recipient@, after);
                &&& more == (so_far.len() > count)
                &&& envelopes@.len() == (if so_far.len() < count {
                    so_far.len() as int
                } else {
                    count as int
                })
                &&& envelope_views(envelopes@) == so_far.take(envelopes@.len() as int)
            }),
        decreases mailbox.rows.len() - i,
    {
        let row = &mailbox.rows[i];
        assert(rows[i as int] == row@);
        let ghost before = waiting(rows, i as int, recipient@, after);
        let ghost listed = envelope_views(envelopes@);
        let behind = match after {
            Some(id) => row.id > id,
            None => true,
        };
        if behind && text_equal(row.recipient_fingerprint.as_str(), recipient) {
            assert(waits_for(row@, recipient@, after));
            if envelopes.len() < count {
                envelopes.push(
                    StoredEnvelope {
                        id: row.id,
                        recipient_fingerprint: row.recipient_fingerprint.as_str().to_owned(),
                        bytes: copy_bytes(row.bytes.as_slice()),
                    },
                );
                proof {
                    assert(before.take(before.len() as int) =~= before);
                    assert(envelope_views(envelopes@) =~= listed.push(row@));
                    assert(before.push(row@).take(envelopes@.len() as int) =~= before.push(row@));
                }
            } else {
                more = true;
                assert(before.push(row@).take(count as int) =~= before.take(count as int));
            }
        }
        i += 1;
    }
    let next_after: Option<i64> = if more {
        proof {
            let all = waiting(rows, rows.len() as int, recipient@, after);
            assert(envelope_views(envelopes@)[count - 1] == all[count - 1]);
            assert(envelopes@[count - 1]@ == all[count - 1]);
        }
        Some(envelopes[count - 1].id)
    } else {
        None
    };
    Ok(InboxPage { envelopes, next_after })
}

proof fn lemma_waiting_ascends(
    rows: Seq<StoredEnvelopeView>,
    n: int,
    recipient: Seq<char>,
    after: Option<i64>,
)
    requires
        mailbox_wf(rows),
        0 <= n <= rows.len(),
    ensures
        forall|k: int|
            0 <= k < waiting(rows, n, recipient, after).len() ==> (n < rows.len()
                ==> #[trigger] waiting(rows, n, recipient, after)[k].id < rows[n].id),
        forall|j: int, k: int|
            0 <= j < k < waiting(rows, n, recipient, after).len() ==> (
            #[trigger] waiting(rows, n, recipient, after)[j]).id < (
            #[trigger] waiting(rows, n, recipient, after)[k]).id,
    decreases n,
{
    if n > 0 {
        lemma_waiting_ascends(rows, n - 1, recipient, after);
        let before = waiting(rows, n - 1, recipient, after);
        let all = waiting(rows, n, recipient, after);
        assert forall|k: int| 0 <= k < all.len() && n < rows.len() implies (
        #[trigger] all[k]).id < rows[n].id by {
            assert(rows[n - 1].id < rows[n].id);
            if k < before.len() {
                assert(all[k] == before[k]);
            }
        }
        assert forall|j: int, k: int| 0 <= j < k < all.len() implies (#[trigger] all[j]).id < (
        #[trigger] all[k]).id by {
            assert(all[j] == before[j]);
            if k < before.len() {
                assert(all[k] == before[k]);
            }
        }
    }
}

proof fn lemma_waiting_behind(
    rows: Seq<StoredEnvelopeView>,
    n: int,
    recipient: Seq<char>,
    after: Option<i64>,
    from: i64,
    size: int,
)
    requires
        mailbox_wf(rows),
        0 <= n <= rows.len(),
        1 <= size <= waiting(rows, rows.len() as int, recipient, after).len(),
        from == waiting(rows, rows.len() as int, recipient, after)[size - 1].id,
        waiting(rows, n, recipient, after).len() <= waiting(
            rows,
            rows.len() as int,
            recipient,
            after,
        ).len(),
        waiting(rows, n, recipient, after) == waiting(
            rows,
            rows.len() as int,
            recipient,
            after,
        ).take(waiting(rows, n, recipient, after).len() as int),
    ensures
        waiting(rows, n, recipient, Some(from)) == (if waiting(rows, n, recipient, after).len()
            <= size {
            Seq::empty()
        } else {
            waiting(rows, n, recipient, after).skip(size)
        }),
    decreases n,
{
    let all = waiting(rows, rows.len() as int, recipient, after);
    let here = waiting(rows, n, recipient, after);
    lemma_waiting_ascends(rows, rows.len() as int, recipient, after);
    if n > 0 {
        let before = waiting(rows, n - 1, recipient, after);
        assert(before =~= all.take(before.len() as int)) by {
            if before.len() < here.len() {
                assert(here.drop_last() =~= before);
            }
        }
        lemma_waiting_behind(rows, n - 1, recipient, after, from, size);
        if waits_for(rows[n - 1], recipient, after) {
            let k = here.len() - 1;
            assert(here[k] == rows[n - 1]);
            assert(all[k] == here[k]);
            if k > size - 1 {
                assert(all[size - 1].id < all[k].id);
                assert(here.skip(size) =~= (if before.len() <= size {
                    Seq::empty()
                } else {
                    before.skip(size)
                }).push(rows[n - 1]));
            } else if k < size - 1 {
                assert(all[k].id < all[size - 1].id);
            }
        } else if waits_for(rows[n - 1], recipient, Some(from)) {
            lemma_waiting_member(rows, rows.len() as int, recipient, after, size - 1);
        }
    }
}

/// Every envelope that is listed waits behind the id.
proof fn lemma_waiting_member(
    rows: Seq<StoredEnvelopeView>,
    n: int,
    recipient: Seq<char>,
    after: Option<i64>,
    k: int,
)
    requires
        0 <= n <= rows.len(),
        0 <= k < waiting(rows, n, recipient, after).len(),
    ensures
        waits_for(waiting(rows, n, recipient, after)[k], recipient, after),
    decreases n,
{
    if n > 0 {
        let before = waiting(rows, n - 1, recipient, after);
        if k < before.len() {
            lemma_waiting_member(rows, n - 1, recipient, after, k);
        }
    }
}

/// Pages join up: behind the last envelope of a page wait exactly those that the
/// page left out, in the same order.
pub proof fn pages_join_up(
    rows: Seq<StoredEnvelopeView>,
    recipient: Seq<char>,
    after: Option<i64>,
    size: int,
)
    requires
        mailbox_wf(rows),
        1 <= size <= waiting(rows, rows.len() as int, recipient, after).len(),
    ensures
        ({
            let all = waiting(rows, rows.len() as int, recipient, after);
            waiting(rows, rows.len() as int, recipient, Some(all[size - 1].id)) == all.skip(size)
        }),
{
    let all = waiting(rows, rows.len() as int, recipient, after);
    assert(all =~= all.take(all.len() as int));
    lemma_waiting_behind(rows, rows.len() as int, recipient, after, all[size - 1].id, size);
    assert(all.len() == size ==> all.skip(size) =~= Seq::empty());
}

/// What is kept waits for its recipient, with its bytes as they were sent.
pub proof fn kept_envelope_waits(rows: Seq<StoredEnvelopeView>, i: int)
    requires
        0 <= i < rows.len(),
    ensures
        waiting(rows, rows.len() as int, rows[i].recipient_fingerprint, None).contains(rows[i]),
{
    lemma_kept_waits(rows, rows.len() as int, i);
}

proof fn lemma_kept_waits(rows: Seq<StoredEnvelopeView>, n: int, i: int)
    requires
        0 <= i < n <= rows.len(),
    ensures
        waiting(rows, n, rows[i].recipient_fingerprint, None).contains(rows[i]),
    decreases n,
{
    let recipient = rows[i].recipient_fingerprint;
    let before = waiting(rows, n - 1, recipient, None);
    let all = waiting(rows, n, recipient, None);
    if i == n - 1 {
        assert(all[all.len() - 1] == rows[i]);
    } else {
        lemma_kept_waits(rows, n - 1, i);
        let k = choose|k: int| 0 <= k < before.len() && before[k] == rows[i];
        assert(all[k] == rows[i]);
    }
}

/// What waits for a recipient is exactly what is kept for that recipient behind the id,
/// whatever else is kept, and in the order of ids.
pub proof fn only_own_envelopes_wait(
    rows: Seq<StoredEnvelopeView>,
    n: int,
    recipient: Seq<char>,
    after: Option<i64>,
)
    requires
        mailbox_wf(rows),
        0 <= n <= rows.len(),
    ensures
        forall|row: StoredEnvelopeView| #[trigger]
            waiting(rows, n, recipient, after).contains(row) <==> exists|i: int|
                0 <= i < n && #[trigger] rows[i] == row && row.recipient_fingerprint == recipient
                    && (after is None || row.id > after->0),
        forall|a: int, b: int|
            0 <= a < b < waiting(rows, n, recipient, after).len() ==> (#[trigger] waiting(
                rows,
                n,
                recipient,
                after,
            )[a]).id < (#[trigger] waiting(rows, n, recipient, after)[b]).id,
    decreases n,
{
    if n > 0 {
        only_own_envelopes_wait(rows, n - 1, recipient, after);
        let before = waiting(rows, n - 1, recipient, after);
        let all = waiting(rows, n, recipient, after);
        let last = rows[n - 1];
        assert forall|row: StoredEnvelopeView| #[trigger] all.contains(row) <==> exists|i: int|
            0 <= i < n && #[trigger] rows[i] == row && row.recipient_fingerprint == recipient && (
            after is None || row.id > after->0) by {
            if all.contains(row) {
                let k = choose|k: int| 0 <= k < all.len() && all[k] == row;
                if k < before.len() {
                    assert(before[k] == row);
                    assert(before.contains(row));
                } else {
                    assert(rows[n - 1] == row);
                }
            }
            if before.contains(row) {
                let k = choose|k: int| 0 <= k < before.len() && before[k] == row;
                assert(all[k] == row);
            }
            if row == last && row.recipient_fingerprint == recipient && (after is None || row.id
                > after->0) {
                assert(all[before.len() as int] == row);
            }
        }
        assert forall|a: int, b: int| 0 <= a < b < all.len() implies (#[trigger] all[a]).id < (
        #[trigger] all[b]).id by {
            if b == before.len() {
                assert(before.contains(before[a]));
                let i = choose|i: int| 0 <= i < n - 1 && #[trigger] rows[i] == before[a];
                assert(rows[i].id < rows[n - 1].id);
            } else {
                assert(before[a].id < before[b].id);
            }
        }
    } else {
        assert forall|row: StoredEnvelopeView| !#[trigger] waiting(
            rows,
            n,
            recipient,
            after,
        ).contains(row) by {}
    }
}

/// A page holds as many envelopes as are asked for, and 500 where nothing is said.
pub proof fn pages_hold_what_is_asked_for(limit: i64)
    ensures
        page_size(Some(limit)) == limit,
        page_size(None) == 500,
{
}

/// An envelope is its magic, a version, a type, the recipient's key, the length of the
/// payload and the payload, and nothing else. It is for the holder of that key.
pub proof fn envelope_is_its_parts(
    version: u8,
    kind: u8,
    key: Seq<u8>,
    payload: Seq<u8>,
    bytes: Seq<u8>,
)
    requires
        key.len() == 32,
        payload.len() <= 0xffff_ffff,
        bytes == seq![0x4bu8, 0x51, 0x50, 0x42, version, kind] + key + be32(payload.len() as int)
            + payload,
    ensures
        is_envelope(bytes),
        recipient_of(bytes) == fingerprint_text(key),
{
    let n = payload.len() as int;
    let len = be32(n);
    assert(len.len() == 4);
    assert(bytes[38] == len[0] && bytes[39] == len[1] && bytes[40] == len[2] && bytes[41]
        == len[3]);
    assert(n / 65536 / 256 * 16777216 + n / 65536 % 256 * 65536 + n % 65536 / 256 * 256 + n % 65536
        % 256 == n);
    assert(bytes.subrange(6, 38) =~= key);
}

/// Bytes that are no such parts are no envelope.
pub proof fn only_parts_are_an_envelope(bytes: Seq<u8>)
    requires
        is_envelope(bytes),
    ensures
        bytes == seq![0x4bu8, 0x51, 0x50, 0x42, bytes[4], bytes[5]] + bytes.subrange(6, 38) + be32(
            bytes.len() - 42,
        ) + bytes.skip(42),
{
    let n = bytes.len() - 42;
    let a = bytes[38] as int;
    let b = bytes[39] as int;
    let c = bytes[40] as int;
    let d = bytes[41] as int;
    assert(n == a * 16777216 + b * 65536 + c * 256 + d);
    assert(n / 65536 == a * 256 + b);
    assert(n % 65536 == c * 256 + d);
    assert((a * 256 + b) / 256 == a && (a * 256 + b) % 256 == b);
    assert((c * 256 + d) / 256 == c && (c * 256 + d) % 256 == d);
    let parts = seq![0x4bu8, 0x51, 0x50, 0x42, bytes[4], bytes[5]] + bytes.subrange(6, 38) + be32(n)
        + bytes.skip(42);
    assert(parts.len() == bytes.len());
    assert(parts =~= bytes);
}

/// Envelopes are counted from one on, without a gap.
pub proof fn envelope_ids_count_on(rows: Seq<StoredEnvelopeView>, row: StoredEnvelopeView)
    ensures
        next_envelope_id(Seq::<StoredEnvelopeView>::empty()) == 1,
        row.id == next_envelope_id(rows) ==> next_envelope_id(rows.push(row)) == next_envelope_id(rows) + 1,
{
}

/// A page can be asked for exactly if it holds one envelope at least and 500 at most.
pub proof fn pages_that_can_be_asked_for(limit: Option<i64>)
    ensures
        1 <= page_size(limit) <= MAX_PAGE <==> limit is None || 1 <= limit->0 <= 500,
{
}

} // verus!
