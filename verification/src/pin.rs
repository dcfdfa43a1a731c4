//! An optional gate of four digits on a resource, on top of what protects it.
//!
//! Eight wrong entries lock a PIN, for the right one too, until it is set anew.
//! A PIN that is not asked for at every use opens a window in which it is not
//! asked for at all.

use vstd::prelude::*;
use vstd::utf8::*;

use crate::bytes::{bytes_equal, copy_bytes};
use crate::clock::{after, instant_after};
use crate::crypto::{derivable, derive_key, derived_key, random_salt, wipe, SALT_LEN};
use crate::error::{fault_of, Error};
use crate::text::chars_of;

verus! {

/// How many wrong entries lock a PIN.
pub const MAX_ATTEMPTS: i64 = 8;

/// What a PIN can protect.
#[derive(Clone, Copy, PartialEq, Eq, Debug, Structural)]
pub enum ResourceType {
    Credential,
    LockedFile,
    QuorumFile,
    CredentialShare,
    FileShare,
}

impl ResourceType {
    pub open spec fn text(self) -> Seq<char> {
        match self {
            ResourceType::Credential => "credential"@,
            ResourceType::LockedFile => "locked_file"@,
            ResourceType::QuorumFile => "quorum_file"@,
            ResourceType::CredentialShare => "credential_share"@,
            ResourceType::FileShare => "file_share"@,
        }
    }

    /// The name that is stored.
    pub fn as_str(self) -> (r: &'static str)
        ensures
            r@ == self.text(),
    {
        match self {
            ResourceType::Credential => "credential",
            ResourceType::LockedFile => "locked_file",
            ResourceType::QuorumFile => "quorum_file",
            ResourceType::CredentialShare => "credential_share",
            ResourceType::FileShare => "file_share",
        }
    }
}

/// One PIN and how it stands.
#[derive(Debug)]
pub struct PinRow {
    pub resource_type: ResourceType,
    pub resource_id: i64,
    pub pin_hash: Vec<u8>,
    pub pin_salt: Vec<u8>,
    pub require_every_use: bool,
    pub ttl_seconds: i64,
    pub attempt_count: i64,
    pub locked_at: Option<i64>,
    pub unlocked_until: Option<i64>,
}

#[verifier::ext_equal]
pub struct PinRowView {
    pub resource_type: ResourceType,
    pub resource_id: i64,
    pub pin_hash: Seq<u8>,
    pub pin_salt: Seq<u8>,
    pub require_every_use: bool,
    pub ttl_seconds: i64,
    pub attempt_count: i64,
    pub locked_at: Option<i64>,
    pub unlocked_until: Option<i64>,
}

impl View for PinRow {
    type V = PinRowView;

    open spec fn view(&self) -> PinRowView {
        PinRowView {
            resource_type: self.resource_type,
            resource_id: self.resource_id,
            pin_hash: self.pin_hash@,
            pin_salt: self.pin_salt@,
            require_every_use: self.require_every_use,
            ttl_seconds: self.ttl_seconds,
            attempt_count: self.attempt_count,
            locked_at: self.locked_at,
            unlocked_until: self.unlocked_until,
        }
    }
}

impl PinRowView {
    /// An attempt more is always counted, and the last one that is allowed locks.
    pub open spec fn wf(self) -> bool {
        &&& 0 <= self.attempt_count
        &&& self.locked_at is None ==> self.attempt_count < MAX_ATTEMPTS
    }

    pub open spec fn is_for(self, resource_type: ResourceType, resource_id: i64) -> bool {
        self.resource_type == resource_type && self.resource_id == resource_id
    }

    /// The PIN was entered and is not asked for yet.
    pub open spec fn window_open(self, now: i64) -> bool {
        &&& !self.require_every_use
        &&& self.unlocked_until matches Some(until) && until > now
    }

    /// The PIN has to be entered.
    pub open spec fn prompts(self, now: i64) -> bool {
        self.locked_at is Some || !self.window_open(now)
    }

    /// The row after an entry that was compared.
    pub open spec fn after_entry(self, right: bool, now: i64) -> PinRowView {
        if !right {
            PinRowView {
                attempt_count: (self.attempt_count + 1) as i64,
                locked_at: if self.attempt_count + 1 >= MAX_ATTEMPTS {
                    Some(now)
                } else {
                    self.locked_at
                },
                ..self
            }
        } else if self.require_every_use {
            PinRowView { attempt_count: 0, ..self }
        } else {
            PinRowView {
                attempt_count: 0,
                unlocked_until: window_end(now, self.ttl_seconds),
                ..self
            }
        }
    }
}

/// When a window of some seconds ends. There is none of negative length, and
/// none beyond the calendar.
pub open spec fn window_end(now: i64, ttl_seconds: i64) -> Option<i64> {
    if ttl_seconds < 0 {
        None
    } else {
        instant_after(now, ttl_seconds)
    }
}

/// All PINs.
#[derive(Debug)]
pub struct PinTable {
    pub rows: Vec<PinRow>,
}

impl View for PinTable {
    type V = Seq<PinRowView>;

    open spec fn view(&self) -> Seq<PinRowView> {
        Seq::new(self.rows@.len(), |i: int| self.rows@[i]@)
    }
}

/// No resource has two PINs.
pub open spec fn pins_wf(rows: Seq<PinRowView>) -> bool {
    &&& forall|i: int| 0 <= i < rows.len() ==> (#[trigger] rows[i]).wf()
    &&& forall|i: int, j: int|
        0 <= i < j < rows.len() ==> !(#[trigger] rows[i]).is_for(
            (#[trigger] rows[j]).resource_type,
            rows[j].resource_id,
        )
}

/// Where the PIN of a resource stands.
pub open spec fn pin_place(
    rows: Seq<PinRowView>,
    resource_type: ResourceType,
    resource_id: i64,
) -> Option<int> {
    if exists|i: int|
        0 <= i < rows.len() && (#[trigger] rows[i]).is_for(resource_type, resource_id) {
        Some(
            choose|i: int|
                0 <= i < rows.len() && (#[trigger] rows[i]).is_for(resource_type, resource_id),
        )
    } else {
        None
    }
}

/// Four decimal digits.
pub open spec fn four_digits(pin: Seq<char>) -> bool {
    pin.len() == 4 && forall|i: int| 0 <= i < pin.len() ==> '0' <= #[trigger] pin[i] <= '9'
}

/// Whether a text is four decimal digits.
pub fn is_four_digit_pin(pin: &str) -> (r: bool)
    ensures
        r == four_digits(pin@),
{
    let chars = chars_of(pin);
    if chars.len() != 4 {
        return false;
    }
    let mut i: usize = 0;
    while i < chars.len()
        invariant
            i <= chars.len(),
            chars@ == pin@,
            forall|k: int| 0 <= k < i ==> '0' <= #[trigger] chars@[k] <= '9',
        decreases chars.len() - i,
    {
        if chars[i] < '0' || chars[i] > '9' {
            return false;
        }
        i += 1;
    }
    true
}

impl PinTable {
    pub fn new() -> (r: PinTable)
        ensures
            r@ == Seq::<PinRowView>::empty(),
            pins_wf(r@),
    {
        PinTable { rows: Vec::new() }
    }

    fn find(&self, resource_type: ResourceType, resource_id: i64) -> (r: Option<usize>)
        requires
            pins_wf(self@),
        ensures
            r is Some <==> pin_place(self@, resource_type, resource_id) is Some,
            r matches Some(i) ==> i < self@.len() && pin_place(self@, resource_type, resource_id)
                == Some(i as int) && self@[i as int].is_for(resource_type, resource_id),
    {
        let mut i: usize = 0;
        while i < self.rows.len()
            invariant
                i <= self.rows.len(),
                pins_wf(self@),
                forall|k: int|
                    0 <= k < i ==> !(#[trigger] self@[k]).is_for(resource_type, resource_id),
            decreases self.rows.len() - i,
        {
            assert(self@[i as int] == self.rows@[i as int]@);
            if self.rows[i].resource_type == resource_type && self.rows[i].resource_id
                == resource_id {
                proof {
                    assert(self@[i as int].is_for(resource_type, resource_id));
                    let found = pin_place(self@, resource_type, resource_id)->0;
                    assert(self@[found].is_for(resource_type, resource_id));
                    if found < i {
                    } else if i < found {
                        assert(!self@[i as int].is_for(resource_type, resource_id));
                    }
                }
                return Some(i);
            }
            i += 1;
        }
        None
    }
}

/// A PIN that was just set.
pub open spec fn fresh_pin(
    row: PinRowView,
    resource_type: ResourceType,
    resource_id: i64,
    pin: Seq<char>,
    require_every_use: bool,
    ttl_seconds: i64,
) -> bool {
    &&& row.is_for(resource_type, resource_id)
    &&& row.pin_salt.len() == SALT_LEN
    &&& row.pin_hash == derived_key(pin, row.pin_salt)
    &&& row.require_every_use == require_every_use
    &&& row.ttl_seconds == ttl_seconds
    &&& row.attempt_count == 0
    &&& row.locked_at is None
    &&& row.unlocked_until is None
}

/// Sets the PIN of a resource, or replaces it. One that is set anew has no
/// attempts, no lock and no window.
pub fn set_pin(
    pins: &mut PinTable,
    resource_type: ResourceType,
    resource_id: i64,
    pin: &str,
    require_every_use: bool,
    ttl_seconds: i64,
) -> (r: Result<(), Error>)
    requires
        pins_wf(old(pins)@),
    ensures
        pins_wf(final(pins)@),
        fault_of(r) == (if four_digits(pin@) {
            None
        } else {
            Some(Error::InvalidPin)
        }),
        r is Err ==> final(pins)@ == old(pins)@,
        r is Ok ==> exists|row: PinRowView|
            {
                &&& #[trigger] fresh_pin(
                    row,
                    resource_type,
                    resource_id,
                    pin@,
                    require_every_use,
                    ttl_seconds,
                )
                &&& final(pins)@ == (match pin_place(old(pins)@, resource_type, resource_id) {
                    Some(i) => old(pins)@.update(i, row),
                    None => old(pins)@.push(row),
                })
            },
{
    if !is_four_digit_pin(pin) {
        return Err(Error::InvalidPin);
    }
    let salt = random_salt();
    proof {
        is_ascii_chars_encode_utf8(pin@);
    }
    let mut hash = match derive_key(pin, &salt) {
        Ok(hash) => hash,
        Err(e) => return Err(e),
    };
    let row = PinRow {
        resource_type,
        resource_id,
        pin_hash: copy_bytes(&hash),
        pin_salt: copy_bytes(&salt),
        require_every_use,
        ttl_seconds,
        attempt_count: 0,
        locked_at: None,
        unlocked_until: None,
    };
    wipe(&mut hash);
    let ghost added = row@;
    let ghost before = pins@;
    match pins.find(resource_type, resource_id) {
        Some(i) => {
            pins.rows.set(i, row);
            assert(pins@ =~= before.update(i as int, added));
        },
        None => {
            pins.rows.push(row);
            assert(pins@ =~= before.push(added));
        },
    }
    assert(fresh_pin(added, resource_type, resource_id, pin@, require_every_use, ttl_seconds));
    Ok(())
}

/// Whether a resource has a PIN.
pub fn has_pin(pins: &PinTable, resource_type: ResourceType, resource_id: i64) -> (r: bool)
    requires
        pins_wf(pins@),
    ensures
        r == (pin_place(pins@, resource_type, resource_id) is Some),
{
    pins.find(resource_type, resource_id).is_some()
}

fn is_open(row: &PinRow, now: i64) -> (r: bool)
    ensures
        r == row@.window_open(now),
{
    if row.require_every_use {
        return false;
    }
    match row.unlocked_until {
        Some(until) => until > now,
        None => false,
    }
}

/// The PIN of a resource has to be entered now.
pub open spec fn prompt_due(
    rows: Seq<PinRowView>,
    resource_type: ResourceType,
    resource_id: i64,
    now: i64,
) -> bool {
    match pin_place(rows, resource_type, resource_id) {
        None => false,
        Some(i) => rows[i].prompts(now),
    }
}

/// Whether the PIN of a resource has to be entered now. Where there is none, or
/// its window is open, it has not.
pub fn verification_required(
    pins: &PinTable,
    resource_type: ResourceType,
    resource_id: i64,
    now: i64,
) -> (r: bool)
    requires
        pins_wf(pins@),
    ensures
        r == prompt_due(pins@, resource_type, resource_id, now),
{
    match pins.find(resource_type, resource_id) {
        None => false,
        Some(i) => {
            assert(pins@[i as int] == pins.rows@[i as int]@);
            pins.rows[i].locked_at.is_some() || !is_open(&pins.rows[i], now)
        },
    }
}

/// The PINs after one was entered, and why the entry was refused, if it was.
///
/// `key` gives the key that the entry derives to under a salt, if it does.
pub open spec fn entered(
    rows: Seq<PinRowView>,
    resource_type: ResourceType,
    resource_id: i64,
    key: spec_fn(Seq<u8>) -> Option<Seq<u8>>,
    now: i64,
) -> (Seq<PinRowView>, Option<Error>) {
    match pin_place(rows, resource_type, resource_id) {
        None => (rows, Some(Error::PinNotSet)),
        Some(i) => {
            let row = rows[i];
            if row.locked_at is Some {
                (rows, Some(Error::PinLocked))
            } else if row.window_open(now) {
                (rows, None)
            } else {
                match key(row.pin_salt) {
                    None => (rows, Some(Error::KeyDerivationFailed)),
                    Some(hash) => (
                        rows.update(i, row.after_entry(hash == row.pin_hash, now)),
                        if hash == row.pin_hash {
                            None
                        } else {
                            Some(Error::PinMismatch)
                        },
                    ),
                }
            }
        },
    }
}

/// The key that a text derives to under a salt, if it does.
pub open spec fn key_under(pin: Seq<char>) -> spec_fn(Seq<u8>) -> Option<Seq<u8>> {
    |salt: Seq<u8>|
        if derivable(pin, salt) {
            Some(derived_key(pin, salt))
        } else {
            None
        }
}

/// Counts an entry that derived to a key, against a PIN that is neither locked
/// nor in its window.
pub fn settle_entry(
    pins: &mut PinTable,
    resource_type: ResourceType,
    resource_id: i64,
    candidate_hash: &[u8],
    now: i64,
) -> (r: Result<(), Error>)
    requires
        pins_wf(old(pins)@),
        pin_place(old(pins)@, resource_type, resource_id) matches Some(i) && {
            &&& old(pins)@[i].locked_at is None
            &&& !old(pins)@[i].window_open(now)
        },
    ensures
        pins_wf(final(pins)@),
        (final(pins)@, fault_of(r)) == entered(
            old(pins)@,
            resource_type,
            resource_id,
            |salt: Seq<u8>| Some(candidate_hash@),
            now,
        ),
{
    let ghost before = pins@;
    match pins.find(resource_type, resource_id) {
        None => Err(Error::PinNotSet),
        Some(i) => {
            let ghost row = before[i as int];
            assert(row == pins.rows@[i as int]@);
            assert(row.wf());
            if !bytes_equal(candidate_hash, pins.rows[i].pin_hash.as_slice()) {
                let count: i64 = pins.rows[i].attempt_count + 1;
                pins.rows[i].attempt_count = count;
                if count >= MAX_ATTEMPTS {
                    pins.rows[i].locked_at = Some(now);
                }
                assert(pins@ =~= before.update(i as int, row.after_entry(false, now)));
                return Err(Error::PinMismatch);
            }
            pins.rows[i].attempt_count = 0;
            if !pins.rows[i].require_every_use {
                let ttl_seconds: i64 = pins.rows[i].ttl_seconds;
                let until = if ttl_seconds < 0 {
                    None
                } else {
                    after(now, ttl_seconds)
                };
                pins.rows[i].unlocked_until = until;
            }
            assert(pins@ =~= before.update(i as int, row.after_entry(true, now)));
            Ok(())
        },
    }
}

/// Checks an entry against the PIN of a resource.
pub fn verify_pin(
    pins: &mut PinTable,
    resource_type: ResourceType,
    resource_id: i64,
    pin: &str,
    now: i64,
) -> (r: Result<(), Error>)
    requires
        pins_wf(old(pins)@),
    ensures
        pins_wf(final(pins)@),
        (final(pins)@, fault_of(r)) == entered(
            old(pins)@,
            resource_type,
            resource_id,
            key_under(pin@),
            now,
        ),
{
    match pins.find(resource_type, resource_id) {
        None => Err(Error::PinNotSet),
        Some(i) => {
            assert(pins@[i as int] == pins.rows@[i as int]@);
            if pins.rows[i].locked_at.is_some() {
                return Err(Error::PinLocked);
            }
            if is_open(&pins.rows[i], now) {
                return Ok(());
            }
            match derive_key(pin, pins.rows[i].pin_salt.as_slice()) {
                Ok(mut hash) => {
                    let r = settle_entry(pins, resource_type, resource_id, &hash, now);
                    wipe(&mut hash);
                    r
                },
                Err(e) => Err(e),
            }
        },
    }
}

/// The PINs with the window of one of them closed.
pub open spec fn relocked(
    rows: Seq<PinRowView>,
    resource_type: ResourceType,
    resource_id: i64,
) -> Seq<PinRowView> {
    match pin_place(rows, resource_type, resource_id) {
        None => rows,
        Some(i) => rows.update(i, PinRowView { unlocked_until: None, ..rows[i] }),
    }
}

/// Closes the window of a PIN, so that it is asked for again. Where there is
/// none, nothing happens.
pub fn relock(pins: &mut PinTable, resource_type: ResourceType, resource_id: i64)
    requires
        pins_wf(old(pins)@),
    ensures
        pins_wf(final(pins)@),
        final(pins)@ == relocked(old(pins)@, resource_type, resource_id),
{
    let ghost before = pins@;
    if let Some(i) = pins.find(resource_type, resource_id) {
        assert(before[i as int] == pins.rows@[i as int]@);
        assert(before[i as int].wf());
        pins.rows[i].unlocked_until = None;
        assert(pins@ =~= before.update(
            i as int,
            PinRowView { unlocked_until: None, ..before[i as int] },
        ));
    }
}

/// A row after wrong entries at some instants, one after the other.
pub open spec fn after_misses(row: PinRowView, times: Seq<i64>) -> PinRowView
    decreases times.len(),
{
    if times.len() == 0 {
        row
    } else {
        let before = after_misses(row, times.drop_last());
        if before.locked_at is Some || before.window_open(times.last()) {
            before
        } else {
            before.after_entry(false, times.last())
        }
    }
}

/// Wrong entries alone lock a PIN outside its window after exactly eight of them.
pub proof fn misses_lock_at_the_limit(row: PinRowView, times: Seq<i64>)
    requires
        row.attempt_count == 0,
        row.locked_at is None,
        row.require_every_use || row.unlocked_until is None,
    ensures
        after_misses(row, times).locked_at is Some <==> times.len() >= MAX_ATTEMPTS,
        after_misses(row, times).attempt_count == if times.len() < MAX_ATTEMPTS {
            times.len() as int
        } else {
            MAX_ATTEMPTS as int
        },
        after_misses(row, times).require_every_use == row.require_every_use,
        after_misses(row, times).unlocked_until == row.unlocked_until,
    decreases times.len(),
{
    if times.len() > 0 {
        misses_lock_at_the_limit(row, times.drop_last());
    }
}

/// A locked PIN refuses every entry, the right one too, and stays as it is.
pub proof fn locked_pin_refuses(
    rows: Seq<PinRowView>,
    resource_type: ResourceType,
    resource_id: i64,
    pin: Seq<char>,
    now: i64,
)
    requires
        pin_place(rows, resource_type, resource_id) matches Some(i) && rows[i].locked_at is Some,
    ensures
        entered(rows, resource_type, resource_id, key_under(pin), now) == (
            rows,
            Some(Error::PinLocked),
        ),
{
}

/// Where a PIN need not be entered, any entry passes and changes nothing.
pub proof fn no_prompt_means_any_entry_passes(
    rows: Seq<PinRowView>,
    resource_type: ResourceType,
    resource_id: i64,
    pin: Seq<char>,
    now: i64,
)
    requires
        pin_place(rows, resource_type, resource_id) is Some,
        !prompt_due(rows, resource_type, resource_id, now),
    ensures
        entered(rows, resource_type, resource_id, key_under(pin), now) == (rows, None::<Error>),
{
}

/// A PIN that is asked for at every use is always asked for.
pub proof fn every_use_prompts(row: PinRowView, now: i64)
    requires
        row.require_every_use,
    ensures
        row.prompts(now),
{
}

/// After the right entry, a PIN that is not asked for at every use is not asked
/// for until its time is over.
pub proof fn right_entry_opens_the_window(row: PinRowView, now: i64, later: i64)
    requires
        row.locked_at is None,
        !row.require_every_use,
        window_end(now, row.ttl_seconds) is Some,
    ensures
        row.after_entry(true, now).prompts(later) <==> later >= now + row.ttl_seconds,
{
}

/// Closing the window makes a PIN asked for again, and takes no lock away.
pub proof fn relocking_prompts(
    rows: Seq<PinRowView>,
    resource_type: ResourceType,
    resource_id: i64,
    now: i64,
)
    requires
        pins_wf(rows),
        pin_place(rows, resource_type, resource_id) is Some,
    ensures
        prompt_due(relocked(rows, resource_type, resource_id), resource_type, resource_id, now),
        ({
            let i = pin_place(rows, resource_type, resource_id)->0;
            &&& pin_place(relocked(rows, resource_type, resource_id), resource_type, resource_id)
                == Some(i)
            &&& relocked(rows, resource_type, resource_id)[i].locked_at == rows[i].locked_at
        }),
{
    let i = pin_place(rows, resource_type, resource_id)->0;
    assert(rows[i].is_for(resource_type, resource_id));
    let after = relocked(rows, resource_type, resource_id);
    assert(after[i].is_for(resource_type, resource_id));
    let j = pin_place(after, resource_type, resource_id)->0;
    assert(after[j].is_for(resource_type, resource_id));
    assert(rows[j].is_for(resource_type, resource_id));
    if i < j {
        assert(!rows[i].is_for(rows[j].resource_type, rows[j].resource_id));
    } else if j < i {
        assert(!rows[j].is_for(rows[i].resource_type, rows[i].resource_id));
    }
}

/// The right entry passes against a PIN that was just set, and a text that
/// derives to another key does not.
pub proof fn fresh_pin_takes_its_text(
    rows: Seq<PinRowView>,
    resource_type: ResourceType,
    resource_id: i64,
    pin: Seq<char>,
    entry: Seq<char>,
    require_every_use: bool,
    ttl_seconds: i64,
    now: i64,
)
    requires
        four_digits(pin),
        four_digits(entry),
        pin_place(rows, resource_type, resource_id) matches Some(i) && fresh_pin(
            rows[i],
            resource_type,
            resource_id,
            pin,
            require_every_use,
            ttl_seconds,
        ),
    ensures
        ({
            let salt = rows[pin_place(rows, resource_type, resource_id)->0].pin_salt;
            entered(rows, resource_type, resource_id, key_under(entry), now).1 == if derived_key(
                entry,
                salt,
            ) == derived_key(pin, salt) {
                None::<Error>
            } else {
                Some(Error::PinMismatch)
            }
        }),
{
    is_ascii_chars_encode_utf8(entry);
}

/// A PIN's place is the one row of its resource.
proof fn lemma_one_pin_per_resource(
    rows: Seq<PinRowView>,
    i: int,
    resource_type: ResourceType,
    resource_id: i64,
)
    requires
        pins_wf(rows),
        0 <= i < rows.len(),
        rows[i].resource_type == resource_type,
        rows[i].resource_id == resource_id,
    ensures
        pin_place(rows, resource_type, resource_id) == Some(i),
{
    assert(rows[i].is_for(resource_type, resource_id));
    let k = pin_place(rows, resource_type, resource_id)->0;
    assert(rows[k].is_for(resource_type, resource_id));
    if k < i {
        assert(!rows[k].is_for(rows[i].resource_type, rows[i].resource_id));
    } else if i < k {
        assert(!rows[i].is_for(rows[k].resource_type, rows[k].resource_id));
    }
}

/// A right entry that was compared sets the count of wrong ones back to none, at every
/// use or not, and neither locks the PIN nor changes it.
pub proof fn right_entry_forgives_all_misses(row: PinRowView, now: i64)
    requires
        row.locked_at is None,
    ensures
        ({
            let after = row.after_entry(true, now);
            &&& after.attempt_count == 0
            &&& after.locked_at is None
            &&& after.resource_type == row.resource_type
            &&& after.resource_id == row.resource_id
            &&& after.pin_hash == row.pin_hash
            &&& after.pin_salt == row.pin_salt
            &&& after.require_every_use == row.require_every_use
            &&& after.ttl_seconds == row.ttl_seconds
        }),
{
}

/// A wrong entry that was compared is one more, locks the PIN at the limit and no
/// earlier, and opens nothing.
pub proof fn wrong_entry_is_one_more(row: PinRowView, now: i64)
    requires
        row.wf(),
        row.locked_at is None,
    ensures
        ({
            let after = row.after_entry(false, now);
            &&& after.attempt_count == row.attempt_count + 1
            &&& after.locked_at == (if row.attempt_count + 1 < 8 {
                None::<i64>
            } else {
                Some(now)
            })
            &&& after.unlocked_until == row.unlocked_until
            &&& after.resource_type == row.resource_type
            &&& after.resource_id == row.resource_id
            &&& after.pin_hash == row.pin_hash
            &&& after.pin_salt == row.pin_salt
            &&& after.require_every_use == row.require_every_use
            &&& after.ttl_seconds == row.ttl_seconds
        }),
{
}

/// After a right entry it takes the full number of wrong ones to lock the PIN again,
/// once it is asked for: at every use, or with its window closed.
pub proof fn limit_starts_anew_after_a_right_entry(row: PinRowView, now: i64, times: Seq<i64>)
    requires
        row.wf(),
        row.locked_at is None,
    ensures
        row.require_every_use ==> (after_misses(row.after_entry(true, now), times).locked_at is Some
            <==> times.len() >= 8),
        after_misses(
            PinRowView { unlocked_until: None, ..row.after_entry(true, now) },
            times,
        ).locked_at is Some <==> times.len() >= 8,
{
    misses_lock_at_the_limit(
        PinRowView { unlocked_until: None, ..row.after_entry(true, now) },
        times,
    );
    if row.require_every_use {
        misses_lock_at_the_limit(row.after_entry(true, now), times);
    }
}

/// The window of a right entry lasts exactly its seconds: it is open at every moment
/// before its end, and at none from then on. There is none of negative length, and none
/// that ends beyond the calendar.
pub proof fn window_lasts_its_seconds(now: i64, ttl_seconds: i64)
    ensures
        window_end(now, ttl_seconds) is Some <==> ttl_seconds >= 0 && -210866760000 <= now
            + ttl_seconds <= 253402300799,
        window_end(now, ttl_seconds) matches Some(until) ==> until == now + ttl_seconds,
{
}

/// An entry touches the PIN that it is for and no other. Against one that is neither
/// locked nor in its window, it passes exactly where it derives to the key that is kept.
pub proof fn entry_touches_one_pin(
    rows: Seq<PinRowView>,
    i: int,
    pin: Seq<char>,
    now: i64,
)
    requires
        pins_wf(rows),
        0 <= i < rows.len(),
    ensures
        ({
            let row = rows[i];
            let (after, fault) = entered(
                rows,
                row.resource_type,
                row.resource_id,
                key_under(pin),
                now,
            );
            let right = derived_key(pin, row.pin_salt) == row.pin_hash;
            &&& after.len() == rows.len()
            &&& forall|j: int| 0 <= j < rows.len() && j != i ==> (#[trigger] after[j]) == rows[j]
            &&& row.locked_at is Some ==> after[i] == row && fault == Some(Error::PinLocked)
            &&& row.locked_at is None && !row.require_every_use && (row.unlocked_until matches Some(
                until,
            ) && until > now) ==> after[i] == row && fault is None
            &&& row.locked_at is None && (row.require_every_use || !(
            row.unlocked_until matches Some(until) && until > now)) && derivable(pin, row.pin_salt)
                ==> {
                &&& fault == (if right {
                    None
                } else {
                    Some(Error::PinMismatch)
                })
                &&& after[i] == row.after_entry(right, now)
            }
        }),
{
    lemma_one_pin_per_resource(rows, i, rows[i].resource_type, rows[i].resource_id);
}

/// Where a resource has no PIN, none is asked for and no entry passes.
pub proof fn no_pin_is_no_prompt(
    rows: Seq<PinRowView>,
    resource_type: ResourceType,
    resource_id: i64,
    pin: Seq<char>,
    now: i64,
)
    requires
        forall|i: int|
            0 <= i < rows.len() ==> !((#[trigger] rows[i]).resource_type == resource_type
                && rows[i].resource_id == resource_id),
    ensures
        !prompt_due(rows, resource_type, resource_id, now),
        entered(rows, resource_type, resource_id, key_under(pin), now) == (
            rows,
            Some(Error::PinNotSet),
        ),
        relocked(rows, resource_type, resource_id) == rows,
{
    assert forall|i: int| 0 <= i < rows.len() implies !(#[trigger] rows[i]).is_for(
        resource_type,
        resource_id,
    ) by {}
}

/// Closing the window of one PIN touches nothing else: not its count, not its lock, and
/// no other PIN.
pub proof fn relocking_touches_one_window(rows: Seq<PinRowView>, i: int, now: i64)
    requires
        pins_wf(rows),
        0 <= i < rows.len(),
    ensures
        ({
            let row = rows[i];
            let after = relocked(rows, row.resource_type, row.resource_id);
            &&& after.len() == rows.len()
            &&& forall|j: int| 0 <= j < rows.len() && j != i ==> (#[trigger] after[j]) == rows[j]
            &&& after[i].prompts(now)
            &&& after[i].unlocked_until is None
            &&& after[i].attempt_count == row.attempt_count
            &&& after[i].locked_at == row.locked_at
            &&& after[i].pin_hash == row.pin_hash
            &&& after[i].pin_salt == row.pin_salt
            &&& after[i].require_every_use == row.require_every_use
            &&& after[i].ttl_seconds == row.ttl_seconds
        }),
{
    lemma_one_pin_per_resource(rows, i, rows[i].resource_type, rows[i].resource_id);
}

/// An entry is refused exactly where no PIN is set, where the PIN is locked, or, outside its
/// window, where no key can be derived or another comes out than was kept.
pub proof fn entries_that_are_refused(
    rows: Seq<PinRowView>,
    i: int,
    key: spec_fn(Seq<u8>) -> Option<Seq<u8>>,
    now: i64,
)
    requires
        pins_wf(rows),
        0 <= i < rows.len(),
        pin_place(rows, rows[i].resource_type, rows[i].resource_id) == Some(i),
    ensures
        ({
            let row = rows[i];
            let fault = entered(rows, row.resource_type, row.resource_id, key, now).1;
            &&& row.locked_at is Some ==> fault == Some(Error::PinLocked)
            &&& row.locked_at is None && row.window_open(now) ==> fault is None
            &&& row.locked_at is None && !row.window_open(now) && key(row.pin_salt) is None
                ==> fault == Some(Error::KeyDerivationFailed)
            &&& row.locked_at is None && !row.window_open(now) && key(row.pin_salt) is Some && key(
                row.pin_salt,
            ) != Some(row.pin_hash) ==> fault == Some(Error::PinMismatch)
            &&& row.locked_at is None && !row.window_open(now) && key(row.pin_salt) == Some(
                row.pin_hash,
            ) ==> fault is None
        }),
{
}

} // verus!
