//! PINs: attempts, locks and windows.

use keyquorum::error::Error;
use keyquorum::pin::{
    has_pin, relock, set_pin, verification_required, verify_pin, PinTable, ResourceType,
    MAX_ATTEMPTS,
};

const NOW: i64 = 1_700_000_000;

#[test]
fn correct_pin_succeeds_and_resets_attempt_count() {
    let mut pins = PinTable::new();
    set_pin(&mut pins, ResourceType::Credential, 1, "1234", true, 300).expect("set_pin should succeed");

    verify_pin(&mut pins, ResourceType::Credential, 1, "0000", NOW).unwrap_err();
    let result = verify_pin(&mut pins, ResourceType::Credential, 1, "1234", NOW);
    assert!(result.is_ok());

    let attempt_count = pins.rows[0].attempt_count;
    assert_eq!(attempt_count, 0);
}

#[test]
fn successful_one_time_verification_suppresses_prompts_until_relocked() {
    let mut pins = PinTable::new();
    set_pin(&mut pins, ResourceType::Credential, 1, "1234", false, 300)
        .expect("set_pin should succeed");

    assert!(verification_required(&pins, ResourceType::Credential, 1, NOW));
    verify_pin(&mut pins, ResourceType::Credential, 1, "1234", NOW).unwrap();
    assert!(!verification_required(&pins, ResourceType::Credential, 1, NOW));

    relock(&mut pins, ResourceType::Credential, 1);
    assert!(verification_required(&pins, ResourceType::Credential, 1, NOW));
}

#[test]
fn wrong_pin_increments_attempt_count() {
    let mut pins = PinTable::new();
    set_pin(&mut pins, ResourceType::Credential, 1, "1234", true, 300).expect("set_pin should succeed");

    let result = verify_pin(&mut pins, ResourceType::Credential, 1, "0000", NOW);
    assert!(matches!(result, Err(Error::PinMismatch)));

    let attempt_count = pins.rows[0].attempt_count;
    assert_eq!(attempt_count, 1);
}

#[test]
fn hitting_the_attempt_cap_locks_the_pin_even_for_the_correct_value() {
    let mut pins = PinTable::new();
    set_pin(&mut pins, ResourceType::Credential, 1, "1234", true, 300).expect("set_pin should succeed");

    for _ in 0..MAX_ATTEMPTS {
        let _ = verify_pin(&mut pins, ResourceType::Credential, 1, "0000", NOW);
    }

    let result = verify_pin(&mut pins, ResourceType::Credential, 1, "1234", NOW);
    assert!(matches!(result, Err(Error::PinLocked)));
}

#[test]
fn one_time_mode_sets_and_honors_unlocked_until() {
    let mut pins = PinTable::new();
    set_pin(&mut pins, ResourceType::FileShare, 1, "4242", false, 300).expect("set_pin should succeed");

    verify_pin(&mut pins, ResourceType::FileShare, 1, "4242", NOW).expect("correct PIN should succeed");

    // A second access within the TTL window shouldn't need the PIN
    // again — even a wrong PIN value short-circuits to success.
    let result = verify_pin(&mut pins, ResourceType::FileShare, 1, "0000", NOW);
    assert!(result.is_ok());
}

#[test]
fn require_every_use_never_short_circuits() {
    let mut pins = PinTable::new();
    set_pin(&mut pins, ResourceType::FileShare, 1, "4242", true, 300).expect("set_pin should succeed");

    verify_pin(&mut pins, ResourceType::FileShare, 1, "4242", NOW).expect("correct PIN should succeed");

    let result = verify_pin(&mut pins, ResourceType::FileShare, 1, "0000", NOW);
    assert!(matches!(result, Err(Error::PinMismatch)));
}

#[test]
fn relock_clears_the_one_time_unlock_window() {
    let mut pins = PinTable::new();
    set_pin(&mut pins, ResourceType::FileShare, 1, "4242", false, 300).expect("set_pin should succeed");
    verify_pin(&mut pins, ResourceType::FileShare, 1, "4242", NOW).expect("correct PIN should succeed");

    relock(&mut pins, ResourceType::FileShare, 1);

    let result = verify_pin(&mut pins, ResourceType::FileShare, 1, "0000", NOW);
    assert!(matches!(result, Err(Error::PinMismatch)));
}

#[test]
fn set_pin_rejects_non_four_digit_values() {
    let mut pins = PinTable::new();
    assert!(matches!(
        set_pin(&mut pins, ResourceType::Credential, 1, "123", true, 300),
        Err(Error::InvalidPin)
    ));
    assert!(matches!(
        set_pin(&mut pins, ResourceType::Credential, 1, "abcd", true, 300),
        Err(Error::InvalidPin)
    ));
}

#[test]
fn has_pin_reflects_whether_one_is_configured() {
    let mut pins = PinTable::new();
    assert!(!has_pin(&pins, ResourceType::Credential, 1));

    set_pin(&mut pins, ResourceType::Credential, 1, "1234", true, 300).expect("set_pin should succeed");
    assert!(has_pin(&pins, ResourceType::Credential, 1));
}

#[test]
fn an_unset_pin_is_told_apart_from_a_wrong_one() {
    let mut pins = PinTable::new();
    assert_eq!(
        verify_pin(&mut pins, ResourceType::QuorumFile, 9, "1234", NOW),
        Err(Error::PinNotSet)
    );
    assert!(!verification_required(&pins, ResourceType::QuorumFile, 9, NOW));
}

#[test]
fn a_window_closes_with_its_last_second() {
    let mut pins = PinTable::new();
    set_pin(&mut pins, ResourceType::LockedFile, 1, "4242", false, 300).unwrap();
    verify_pin(&mut pins, ResourceType::LockedFile, 1, "4242", NOW).unwrap();
    assert_eq!(pins.rows[0].unlocked_until, Some(NOW + 300));
    assert!(!verification_required(&pins, ResourceType::LockedFile, 1, NOW + 299));
    assert!(verification_required(&pins, ResourceType::LockedFile, 1, NOW + 300));
    assert_eq!(
        verify_pin(&mut pins, ResourceType::LockedFile, 1, "0000", NOW + 300),
        Err(Error::PinMismatch)
    );
}

#[test]
fn pins_of_other_resources_are_untouched() {
    let mut pins = PinTable::new();
    set_pin(&mut pins, ResourceType::Credential, 1, "1234", true, 300).unwrap();
    set_pin(&mut pins, ResourceType::LockedFile, 1, "4321", true, 300).unwrap();
    for _ in 0..MAX_ATTEMPTS {
        let _ = verify_pin(&mut pins, ResourceType::Credential, 1, "0000", NOW);
    }
    assert_eq!(
        verify_pin(&mut pins, ResourceType::Credential, 1, "1234", NOW),
        Err(Error::PinLocked)
    );
    assert_eq!(verify_pin(&mut pins, ResourceType::LockedFile, 1, "4321", NOW), Ok(()));
}

#[test]
fn setting_a_pin_again_lifts_its_lock() {
    let mut pins = PinTable::new();
    set_pin(&mut pins, ResourceType::Credential, 1, "1234", true, 300).unwrap();
    for _ in 0..MAX_ATTEMPTS {
        let _ = verify_pin(&mut pins, ResourceType::Credential, 1, "0000", NOW);
    }
    set_pin(&mut pins, ResourceType::Credential, 1, "5678", true, 300).unwrap();
    assert_eq!(verify_pin(&mut pins, ResourceType::Credential, 1, "5678", NOW), Ok(()));
}
