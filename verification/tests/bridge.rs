use nftp::bridge::NFTPBridge;
use nftp::bytefile::NFTPFile;
use nftp::error::BridgeError;
use nftp::identity::Identity;
use nftp::ledger::{settle_growth, settle_release, Measurement};

fn owner() -> Identity {
    Identity::new(vec![0, 1, 2, 3])
}

fn flat() -> Measurement {
    Measurement { old_used: 100, new_used: 100, byte_cost: 1 }
}

fn grew(by: u64, byte_cost: u128) -> Measurement {
    Measurement { old_used: 1000, new_used: 1000 + by, byte_cost }
}

fn shrank(by: u64, byte_cost: u128) -> Measurement {
    Measurement { old_used: 1000, new_used: 1000 - by, byte_cost }
}

fn name(s: &str) -> String {
    s.to_string()
}

#[test]
fn boot_succeeds_once_for_owner() {
    let mut bridge = NFTPBridge::new(owner());
    assert_eq!(bridge.boot_portal(&owner()), Ok(()));
    assert_eq!(bridge.boot_portal(&owner()), Err(BridgeError::AlreadyBooted));
    assert_eq!(bridge.boot_portal(&owner()), Err(BridgeError::AlreadyBooted));
}

#[test]
fn boot_rejects_other_identity() {
    let mut bridge = NFTPBridge::new(owner());
    let stranger = Identity::new(vec![0, 1, 2, 4]);
    assert_eq!(bridge.boot_portal(&stranger), Err(BridgeError::InvalidSigner));
    let shorter = Identity::new(vec![0, 1, 2]);
    assert_eq!(bridge.boot_portal(&shorter), Err(BridgeError::InvalidSigner));
    assert_eq!(bridge.boot_portal(&owner()), Ok(()));
    assert_eq!(bridge.boot_portal(&stranger), Err(BridgeError::InvalidSigner));
}

#[test]
fn identity_equality_is_by_bytes() {
    assert!(owner().same_as(&Identity::new(vec![0, 1, 2, 3])));
    assert!(!owner().same_as(&Identity::new(vec![3, 2, 1, 0])));
    assert!(Identity::new(vec![]).same_as(&Identity::new(vec![])));
}

#[test]
fn scenario_create_write_read_overwrite() {
    let mut bridge = NFTPBridge::new(owner());
    // the new entry takes 57 bytes at 10 per byte
    assert_eq!(bridge.create_file(name("f"), 0o644, 7, 1000, grew(57, 10)), Ok(430));
    assert_eq!(bridge.read_file(name("f"), 0, 100), Ok(vec![]));

    let ten: Vec<u8> = vec![10, 11, 12, 13, 14, 15, 16, 17, 18, 19];
    assert_eq!(bridge.write_file(name("f"), 0, ten.clone(), 1000, grew(10, 10)), Ok(900));
    assert_eq!(bridge.read_file(name("f"), 0, 10), Ok(ten.clone()));
    assert_eq!(bridge.read_file(name("f"), 0, 100), Ok(ten));

    assert_eq!(bridge.write_file(name("f"), 5, vec![1, 2, 3], 5, flat()), Ok(5));
    assert_eq!(
        bridge.read_file(name("f"), 0, 100),
        Ok(vec![10, 11, 12, 13, 14, 1, 2, 3, 18, 19])
    );
}

#[test]
fn create_existing_name_refunds_everything() {
    let mut bridge = NFTPBridge::new(owner());
    assert_eq!(bridge.create_file(name("a"), 1, 2, 50, grew(5, 2)), Ok(40));
    assert_eq!(bridge.write_file(name("a"), 0, vec![9, 9], 0, flat()), Ok(0));
    // the measurement would be rejected, but nothing is created
    assert_eq!(bridge.create_file(name("a"), 3, 4, 50, grew(500, 2)), Ok(50));
    assert_eq!(bridge.read_file(name("a"), 0, 10), Ok(vec![9, 9]));
    assert_eq!(bridge.list_files(), vec![name("a")]);
}

#[test]
fn create_with_short_payment_creates_nothing() {
    let mut bridge = NFTPBridge::new(owner());
    assert_eq!(
        bridge.create_file(name("a"), 1, 2, 9, grew(5, 2)),
        Err(BridgeError::InsufficientPayment)
    );
    assert_eq!(bridge.list_files(), Vec::<String>::new());
    assert_eq!(bridge.read_file(name("a"), 0, 1), Err(BridgeError::UnknownFile));
    assert_eq!(bridge.create_file(name("a"), 1, 2, 10, grew(5, 2)), Ok(0));
    assert_eq!(bridge.list_files(), vec![name("a")]);
}

#[test]
fn create_with_shrunk_footprint_is_a_violation() {
    let mut bridge = NFTPBridge::new(owner());
    assert_eq!(
        bridge.create_file(name("a"), 1, 2, 9, shrank(1, 2)),
        Err(BridgeError::InvariantViolation)
    );
    assert_eq!(bridge.list_files(), Vec::<String>::new());
}

#[test]
fn list_is_in_creation_order() {
    let mut bridge = NFTPBridge::new(owner());
    for n in ["zeta", "alpha", "mid"] {
        assert_eq!(bridge.create_file(name(n), 0, 0, 0, flat()), Ok(0));
    }
    assert_eq!(bridge.list_files(), vec![name("zeta"), name("alpha"), name("mid")]);
    assert_eq!(bridge.delete_file(name("alpha"), 0, flat()), Ok(0));
    assert_eq!(bridge.list_files(), vec![name("zeta"), name("mid")]);
}

#[test]
fn read_clamps_and_ends_empty() {
    let mut bridge = NFTPBridge::new(owner());
    assert_eq!(bridge.create_file(name("f"), 0, 0, 0, flat()), Ok(0));
    assert_eq!(bridge.write_file(name("f"), 0, vec![1, 2, 3, 4, 5], 0, flat()), Ok(0));
    assert_eq!(bridge.read_file(name("f"), 1, 2), Ok(vec![2, 3]));
    assert_eq!(bridge.read_file(name("f"), 3, 2), Ok(vec![4, 5]));
    assert_eq!(bridge.read_file(name("f"), 3, 3), Ok(vec![4, 5]));
    assert_eq!(bridge.read_file(name("f"), 4, u64::MAX), Ok(vec![5]));
    assert_eq!(bridge.read_file(name("f"), 5, 1), Ok(vec![]));
    assert_eq!(bridge.read_file(name("f"), 5, u64::MAX), Ok(vec![]));
    assert_eq!(bridge.read_file(name("f"), u64::MAX, u64::MAX), Ok(vec![]));
    assert_eq!(bridge.read_file(name("f"), 2, 0), Ok(vec![]));
    assert_eq!(bridge.read_file(name("g"), 0, 1), Err(BridgeError::UnknownFile));
}

#[test]
fn write_splices_in_place() {
    let mut bridge = NFTPBridge::new(owner());
    assert_eq!(bridge.create_file(name("f"), 0, 0, 0, flat()), Ok(0));
    assert_eq!(bridge.write_file(name("f"), 0, vec![1, 2, 3, 4, 5], 0, flat()), Ok(0));
    // inside
    assert_eq!(bridge.write_file(name("f"), 1, vec![8, 9], 0, flat()), Ok(0));
    assert_eq!(bridge.read_file(name("f"), 0, 99), Ok(vec![1, 8, 9, 4, 5]));
    // up to the end exactly
    assert_eq!(bridge.write_file(name("f"), 3, vec![6, 7], 0, flat()), Ok(0));
    assert_eq!(bridge.read_file(name("f"), 0, 99), Ok(vec![1, 8, 9, 6, 7]));
    // across the end
    assert_eq!(bridge.write_file(name("f"), 4, vec![0, 0, 0], 0, flat()), Ok(0));
    assert_eq!(bridge.read_file(name("f"), 0, 99), Ok(vec![1, 8, 9, 6, 0, 0, 0]));
    // appended at the end
    assert_eq!(bridge.write_file(name("f"), 7, vec![5], 0, flat()), Ok(0));
    assert_eq!(bridge.read_file(name("f"), 0, 99), Ok(vec![1, 8, 9, 6, 0, 0, 0, 5]));
    // nothing written
    assert_eq!(bridge.write_file(name("f"), 2, vec![], 0, flat()), Ok(0));
    assert_eq!(bridge.read_file(name("f"), 0, 99), Ok(vec![1, 8, 9, 6, 0, 0, 0, 5]));
}

#[test]
fn write_rejections_leave_the_file_alone() {
    let mut bridge = NFTPBridge::new(owner());
    assert_eq!(
        bridge.write_file(name("f"), 0, vec![1], 100, flat()),
        Err(BridgeError::UnknownFile)
    );
    assert_eq!(bridge.create_file(name("f"), 0, 0, 0, flat()), Ok(0));
    assert_eq!(bridge.write_file(name("f"), 0, vec![1, 2], 0, flat()), Ok(0));
    assert_eq!(
        bridge.write_file(name("f"), 3, vec![7], 100, flat()),
        Err(BridgeError::OffsetOutOfRange)
    );
    assert_eq!(
        bridge.write_file(name("f"), 2, vec![7], 2, grew(1, 3)),
        Err(BridgeError::InsufficientPayment)
    );
    assert_eq!(
        bridge.write_file(name("f"), 2, vec![7], 2, shrank(1, 3)),
        Err(BridgeError::InvariantViolation)
    );
    assert_eq!(bridge.read_file(name("f"), 0, 99), Ok(vec![1, 2]));
    assert_eq!(bridge.write_file(name("f"), 2, vec![7], 3, grew(1, 3)), Ok(0));
    assert_eq!(bridge.read_file(name("f"), 0, 99), Ok(vec![1, 2, 7]));
}

#[test]
fn delete_refunds_freed_bytes() {
    let mut bridge = NFTPBridge::new(owner());
    assert_eq!(bridge.create_file(name("f"), 0, 0, 0, flat()), Ok(0));
    assert_eq!(bridge.write_file(name("f"), 0, vec![0; 20], 0, flat()), Ok(0));
    // 20 bytes of data and 37 of overhead come back at 3 per byte
    assert_eq!(bridge.delete_file(name("f"), 11, shrank(57, 3)), Ok(11 + 57 * 3));
    assert_eq!(bridge.read_file(name("f"), 0, 1), Err(BridgeError::UnknownFile));
    assert_eq!(bridge.list_files(), Vec::<String>::new());
}

#[test]
fn delete_absent_name_refunds_payment() {
    let mut bridge = NFTPBridge::new(owner());
    assert_eq!(bridge.create_file(name("f"), 0, 0, 0, flat()), Ok(0));
    assert_eq!(bridge.delete_file(name("g"), 11, shrank(57, 3)), Ok(11));
    assert_eq!(bridge.delete_file(name("g"), 11, grew(57, 3)), Ok(11));
    assert_eq!(bridge.list_files(), vec![name("f")]);
}

#[test]
fn delete_rejections_keep_the_file() {
    let mut bridge = NFTPBridge::new(owner());
    assert_eq!(bridge.create_file(name("f"), 0, 0, 0, flat()), Ok(0));
    assert_eq!(
        bridge.delete_file(name("f"), 11, grew(1, 3)),
        Err(BridgeError::InvariantViolation)
    );
    assert_eq!(
        bridge.delete_file(name("f"), u128::MAX, shrank(1, 1)),
        Err(BridgeError::AmountOverflow)
    );
    assert_eq!(
        bridge.delete_file(name("f"), 0, shrank(2, u128::MAX)),
        Err(BridgeError::AmountOverflow)
    );
    assert_eq!(bridge.list_files(), vec![name("f")]);
    assert_eq!(bridge.delete_file(name("f"), u128::MAX - 1, shrank(1, 1)), Ok(u128::MAX));
}

#[test]
fn files_do_not_change_boot_state() {
    let mut bridge = NFTPBridge::new(owner());
    assert_eq!(bridge.boot_portal(&owner()), Ok(()));
    assert_eq!(bridge.create_file(name("f"), 0, 0, 0, flat()), Ok(0));
    assert_eq!(bridge.write_file(name("f"), 0, vec![1], 0, flat()), Ok(0));
    assert_eq!(bridge.delete_file(name("f"), 0, flat()), Ok(0));
    assert_eq!(bridge.boot_portal(&owner()), Err(BridgeError::AlreadyBooted));
    assert_eq!(
        bridge.boot_portal(&Identity::new(vec![9])),
        Err(BridgeError::InvalidSigner)
    );
}

#[test]
fn growth_settlement_is_exact() {
    assert_eq!(settle_growth(100, grew(7, 11)), Ok(23));
    assert_eq!(settle_growth(77, grew(7, 11)), Ok(0));
    assert_eq!(settle_growth(76, grew(7, 11)), Err(BridgeError::InsufficientPayment));
    assert_eq!(settle_growth(5, flat()), Ok(5));
    assert_eq!(settle_growth(5, grew(9, 0)), Ok(5));
    assert_eq!(settle_growth(5, shrank(1, 0)), Err(BridgeError::InvariantViolation));
    assert_eq!(
        settle_growth(u128::MAX, grew(2, u128::MAX)),
        Err(BridgeError::InsufficientPayment)
    );
    assert_eq!(settle_growth(u128::MAX, grew(1, u128::MAX)), Ok(0));
}

#[test]
fn release_settlement_is_exact() {
    assert_eq!(settle_release(100, shrank(7, 11)), Ok(177));
    assert_eq!(settle_release(0, flat()), Ok(0));
    assert_eq!(settle_release(5, grew(1, 0)), Err(BridgeError::InvariantViolation));
    assert_eq!(settle_release(1, shrank(1, u128::MAX)), Err(BridgeError::AmountOverflow));
    assert_eq!(settle_release(0, shrank(1, u128::MAX)), Ok(u128::MAX));
}

#[test]
fn error_messages() {
    assert_eq!(BridgeError::InvalidSigner.message(), "invalidSigner");
    assert_eq!(BridgeError::AlreadyBooted.message(), "NoDonut");
    assert_eq!(BridgeError::UnknownFile.message(), "unknown file");
    assert_eq!(BridgeError::InsufficientPayment.message(), "DepositUnderflowForRegistration");
    assert_eq!(BridgeError::InvariantViolation.message(), "WhatTheHell");
    assert_eq!(BridgeError::OffsetOutOfRange.message(), "offset out of range");
    assert_eq!(BridgeError::IndexOutOfRange.message(), "index out of range");
    assert_eq!(BridgeError::AmountOverflow.message(), "refund overflow");
}

#[test]
fn state_round_trip() {
    let mut bridge = NFTPBridge::new(owner());
    assert_eq!(bridge.boot_portal(&owner()), Ok(()));
    assert_eq!(bridge.create_file(name("a"), 1, 2, 0, flat()), Ok(0));
    assert_eq!(bridge.create_file(name("b"), 3, 4, 0, flat()), Ok(0));
    assert_eq!(bridge.write_file(name("b"), 0, vec![7, 8], 0, flat()), Ok(0));
    let (booted, who, entries) = bridge.into_parts();
    assert!(booted);
    assert_eq!(who.key, vec![0, 1, 2, 3]);
    assert_eq!(entries.len(), 2);
    assert_eq!(entries[0].0, "a");
    assert_eq!((entries[0].1.mode, entries[0].1.dev, entries[0].1.data.clone()), (1, 2, vec![]));
    assert_eq!(entries[1].0, "b");
    assert_eq!((entries[1].1.mode, entries[1].1.dev, entries[1].1.data.clone()), (3, 4, vec![7, 8]));

    let mut again = match NFTPBridge::from_parts(booted, who, entries) {
        Some(b) => b,
        None => panic!("distinct names must be accepted"),
    };
    assert_eq!(again.boot_portal(&owner()), Err(BridgeError::AlreadyBooted));
    assert_eq!(again.list_files(), vec![name("a"), name("b")]);
    assert_eq!(again.read_file(name("b"), 1, 5), Ok(vec![8]));
}

#[test]
fn state_with_repeated_name_is_refused() {
    let entries = |names: [&str; 3]| -> Vec<(String, NFTPFile)> {
        names.iter().map(|n| (name(n), NFTPFile::new(0, 0))).collect()
    };
    assert!(NFTPBridge::from_parts(false, owner(), entries(["a", "b", "a"])).is_none());
    assert!(NFTPBridge::from_parts(false, owner(), entries(["a", "a", "b"])).is_none());
    assert!(NFTPBridge::from_parts(false, owner(), entries(["b", "a", "a"])).is_none());
    assert!(NFTPBridge::from_parts(false, owner(), entries(["a", "b", "c"])).is_some());
    assert!(NFTPBridge::from_parts(true, owner(), vec![]).is_some());
}

#[test]
fn restored_unbooted_state_can_boot() {
    let mut bridge = match NFTPBridge::from_parts(false, owner(), vec![]) {
        Some(b) => b,
        None => panic!("the empty state must be accepted"),
    };
    assert_eq!(bridge.boot_portal(&Identity::new(vec![])), Err(BridgeError::InvalidSigner));
    assert_eq!(bridge.boot_portal(&owner()), Ok(()));
}
