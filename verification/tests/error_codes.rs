use tagfs::errors::{Errno, FsError, StoreFault};

const ALL: [FsError; 9] = [
    FsError::UnknownTag,
    FsError::AlreadyExists,
    FsError::NoSuchEntry,
    FsError::InvalidMountTarget,
    FsError::StoreError(StoreFault::LockTimeout),
    FsError::StoreError(StoreFault::Failure),
    FsError::MigrationFailure,
    FsError::MountFailure,
    FsError::NotificationDeliveryFailure,
];

#[test]
fn errno_numbers_are_the_platform_codes() {
    assert_eq!(Errno::NoEntry.code(), 2);
    assert_eq!(Errno::Io.code(), 5);
    assert_eq!(Errno::Exists.code(), 17);
    assert_eq!(Errno::NotDirectory.code(), 20);
    assert_eq!(Errno::IsDirectory.code(), 21);
}

#[test]
fn errors_map_to_protocol_codes() {
    assert_eq!(FsError::UnknownTag.errno(), Errno::NoEntry);
    assert_eq!(FsError::NoSuchEntry.errno(), Errno::NoEntry);
    assert_eq!(FsError::AlreadyExists.errno(), Errno::Exists);
    assert_eq!(FsError::StoreError(StoreFault::Failure).errno(), Errno::Io);
    assert_eq!(FsError::StoreError(StoreFault::LockTimeout).errno(), Errno::Io);
    assert_eq!(FsError::MigrationFailure.errno(), Errno::Io);
}

#[test]
fn only_session_errors_are_fatal() {
    let fatal: Vec<bool> = ALL.iter().map(|e| e.is_fatal()).collect();
    assert_eq!(fatal, vec![false, false, false, true, false, false, true, true, false]);
}

#[test]
fn only_a_lock_timeout_is_retryable() {
    let retryable: Vec<bool> = ALL.iter().map(|e| e.is_retryable()).collect();
    assert_eq!(retryable, vec![false, false, false, false, true, false, false, false, false]);
}

#[test]
fn only_delivery_failures_are_silent() {
    let silent: Vec<bool> = ALL.iter().map(|e| e.is_silent()).collect();
    assert_eq!(silent, vec![false, false, false, false, false, false, false, false, true]);
}

#[test]
fn engine_codes_are_classified() {
    assert_eq!(StoreFault::from_engine_code(5), StoreFault::LockTimeout);
    assert_eq!(StoreFault::from_engine_code(6), StoreFault::LockTimeout);
    assert_eq!(StoreFault::from_engine_code(1), StoreFault::Failure);
    assert_eq!(StoreFault::from_engine_code(0), StoreFault::Failure);
    assert_eq!(StoreFault::from_engine_code(-1), StoreFault::Failure);
}
