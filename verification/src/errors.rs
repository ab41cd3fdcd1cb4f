//! The error taxonomy: what a callback reports to the kernel, what ends a
//! mount session, and what is dropped without a word.

use vstd::prelude::*;

verus! {

/// Why a transaction of the store failed.
#[derive(Clone, Copy, Debug, PartialEq, Eq, Structural)]
pub enum StoreFault {
    /// The store was locked by another writer for too long. Transient.
    LockTimeout,
    /// Any other failure of the underlying storage.
    Failure,
}

/// What can go wrong in a filesystem callback or in a mount session.
#[derive(Clone, Copy, Debug, PartialEq, Eq, Structural)]
pub enum FsError {
    /// A tag segment of a path names no tag of the store.
    UnknownTag,
    /// The entry to create is already there.
    AlreadyExists,
    /// The path names no entry of the view.
    NoSuchEntry,
    /// The mount target is missing on a platform that mounts over an
    /// existing directory.
    InvalidMountTarget,
    /// A transaction of the store failed.
    StoreError(StoreFault),
    /// A schema migration step failed.
    MigrationFailure,
    /// The kernel mount call failed.
    MountFailure,
    /// A notification could not be delivered.
    NotificationDeliveryFailure,
}

/// The error codes that a callback hands back to the kernel.
#[derive(Clone, Copy, Debug, PartialEq, Eq, Structural)]
pub enum Errno {
    NoEntry,
    Exists,
    NotDirectory,
    IsDirectory,
    Io,
}

/// The primary result code with which the storage engine reports that the
/// database file is locked by another connection.
pub const ENGINE_BUSY: i32 = 5;

/// The primary result code with which the storage engine reports that a table
/// is locked within the same connection.
pub const ENGINE_LOCKED: i32 = 6;

impl StoreFault {
    /// Classifies a primary result code of the storage engine.
    pub open spec fn of_engine_code(code: i32) -> StoreFault {
        if code == ENGINE_BUSY || code == ENGINE_LOCKED {
            StoreFault::LockTimeout
        } else {
            StoreFault::Failure
        }
    }

    /// Classifies a primary result code of the storage engine: the two lock
    /// codes are transient, every other code is a plain failure.
    pub fn from_engine_code(code: i32) -> (fault: StoreFault)
        ensures
            fault == Self::of_engine_code(code),
    {
        if code == ENGINE_BUSY || code == ENGINE_LOCKED {
            StoreFault::LockTimeout
        } else {
            StoreFault::Failure
        }
    }
}

impl Errno {
    /// The platform's number for this code.
    pub open spec fn number(self) -> i32 {
        match self {
            Errno::NoEntry => 2,
            Errno::Io => 5,
            Errno::Exists => 17,
            Errno::NotDirectory => 20,
            Errno::IsDirectory => 21,
        }
    }

    /// The platform's number for this code, as the kernel expects it.
    pub fn code(&self) -> (n: i32)
        ensures
            n == self.number(),
    {
        match self {
            Errno::NoEntry => 2,
            Errno::Io => 5,
            Errno::Exists => 17,
            Errno::NotDirectory => 20,
            Errno::IsDirectory => 21,
        }
    }
}

impl FsError {
    /// Whether the error ends the current process generation.
    pub open spec fn fatal(self) -> bool {
        self is InvalidMountTarget || self is MigrationFailure || self is MountFailure
    }

    /// Whether the failed operation may be tried again unchanged.
    pub open spec fn retryable(self) -> bool {
        self == FsError::StoreError(StoreFault::LockTimeout)
    }

    /// Whether the error is never shown to any caller.
    pub open spec fn silent(self) -> bool {
        self is NotificationDeliveryFailure
    }

    /// The code that the kernel receives for this error.
    pub open spec fn errno_of(self) -> Errno {
        match self {
            FsError::UnknownTag => Errno::NoEntry,
            FsError::NoSuchEntry => Errno::NoEntry,
            FsError::AlreadyExists => Errno::Exists,
            _ => Errno::Io,
        }
    }

    /// Session-level errors abort the process generation; callback-level
    /// errors never do.
    pub fn is_fatal(&self) -> (b: bool)
        ensures
            b == self.fatal(),
    {
        match self {
            FsError::InvalidMountTarget => true,
            FsError::MigrationFailure => true,
            FsError::MountFailure => true,
            _ => false,
        }
    }

    /// Only a lock timeout of the store is worth a second attempt.
    pub fn is_retryable(&self) -> (b: bool)
        ensures
            b == self.retryable(),
    {
        match self {
            FsError::StoreError(StoreFault::LockTimeout) => true,
            _ => false,
        }
    }

    /// A failed delivery of a notification stays local.
    pub fn is_silent(&self) -> (b: bool)
        ensures
            b == self.silent(),
    {
        match self {
            FsError::NotificationDeliveryFailure => true,
            _ => false,
        }
    }

    /// Maps the error to the code that a callback returns to the kernel.
    pub fn errno(&self) -> (e: Errno)
        ensures
            e == self.errno_of(),
    {
        match self {
            FsError::UnknownTag => Errno::NoEntry,
            FsError::NoSuchEntry => Errno::NoEntry,
            FsError::AlreadyExists => Errno::Exists,
            _ => Errno::Io,
        }
    }
}

/// No error is both fatal and retryable, and a silent one is neither.
pub proof fn lemma_error_classes_disjoint(e: FsError)
    ensures
        !(e.fatal() && e.retryable()),
        e.silent() ==> !e.fatal() && !e.retryable(),
{
}

} // verus!
