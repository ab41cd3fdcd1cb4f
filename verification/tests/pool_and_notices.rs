use tagfs::engine::Operation;
use tagfs::errors::{Errno, FsError, StoreFault};
use tagfs::mount::{handle, Event, MountRequest, MountSession};
use tagfs::notify::{decode, encode, notice_for, Channel, Notice, Sink};
use tagfs::pool::{ConnPool, Lease};

fn session_after(foreground: bool, events: &[Event]) -> MountSession {
    let mut session = MountSession::new();
    handle(
        &mut session,
        Event::Begin(MountRequest { foreground, target_exists: true, target_required: true }),
    );
    for event in events {
        handle(&mut session, *event);
    }
    session
}

#[test]
fn pool_is_locked_before_the_fork_is_resolved() {
    let mut pool = ConnPool::new();
    assert_eq!(pool.acquire(1), Err(FsError::StoreError(StoreFault::Failure)));
    let before_fork = session_after(false, &[Event::Completed, Event::Completed]);
    assert!(!pool.unlock(&before_fork));
    assert_eq!(pool.acquire(1), Err(FsError::StoreError(StoreFault::Failure)));
    let start = MountSession::new();
    assert!(!pool.unlock(&start));
}

#[test]
fn pool_stays_locked_in_the_parent() {
    let mut pool = ConnPool::new();
    let parent = session_after(
        false,
        &[Event::Completed, Event::Completed, Event::ForkedParent { child: 9 }],
    );
    assert!(!pool.unlock(&parent));
    assert_eq!(pool.acquire(1), Err(FsError::StoreError(StoreFault::Failure)));
}

#[test]
fn pool_unlocks_in_the_child_and_in_the_foreground() {
    let mut pool = ConnPool::new();
    let child = session_after(false, &[Event::Completed, Event::Completed, Event::ForkedChild]);
    assert!(pool.unlock(&child));
    assert_eq!(pool.acquire(7), Ok(Lease { connection: 0, fresh: true }));
    let mut other = ConnPool::new();
    let foreground = session_after(true, &[Event::Completed]);
    assert!(other.unlock(&foreground));
    assert!(other.unlock(&MountSession::new()));
}

#[test]
fn each_thread_gets_its_own_connection() {
    let mut pool = ConnPool::new();
    pool.unlock(&session_after(true, &[Event::Completed]));
    assert_eq!(pool.acquire(10), Ok(Lease { connection: 0, fresh: true }));
    assert_eq!(pool.acquire(20), Ok(Lease { connection: 1, fresh: true }));
    assert_eq!(pool.acquire(30), Ok(Lease { connection: 2, fresh: true }));
    assert_eq!(pool.acquire(20), Ok(Lease { connection: 1, fresh: false }));
    assert_eq!(pool.acquire(10), Ok(Lease { connection: 0, fresh: false }));
    assert_eq!(pool.acquire(10), Ok(Lease { connection: 0, fresh: false }));
}

#[test]
fn sink_goes_with_the_topology() {
    assert_eq!(Channel::open(true).sink, Sink::Socket);
    assert_eq!(Channel::open(false).sink, Sink::Desktop);
}

#[test]
fn failed_delivery_is_counted_and_dropped() {
    let mut channel = Channel::open(true);
    channel.settle(true);
    channel.settle(false);
    channel.settle(false);
    assert_eq!(channel, Channel { sink: Sink::Socket, delivered: 1, dropped: 2 });
    let mut full = Channel { sink: Sink::Desktop, delivered: u64::MAX, dropped: u64::MAX };
    full.settle(true);
    full.settle(false);
    assert_eq!(full, Channel { sink: Sink::Desktop, delivered: u64::MAX, dropped: u64::MAX });
}

#[test]
fn notice_only_for_a_change() {
    let made = notice_for(&Ok(Some(Operation::RenameAssignment)), b"photos").unwrap();
    assert_eq!(made.operation, Operation::RenameAssignment);
    assert_eq!(made.collection, b"photos".to_vec());
    assert!(notice_for(&Ok(None), b"photos").is_none());
    assert!(notice_for(&Err(Errno::Io), b"photos").is_none());
    assert!(notice_for(&Err(Errno::NoEntry), b"photos").is_none());
}

#[test]
fn notices_survive_the_wire() {
    for operation in [
        Operation::CreateTag,
        Operation::RemoveTag,
        Operation::CreateAssignment,
        Operation::RemoveAssignment,
        Operation::RenameAssignment,
    ] {
        let notice = Notice { operation, collection: b"my photos".to_vec() };
        let read = decode(&encode(&notice)).unwrap();
        assert_eq!(read.operation, operation);
        assert_eq!(read.collection, b"my photos".to_vec());
    }
}

#[test]
fn wire_format_is_kind_then_collection() {
    let notice = Notice { operation: Operation::CreateAssignment, collection: b"ab".to_vec() };
    assert_eq!(encode(&notice), vec![3, b'a', b'b']);
    let empty = Notice { operation: Operation::CreateTag, collection: Vec::new() };
    assert_eq!(encode(&empty), vec![1]);
    assert!(decode(&[]).is_none());
    assert!(decode(&[0, b'a']).is_none());
    assert!(decode(&[6, b'a']).is_none());
    assert_eq!(decode(&[5]).unwrap().collection, Vec::<u8>::new());
}
