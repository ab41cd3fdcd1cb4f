//! Which thread holds which connection to the store.
//!
//! A connection belongs to the thread that asked for it first and to no
//! other. A thread that asks again gets the connection that it holds. No
//! connection is handed out before the process knows on which side of a fork
//! it runs. The pool decides; opening the connection is left to the caller.

use crate::errors::{FsError, StoreFault};
use crate::mount::{MountSession, Role, Step};
use vstd::prelude::*;

verus! {

/// What a thread gets from the pool.
#[derive(Clone, Copy, Debug, PartialEq, Eq, Structural)]
pub struct Lease {
    /// The number of the connection.
    pub connection: u64,
    /// The connection is new: the caller has to open it now.
    pub fresh: bool,
}

/// The pool as a mathematical value.
pub struct PoolView {
    /// The threads that hold a connection, each with its connection, in the
    /// order in which they asked first.
    pub leases: Seq<(u64, u64)>,
    /// The number that the next new connection gets.
    pub next: u64,
    /// Connections may be opened.
    pub unlocked: bool,
}

impl PoolView {
    /// The thread holds a connection.
    pub open spec fn holds(self, thread: u64) -> bool {
        exists|i: int| 0 <= i < self.leases.len() && (#[trigger] self.leases[i]).0 == thread
    }

    /// The connection that a thread holds.
    pub open spec fn connection_of(self, thread: u64) -> u64 {
        self.leases[choose|i: int|
            0 <= i < self.leases.len() && (#[trigger] self.leases[i]).0 == thread].1
    }

    /// The invariant of the pool: a thread holds one connection, a connection
    /// is held by one thread, and a pool that is locked holds none.
    pub open spec fn wf(self) -> bool {
        &&& forall|i: int, j: int|
            0 <= i < j < self.leases.len() ==> (#[trigger] self.leases[i]).0 != (
            #[trigger] self.leases[j]).0 && self.leases[i].1 < self.leases[j].1
        &&& forall|i: int| 0 <= i < self.leases.len() ==> (#[trigger] self.leases[i]).1 < self.next
        &&& !self.unlocked ==> self.leases.len() == 0
    }

    /// What `acquire` answers to a thread.
    pub open spec fn acquire_result(self, thread: u64) -> Result<Lease, FsError> {
        if self.holds(thread) {
            Ok(Lease { connection: self.connection_of(thread), fresh: false })
        } else if !self.unlocked || self.next == u64::MAX {
            Err(FsError::StoreError(StoreFault::Failure))
        } else {
            Ok(Lease { connection: self.next, fresh: true })
        }
    }

    /// The pool after `acquire` has answered a thread.
    pub open spec fn acquired(self, thread: u64) -> PoolView {
        match self.acquire_result(thread) {
            Ok(lease) => if lease.fresh {
                PoolView {
                    leases: self.leases.push((thread, lease.connection)),
                    next: (self.next + 1) as u64,
                    ..self
                }
            } else {
                self
            },
            Err(_) => self,
        }
    }
}

/// The connection pool of one process.
pub struct ConnPool {
    leases: Vec<(u64, u64)>,
    next: u64,
    unlocked: bool,
}

impl View for ConnPool {
    type V = PoolView;

    closed spec fn view(&self) -> PoolView {
        PoolView { leases: self.leases@, next: self.next, unlocked: self.unlocked }
    }
}

impl ConnPool {
    /// A pool without a connection, which hands none out yet.
    pub fn new() -> (pool: ConnPool)
        ensures
            pool@.wf(),
            pool@ == (PoolView { leases: Seq::empty(), next: 0, unlocked: false }),
    {
        ConnPool { leases: Vec::new(), next: 0, unlocked: false }
    }

    /// Lets the pool hand out connections, once the session knows on which
    /// side of a fork the process runs, and not in the parent of a
    /// background mount. Says whether the pool is unlocked.
    pub fn unlock(&mut self, session: &MountSession) -> (unlocked: bool)
        requires
            old(self)@.wf(),
        ensures
            final(self)@.wf(),
            unlocked == (old(self)@.unlocked || session.fork_resolved()),
            final(self)@ == (PoolView { unlocked, ..old(self)@ }),
    {
        let resolved = match session.step {
            Step::Start => false,
            Step::OpeningView => false,
            _ => session.foreground || session.role == Role::Child,
        };
        if resolved {
            self.unlocked = true;
        }
        self.unlocked
    }

    /// The connection of a thread: the one that it holds, or a new one that
    /// no thread has held before. A locked pool, and one that has run out of
    /// numbers, hands out no new connection and fails.
    pub fn acquire(&mut self, thread: u64) -> (r: Result<Lease, FsError>)
        requires
            old(self)@.wf(),
        ensures
            final(self)@.wf(),
            r == old(self)@.acquire_result(thread),
            final(self)@ == old(self)@.acquired(thread),
    {
        let mut i: usize = 0;
        while i < self.leases.len()
            invariant
                i <= self.leases.len(),
                self@ == old(self)@,
                self@.wf(),
                forall|k: int| 0 <= k < i ==> (#[trigger] self.leases[k]).0 != thread,
            decreases self.leases.len() - i,
        {
            if self.leases[i].0 == thread {
                proof {
                    let c = choose|c: int|
                        0 <= c < self@.leases.len() && (#[trigger] self@.leases[c]).0 == thread;
                    if c < i {
                        assert(self@.leases[c].0 != self@.leases[i as int].0);
                    } else if i < c {
                        assert(self@.leases[i as int].0 != self@.leases[c].0);
                    }
                }
                return Ok(Lease { connection: self.leases[i].1, fresh: false });
            }
            i += 1;
        }
        if !self.unlocked || self.next == u64::MAX {
            return Err(FsError::StoreError(StoreFault::Failure));
        }
        let connection = self.next;
        self.leases.push((thread, connection));
        self.next = connection + 1;
        proof {
            lemma_connection_kept(old(self)@, thread, thread);
        }
        Ok(Lease { connection, fresh: true })
    }
}

/// Two threads never hold the same connection.
pub proof fn lemma_never_shared(pool: PoolView, a: u64, b: u64)
    requires
        pool.wf(),
        pool.holds(a),
        pool.holds(b),
        a != b,
    ensures
        pool.connection_of(a) != pool.connection_of(b),
{
    let i = choose|i: int| 0 <= i < pool.leases.len() && (#[trigger] pool.leases[i]).0 == a;
    let j = choose|j: int| 0 <= j < pool.leases.len() && (#[trigger] pool.leases[j]).0 == b;
    if i < j {
        assert(pool.leases[i].1 < pool.leases[j].1);
    } else if j < i {
        assert(pool.leases[j].1 < pool.leases[i].1);
    }
}

/// A thread keeps its connection: whichever thread asks the pool, a thread
/// that held a connection holds the same one afterwards, and a thread that
/// asks twice is answered with the same connection, which is new at most the
/// first time.
pub proof fn lemma_connection_kept(pool: PoolView, asking: u64, holder: u64)
    requires
        pool.wf(),
    ensures
        pool.acquired(asking).wf(),
        pool.holds(holder) ==> pool.acquired(asking).holds(holder) && pool.acquired(
            asking,
        ).connection_of(holder) == pool.connection_of(holder),
        pool.acquire_result(asking) matches Ok(first) ==> pool.acquired(asking).acquire_result(
            asking,
        ) == Ok::<Lease, FsError>(Lease { connection: first.connection, fresh: false }),
{
    let after = pool.acquired(asking);
    if pool.acquire_result(asking) matches Ok(lease) && lease.fresh {
        let n = pool.leases.len() as int;
        assert(after.leases[n] == (asking, pool.next));
        assert forall|i: int| 0 <= i < n implies #[trigger] after.leases[i] == pool.leases[i] by {}
        assert(after.wf()) by {
            assert forall|i: int, j: int| 0 <= i < j < after.leases.len() implies (
            #[trigger] after.leases[i]).0 != (#[trigger] after.leases[j]).0 && after.leases[i].1
                < after.leases[j].1 by {
                assert(after.leases[i] == pool.leases[i]);
                if j < n {
                    assert(after.leases[j] == pool.leases[j]);
                }
            }
        }
        if pool.holds(holder) {
            let i = choose|i: int|
                0 <= i < pool.leases.len() && (#[trigger] pool.leases[i]).0 == holder;
            assert(after.leases[i].0 == holder);
            let c = choose|c: int|
                0 <= c < after.leases.len() && (#[trigger] after.leases[c]).0 == holder;
            if c < i {
                assert(after.leases[c].0 != after.leases[i].0);
            } else if i < c {
                assert(after.leases[i].0 != after.leases[c].0);
            }
        }
        assert(after.holds(asking));
        let c = choose|c: int|
            0 <= c < after.leases.len() && (#[trigger] after.leases[c]).0 == asking;
        if c < n {
            assert(after.leases[c].0 != after.leases[n].0);
        }
    }
}

} // verus!
