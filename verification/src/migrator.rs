//! Bringing the schema of a store to the version that the library needs.
//!
//! Versions are numbered from zero, the empty store. The step with number `v`
//! takes a store from version `v - 1` to version `v`. Steps are applied one
//! after the other, lowest first, each in a transaction of its own; the first
//! that fails ends the migration for good.

use crate::errors::FsError;
use crate::store::{Store, StoreView};
use vstd::prelude::*;

verus! {

/// The steps that take a store from one version to another, lowest first:
/// every version above `current` up to `required`.
pub open spec fn pending(current: u32, required: u32) -> Seq<u32> {
    if current >= required {
        Seq::empty()
    } else {
        Seq::new((required - current) as nat, |i: int| (current + 1 + i) as u32)
    }
}

/// The version of a store once it has been migrated: a store is never taken
/// back to a lower version.
pub open spec fn migrated_version(current: u32, required: u32) -> u32 {
    if current >= required {
        current
    } else {
        required
    }
}

impl StoreView {
    /// The store after a migration to `required`.
    pub open spec fn migrated(self, required: u32) -> StoreView {
        self.at_version(migrated_version(self.schema_version, required))
    }
}

/// The progress of one migration.
#[derive(Clone, Copy, Debug, PartialEq, Eq, Structural)]
pub struct Migrator {
    /// The version that the store is at.
    pub current: u32,
    /// The version that the library needs.
    pub required: u32,
    /// A step has failed.
    pub failed: bool,
}

impl Migrator {
    /// The step to apply next, if one is left and none has failed.
    pub open spec fn upcoming(self) -> Option<u32> {
        if !self.failed && self.current < self.required {
            Some((self.current + 1) as u32)
        } else {
            None
        }
    }

    /// The migration has brought the store to the version that is needed.
    pub open spec fn done(self) -> bool {
        !self.failed && self.current >= self.required
    }

    /// Starts a migration of a store that is at version `persisted`.
    pub fn new(persisted: u32, required: u32) -> (m: Migrator)
        ensures
            m == (Migrator { current: persisted, required, failed: false }),
    {
        Migrator { current: persisted, required, failed: false }
    }

    /// The step to apply next, if one is left and none has failed.
    pub fn next_step(&self) -> (step: Option<u32>)
        ensures
            step == self.upcoming(),
            step matches Some(v) ==> pending(self.current, self.required).len() > 0 && v == pending(
                self.current,
                self.required,
            )[0],
    {
        if !self.failed && self.current < self.required {
            Some(self.current + 1)
        } else {
            None
        }
    }

    /// Records how the upcoming step went. A step that was applied raises the
    /// version by one. A step that failed fails the migration: no further
    /// step is handed out, and the error is `MigrationFailure`. Where no step
    /// is upcoming nothing is recorded.
    pub fn record(&mut self, applied: bool) -> (r: Result<(), FsError>)
        ensures
            old(self).upcoming() matches Some(v) ==> {
                if applied {
                    r.is_ok() && *final(self) == (Migrator { current: v, ..*old(self) })
                } else {
                    r == Err::<(), FsError>(FsError::MigrationFailure) && *final(self) == (Migrator {
                        failed: true,
                        ..*old(self)
                    })
                }
            },
            old(self).upcoming().is_none() ==> *final(self) == *old(self) && r == (if old(
                self,
            ).failed {
                Err::<(), FsError>(FsError::MigrationFailure)
            } else {
                Ok::<(), FsError>(())
            }),
    {
        if self.failed {
            Err(FsError::MigrationFailure)
        } else if self.current >= self.required {
            Ok(())
        } else if applied {
            self.current = self.current + 1;
            Ok(())
        } else {
            self.failed = true;
            Err(FsError::MigrationFailure)
        }
    }

    /// Whether the store is at the version that is needed.
    pub fn is_done(&self) -> (done: bool)
        ensures
            done == self.done(),
    {
        !self.failed && self.current >= self.required
    }
}

/// The steps that take a store from `current` to `required`, lowest first.
pub fn plan(current: u32, required: u32) -> (steps: Vec<u32>)
    ensures
        steps@ == pending(current, required),
{
    let mut steps: Vec<u32> = Vec::new();
    let mut v: u32 = current;
    while v < required
        invariant
            current <= v,
            v <= required || current >= required,
            current < required ==> steps@ == pending(current, v),
            current >= required ==> steps@ == Seq::<u32>::empty() && v == current,
        decreases required - v,
    {
        v = v + 1;
        steps.push(v);
        assert(steps@ =~= pending(current, v));
    }
    proof {
        if current < required {
            assert(v == required);
        }
        assert(steps@ =~= pending(current, required));
    }
    steps
}

/// Migrates a store to the version that is needed and says how many steps
/// it took. A store that is at that version, or above it, stays as it is.
pub fn run_migrations(store: &mut Store, required: u32) -> (r: Result<u32, FsError>)
    requires
        old(store).wf(),
    ensures
        final(store).wf(),
        r == Ok::<u32, FsError>(pending(old(store)@.schema_version, required).len() as u32),
        final(store)@ == old(store)@.migrated(required),
{
    let start = store.schema_version();
    let mut migrator = Migrator::new(start, required);
    let mut applied: u32 = 0;
    loop
        invariant
            store.wf(),
            migrator.required == required,
            !migrator.failed,
            start <= migrator.current,
            migrator.current <= required || migrator.current == start,
            applied == migrator.current - start,
            store@ == old(store)@.at_version(migrator.current),
        ensures
            migrator.done(),
        decreases required - migrator.current,
    {
        let step = match migrator.next_step() {
            Some(step) => step,
            None => {
                break ;
            },
        };
        let advanced = store.advance_schema(step);
        let recorded = migrator.record(advanced);
        assert(advanced);
        applied = applied + 1;
    }
    Ok(applied)
}

/// Migrating twice is migrating once: a second migration to the same version
/// has no step left to apply and leaves the store as the first one left it.
pub proof fn lemma_migration_idempotent(s: StoreView, required: u32)
    ensures
        pending(s.migrated(required).schema_version, required).len() == 0,
        s.migrated(required).migrated(required) == s.migrated(required),
{
}

/// A migration touches nothing but the schema version, and it keeps the
/// store well formed.
pub proof fn lemma_migration_keeps_rows(s: StoreView, required: u32)
    requires
        s.wf(),
    ensures
        s.migrated(required).wf(),
        s.migrated(required).tags == s.tags,
        s.migrated(required).files == s.files,
        s.migrated(required).assignments == s.assignments,
        s.migrated(required).schema_version >= s.schema_version,
{
    crate::store::lemma_wf_frame(s, s.migrated(required));
}

/// The pending steps are in strictly increasing order, start just above the
/// current version and end at the required one.
pub proof fn lemma_pending_increasing(current: u32, required: u32)
    ensures
        forall|i: int, j: int|
            0 <= i < j < pending(current, required).len() ==> pending(current, required)[i]
                < pending(current, required)[j],
        forall|i: int|
            0 <= i < pending(current, required).len() ==> #[trigger] pending(current, required)[i]
                == current + 1 + i,
{
}

} // verus!
