//! The lifecycle of one mount.
//!
//! A session is a state machine. The caller performs the work that the machine
//! asks for (opening a window, forking, migrating, mounting, waiting) and hands
//! back what happened; the machine decides what comes next. The order that it
//! keeps is the one that makes forking safe: the store is first touched in the
//! process that will serve the callbacks, and only after that process knows on
//! which side of the fork it runs.

use vstd::prelude::*;

verus! {

/// The states of a session as its users see them.
#[derive(Clone, Copy, Debug, PartialEq, Eq, Structural)]
pub enum Phase {
    Initializing,
    Foreground,
    Backgrounding,
    Mounted,
    Unmounting,
    Terminated,
    Failed,
}

/// Why a session failed.
#[derive(Clone, Copy, Debug, PartialEq, Eq, Structural)]
pub enum SessionError {
    /// The mount target is missing where the platform needs it to exist.
    InvalidMountTarget,
    /// The window on the mount target could not be opened.
    ViewerFailure,
    /// A schema migration step failed.
    MigrationFailure,
    /// The notification channel could not be constructed.
    NotifierFailure,
    /// The termination-signal handler could not be registered.
    SignalFailure,
    /// The kernel mount call failed.
    MountFailure,
}

/// On which side of a fork the process runs.
#[derive(Clone, Copy, Debug, PartialEq, Eq, Structural)]
pub enum Role {
    /// The process that was started; it has not forked.
    Unforked,
    /// The process that forked and now only reports its child.
    Parent,
    /// The forked process, which serves the filesystem.
    Child,
}

/// What the session is waiting for.
#[derive(Clone, Copy, Debug, PartialEq, Eq, Structural)]
pub enum Step {
    Start,
    OpeningView,
    BuildingPool,
    Forking,
    Migrating,
    OpeningNotifier,
    RegisteringSignal,
    Mounting,
    Serving,
    Unmounting,
    Terminated,
    Failed(SessionError),
}

/// What the caller found out about the mount before the session starts.
#[derive(Clone, Copy, Debug, PartialEq, Eq, Structural)]
pub struct MountRequest {
    /// Stay attached to the invoking terminal.
    pub foreground: bool,
    /// The mount target exists.
    pub target_exists: bool,
    /// The platform mounts over an existing directory only.
    pub target_required: bool,
}

/// What happened outside since the last action was handed out.
#[derive(Clone, Copy, Debug, PartialEq, Eq, Structural)]
pub enum Event {
    /// The session is asked to start.
    Begin(MountRequest),
    /// The last action succeeded.
    Completed,
    /// The last action failed.
    Faulted,
    /// The fork returned in the parent.
    ForkedParent { child: i32 },
    /// The fork returned in the child.
    ForkedChild,
    /// The termination flag was read.
    TerminationFlag(bool),
    /// The kernel released the mount.
    HandleReleased,
}

/// What the caller has to do next.
#[derive(Clone, Copy, Debug, PartialEq, Eq, Structural)]
pub enum Action {
    /// Show the mount target to the user.
    OpenMountTarget,
    /// Show the directory of all collections to the user.
    OpenCollectionDir,
    /// Construct the connection pool, without opening a connection.
    BuildPool,
    /// Fork.
    Fork,
    /// Report the child's process id and leave with status zero.
    ReportChild { child: i32 },
    /// Bring the schema of the store up to date.
    Migrate,
    /// Construct the in-process notification sink.
    OpenDesktopNotifier,
    /// Construct the notification sink that talks to the companion process.
    OpenSocketNotifier,
    /// Register the handler that sets the termination flag.
    RegisterSignalHandler,
    /// Perform the kernel mount call.
    Mount,
    /// Block until the kernel releases the mount.
    WaitOnHandle,
    /// Wait a moment, then read the termination flag.
    PollTermination,
    /// Tear the mount down.
    Unmount,
    /// Leave with status zero.
    Finish,
    /// Print the cause and leave with a status other than zero.
    Abort(SessionError),
}

/// The control object of one mount, from start to teardown.
#[derive(Clone, Copy, Debug, PartialEq, Eq, Structural)]
pub struct MountSession {
    pub step: Step,
    pub foreground: bool,
    pub role: Role,
    pub migrated: bool,
}

impl Step {
    /// The error with which a failure of the work awaited in this step ends
    /// the session, if that work can fail.
    pub open spec fn failure(self) -> Option<SessionError> {
        match self {
            Step::OpeningView => Some(SessionError::ViewerFailure),
            Step::Migrating => Some(SessionError::MigrationFailure),
            Step::OpeningNotifier => Some(SessionError::NotifierFailure),
            Step::RegisteringSignal => Some(SessionError::SignalFailure),
            Step::Mounting => Some(SessionError::MountFailure),
            Step::Unmounting => Some(SessionError::MountFailure),
            _ => None,
        }
    }

    /// A step is terminal when no event can leave it.
    pub open spec fn terminal(self) -> bool {
        self is Terminated || self is Failed
    }

}

impl Action {
    /// Whether performing the action opens a connection to the store, now or
    /// in a callback that it makes possible.
    pub open spec fn touches_store(self) -> bool {
        self is Migrate || self is Mount
    }
}

impl MountSession {
    /// The state in which every session starts.
    pub open spec fn initial() -> MountSession {
        MountSession { step: Step::Start, foreground: false, role: Role::Unforked, migrated: false }
    }

    /// The state of the lifecycle that this session is in.
    pub open spec fn phase(self) -> Phase {
        match self.step {
            Step::Start => Phase::Initializing,
            Step::OpeningView => Phase::Initializing,
            Step::Serving => Phase::Mounted,
            Step::Unmounting => Phase::Unmounting,
            Step::Terminated => Phase::Terminated,
            Step::Failed(_) => Phase::Failed,
            _ => if self.foreground {
                Phase::Foreground
            } else {
                Phase::Backgrounding
            },
        }
    }

    /// The status with which the process leaves once the session is over.
    pub open spec fn exit_status(self) -> i32 {
        if self.step is Failed {
            1
        } else {
            0
        }
    }

    /// How far the session has come. No transition goes back. A foreground
    /// session builds its pool after the migration, a background session
    /// before the fork.
    pub open spec fn progress(self) -> nat {
        match self.step {
            Step::Start => 0,
            Step::OpeningView => 1,
            Step::BuildingPool => if self.foreground {
                5
            } else {
                2
            },
            Step::Forking => 3,
            Step::Migrating => 4,
            Step::OpeningNotifier => 6,
            Step::RegisteringSignal => 7,
            Step::Mounting => 8,
            Step::Serving => 9,
            Step::Unmounting => 10,
            Step::Terminated => 11,
            Step::Failed(_) => 11,
        }
    }

    /// Whether this process knows on which side of a fork it runs: it was
    /// asked to stay in the foreground, or it is the child.
    pub open spec fn fork_resolved(self) -> bool {
        self.progress() >= 2 && (self.foreground || self.role == Role::Child)
    }

    /// The session with its step replaced.
    pub open spec fn at(self, step: Step) -> MountSession {
        MountSession { step, ..self }
    }

    /// The transition relation: the state and the action that follow when
    /// `event` arrives in state `self`, or `None` when the event has no
    /// meaning there.
    pub open spec fn next(self, event: Event) -> Option<(MountSession, Action)> {
        match (self.step, event) {
            (Step::Start, Event::Begin(req)) => {
                if req.target_required && !req.target_exists {
                    Some(
                        (
                            self.at(Step::Failed(SessionError::InvalidMountTarget)),
                            Action::Abort(SessionError::InvalidMountTarget),
                        ),
                    )
                } else {
                    let opened = MountSession {
                        step: Step::OpeningView,
                        foreground: req.foreground,
                        role: Role::Unforked,
                        migrated: false,
                    };
                    if req.target_exists {
                        Some((opened, Action::OpenMountTarget))
                    } else {
                        Some((opened, Action::OpenCollectionDir))
                    }
                }
            },
            (Step::OpeningView, Event::Completed) => {
                if self.foreground {
                    Some((self.at(Step::Migrating), Action::Migrate))
                } else {
                    Some((self.at(Step::BuildingPool), Action::BuildPool))
                }
            },
            (Step::BuildingPool, Event::Completed) => {
                if self.foreground {
                    Some((self.at(Step::OpeningNotifier), Action::OpenSocketNotifier))
                } else {
                    Some((self.at(Step::Forking), Action::Fork))
                }
            },
            (Step::Forking, Event::ForkedParent { child }) => {
                Some(
                    (
                        MountSession { step: Step::Terminated, role: Role::Parent, ..self },
                        Action::ReportChild { child },
                    ),
                )
            },
            (Step::Forking, Event::ForkedChild) => {
                Some(
                    (MountSession { step: Step::Migrating, role: Role::Child, ..self }, Action::Migrate),
                )
            },
            (Step::Migrating, Event::Completed) => {
                if self.foreground {
                    Some(
                        (
                            MountSession { step: Step::BuildingPool, migrated: true, ..self },
                            Action::BuildPool,
                        ),
                    )
                } else {
                    Some(
                        (
                            MountSession { step: Step::OpeningNotifier, migrated: true, ..self },
                            Action::OpenDesktopNotifier,
                        ),
                    )
                }
            },
            (Step::OpeningNotifier, Event::Completed) => {
                if self.foreground {
                    Some((self.at(Step::RegisteringSignal), Action::RegisterSignalHandler))
                } else {
                    Some((self.at(Step::Mounting), Action::Mount))
                }
            },
            (Step::RegisteringSignal, Event::Completed) => {
                Some((self.at(Step::Mounting), Action::Mount))
            },
            (Step::Mounting, Event::Completed) => {
                if self.foreground {
                    Some((self.at(Step::Serving), Action::PollTermination))
                } else {
                    Some((self.at(Step::Serving), Action::WaitOnHandle))
                }
            },
            (Step::Serving, Event::TerminationFlag(set)) => {
                if !self.foreground {
                    None
                } else if set {
                    Some((self.at(Step::Unmounting), Action::Unmount))
                } else {
                    Some((self, Action::PollTermination))
                }
            },
            (Step::Serving, Event::HandleReleased) => {
                Some((self.at(Step::Unmounting), Action::Unmount))
            },
            (Step::Unmounting, Event::Completed) => {
                Some((self.at(Step::Terminated), Action::Finish))
            },
            (step, Event::Faulted) => {
                match step.failure() {
                    Some(cause) => Some((self.at(Step::Failed(cause)), Action::Abort(cause))),
                    None => None,
                }
            },
            _ => None,
        }
    }

    /// What holds of every state that a session can reach.
    pub open spec fn consistent(self) -> bool {
        &&& self.progress() <= 1 ==> self.role == Role::Unforked && !self.migrated
        &&& self.role == Role::Parent ==> self.step is Terminated && !self.foreground
                && !self.migrated
        &&& self.role == Role::Child ==> !self.foreground
        &&& self.step is Forking ==> !self.foreground && self.role == Role::Unforked
                && !self.migrated
        &&& self.step is BuildingPool && !self.foreground ==> self.role == Role::Unforked
                && !self.migrated
        &&& self.step is Migrating ==> !self.migrated && self.fork_resolved()
        &&& self.step is RegisteringSignal ==> self.foreground
        &&& 5 <= self.progress() <= 10 ==> self.migrated && self.fork_resolved()
    }

    /// The state after a sequence of events, each taken in turn from the
    /// initial state; an event without meaning leaves the state as it is.
    pub open spec fn after(events: Seq<Event>) -> MountSession
        decreases events.len(),
    {
        if events.len() == 0 {
            Self::initial()
        } else {
            let before = Self::after(events.drop_last());
            match before.next(events.last()) {
                Some((state, _)) => state,
                None => before,
            }
        }
    }

    /// A session that has not started yet.
    pub fn new() -> (session: MountSession)
        ensures
            session == Self::initial(),
    {
        MountSession { step: Step::Start, foreground: false, role: Role::Unforked, migrated: false }
    }

    /// The state of the lifecycle that this session is in.
    pub fn current_phase(&self) -> (p: Phase)
        ensures
            p == self.phase(),
    {
        match self.step {
            Step::Start => Phase::Initializing,
            Step::OpeningView => Phase::Initializing,
            Step::Serving => Phase::Mounted,
            Step::Unmounting => Phase::Unmounting,
            Step::Terminated => Phase::Terminated,
            Step::Failed(_) => Phase::Failed,
            _ => if self.foreground {
                Phase::Foreground
            } else {
                Phase::Backgrounding
            },
        }
    }

    /// Zero after a clean mount and unmount, and for the parent of a
    /// background mount; one when the session failed.
    pub fn exit_code(&self) -> (code: i32)
        ensures
            code == self.exit_status(),
    {
        match self.step {
            Step::Failed(_) => 1,
            _ => 0,
        }
    }

    /// The cause of the failure, once the session has failed.
    pub fn failure(&self) -> (cause: Option<SessionError>)
        ensures
            cause == (match self.step {
                Step::Failed(e) => Some(e),
                _ => None,
            }),
    {
        match self.step {
            Step::Failed(e) => Some(e),
            _ => None,
        }
    }
}

/// The error with which a failure in `step` ends the session.
fn failure_cause(step: Step) -> (cause: Option<SessionError>)
    ensures
        cause == step.failure(),
{
    match step {
        Step::OpeningView => Some(SessionError::ViewerFailure),
        Step::Migrating => Some(SessionError::MigrationFailure),
        Step::OpeningNotifier => Some(SessionError::NotifierFailure),
        Step::RegisteringSignal => Some(SessionError::SignalFailure),
        Step::Mounting => Some(SessionError::MountFailure),
        Step::Unmounting => Some(SessionError::MountFailure),
        _ => None,
    }
}

/// Takes one event of the mount and says what to do next.
///
/// The session moves as [`MountSession::next`] says. An event that has no
/// meaning in the current state leaves the session unchanged and yields no
/// action.
pub fn handle(session: &mut MountSession, event: Event) -> (action: Option<Action>)
    ensures
        match old(session).next(event) {
            Some((state, act)) => *final(session) == state && action == Some(act),
            None => *final(session) == *old(session) && action.is_none(),
        },
{
    let fg = session.foreground;
    match (session.step, event) {
        (Step::Start, Event::Begin(req)) => {
            if req.target_required && !req.target_exists {
                session.step = Step::Failed(SessionError::InvalidMountTarget);
                Some(Action::Abort(SessionError::InvalidMountTarget))
            } else {
                session.step = Step::OpeningView;
                session.foreground = req.foreground;
                session.role = Role::Unforked;
                session.migrated = false;
                if req.target_exists {
                    Some(Action::OpenMountTarget)
                } else {
                    Some(Action::OpenCollectionDir)
                }
            }
        },
        (Step::OpeningView, Event::Completed) => {
            if fg {
                session.step = Step::Migrating;
                Some(Action::Migrate)
            } else {
                session.step = Step::BuildingPool;
                Some(Action::BuildPool)
            }
        },
        (Step::BuildingPool, Event::Completed) => {
            if fg {
                session.step = Step::OpeningNotifier;
                Some(Action::OpenSocketNotifier)
            } else {
                session.step = Step::Forking;
                Some(Action::Fork)
            }
        },
        (Step::Forking, Event::ForkedParent { child }) => {
            session.step = Step::Terminated;
            session.role = Role::Parent;
            Some(Action::ReportChild { child })
        },
        (Step::Forking, Event::ForkedChild) => {
            session.step = Step::Migrating;
            session.role = Role::Child;
            Some(Action::Migrate)
        },
        (Step::Migrating, Event::Completed) => {
            session.migrated = true;
            if fg {
                session.step = Step::BuildingPool;
                Some(Action::BuildPool)
            } else {
                session.step = Step::OpeningNotifier;
                Some(Action::OpenDesktopNotifier)
            }
        },
        (Step::OpeningNotifier, Event::Completed) => {
            if fg {
                session.step = Step::RegisteringSignal;
                Some(Action::RegisterSignalHandler)
            } else {
                session.step = Step::Mounting;
                Some(Action::Mount)
            }
        },
        (Step::RegisteringSignal, Event::Completed) => {
            session.step = Step::Mounting;
            Some(Action::Mount)
        },
        (Step::Mounting, Event::Completed) => {
            session.step = Step::Serving;
            if fg {
                Some(Action::PollTermination)
            } else {
                Some(Action::WaitOnHandle)
            }
        },
        (Step::Serving, Event::TerminationFlag(set)) => {
            if !fg {
                None
            } else if set {
                session.step = Step::Unmounting;
                Some(Action::Unmount)
            } else {
                Some(Action::PollTermination)
            }
        },
        (Step::Serving, Event::HandleReleased) => {
            session.step = Step::Unmounting;
            Some(Action::Unmount)
        },
        (Step::Unmounting, Event::Completed) => {
            session.step = Step::Terminated;
            Some(Action::Finish)
        },
        (step, Event::Faulted) => {
            match failure_cause(step) {
                Some(cause) => {
                    session.step = Step::Failed(cause);
                    Some(Action::Abort(cause))
                },
                None => None,
            }
        },
        _ => None,
    }
}

/// Every state that a session reaches from its initial state is consistent.
pub proof fn lemma_reachable_consistent(events: Seq<Event>)
    ensures
        MountSession::after(events).consistent(),
    decreases events.len(),
{
    if events.len() > 0 {
        lemma_reachable_consistent(events.drop_last());
        lemma_step_consistent(MountSession::after(events.drop_last()), events.last());
    }
}

/// A transition keeps a consistent state consistent.
pub proof fn lemma_step_consistent(s: MountSession, event: Event)
    requires
        s.consistent(),
    ensures
        s.next(event) matches Some((state, _)) ==> state.consistent(),
{
}

/// The store is touched only by a process that knows its side of the fork,
/// and never by the parent of a background mount: an action that touches the
/// store comes from a state whose process stays in the foreground or is the
/// forked child. The migration comes before the mount, and once only.
pub proof fn lemma_store_touched_after_fork(s: MountSession, event: Event)
    requires
        s.consistent(),
    ensures
        s.next(event) matches Some((state, action)) ==> {
            &&& action.touches_store() ==> state.fork_resolved() && state.role != Role::Parent
            &&& action is Migrate ==> !s.migrated && !(s.step is Migrating) && state.step is Migrating
            &&& action is Mount ==> s.migrated
            &&& action is Fork ==> !s.migrated && s.step is BuildingPool
        },
{
}

/// Once the process is the parent of a background mount, the session is over
/// and asks for nothing more: the parent neither migrates, nor mounts, nor
/// unmounts what the child serves.
pub proof fn lemma_parent_is_done(s: MountSession, event: Event)
    requires
        s.consistent(),
        s.role == Role::Parent,
    ensures
        s.next(event).is_none(),
        s.exit_status() == 0,
{
}

/// No transition goes back, and none leaves a terminal state.
pub proof fn lemma_progress(s: MountSession, event: Event)
    ensures
        s.next(event) matches Some((state, _)) ==> s.progress() <= state.progress(),
        s.step.terminal() ==> s.next(event).is_none(),
{
}

/// A failure of the migration, of the construction of the notification
/// channel or of the kernel mount call fails the session, and the only thing
/// asked for then is to abort: nothing is cleaned up.
pub proof fn lemma_failure_is_final(s: MountSession)
    requires
        s.step is Migrating || s.step is OpeningNotifier || s.step is Mounting,
    ensures
        s.next(Event::Faulted) matches Some((state, action)) && state.phase() == Phase::Failed
            && action is Abort && state.exit_status() != 0,
{
}

/// What the event at place `k` of a sequence of events is answered with, when
/// the events are taken in turn from the initial state.
pub open spec fn answer(events: Seq<Event>, k: int) -> Option<Action> {
    match MountSession::after(events.take(k)).next(events[k]) {
        Some((_, action)) => Some(action),
        None => None,
    }
}

/// The state after one more event is the state that the event leads to.
pub proof fn lemma_after_step(events: Seq<Event>, k: int)
    requires
        0 <= k < events.len(),
    ensures
        MountSession::after(events.take(k + 1)) == match MountSession::after(events.take(k)).next(
            events[k],
        ) {
            Some((state, _)) => state,
            None => MountSession::after(events.take(k)),
        },
{
    assert(events.take(k + 1).drop_last() =~= events.take(k));
    assert(events.take(k + 1).last() == events[k]);
}

/// A session never goes back, however many events it takes.
pub proof fn lemma_progress_along(events: Seq<Event>, i: int, j: int)
    requires
        0 <= i <= j <= events.len(),
    ensures
        MountSession::after(events.take(i)).progress() <= MountSession::after(
            events.take(j),
        ).progress(),
    decreases j - i,
{
    if i < j {
        lemma_progress_along(events, i, j - 1);
        lemma_after_step(events, j - 1);
        lemma_progress(MountSession::after(events.take(j - 1)), events[j - 1]);
    }
}

/// The migration is asked for once at most in the life of a process: no
/// sequence of events is answered with it twice.
pub proof fn lemma_migrates_once(events: Seq<Event>, i: int, j: int)
    requires
        0 <= i < j < events.len(),
        answer(events, i) == Some(Action::Migrate),
    ensures
        answer(events, j) != Some(Action::Migrate),
{
    lemma_after_step(events, i);
    lemma_progress_along(events, i + 1, j);
    lemma_reachable_consistent(events.take(i));
    lemma_reachable_consistent(events.take(j));
    lemma_store_touched_after_fork(MountSession::after(events.take(i)), events[i]);
    lemma_store_touched_after_fork(MountSession::after(events.take(j)), events[j]);
}

/// A session that has migrated, or is about to hear how the migration went,
/// was asked to migrate.
pub proof fn lemma_migration_was_asked(events: Seq<Event>, k: int)
    requires
        0 <= k <= events.len(),
        MountSession::after(events.take(k)).migrated || MountSession::after(
            events.take(k),
        ).step is Migrating,
    ensures
        exists|i: int| 0 <= i < k && #[trigger] answer(events, i) == Some(Action::Migrate),
    decreases k,
{
    if k == 0 {
        assert(events.take(0) =~= Seq::<Event>::empty());
    } else {
        lemma_after_step(events, k - 1);
        lemma_reachable_consistent(events.take(k - 1));
        if answer(events, k - 1) != Some(Action::Migrate) {
            lemma_migration_was_asked(events, k - 1);
        }
    }
}

/// The kernel mount call always comes after the migration: a sequence of
/// events that is answered with the mount was answered with the migration
/// before.
pub proof fn lemma_mount_follows_migration(events: Seq<Event>, j: int)
    requires
        0 <= j < events.len(),
        answer(events, j) == Some(Action::Mount),
    ensures
        exists|i: int| 0 <= i < j && #[trigger] answer(events, i) == Some(Action::Migrate),
{
    lemma_reachable_consistent(events.take(j));
    lemma_store_touched_after_fork(MountSession::after(events.take(j)), events[j]);
    lemma_migration_was_asked(events, j);
}

/// In a background mount the fork comes before anything touches the store:
/// once a sequence of events was answered with an action that touches the
/// store, it is never answered with the fork.
pub proof fn lemma_no_fork_after_store(events: Seq<Event>, i: int, j: int)
    requires
        0 <= i < j < events.len(),
        answer(events, i) matches Some(action) && action.touches_store(),
    ensures
        answer(events, j) != Some(Action::Fork),
{
    lemma_after_step(events, i);
    lemma_progress_along(events, i + 1, j);
    lemma_reachable_consistent(events.take(i));
    lemma_reachable_consistent(events.take(j));
    lemma_store_touched_after_fork(MountSession::after(events.take(i)), events[i]);
    lemma_store_touched_after_fork(MountSession::after(events.take(j)), events[j]);
}

} // verus!
