use tagfs::mount::{
    handle, Action, Event, MountRequest, MountSession, Phase, Role, SessionError, Step,
};

fn request(foreground: bool, target_exists: bool, target_required: bool) -> Event {
    Event::Begin(MountRequest { foreground, target_exists, target_required })
}

fn drive(session: &mut MountSession, events: &[Event]) -> Vec<Option<Action>> {
    let mut actions = Vec::new();
    for event in events {
        actions.push(handle(session, *event));
    }
    actions
}

#[test]
fn new_session_is_initializing() {
    let session = MountSession::new();
    assert_eq!(session.current_phase(), Phase::Initializing);
    assert_eq!(session.step, Step::Start);
    assert_eq!(session.role, Role::Unforked);
    assert_eq!(session.failure(), None);
    assert_eq!(session.exit_code(), 0);
}

#[test]
fn missing_target_fails_where_required() {
    let mut session = MountSession::new();
    let action = handle(&mut session, request(true, false, true));
    assert_eq!(action, Some(Action::Abort(SessionError::InvalidMountTarget)));
    assert_eq!(session.current_phase(), Phase::Failed);
    assert_eq!(session.failure(), Some(SessionError::InvalidMountTarget));
    assert_eq!(session.exit_code(), 1);
}

#[test]
fn missing_target_opens_collection_dir_where_not_required() {
    let mut session = MountSession::new();
    let action = handle(&mut session, request(true, false, false));
    assert_eq!(action, Some(Action::OpenCollectionDir));
    assert_eq!(session.current_phase(), Phase::Initializing);
}

#[test]
fn existing_target_is_opened() {
    let mut session = MountSession::new();
    let action = handle(&mut session, request(false, true, true));
    assert_eq!(action, Some(Action::OpenMountTarget));
    assert_eq!(session.step, Step::OpeningView);
}

#[test]
fn foreground_mount_runs_to_clean_exit() {
    let mut session = MountSession::new();
    let actions = drive(
        &mut session,
        &[
            request(true, true, true),
            Event::Completed,
            Event::Completed,
            Event::Completed,
            Event::Completed,
            Event::Completed,
            Event::Completed,
        ],
    );
    assert_eq!(
        actions,
        vec![
            Some(Action::OpenMountTarget),
            Some(Action::Migrate),
            Some(Action::BuildPool),
            Some(Action::OpenSocketNotifier),
            Some(Action::RegisterSignalHandler),
            Some(Action::Mount),
            Some(Action::PollTermination),
        ]
    );
    assert_eq!(session.current_phase(), Phase::Mounted);
    assert!(session.migrated);
    assert_eq!(handle(&mut session, Event::TerminationFlag(false)), Some(Action::PollTermination));
    assert_eq!(session.current_phase(), Phase::Mounted);
    assert_eq!(handle(&mut session, Event::TerminationFlag(true)), Some(Action::Unmount));
    assert_eq!(session.current_phase(), Phase::Unmounting);
    assert_eq!(handle(&mut session, Event::Completed), Some(Action::Finish));
    assert_eq!(session.current_phase(), Phase::Terminated);
    assert_eq!(session.exit_code(), 0);
}

#[test]
fn foreground_phases_follow_the_lifecycle() {
    let mut session = MountSession::new();
    handle(&mut session, request(true, true, false));
    assert_eq!(session.current_phase(), Phase::Initializing);
    handle(&mut session, Event::Completed);
    assert_eq!(session.current_phase(), Phase::Foreground);
    assert_eq!(session.step, Step::Migrating);
}

#[test]
fn background_child_migrates_after_the_fork() {
    let mut session = MountSession::new();
    let actions = drive(
        &mut session,
        &[request(false, true, true), Event::Completed, Event::Completed],
    );
    assert_eq!(
        actions,
        vec![Some(Action::OpenMountTarget), Some(Action::BuildPool), Some(Action::Fork)]
    );
    assert_eq!(session.current_phase(), Phase::Backgrounding);
    assert!(!session.migrated);
    let actions = drive(
        &mut session,
        &[Event::ForkedChild, Event::Completed, Event::Completed, Event::Completed],
    );
    assert_eq!(
        actions,
        vec![
            Some(Action::Migrate),
            Some(Action::OpenDesktopNotifier),
            Some(Action::Mount),
            Some(Action::WaitOnHandle),
        ]
    );
    assert_eq!(session.role, Role::Child);
    assert_eq!(session.current_phase(), Phase::Mounted);
    assert_eq!(handle(&mut session, Event::HandleReleased), Some(Action::Unmount));
    assert_eq!(handle(&mut session, Event::Completed), Some(Action::Finish));
    assert_eq!(session.current_phase(), Phase::Terminated);
    assert_eq!(session.exit_code(), 0);
}

#[test]
fn background_parent_reports_child_and_stops() {
    let mut session = MountSession::new();
    drive(&mut session, &[request(false, true, true), Event::Completed, Event::Completed]);
    let action = handle(&mut session, Event::ForkedParent { child: 4321 });
    assert_eq!(action, Some(Action::ReportChild { child: 4321 }));
    assert_eq!(session.role, Role::Parent);
    assert_eq!(session.current_phase(), Phase::Terminated);
    assert_eq!(session.exit_code(), 0);
    assert!(!session.migrated);
}

#[test]
fn parent_exit_asks_for_no_unmount() {
    let mut session = MountSession::new();
    drive(&mut session, &[request(false, true, true), Event::Completed, Event::Completed]);
    handle(&mut session, Event::ForkedParent { child: 7 });
    let done = session;
    for event in [
        Event::Completed,
        Event::Faulted,
        Event::HandleReleased,
        Event::TerminationFlag(true),
        Event::ForkedChild,
        request(true, true, true),
    ] {
        assert_eq!(handle(&mut session, event), None);
        assert_eq!(session, done);
    }
}

#[test]
fn migration_failure_fails_the_session() {
    let mut session = MountSession::new();
    drive(&mut session, &[request(true, true, true), Event::Completed]);
    let action = handle(&mut session, Event::Faulted);
    assert_eq!(action, Some(Action::Abort(SessionError::MigrationFailure)));
    assert_eq!(session.current_phase(), Phase::Failed);
    assert_eq!(session.exit_code(), 1);
    assert_eq!(handle(&mut session, Event::Completed), None);
}

#[test]
fn mount_failure_fails_the_session() {
    let mut session = MountSession::new();
    drive(
        &mut session,
        &[
            request(false, true, true),
            Event::Completed,
            Event::Completed,
            Event::ForkedChild,
            Event::Completed,
            Event::Completed,
        ],
    );
    assert_eq!(session.step, Step::Mounting);
    assert_eq!(handle(&mut session, Event::Faulted), Some(Action::Abort(SessionError::MountFailure)));
    assert_eq!(session.failure(), Some(SessionError::MountFailure));
}

#[test]
fn notifier_and_signal_failures_fail_the_session() {
    let mut session = MountSession::new();
    drive(
        &mut session,
        &[request(true, true, true), Event::Completed, Event::Completed, Event::Completed],
    );
    assert_eq!(session.step, Step::OpeningNotifier);
    let mut other = session;
    assert_eq!(
        handle(&mut session, Event::Faulted),
        Some(Action::Abort(SessionError::NotifierFailure))
    );
    handle(&mut other, Event::Completed);
    assert_eq!(other.step, Step::RegisteringSignal);
    assert_eq!(handle(&mut other, Event::Faulted), Some(Action::Abort(SessionError::SignalFailure)));
}

#[test]
fn viewer_failure_fails_the_session() {
    let mut session = MountSession::new();
    handle(&mut session, request(true, true, true));
    assert_eq!(handle(&mut session, Event::Faulted), Some(Action::Abort(SessionError::ViewerFailure)));
    assert_eq!(session.current_phase(), Phase::Failed);
}

#[test]
fn event_without_meaning_changes_nothing() {
    let mut session = MountSession::new();
    assert_eq!(handle(&mut session, Event::Completed), None);
    assert_eq!(handle(&mut session, Event::Faulted), None);
    assert_eq!(handle(&mut session, Event::ForkedChild), None);
    assert_eq!(session, MountSession::new());
    drive(&mut session, &[request(false, true, true), Event::Completed]);
    assert_eq!(session.step, Step::BuildingPool);
    assert_eq!(handle(&mut session, Event::Faulted), None);
    assert_eq!(session.step, Step::BuildingPool);
}

#[test]
fn background_mount_does_not_poll_the_flag() {
    let mut session = MountSession::new();
    drive(
        &mut session,
        &[
            request(false, true, true),
            Event::Completed,
            Event::Completed,
            Event::ForkedChild,
            Event::Completed,
            Event::Completed,
            Event::Completed,
        ],
    );
    assert_eq!(session.step, Step::Serving);
    assert_eq!(handle(&mut session, Event::TerminationFlag(true)), None);
    assert_eq!(session.step, Step::Serving);
}

#[test]
fn kernel_unmount_ends_a_foreground_mount() {
    let mut session = MountSession::new();
    drive(
        &mut session,
        &[
            request(true, true, true),
            Event::Completed,
            Event::Completed,
            Event::Completed,
            Event::Completed,
            Event::Completed,
            Event::Completed,
        ],
    );
    assert_eq!(handle(&mut session, Event::HandleReleased), Some(Action::Unmount));
    assert_eq!(handle(&mut session, Event::Faulted), Some(Action::Abort(SessionError::MountFailure)));
    assert_eq!(session.exit_code(), 1);
}
