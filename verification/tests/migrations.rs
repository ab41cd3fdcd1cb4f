use tagfs::errors::FsError;
use tagfs::migrator::{plan, run_migrations, Migrator};
use tagfs::store::Store;

#[test]
fn plan_lists_every_version_above_the_current() {
    assert_eq!(plan(0, 3), vec![1, 2, 3]);
    assert_eq!(plan(2, 5), vec![3, 4, 5]);
    assert_eq!(plan(4, 5), vec![5]);
}

#[test]
fn plan_is_empty_at_or_above_the_required_version() {
    assert_eq!(plan(3, 3), Vec::<u32>::new());
    assert_eq!(plan(7, 3), Vec::<u32>::new());
    assert_eq!(plan(0, 0), Vec::<u32>::new());
}

#[test]
fn plan_ends_at_the_highest_version() {
    assert_eq!(plan(u32::MAX - 2, u32::MAX), vec![u32::MAX - 1, u32::MAX]);
}

#[test]
fn migration_raises_the_schema_version() {
    let mut store = Store::new();
    assert_eq!(store.schema_version(), 0);
    assert_eq!(run_migrations(&mut store, 4), Ok(4));
    assert_eq!(store.schema_version(), 4);
}

#[test]
fn second_migration_is_a_no_op() {
    let mut store = Store::new();
    store.create_tag(b"red").unwrap();
    assert_eq!(run_migrations(&mut store, 3), Ok(3));
    let tags_before = store.tags().len();
    assert_eq!(run_migrations(&mut store, 3), Ok(0));
    assert_eq!(store.schema_version(), 3);
    assert_eq!(store.tags().len(), tags_before);
    assert_eq!(store.tag_id(b"red"), Some(1));
}

#[test]
fn migration_never_lowers_the_version() {
    let mut store = Store::new();
    run_migrations(&mut store, 5).unwrap();
    assert_eq!(run_migrations(&mut store, 2), Ok(0));
    assert_eq!(store.schema_version(), 5);
}

#[test]
fn migration_keeps_rows() {
    let mut store = Store::new();
    let red = store.create_tag(b"red").unwrap();
    let file = store.track_file(b"/data/a.txt", 10, 20).unwrap();
    store.assign(file, red).unwrap();
    run_migrations(&mut store, 2).unwrap();
    assert!(store.is_assigned(file, red));
    assert_eq!(store.files().len(), 1);
    assert_eq!(store.tags().len(), 1);
}

#[test]
fn migrator_hands_out_steps_in_order() {
    let mut migrator = Migrator::new(1, 3);
    assert_eq!(migrator.next_step(), Some(2));
    assert_eq!(migrator.record(true), Ok(()));
    assert_eq!(migrator.next_step(), Some(3));
    assert!(!migrator.is_done());
    assert_eq!(migrator.record(true), Ok(()));
    assert_eq!(migrator.next_step(), None);
    assert!(migrator.is_done());
    assert_eq!(migrator.current, 3);
}

#[test]
fn failed_step_ends_the_migration() {
    let mut migrator = Migrator::new(0, 3);
    assert_eq!(migrator.record(true), Ok(()));
    assert_eq!(migrator.record(false), Err(FsError::MigrationFailure));
    assert_eq!(migrator.current, 1);
    assert!(migrator.failed);
    assert_eq!(migrator.next_step(), None);
    assert!(!migrator.is_done());
    assert_eq!(migrator.record(true), Err(FsError::MigrationFailure));
    assert_eq!(migrator.current, 1);
}

#[test]
fn migrator_at_target_has_nothing_to_do() {
    let mut migrator = Migrator::new(3, 3);
    assert!(migrator.is_done());
    assert_eq!(migrator.next_step(), None);
    assert_eq!(migrator.record(true), Ok(()));
    assert_eq!(migrator.current, 3);
}

#[test]
fn advance_schema_is_monotonic() {
    let mut store = Store::new();
    assert!(store.advance_schema(2));
    assert!(!store.advance_schema(2));
    assert!(!store.advance_schema(1));
    assert_eq!(store.schema_version(), 2);
}
