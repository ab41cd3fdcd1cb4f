use tagfs::errors::{FsError, StoreFault};
use tagfs::store::Store;

#[test]
fn new_store_is_empty() {
    let store = Store::new();
    assert_eq!(store.schema_version(), 0);
    assert!(store.tags().is_empty());
    assert!(store.files().is_empty());
    assert!(store.assignments().is_empty());
}

#[test]
fn tags_get_ids_in_order() {
    let mut store = Store::new();
    assert_eq!(store.create_tag(b"red"), Ok(1));
    assert_eq!(store.create_tag(b"big"), Ok(2));
    assert_eq!(store.tag_id(b"red"), Some(1));
    assert_eq!(store.tag_id(b"big"), Some(2));
    assert_eq!(store.tag_id(b"blue"), None);
    assert!(store.contains_tag(2));
    assert!(!store.contains_tag(3));
    assert_eq!(store.tags()[1].name, b"big".to_vec());
}

#[test]
fn tag_names_are_unique() {
    let mut store = Store::new();
    store.create_tag(b"red").unwrap();
    assert_eq!(store.create_tag(b"red"), Err(FsError::AlreadyExists));
    assert_eq!(store.tags().len(), 1);
}

#[test]
fn tag_names_are_case_sensitive() {
    let mut store = Store::new();
    store.create_tag(b"red").unwrap();
    assert_eq!(store.create_tag(b"Red"), Ok(2));
}

#[test]
fn names_that_are_no_segment_are_refused() {
    let mut store = Store::new();
    assert_eq!(store.create_tag(b""), Err(FsError::NoSuchEntry));
    assert_eq!(store.create_tag(b"a/b"), Err(FsError::NoSuchEntry));
    assert_eq!(store.create_tag(b"/"), Err(FsError::NoSuchEntry));
    assert!(store.tags().is_empty());
}

#[test]
fn names_kept_for_the_view_are_refused() {
    let mut store = Store::new();
    assert_eq!(store.create_tag(b"."), Err(FsError::AlreadyExists));
    assert_eq!(store.create_tag(b".."), Err(FsError::AlreadyExists));
    assert_eq!(store.create_tag(b"a@1"), Err(FsError::AlreadyExists));
    assert_eq!(store.create_tag(b"@"), Err(FsError::AlreadyExists));
    assert_eq!(store.create_tag(b"..."), Ok(1));
}

#[test]
fn ids_are_never_handed_out_twice() {
    let mut store = Store::new();
    let red = store.create_tag(b"red").unwrap();
    store.remove_tag(red).unwrap();
    let again = store.create_tag(b"red").unwrap();
    assert_eq!(red, 1);
    assert_eq!(again, 2);
}

#[test]
fn tag_ids_run_out() {
    let mut store = Store::new();
    assert_eq!(store.restore_tag(u64::MAX - 1, b"last"), Ok(u64::MAX - 1));
    assert_eq!(
        store.create_tag(b"more"),
        Err(FsError::StoreError(StoreFault::Failure))
    );
    assert_eq!(store.tags().len(), 1);
}

#[test]
fn restore_tag_keeps_the_order_of_ids() {
    let mut store = Store::new();
    assert_eq!(store.restore_tag(5, b"five"), Ok(5));
    assert_eq!(store.restore_tag(5, b"again"), Err(FsError::AlreadyExists));
    assert_eq!(store.restore_tag(3, b"three"), Err(FsError::AlreadyExists));
    assert_eq!(store.restore_tag(9, b"five"), Err(FsError::AlreadyExists));
    assert_eq!(store.restore_tag(u64::MAX, b"max"), Err(FsError::StoreError(StoreFault::Failure)));
    assert_eq!(store.restore_tag(9, b"nine"), Ok(9));
    assert_eq!(store.create_tag(b"ten"), Ok(10));
}

#[test]
fn files_are_tracked_once_per_path() {
    let mut store = Store::new();
    assert_eq!(store.track_file(b"/data/a.txt", 10, 100), Ok(1));
    assert_eq!(store.track_file(b"/data/b.txt", 20, 200), Ok(2));
    assert_eq!(store.track_file(b"/data/a.txt", 99, 999), Ok(1));
    assert_eq!(store.files().len(), 2);
    let a = store.file(1).unwrap();
    assert_eq!(a.size, 10);
    assert_eq!(a.mtime, 100);
    assert_eq!(a.real_path, b"/data/a.txt".to_vec());
    assert_eq!(a.link_target, b"/data/a.txt".to_vec());
    assert_eq!(store.file_id(b"/data/b.txt"), Some(2));
    assert_eq!(store.file_id(b"/data/c.txt"), None);
    assert!(store.file(3).is_none());
}

#[test]
fn real_paths_are_absolute() {
    let mut store = Store::new();
    assert_eq!(store.track_file(b"data/a.txt", 1, 1), Err(FsError::NoSuchEntry));
    assert_eq!(store.track_file(b"", 1, 1), Err(FsError::NoSuchEntry));
    assert!(store.files().is_empty());
}

#[test]
fn file_ids_run_out() {
    let mut store = Store::new();
    assert_eq!(store.restore_file(u64::MAX - 1, b"/a", 1, 2, b"/a"), Ok(u64::MAX - 1));
    assert_eq!(
        store.track_file(b"/b", 1, 2),
        Err(FsError::StoreError(StoreFault::Failure))
    );
    assert_eq!(store.track_file(b"/a", 5, 6), Ok(u64::MAX - 1));
}

#[test]
fn restore_file_keeps_paths_unique() {
    let mut store = Store::new();
    assert_eq!(store.restore_file(4, b"/a", 1, 2, b"/old/a"), Ok(4));
    assert_eq!(store.restore_file(6, b"/a", 1, 2, b"/a"), Err(FsError::AlreadyExists));
    assert_eq!(store.restore_file(2, b"/b", 1, 2, b"/b"), Err(FsError::AlreadyExists));
    assert_eq!(store.restore_file(6, b"b", 1, 2, b"b"), Err(FsError::NoSuchEntry));
    assert_eq!(store.file(4).unwrap().link_target, b"/old/a".to_vec());
}

#[test]
fn refresh_records_metadata_for_the_real_path() {
    let mut store = Store::new();
    store.restore_file(4, b"/a", 1, 2, b"/old/a").unwrap();
    assert_eq!(store.is_stale(4), Some(true));
    assert_eq!(store.is_stale(5), None);
    assert_eq!(store.refresh_file(4, 30, 40), Ok(()));
    assert_eq!(store.is_stale(4), Some(false));
    let row = store.file(4).unwrap();
    assert_eq!(row.size, 30);
    assert_eq!(row.mtime, 40);
    assert_eq!(row.link_target, b"/a".to_vec());
    assert_eq!(row.real_path, b"/a".to_vec());
    assert_eq!(store.refresh_file(5, 1, 1), Err(FsError::NoSuchEntry));
}

#[test]
fn assignment_needs_file_and_tag() {
    let mut store = Store::new();
    let red = store.create_tag(b"red").unwrap();
    let file = store.track_file(b"/a", 1, 1).unwrap();
    assert_eq!(store.assign(file + 1, red), Err(FsError::NoSuchEntry));
    assert_eq!(store.assign(file, red + 1), Err(FsError::UnknownTag));
    assert_eq!(store.assign(file + 1, red + 1), Err(FsError::NoSuchEntry));
    assert!(store.assignments().is_empty());
    assert_eq!(store.assign(file, red), Ok(()));
    assert!(store.is_assigned(file, red));
}

#[test]
fn same_assignment_twice_leaves_one_row() {
    let mut store = Store::new();
    let red = store.create_tag(b"red").unwrap();
    let file = store.track_file(b"/a", 1, 1).unwrap();
    assert_eq!(store.assign(file, red), Ok(()));
    assert_eq!(store.assign(file, red), Err(FsError::AlreadyExists));
    assert_eq!(store.assignments().clone(), vec![(file, red)]);
}

#[test]
fn disjoint_assignments_all_succeed_in_any_order() {
    let pairs: Vec<(u64, u64)> = vec![(1, 1), (1, 2), (2, 1), (3, 3), (2, 3), (3, 1)];
    let mut forward = Store::new();
    let mut backward = Store::new();
    for store in [&mut forward, &mut backward] {
        for name in [b"t1", b"t2", b"t3"] {
            store.create_tag(name).unwrap();
        }
        for path in [b"/f1", b"/f2", b"/f3"] {
            store.track_file(path, 0, 0).unwrap();
        }
    }
    for (file, tag) in pairs.iter() {
        assert_eq!(forward.assign(*file, *tag), Ok(()));
    }
    for (file, tag) in pairs.iter().rev() {
        assert_eq!(backward.assign(*file, *tag), Ok(()));
    }
    assert_eq!(forward.assignments().len(), pairs.len());
    assert_eq!(backward.assignments().len(), pairs.len());
    for file in 1..=3u64 {
        for tag in 1..=3u64 {
            let expected = pairs.contains(&(file, tag));
            assert_eq!(forward.is_assigned(file, tag), expected);
            assert_eq!(backward.is_assigned(file, tag), expected);
        }
    }
}

#[test]
fn unassign_removes_one_assignment() {
    let mut store = Store::new();
    let red = store.create_tag(b"red").unwrap();
    let big = store.create_tag(b"big").unwrap();
    let file = store.track_file(b"/a", 1, 1).unwrap();
    store.assign(file, red).unwrap();
    store.assign(file, big).unwrap();
    assert_eq!(store.unassign(file, red), Ok(()));
    assert!(!store.is_assigned(file, red));
    assert!(store.is_assigned(file, big));
    assert_eq!(store.unassign(file, red), Err(FsError::NoSuchEntry));
    assert_eq!(store.files().len(), 1);
}

#[test]
fn removing_a_tag_detaches_its_assignments_only() {
    let mut store = Store::new();
    let red = store.create_tag(b"red").unwrap();
    let big = store.create_tag(b"big").unwrap();
    let a = store.track_file(b"/data/a.txt", 11, 12).unwrap();
    let b = store.track_file(b"/data/b.txt", 21, 22).unwrap();
    store.assign(a, red).unwrap();
    store.assign(a, big).unwrap();
    store.assign(b, red).unwrap();
    assert_eq!(store.remove_tag(red), Ok(()));
    assert!(!store.contains_tag(red));
    assert_eq!(store.tag_id(b"red"), None);
    assert!(!store.is_assigned(a, red));
    assert!(!store.is_assigned(b, red));
    assert!(store.is_assigned(a, big));
    assert_eq!(store.assignments().clone(), vec![(a, big)]);
    assert_eq!(store.files().len(), 2);
    assert_eq!(store.file(a).unwrap().real_path, b"/data/a.txt".to_vec());
    assert_eq!(store.file(b).unwrap().real_path, b"/data/b.txt".to_vec());
    assert_eq!(store.file(b).unwrap().size, 21);
}

#[test]
fn removing_an_unknown_tag_fails() {
    let mut store = Store::new();
    store.create_tag(b"red").unwrap();
    assert_eq!(store.remove_tag(9), Err(FsError::UnknownTag));
    assert_eq!(store.tags().len(), 1);
}

#[test]
fn forget_file_detaches_and_removes() {
    let mut store = Store::new();
    let red = store.create_tag(b"red").unwrap();
    let a = store.track_file(b"/a", 1, 1).unwrap();
    let b = store.track_file(b"/b", 1, 1).unwrap();
    store.assign(a, red).unwrap();
    store.assign(b, red).unwrap();
    assert_eq!(store.forget_file(a), Ok(()));
    assert!(store.file(a).is_none());
    assert!(!store.is_assigned(a, red));
    assert!(store.is_assigned(b, red));
    assert_eq!(store.forget_file(a), Err(FsError::NoSuchEntry));
    assert_eq!(store.track_file(b"/a", 1, 1), Ok(3));
}

#[test]
fn untag_takes_every_tag_and_keeps_the_file() {
    let mut store = Store::new();
    let red = store.create_tag(b"red").unwrap();
    let big = store.create_tag(b"big").unwrap();
    let a = store.track_file(b"/a", 1, 1).unwrap();
    let b = store.track_file(b"/b", 1, 1).unwrap();
    store.assign(a, red).unwrap();
    store.assign(a, big).unwrap();
    store.assign(b, big).unwrap();
    store.untag(a);
    assert_eq!(store.assignments().clone(), vec![(b, big)]);
    assert!(store.file(a).is_some());
}

#[test]
fn snapshot_is_independent_of_the_store() {
    let mut store = Store::new();
    let red = store.create_tag(b"red").unwrap();
    let a = store.track_file(b"/a", 1, 1).unwrap();
    store.assign(a, red).unwrap();
    store.advance_schema(2);
    let saved = store.snapshot();
    store.remove_tag(red).unwrap();
    store.forget_file(a).unwrap();
    assert_eq!(saved.tag_id(b"red"), Some(red));
    assert!(saved.is_assigned(a, red));
    assert_eq!(saved.file(a).unwrap().real_path, b"/a".to_vec());
    assert_eq!(saved.schema_version(), 2);
    assert!(store.tags().is_empty());
}
