use tagfs::engine::{
    attributes_of, ensure_tags, getattr, lookup, mkdir, open, read_entries, readdir, readlink,
    rename, rmdir, symlink, unlink, Attr, Kind, Operation, Policy,
};
use tagfs::errors::{Errno, FsError, StoreFault};
use tagfs::identity::{directory_inode_of, file_inode_of};
use tagfs::resolver::Node;
use tagfs::store::Store;

const STRICT: Policy = Policy {
    implicit_tags: false,
    reuse_existing_tags: false,
    idempotent_assign: false,
    prune_untagged: false,
};

const LENIENT: Policy = Policy {
    implicit_tags: true,
    reuse_existing_tags: true,
    idempotent_assign: true,
    prune_untagged: true,
};

fn leaves(store: &Store, path: &[u8]) -> Vec<String> {
    let listing = readdir(store, path).unwrap();
    listing.files.into_iter().map(|e| String::from_utf8(e.name).unwrap()).collect()
}

fn dirs(store: &Store, path: &[u8]) -> Vec<String> {
    let listing = readdir(store, path).unwrap();
    listing.tags.into_iter().map(|e| String::from_utf8(e.name).unwrap()).collect()
}

fn pairs(store: &Store) -> Vec<(u64, u64)> {
    let mut rows = store.assignments().clone();
    rows.sort();
    rows
}

#[test]
fn one_tag_one_file_scenario() {
    let mut store = Store::new();
    assert_eq!(mkdir(&mut store, &STRICT, b"/red"), Ok(Some(Operation::CreateTag)));
    assert_eq!(
        symlink(&mut store, &STRICT, b"/home/user/a.txt", 5, 6, b"/red/a.txt"),
        Ok(Some(Operation::CreateAssignment))
    );
    assert_eq!(leaves(&store, b"/red"), vec!["a.txt"]);
    assert_eq!(dirs(&store, b"/red"), Vec::<String>::new());
    assert_eq!(dirs(&store, b"/"), vec!["red"]);
    assert_eq!(leaves(&store, b"/"), vec!["a.txt"]);
    assert_eq!(unlink(&mut store, &STRICT, b"/red/a.txt"), Ok(Some(Operation::RemoveAssignment)));
    assert_eq!(leaves(&store, b"/red"), Vec::<String>::new());
    assert_eq!(dirs(&store, b"/red"), Vec::<String>::new());
    assert_eq!(store.file_id(b"/home/user/a.txt"), Some(1));
}

#[test]
fn two_tags_either_order_scenario() {
    let mut store = Store::new();
    mkdir(&mut store, &STRICT, b"/red").unwrap();
    mkdir(&mut store, &STRICT, b"/big").unwrap();
    symlink(&mut store, &STRICT, b"/home/user/a.txt", 5, 6, b"/red/big/a.txt").unwrap();
    for path in [&b"/red/big"[..], b"/big/red"] {
        assert_eq!(leaves(&store, path), vec!["a.txt"]);
        assert_eq!(dirs(&store, path), Vec::<String>::new());
        let names: Vec<String> = readdir(&store, path)
            .unwrap()
            .names()
            .into_iter()
            .map(|n| String::from_utf8(n).unwrap())
            .collect();
        assert_eq!(names, vec![".", "..", "a.txt"]);
    }
    assert_eq!(pairs(&store), vec![(1, 1), (1, 2)]);
}

#[test]
fn failed_rename_leaves_assignments_as_they_were() {
    let mut store = Store::new();
    let red = store.create_tag(b"red").unwrap();
    let file = store.track_file(b"/home/user/a.txt", 5, 6).unwrap();
    store.assign(file, red).unwrap();
    store.restore_tag(u64::MAX - 2, b"pad").unwrap();
    let before = pairs(&store);
    let tags_before = store.tags().len();
    // The first new tag gets the last id; the second finds none left.
    assert_eq!(
        rename(&mut store, &LENIENT, b"/red/a.txt", b"/blue/green/a.txt"),
        Err(Errno::Io)
    );
    assert_eq!(pairs(&store), before);
    assert_eq!(store.tags().len(), tags_before);
    assert_eq!(store.tag_id(b"blue"), None);
    assert_eq!(store.tag_id(b"green"), None);
    assert_eq!(leaves(&store, b"/red"), vec!["a.txt"]);
    // One new tag still fits.
    assert_eq!(
        rename(&mut store, &LENIENT, b"/red/a.txt", b"/blue/a.txt"),
        Ok(Some(Operation::RenameAssignment))
    );
    assert_eq!(store.tag_id(b"blue"), Some(u64::MAX - 1));
    assert_eq!(pairs(&store), vec![(file, u64::MAX - 1)]);
}

#[test]
fn rename_swaps_the_tag_sets() {
    let mut store = Store::new();
    for name in [&b"/red"[..], b"/big", b"/old", b"/new"] {
        mkdir(&mut store, &STRICT, name).unwrap();
    }
    symlink(&mut store, &STRICT, b"/d/a.txt", 1, 1, b"/red/big/a.txt").unwrap();
    symlink(&mut store, &STRICT, b"/d/a.txt", 1, 1, b"/old/a.txt").unwrap();
    assert_eq!(pairs(&store), vec![(1, 1), (1, 2), (1, 3)]);
    assert_eq!(
        rename(&mut store, &STRICT, b"/red/big/a.txt", b"/big/new/a.txt"),
        Ok(Some(Operation::RenameAssignment))
    );
    assert_eq!(pairs(&store), vec![(1, 2), (1, 3), (1, 4)]);
    assert_eq!(leaves(&store, b"/new/big/old"), vec!["a.txt"]);
    assert_eq!(leaves(&store, b"/red"), Vec::<String>::new());
}

#[test]
fn rename_errors_change_nothing() {
    let mut store = Store::new();
    mkdir(&mut store, &STRICT, b"/red").unwrap();
    mkdir(&mut store, &STRICT, b"/big").unwrap();
    symlink(&mut store, &STRICT, b"/d/a.txt", 1, 1, b"/red/a.txt").unwrap();
    let before = pairs(&store);
    assert_eq!(rename(&mut store, &STRICT, b"/red/b.txt", b"/big/b.txt"), Err(Errno::NoEntry));
    assert_eq!(rename(&mut store, &STRICT, b"/blue/a.txt", b"/big/a.txt"), Err(Errno::NoEntry));
    assert_eq!(rename(&mut store, &STRICT, b"/red", b"/crimson"), Err(Errno::IsDirectory));
    assert_eq!(rename(&mut store, &STRICT, b"/red/a.txt", b"/big"), Err(Errno::IsDirectory));
    assert_eq!(rename(&mut store, &STRICT, b"/red/a.txt", b"/"), Err(Errno::Exists));
    assert_eq!(rename(&mut store, &STRICT, b"/red/a.txt", b"/blue/a.txt"), Err(Errno::NoEntry));
    assert_eq!(pairs(&store), before);
    assert_eq!(store.tags().len(), 2);
}

#[test]
fn rename_creates_tags_where_the_policy_allows() {
    let mut store = Store::new();
    mkdir(&mut store, &STRICT, b"/red").unwrap();
    symlink(&mut store, &STRICT, b"/d/a.txt", 1, 1, b"/red/a.txt").unwrap();
    let implicit = Policy { implicit_tags: true, ..STRICT };
    assert_eq!(
        rename(&mut store, &implicit, b"/red/a.txt", b"/blue/blue/green/a.txt"),
        Ok(Some(Operation::RenameAssignment))
    );
    assert_eq!(store.tag_id(b"blue"), Some(2));
    assert_eq!(store.tag_id(b"green"), Some(3));
    assert_eq!(pairs(&store), vec![(1, 2), (1, 3)]);
    assert_eq!(
        rename(&mut store, &implicit, b"/blue/a.txt", b"/a@b/a.txt"),
        Err(Errno::NoEntry)
    );
    assert_eq!(pairs(&store), vec![(1, 2), (1, 3)]);
}

#[test]
fn rename_to_root_untags_and_prunes_by_policy() {
    let mut keep = Store::new();
    mkdir(&mut keep, &STRICT, b"/red").unwrap();
    symlink(&mut keep, &STRICT, b"/d/a.txt", 1, 1, b"/red/a.txt").unwrap();
    let mut prune = keep.snapshot();
    assert_eq!(
        rename(&mut keep, &STRICT, b"/red/a.txt", b"/a.txt"),
        Ok(Some(Operation::RenameAssignment))
    );
    assert!(keep.assignments().is_empty());
    assert!(keep.file(1).is_some());
    let pruning = Policy { prune_untagged: true, ..STRICT };
    rename(&mut prune, &pruning, b"/red/a.txt", b"/a.txt").unwrap();
    assert!(prune.file(1).is_none());
}

#[test]
fn mkdir_policies() {
    let mut store = Store::new();
    assert_eq!(mkdir(&mut store, &STRICT, b"/red"), Ok(Some(Operation::CreateTag)));
    assert_eq!(mkdir(&mut store, &STRICT, b"/red"), Err(Errno::Exists));
    let reuse = Policy { reuse_existing_tags: true, ..STRICT };
    assert_eq!(mkdir(&mut store, &reuse, b"/red"), Ok(None));
    assert_eq!(store.tags().len(), 1);
    assert_eq!(mkdir(&mut store, &STRICT, b"/red/big"), Ok(Some(Operation::CreateTag)));
    assert_eq!(store.tag_id(b"big"), Some(2));
}

#[test]
fn mkdir_errors() {
    let mut store = Store::new();
    assert_eq!(mkdir(&mut store, &LENIENT, b"/"), Err(Errno::Exists));
    assert_eq!(mkdir(&mut store, &LENIENT, b"/blue/red"), Err(Errno::NoEntry));
    assert_eq!(mkdir(&mut store, &LENIENT, b"/.."), Err(Errno::Exists));
    assert_eq!(mkdir(&mut store, &LENIENT, b"/a@1"), Err(Errno::Exists));
    store.restore_tag(u64::MAX - 1, b"last").unwrap();
    assert_eq!(mkdir(&mut store, &LENIENT, b"/more"), Err(Errno::Io));
    assert_eq!(store.tags().len(), 1);
}

#[test]
fn rmdir_removes_the_tag_and_no_file() {
    let mut store = Store::new();
    mkdir(&mut store, &STRICT, b"/red").unwrap();
    mkdir(&mut store, &STRICT, b"/big").unwrap();
    symlink(&mut store, &STRICT, b"/d/a.txt", 1, 1, b"/red/big/a.txt").unwrap();
    symlink(&mut store, &STRICT, b"/d/b.txt", 1, 1, b"/red/b.txt").unwrap();
    assert_eq!(rmdir(&mut store, b"/big/red"), Ok(Some(Operation::RemoveTag)));
    assert_eq!(store.tag_id(b"red"), None);
    assert_eq!(store.tag_id(b"big"), Some(2));
    assert_eq!(pairs(&store), vec![(1, 2)]);
    assert_eq!(store.files().len(), 2);
    assert_eq!(store.file(2).unwrap().real_path, b"/d/b.txt".to_vec());
}

#[test]
fn rmdir_errors() {
    let mut store = Store::new();
    mkdir(&mut store, &STRICT, b"/red").unwrap();
    symlink(&mut store, &STRICT, b"/d/a.txt", 1, 1, b"/red/a.txt").unwrap();
    assert_eq!(rmdir(&mut store, b"/"), Err(Errno::Exists));
    assert_eq!(rmdir(&mut store, b"/red/a.txt"), Err(Errno::NotDirectory));
    assert_eq!(rmdir(&mut store, b"/blue"), Err(Errno::NoEntry));
    assert_eq!(rmdir(&mut store, b"/blue/red"), Err(Errno::NoEntry));
    assert_eq!(store.tags().len(), 1);
    assert_eq!(pairs(&store), vec![(1, 1)]);
}

#[test]
fn unlink_takes_the_tags_on_the_path() {
    let mut store = Store::new();
    for name in [&b"/red"[..], b"/big", b"/old"] {
        mkdir(&mut store, &STRICT, name).unwrap();
    }
    symlink(&mut store, &STRICT, b"/d/a.txt", 1, 1, b"/red/big/old/a.txt").unwrap();
    assert_eq!(unlink(&mut store, &STRICT, b"/big/red/a.txt"), Ok(Some(Operation::RemoveAssignment)));
    assert_eq!(pairs(&store), vec![(1, 3)]);
    assert_eq!(unlink(&mut store, &STRICT, b"/a.txt"), Ok(Some(Operation::RemoveAssignment)));
    assert!(store.assignments().is_empty());
    assert!(store.file(1).is_some());
}

#[test]
fn unlink_prunes_by_policy() {
    let mut store = Store::new();
    mkdir(&mut store, &STRICT, b"/red").unwrap();
    mkdir(&mut store, &STRICT, b"/big").unwrap();
    symlink(&mut store, &STRICT, b"/d/a.txt", 1, 1, b"/red/big/a.txt").unwrap();
    let pruning = Policy { prune_untagged: true, ..STRICT };
    unlink(&mut store, &pruning, b"/red/a.txt").unwrap();
    assert!(store.file(1).is_some());
    unlink(&mut store, &pruning, b"/big/a.txt").unwrap();
    assert!(store.file(1).is_none());
}

#[test]
fn unlink_errors() {
    let mut store = Store::new();
    mkdir(&mut store, &STRICT, b"/red").unwrap();
    symlink(&mut store, &STRICT, b"/d/a.txt", 1, 1, b"/red/a.txt").unwrap();
    assert_eq!(unlink(&mut store, &STRICT, b"/red"), Err(Errno::IsDirectory));
    assert_eq!(unlink(&mut store, &STRICT, b"/"), Err(Errno::IsDirectory));
    assert_eq!(unlink(&mut store, &STRICT, b"/red/b.txt"), Err(Errno::NoEntry));
    assert_eq!(unlink(&mut store, &STRICT, b"/blue/a.txt"), Err(Errno::NoEntry));
    assert_eq!(pairs(&store), vec![(1, 1)]);
}

#[test]
fn symlink_policies() {
    let mut store = Store::new();
    mkdir(&mut store, &STRICT, b"/red").unwrap();
    assert_eq!(
        symlink(&mut store, &STRICT, b"/d/a.txt", 1, 1, b"/red/a.txt"),
        Ok(Some(Operation::CreateAssignment))
    );
    assert_eq!(symlink(&mut store, &STRICT, b"/d/a.txt", 1, 1, b"/red/a.txt"), Err(Errno::Exists));
    let idempotent = Policy { idempotent_assign: true, ..STRICT };
    assert_eq!(symlink(&mut store, &idempotent, b"/d/a.txt", 1, 1, b"/red/a.txt"), Ok(None));
    assert_eq!(pairs(&store), vec![(1, 1)]);
    assert_eq!(
        symlink(&mut store, &STRICT, b"/d/a.txt", 1, 1, b"/blue/a.txt"),
        Err(Errno::NoEntry)
    );
    let implicit = Policy { implicit_tags: true, ..STRICT };
    assert_eq!(
        symlink(&mut store, &implicit, b"/d/a.txt", 1, 1, b"/red/blue/a.txt"),
        Ok(Some(Operation::CreateAssignment))
    );
    assert_eq!(pairs(&store), vec![(1, 1), (1, 2)]);
}

#[test]
fn symlink_errors_change_nothing() {
    let mut store = Store::new();
    let implicit = Policy { implicit_tags: true, ..STRICT };
    assert_eq!(symlink(&mut store, &implicit, b"/d/a.txt", 1, 1, b"/"), Err(Errno::Exists));
    assert_eq!(symlink(&mut store, &implicit, b"/d/a.txt", 1, 1, b"/a.txt"), Err(Errno::NoEntry));
    assert_eq!(symlink(&mut store, &implicit, b"d/a.txt", 1, 1, b"/red/a.txt"), Err(Errno::NoEntry));
    assert!(store.tags().is_empty());
    assert!(store.files().is_empty());
    store.restore_file(u64::MAX - 1, b"/d/z", 1, 1, b"/d/z").unwrap();
    assert_eq!(symlink(&mut store, &implicit, b"/d/a.txt", 1, 1, b"/red/a.txt"), Err(Errno::Io));
    assert!(store.tags().is_empty());
    assert_eq!(store.files().len(), 1);
}

#[test]
fn getattr_of_directories_and_leaves() {
    let mut store = Store::new();
    mkdir(&mut store, &STRICT, b"/red").unwrap();
    symlink(&mut store, &STRICT, b"/d/a.txt", 123, 456, b"/red/a.txt").unwrap();
    assert_eq!(
        getattr(&store, b"/"),
        Ok(Attr { ino: 1, kind: Kind::Directory, size: 0, mtime: 0 })
    );
    assert_eq!(
        getattr(&store, b"/red"),
        Ok(Attr { ino: directory_inode_of(&[1]), kind: Kind::Directory, size: 0, mtime: 0 })
    );
    assert_eq!(
        getattr(&store, b"/red/a.txt"),
        Ok(Attr { ino: file_inode_of(1), kind: Kind::Link, size: 123, mtime: 456 })
    );
    assert_eq!(getattr(&store, b"/a.txt"), getattr(&store, b"/red/a.txt"));
    assert_eq!(getattr(&store, b"/blue"), Err(Errno::NoEntry));
    assert_eq!(getattr(&store, b"/blue/a.txt"), Err(Errno::NoEntry));
}

#[test]
fn attributes_of_resolved_nodes() {
    let mut store = Store::new();
    mkdir(&mut store, &STRICT, b"/red").unwrap();
    symlink(&mut store, &STRICT, b"/d/a.txt", 7, 8, b"/red/a.txt").unwrap();
    let leaf = Node::Leaf { tags: vec![1], file: 1 };
    assert_eq!(
        attributes_of(&store, &leaf),
        Attr { ino: file_inode_of(1), kind: Kind::Link, size: 7, mtime: 8 }
    );
    let gone = Node::Leaf { tags: vec![1], file: 5 };
    assert_eq!(
        attributes_of(&store, &gone),
        Attr { ino: file_inode_of(5), kind: Kind::Link, size: 0, mtime: 0 }
    );
}

#[test]
fn lookup_resolves_one_segment() {
    let mut store = Store::new();
    mkdir(&mut store, &STRICT, b"/red").unwrap();
    mkdir(&mut store, &STRICT, b"/big").unwrap();
    symlink(&mut store, &STRICT, b"/d/a.txt", 1, 1, b"/red/a.txt").unwrap();
    assert!(matches!(lookup(&store, &[], b"red"), Ok(Node::Directory { tags }) if tags == vec![1]));
    assert!(
        matches!(lookup(&store, &[1], b"big"), Ok(Node::Directory { tags }) if tags == vec![1, 2])
    );
    assert!(
        matches!(lookup(&store, &[1], b"a.txt"), Ok(Node::Leaf { tags, file: 1 }) if tags == vec![1])
    );
    assert!(matches!(lookup(&store, &[2], b"a.txt"), Err(Errno::NoEntry)));
    assert!(matches!(lookup(&store, &[1], b"blue"), Err(Errno::NoEntry)));
}

#[test]
fn readdir_errors() {
    let mut store = Store::new();
    mkdir(&mut store, &STRICT, b"/red").unwrap();
    symlink(&mut store, &STRICT, b"/d/a.txt", 1, 1, b"/red/a.txt").unwrap();
    assert!(matches!(readdir(&store, b"/red/a.txt"), Err(Errno::NotDirectory)));
    assert!(matches!(readdir(&store, b"/blue"), Err(Errno::NoEntry)));
    assert!(matches!(readdir(&store, b"/blue/red"), Err(Errno::NoEntry)));
}

#[test]
fn read_entries_restarts_at_an_offset() {
    let mut store = Store::new();
    mkdir(&mut store, &STRICT, b"/red").unwrap();
    mkdir(&mut store, &STRICT, b"/big").unwrap();
    symlink(&mut store, &STRICT, b"/d/a.txt", 1, 1, b"/red/big/a.txt").unwrap();
    symlink(&mut store, &STRICT, b"/d/b.txt", 1, 1, b"/red/b.txt").unwrap();
    let listing = readdir(&store, b"/red").unwrap();
    let all = read_entries(&listing, &[1], 0);
    let names: Vec<&[u8]> = all.iter().map(|e| e.name.as_slice()).collect();
    assert_eq!(names, vec![&b"."[..], b"..", b"big", b"a.txt", b"b.txt"]);
    assert_eq!(all[0].ino, directory_inode_of(&[1]));
    assert_eq!(all[1].ino, 1);
    assert_eq!(all[2].ino, directory_inode_of(&[1, 2]));
    assert_eq!(all[2].kind, Kind::Directory);
    assert_eq!(all[3].ino, file_inode_of(1));
    assert_eq!(all[4].kind, Kind::Link);
    let rest = read_entries(&listing, &[1], 3);
    let names: Vec<&[u8]> = rest.iter().map(|e| e.name.as_slice()).collect();
    assert_eq!(names, vec![&b"a.txt"[..], b"b.txt"]);
    assert!(read_entries(&listing, &[1], 5).is_empty());
    assert!(read_entries(&listing, &[1], 6).is_empty());
}

#[test]
fn open_and_readlink_give_the_real_path() {
    let mut store = Store::new();
    mkdir(&mut store, &STRICT, b"/red").unwrap();
    symlink(&mut store, &STRICT, b"/home/user/a.txt", 1, 1, b"/red/link").unwrap();
    assert_eq!(open(&store, b"/red/a.txt"), Ok(b"/home/user/a.txt".to_vec()));
    assert_eq!(readlink(&store, b"/red/a.txt"), Ok(b"/home/user/a.txt".to_vec()));
    assert_eq!(open(&store, b"/red"), Err(Errno::IsDirectory));
    assert_eq!(readlink(&store, b"/"), Err(Errno::IsDirectory));
    assert_eq!(open(&store, b"/red/link"), Err(Errno::NoEntry));
    assert_eq!(open(&store, b"/blue/a.txt"), Err(Errno::NoEntry));
}

#[test]
fn ensure_tags_creates_all_or_none() {
    let mut store = Store::new();
    store.create_tag(b"red").unwrap();
    let names = vec![b"red".to_vec(), b"new".to_vec(), b"red".to_vec(), b"new".to_vec()];
    assert_eq!(ensure_tags(&mut store, &names, false), Err(FsError::UnknownTag));
    assert_eq!(store.tags().len(), 1);
    assert_eq!(ensure_tags(&mut store, &names, true), Ok(vec![1, 2, 1, 2]));
    assert_eq!(store.tags().len(), 2);
    assert_eq!(ensure_tags(&mut store, &names, false), Ok(vec![1, 2, 1, 2]));
    let bad = vec![b"fine".to_vec(), b"..".to_vec()];
    assert_eq!(ensure_tags(&mut store, &bad, true), Err(FsError::UnknownTag));
    assert_eq!(store.tag_id(b"fine"), None);
    store.restore_tag(u64::MAX - 2, b"pad").unwrap();
    let two = vec![b"x".to_vec(), b"y".to_vec()];
    assert_eq!(
        ensure_tags(&mut store, &two, true),
        Err(FsError::StoreError(StoreFault::Failure))
    );
    assert_eq!(store.tag_id(b"x"), None);
}
