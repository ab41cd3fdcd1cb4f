use tagfs::errors::FsError;
use tagfs::resolver::{
    carries_all, contains_id, copy_ids, files_under, is_tagged, leaf_name, leaf_named,
    list_directory, resolve_path, tag_ids, Node,
};
use tagfs::store::Store;

fn text(names: Vec<Vec<u8>>) -> Vec<String> {
    names.into_iter().map(|n| String::from_utf8(n).unwrap()).collect()
}

fn library() -> Store {
    let mut store = Store::new();
    for name in [&b"red"[..], b"big", b"old"] {
        store.create_tag(name).unwrap();
    }
    for path in [&b"/data/a.txt"[..], b"/data/b.txt", b"/other/a.txt", b"/data/c.txt"] {
        store.track_file(path, 1, 1).unwrap();
    }
    for (file, tag) in [(1, 1), (1, 2), (2, 1), (3, 1), (3, 3)] {
        store.assign(file, tag).unwrap();
    }
    store
}

#[test]
fn files_under_intersects_the_tags() {
    let store = library();
    assert_eq!(files_under(&store, &[1]), vec![1, 2, 3]);
    assert_eq!(files_under(&store, &[2]), vec![1]);
    assert_eq!(files_under(&store, &[1, 2]), vec![1]);
    assert_eq!(files_under(&store, &[1, 3]), vec![3]);
    assert_eq!(files_under(&store, &[2, 3]), Vec::<u64>::new());
}

#[test]
fn files_under_ignores_the_order_of_tags() {
    let store = library();
    assert_eq!(files_under(&store, &[1, 2]), files_under(&store, &[2, 1]));
    assert_eq!(files_under(&store, &[3, 1]), files_under(&store, &[1, 3]));
    assert_eq!(files_under(&store, &[1, 1, 2]), files_under(&store, &[2, 1]));
    assert_eq!(files_under(&store, &[3, 2, 1]), files_under(&store, &[1, 2, 3]));
}

#[test]
fn root_holds_the_tagged_files_only() {
    let store = library();
    assert_eq!(files_under(&store, &[]), vec![1, 2, 3]);
    assert!(is_tagged(&store, 1));
    assert!(!is_tagged(&store, 4));
    assert!(!is_tagged(&store, 9));
}

#[test]
fn unknown_tag_id_resolves_to_nothing() {
    let store = library();
    assert_eq!(files_under(&store, &[9]), Vec::<u64>::new());
    assert_eq!(files_under(&store, &[1, 9]), Vec::<u64>::new());
}

#[test]
fn carries_all_checks_every_tag() {
    let store = library();
    assert!(carries_all(&store, 1, &[1, 2]));
    assert!(!carries_all(&store, 1, &[1, 3]));
    assert!(carries_all(&store, 4, &[]));
    assert!(!carries_all(&store, 4, &[1]));
}

#[test]
fn shared_base_names_are_marked_with_the_id() {
    let store = library();
    assert_eq!(leaf_name(&store, &[1], 1), Some(b"a.txt@1".to_vec()));
    assert_eq!(leaf_name(&store, &[1], 3), Some(b"a.txt@3".to_vec()));
    assert_eq!(leaf_name(&store, &[1], 2), Some(b"b.txt".to_vec()));
    assert_eq!(leaf_name(&store, &[2], 1), Some(b"a.txt".to_vec()));
    assert_eq!(leaf_name(&store, &[1, 3], 3), Some(b"a.txt".to_vec()));
    assert_eq!(leaf_name(&store, &[1], 9), None);
}

#[test]
fn base_name_of_a_tag_is_marked() {
    let mut store = Store::new();
    let red = store.create_tag(b"red").unwrap();
    let big = store.create_tag(b"big").unwrap();
    let file = store.track_file(b"/somewhere/big", 1, 1).unwrap();
    store.assign(file, red).unwrap();
    assert_eq!(leaf_name(&store, &[red], file), Some(b"big@1".to_vec()));
    store.remove_tag(big).unwrap();
    assert_eq!(leaf_name(&store, &[red], file), Some(b"big".to_vec()));
}

#[test]
fn base_names_with_mark_or_dots_are_marked() {
    let mut store = Store::new();
    let red = store.create_tag(b"red").unwrap();
    let a = store.track_file(b"/data/x@2", 1, 1).unwrap();
    let b = store.track_file(b"/data/x", 1, 1).unwrap();
    let c = store.track_file(b"/data/..", 1, 1).unwrap();
    let d = store.track_file(b"/", 1, 1).unwrap();
    for file in [a, b, c, d] {
        store.assign(file, red).unwrap();
    }
    assert_eq!(leaf_name(&store, &[red], a), Some(b"x@2@1".to_vec()));
    assert_eq!(leaf_name(&store, &[red], b), Some(b"x".to_vec()));
    assert_eq!(leaf_name(&store, &[red], c), Some(b"..@3".to_vec()));
    assert_eq!(leaf_name(&store, &[red], d), Some(b"@4".to_vec()));
}

#[test]
fn listing_has_narrowing_tags_then_files() {
    let store = library();
    let listing = list_directory(&store, &[1]);
    let tags: Vec<u64> = listing.tags.iter().map(|e| e.id).collect();
    let files: Vec<u64> = listing.files.iter().map(|e| e.id).collect();
    assert_eq!(tags, vec![2, 3]);
    assert_eq!(files, vec![1, 2, 3]);
    assert_eq!(
        text(listing.names()),
        vec![".", "..", "big", "old", "a.txt@1", "b.txt", "a.txt@3"]
    );
}

#[test]
fn listing_names_are_distinct() {
    let mut store = library();
    let extra = store.track_file(b"/third/a.txt@1", 1, 1).unwrap();
    store.assign(extra, 1).unwrap();
    for tags in [&[][..], &[1], &[2], &[1, 2], &[3]] {
        let names = list_directory(&store, tags).names();
        for i in 0..names.len() {
            for j in 0..i {
                assert_ne!(names[i], names[j]);
            }
        }
    }
}

#[test]
fn listing_of_root_shows_tags_in_use() {
    let store = library();
    let listing = list_directory(&store, &[]);
    assert_eq!(
        text(listing.names()),
        vec![".", "..", "red", "big", "old", "a.txt@1", "b.txt", "a.txt@3"]
    );
}

#[test]
fn listing_leaves_out_consumed_and_unused_tags() {
    let mut store = library();
    store.create_tag(b"unused").unwrap();
    let listing = list_directory(&store, &[1, 2]);
    assert_eq!(text(listing.names()), vec![".", "..", "a.txt"]);
    let listing = list_directory(&store, &[2]);
    assert_eq!(text(listing.names()), vec![".", "..", "red", "a.txt"]);
}

#[test]
fn resolve_path_of_root() {
    let store = library();
    assert!(matches!(resolve_path(&store, b"/"), Ok(Node::Directory { tags }) if tags.is_empty()));
    assert!(matches!(resolve_path(&store, b""), Ok(Node::Directory { tags }) if tags.is_empty()));
}

#[test]
fn resolve_path_of_directories() {
    let store = library();
    assert!(matches!(resolve_path(&store, b"/red"), Ok(Node::Directory { tags }) if tags == vec![1]));
    assert!(
        matches!(resolve_path(&store, b"/big/red/"), Ok(Node::Directory { tags }) if tags == vec![2, 1])
    );
    assert!(
        matches!(resolve_path(&store, b"/big/old"), Ok(Node::Directory { tags }) if tags == vec![2, 3])
    );
}

#[test]
fn resolve_path_of_leaves() {
    let store = library();
    assert!(matches!(
        resolve_path(&store, b"/red/b.txt"),
        Ok(Node::Leaf { tags, file: 2 }) if tags == vec![1]
    ));
    assert!(matches!(
        resolve_path(&store, b"/red/a.txt@3"),
        Ok(Node::Leaf { tags, file: 3 }) if tags == vec![1]
    ));
    assert!(matches!(
        resolve_path(&store, b"/big/red/a.txt"),
        Ok(Node::Leaf { tags, file: 1 }) if tags == vec![2, 1]
    ));
    assert!(matches!(
        resolve_path(&store, b"/b.txt"),
        Ok(Node::Leaf { tags, file: 2 }) if tags.is_empty()
    ));
}

#[test]
fn resolve_path_errors() {
    let store = library();
    assert!(matches!(resolve_path(&store, b"/blue/a.txt"), Err(FsError::UnknownTag)));
    assert!(matches!(resolve_path(&store, b"/red/blue/a.txt"), Err(FsError::UnknownTag)));
    assert!(matches!(resolve_path(&store, b"/blue"), Err(FsError::NoSuchEntry)));
    assert!(matches!(resolve_path(&store, b"/red/a.txt"), Err(FsError::NoSuchEntry)));
    assert!(matches!(resolve_path(&store, b"/big/b.txt"), Err(FsError::NoSuchEntry)));
    assert!(matches!(resolve_path(&store, b"/red/c.txt"), Err(FsError::NoSuchEntry)));
    assert!(matches!(resolve_path(&store, b"/a.txt@1/red"), Err(FsError::UnknownTag)));
}

#[test]
fn tag_ids_of_names() {
    let store = library();
    assert_eq!(tag_ids(&store, &vec![b"old".to_vec(), b"red".to_vec()]), Some(vec![3, 1]));
    assert_eq!(tag_ids(&store, &vec![b"old".to_vec(), b"new".to_vec()]), None);
    assert_eq!(tag_ids(&store, &vec![]), Some(vec![]));
}

#[test]
fn leaf_named_finds_the_file() {
    let store = library();
    assert_eq!(leaf_named(&store, &[1], b"a.txt@1"), Some(1));
    assert_eq!(leaf_named(&store, &[1], b"a.txt"), None);
    assert_eq!(leaf_named(&store, &[2], b"a.txt"), Some(1));
    assert_eq!(leaf_named(&store, &[2], b"b.txt"), None);
}

#[test]
fn id_helpers() {
    assert!(contains_id(&[4, 5], 5));
    assert!(!contains_id(&[4, 5], 6));
    assert!(!contains_id(&[], 6));
    assert_eq!(copy_ids(&[3, 1, 2]), vec![3, 1, 2]);
}
