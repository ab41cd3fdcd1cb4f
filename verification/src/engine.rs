//! The filesystem callbacks.
//!
//! Each callback resolves the paths that it is given against the store, and
//! answers with what the kernel expects or with an error code. A callback
//! that changes the store changes it as a whole or not at all, and says which
//! kind of change it made, so that listeners can be told.

use crate::errors::{Errno, FsError};
use crate::identity::{
    directory_inode, directory_inode_of, file_inode, file_inode_of, inode,
};
use crate::names::{copy_bytes, dot, dot_dot, segments, split_path, views, DOT};
use crate::resolver::{
    carries_all, copy_ids, entry_ids, is_tagged, leaf_named, lemma_leaf_name_is_free,
    lemma_leaf_names_distinct, lemma_tag_index, list_directory, resolve_path, tag_ids, Listing,
    Node, NodeView,
};
use crate::store::{lemma_same_tables, tag_name_ok, Store, StoreView, TagView};
use vstd::prelude::*;

verus! {

/// The choices that the design leaves to whoever sets the filesystem up.
#[derive(Clone, Copy, Debug, PartialEq, Eq, Structural)]
pub struct Policy {
    /// A tag that a target directory names and that does not exist is
    /// created on the way.
    pub implicit_tags: bool,
    /// Making a directory whose tag exists succeeds without a change.
    pub reuse_existing_tags: bool,
    /// Linking a file into a directory that holds it succeeds without a
    /// change.
    pub idempotent_assign: bool,
    /// A file from which the last tag was taken is no longer tracked.
    pub prune_untagged: bool,
}

/// The kinds of change that listeners are told of.
#[derive(Clone, Copy, Debug, PartialEq, Eq, Structural)]
pub enum Operation {
    CreateTag,
    RemoveTag,
    CreateAssignment,
    RemoveAssignment,
    RenameAssignment,
}

/// What kind of entry an inode is.
#[derive(Clone, Copy, Debug, PartialEq, Eq, Structural)]
pub enum Kind {
    Directory,
    Link,
}

/// The attributes of an entry.
#[derive(Clone, Copy, Debug, PartialEq, Eq, Structural)]
pub struct Attr {
    pub ino: u64,
    pub kind: Kind,
    pub size: u64,
    pub mtime: u64,
}

/// One entry of a directory as the kernel reads it.
pub struct DirEntry {
    pub name: Vec<u8>,
    pub ino: u64,
    pub kind: Kind,
}

/// An entry of a directory as a mathematical value.
pub struct DirEntryView {
    pub name: Seq<u8>,
    pub ino: u64,
    pub kind: Kind,
}

impl View for DirEntry {
    type V = DirEntryView;

    open spec fn view(&self) -> DirEntryView {
        DirEntryView { name: self.name@, ino: self.ino, kind: self.kind }
    }
}

/// The entries of a sequence as mathematical values.
pub open spec fn dir_entries(entries: Seq<DirEntry>) -> Seq<DirEntryView> {
    Seq::new(entries.len(), |i: int| entries[i]@)
}

/// What a callback that may change the store answers, and the store that it
/// leaves.
pub struct Effect {
    pub reply: Result<Option<Operation>, Errno>,
    pub store: StoreView,
}

/// The tag sequence of the parent view: the sequence without its last tag.
pub open spec fn parent_of(tags: Seq<u64>) -> Seq<u64> {
    if tags.len() == 0 {
        tags
    } else {
        tags.drop_last()
    }
}

/// The entries of a directory as the kernel reads them: the current view, the
/// parent view, the tags that narrow the directory, its files.
pub open spec fn entries_of(listing: Listing, tags: Seq<u64>) -> Seq<DirEntryView> {
    seq![
        DirEntryView { name: dot(), ino: directory_inode(tags), kind: Kind::Directory },
        DirEntryView { name: dot_dot(), ino: directory_inode(parent_of(tags)), kind: Kind::Directory },
    ] + Seq::new(
        listing.tags.len() as nat,
        |i: int|
            DirEntryView {
                name: listing.tags[i].name@,
                ino: directory_inode(tags.push(listing.tags[i].id)),
                kind: Kind::Directory,
            },
    ) + Seq::new(
        listing.files.len() as nat,
        |i: int|
            DirEntryView {
                name: listing.files[i].name@,
                ino: file_inode(listing.files[i].id),
                kind: Kind::Link,
            },
    )
}

impl StoreView {
    /// The attributes of what a path names.
    pub open spec fn attributes(self, node: NodeView) -> Attr {
        match node {
            NodeView::Directory { tags } => Attr {
                ino: directory_inode(tags),
                kind: Kind::Directory,
                size: 0,
                mtime: 0,
            },
            NodeView::Leaf { tags, file } => Attr {
                ino: file_inode(file),
                kind: Kind::Link,
                size: self.file(file).size,
                mtime: self.file(file).mtime,
            },
        }
    }

    /// What a name stands for in the directory of a tag sequence: a narrower
    /// directory where it is the name of a tag, else the file that appears
    /// under it, else nothing.
    pub open spec fn child(self, parent: Seq<u64>, name: Seq<u8>) -> Option<NodeView> {
        if self.has_tag_named(name) {
            Some(NodeView::Directory { tags: parent.push(self.tag_named(name).unwrap()) })
        } else if self.has_leaf(parent, name) {
            Some(NodeView::Leaf { tags: parent, file: self.leaf(parent, name) })
        } else {
            None
        }
    }

    /// The store in which a tag of this name exists: the store itself, or
    /// the store with the tag created. A name that cannot be the name of a
    /// tag leaves the tag unknown.
    pub open spec fn with_tag_ensured(self, name: Seq<u8>) -> Result<StoreView, FsError> {
        if self.has_tag_named(name) {
            Ok(self)
        } else {
            match self.create_tag_result(name) {
                Ok(_) => Ok(self.with_tag(name)),
                Err(FsError::StoreError(fault)) => Err(FsError::StoreError(fault)),
                Err(_) => Err(FsError::UnknownTag),
            }
        }
    }

    /// The store in which a tag exists for each of the names, created in the
    /// order of the names where it did not exist.
    pub open spec fn with_tags_ensured(self, names: Seq<Seq<u8>>) -> Result<StoreView, FsError>
        decreases names.len(),
    {
        if names.len() == 0 {
            Ok(self)
        } else {
            match self.with_tags_ensured(names.drop_last()) {
                Ok(s) => s.with_tag_ensured(names.last()),
                Err(e) => Err(e),
            }
        }
    }

    /// The store in which the names are resolved as tags: with tags created
    /// where that is allowed, else the store itself if it knows all of them.
    pub open spec fn tags_resolved(self, names: Seq<Seq<u8>>, create: bool) -> Result<
        StoreView,
        FsError,
    > {
        if create {
            self.with_tags_ensured(names)
        } else if self.all_known(names) {
            Ok(self)
        } else {
            Err(FsError::UnknownTag)
        }
    }

    /// The store without a file that carries no tag, where the policy is not
    /// to track such a file.
    pub open spec fn pruned(self, policy: Policy, file: u64) -> StoreView {
        if policy.prune_untagged && self.has_file(file) && !self.tagged(file) {
            self.without_file(file)
        } else {
            self
        }
    }

    /// What `mkdir` does.
    pub open spec fn mkdir_effect(self, policy: Policy, path: Seq<u8>) -> Effect {
        let segs = segments(path);
        if segs.len() == 0 {
            Effect { reply: Err(Errno::Exists), store: self }
        } else if !self.all_known(segs.drop_last()) {
            Effect { reply: Err(Errno::NoEntry), store: self }
        } else if self.has_tag_named(segs.last()) {
            if policy.reuse_existing_tags {
                Effect { reply: Ok(None), store: self }
            } else {
                Effect { reply: Err(Errno::Exists), store: self }
            }
        } else {
            match self.create_tag_result(segs.last()) {
                Ok(_) => Effect {
                    reply: Ok(Some(Operation::CreateTag)),
                    store: self.with_tag(segs.last()),
                },
                Err(e) => Effect { reply: Err(e.errno_of()), store: self },
            }
        }
    }

    /// What `rmdir` does.
    pub open spec fn rmdir_effect(self, path: Seq<u8>) -> Effect {
        match self.resolution(path) {
            Err(e) => Effect { reply: Err(e.errno_of()), store: self },
            Ok(NodeView::Leaf { .. }) => Effect { reply: Err(Errno::NotDirectory), store: self },
            Ok(NodeView::Directory { tags }) => {
                if tags.len() == 0 {
                    Effect { reply: Err(Errno::Exists), store: self }
                } else {
                    Effect {
                        reply: Ok(Some(Operation::RemoveTag)),
                        store: self.without_tag(tags.last()),
                    }
                }
            },
        }
    }

    /// What `unlink` does.
    pub open spec fn unlink_effect(self, policy: Policy, path: Seq<u8>) -> Effect {
        match self.resolution(path) {
            Err(e) => Effect { reply: Err(e.errno_of()), store: self },
            Ok(NodeView::Directory { .. }) => Effect { reply: Err(Errno::IsDirectory), store: self },
            Ok(NodeView::Leaf { tags, file }) => {
                let detached = if tags.len() == 0 {
                    self.without_tags_of(file)
                } else {
                    self.retagged(file, tags, Seq::empty())
                };
                Effect {
                    reply: Ok(Some(Operation::RemoveAssignment)),
                    store: detached.pruned(policy, file),
                }
            },
        }
    }

    /// What `symlink` does.
    pub open spec fn symlink_effect(
        self,
        policy: Policy,
        real_path: Seq<u8>,
        size: u64,
        mtime: u64,
        link_path: Seq<u8>,
    ) -> Effect {
        let segs = segments(link_path);
        if segs.len() == 0 {
            Effect { reply: Err(Errno::Exists), store: self }
        } else if segs.len() == 1 {
            Effect { reply: Err(Errno::NoEntry), store: self }
        } else {
            let names = segs.drop_last();
            match self.tags_resolved(names, policy.implicit_tags) {
                Err(e) => Effect { reply: Err(e.errno_of()), store: self },
                Ok(s1) => match s1.track_file_result(real_path) {
                    Err(e) => Effect { reply: Err(e.errno_of()), store: self },
                    Ok(file) => {
                        let s2 = if s1.has_file_at(real_path) {
                            s1
                        } else {
                            s1.with_file(real_path, size, mtime)
                        };
                        let ids = s1.ids_of(names);
                        if s2.carries_all(file, ids) {
                            if policy.idempotent_assign {
                                Effect { reply: Ok(None), store: self }
                            } else {
                                Effect { reply: Err(Errno::Exists), store: self }
                            }
                        } else {
                            Effect {
                                reply: Ok(Some(Operation::CreateAssignment)),
                                store: s2.retagged(file, Seq::empty(), ids),
                            }
                        }
                    },
                },
            }
        }
    }

    /// What `rename` does.
    pub open spec fn rename_effect(self, policy: Policy, from: Seq<u8>, to: Seq<u8>) -> Effect {
        match self.resolution(from) {
            Err(e) => Effect { reply: Err(e.errno_of()), store: self },
            Ok(NodeView::Directory { .. }) => Effect { reply: Err(Errno::IsDirectory), store: self },
            Ok(NodeView::Leaf { tags, file }) => {
                let segs = segments(to);
                if segs.len() == 0 {
                    Effect { reply: Err(Errno::Exists), store: self }
                } else if self.has_tag_named(segs.last()) {
                    Effect { reply: Err(Errno::IsDirectory), store: self }
                } else {
                    let names = segs.drop_last();
                    match self.tags_resolved(names, policy.implicit_tags) {
                        Err(e) => Effect { reply: Err(e.errno_of()), store: self },
                        Ok(s1) => Effect {
                            reply: Ok(Some(Operation::RenameAssignment)),
                            store: s1.retagged(file, tags, s1.ids_of(names)).pruned(policy, file),
                        },
                    }
                }
            },
        }
    }
}

/// The attributes of what a path names: those of a directory for a tag
/// sequence, those of a link, with the size and the time that the store has
/// recorded, for a file.
pub fn getattr(store: &Store, path: &[u8]) -> (r: Result<Attr, Errno>)
    requires
        store.wf(),
    ensures
        r == match store@.resolution(path@) {
            Ok(node) => Ok::<Attr, Errno>(store@.attributes(node)),
            Err(e) => Err::<Attr, Errno>(e.errno_of()),
        },
{
    match resolve_path(store, path) {
        Ok(node) => Ok(attributes_of(store, &node)),
        Err(e) => Err(e.errno()),
    }
}

/// The attributes of a directory or of a file that was resolved before. A
/// file that is no longer tracked keeps its inode number and has neither size
/// nor time.
pub fn attributes_of(store: &Store, node: &Node) -> (attr: Attr)
    requires
        store.wf(),
    ensures
        attr == if node@ is Leaf && !store@.has_file(node@->file) {
            Attr { ino: inode(node@), kind: Kind::Link, size: 0, mtime: 0 }
        } else {
            store@.attributes(node@)
        },
{
    match node {
        Node::Directory { tags } => Attr {
            ino: directory_inode_of(tags.as_slice()),
            kind: Kind::Directory,
            size: 0,
            mtime: 0,
        },
        Node::Leaf { tags, file } => {
            match store.file(*file) {
                Some(row) => Attr {
                    ino: file_inode_of(*file),
                    kind: Kind::Link,
                    size: row.size,
                    mtime: row.mtime,
                },
                None => Attr { ino: file_inode_of(*file), kind: Kind::Link, size: 0, mtime: 0 },
            }
        },
    }
}

/// Resolves one more segment below a directory that was resolved before:
/// the narrower directory where the name is that of a tag, else the file that
/// appears in the directory under the name. Where the name is neither, there
/// is no such entry.
pub fn lookup(store: &Store, parent: &[u64], name: &[u8]) -> (r: Result<Node, Errno>)
    requires
        store.wf(),
    ensures
        match store@.child(parent@, name@) {
            Some(node) => r matches Ok(found) && found@ == node,
            None => r matches Err(e) && e == Errno::NoEntry,
        },
{
    match store.tag_id(name) {
        Some(tag) => {
            let mut tags = copy_ids(parent);
            tags.push(tag);
            Ok(Node::Directory { tags })
        },
        None => {
            match leaf_named(store, parent, name) {
                Some(file) => Ok(Node::Leaf { tags: copy_ids(parent), file }),
                None => Err(Errno::NoEntry),
            }
        },
    }
}

/// Lists the directory that a path names. A path that names a file is not a
/// directory.
pub fn readdir(store: &Store, path: &[u8]) -> (r: Result<Listing, Errno>)
    requires
        store.wf(),
    ensures
        match store@.resolution(path@) {
            Ok(NodeView::Directory { tags }) => r matches Ok(listing) && listing.lists(store@, tags),
            Ok(NodeView::Leaf { .. }) => r matches Err(e) && e == Errno::NotDirectory,
            Err(cause) => r matches Err(e) && e == cause.errno_of(),
        },
{
    match resolve_path(store, path) {
        Ok(Node::Directory { tags }) => Ok(list_directory(store, tags.as_slice())),
        Ok(Node::Leaf { .. }) => Err(Errno::NotDirectory),
        Err(e) => Err(e.errno()),
    }
}

/// The entries of a listing from an offset on, as the kernel reads them: a
/// read that was cut short is taken up again at the offset where it stopped.
pub fn read_entries(listing: &Listing, tags: &[u64], offset: usize) -> (entries: Vec<DirEntry>)
    ensures
        dir_entries(entries@) == if offset <= entries_of(*listing, tags@).len() {
            entries_of(*listing, tags@).skip(offset as int)
        } else {
            Seq::<DirEntryView>::empty()
        },
{
    let ghost want = entries_of(*listing, tags@);
    let mut all: Vec<DirEntry> = Vec::new();
    let mut one: Vec<u8> = Vec::new();
    one.push(DOT);
    let mut two: Vec<u8> = Vec::new();
    two.push(DOT);
    two.push(DOT);
    assert(one@ =~= dot());
    assert(two@ =~= dot_dot());
    let mut parent = copy_ids(tags);
    parent.pop();
    assert(parent@ =~= parent_of(tags@));
    all.push(DirEntry { name: one, ino: directory_inode_of(tags), kind: Kind::Directory });
    all.push(
        DirEntry { name: two, ino: directory_inode_of(parent.as_slice()), kind: Kind::Directory },
    );
    let mut i: usize = 0;
    while i < listing.tags.len()
        invariant
            i <= listing.tags.len(),
            want == entries_of(*listing, tags@),
            all.len() == 2 + i,
            forall|k: int| 0 <= k < all.len() ==> (#[trigger] all[k])@ == want[k],
        decreases listing.tags.len() - i,
    {
        let entry = &listing.tags[i];
        let mut narrower = copy_ids(tags);
        narrower.push(entry.id);
        all.push(
            DirEntry {
                name: copy_bytes(entry.name.as_slice()),
                ino: directory_inode_of(narrower.as_slice()),
                kind: Kind::Directory,
            },
        );
        i += 1;
    }
    let mut j: usize = 0;
    while j < listing.files.len()
        invariant
            j <= listing.files.len(),
            want == entries_of(*listing, tags@),
            all.len() == 2 + listing.tags.len() + j,
            forall|k: int| 0 <= k < all.len() ==> (#[trigger] all[k])@ == want[k],
        decreases listing.files.len() - j,
    {
        let entry = &listing.files[j];
        all.push(
            DirEntry {
                name: copy_bytes(entry.name.as_slice()),
                ino: file_inode_of(entry.id),
                kind: Kind::Link,
            },
        );
        j += 1;
    }
    assert(dir_entries(all@) =~= want);
    let mut out: Vec<DirEntry> = Vec::new();
    let mut k: usize = offset;
    while k < all.len()
        invariant
            offset <= k,
            k <= all.len() || offset > all.len(),
            offset <= all.len() ==> dir_entries(out@) == dir_entries(all@).subrange(
                offset as int,
                k as int,
            ),
            offset > all.len() ==> out@.len() == 0,
        decreases all.len() - k,
    {
        let entry = &all[k];
        let ghost before = dir_entries(out@);
        out.push(
            DirEntry { name: copy_bytes(entry.name.as_slice()), ino: entry.ino, kind: entry.kind },
        );
        k += 1;
        assert(dir_entries(out@) =~= before.push(all[k - 1]@));
        assert(dir_entries(out@) =~= dir_entries(all@).subrange(offset as int, k as int));
    }
    proof {
        if offset <= all.len() {
            assert(dir_entries(out@) =~= want.skip(offset as int));
        } else {
            assert(dir_entries(out@) =~= Seq::<DirEntryView>::empty());
        }
    }
    out
}

/// The real path behind a leaf, to which reads are handed on. A directory
/// cannot be opened as a file.
pub fn open(store: &Store, path: &[u8]) -> (r: Result<Vec<u8>, Errno>)
    requires
        store.wf(),
    ensures
        match store@.resolution(path@) {
            Ok(NodeView::Leaf { tags, file }) => r matches Ok(target) && target@ == store@.file(
                file,
            ).real_path,
            Ok(NodeView::Directory { .. }) => r matches Err(e) && e == Errno::IsDirectory,
            Err(cause) => r matches Err(e) && e == cause.errno_of(),
        },
{
    match resolve_path(store, path) {
        Ok(Node::Leaf { tags, file }) => {
            match store.file(file) {
                Some(row) => Ok(copy_bytes(row.real_path.as_slice())),
                None => Err(Errno::NoEntry),
            }
        },
        Ok(Node::Directory { .. }) => Err(Errno::IsDirectory),
        Err(e) => Err(e.errno()),
    }
}

/// The target of a leaf read as a symbolic link: the real path of its file.
pub fn readlink(store: &Store, path: &[u8]) -> (r: Result<Vec<u8>, Errno>)
    requires
        store.wf(),
    ensures
        match store@.resolution(path@) {
            Ok(NodeView::Leaf { tags, file }) => r matches Ok(target) && target@ == store@.file(
                file,
            ).real_path,
            Ok(NodeView::Directory { .. }) => r matches Err(e) && e == Errno::IsDirectory,
            Err(cause) => r matches Err(e) && e == cause.errno_of(),
        },
{
    open(store, path)
}

/// Ensuring one tag keeps the store well formed, keeps its files and its
/// assignments, and keeps every tag that it had, under its id and its name.
pub proof fn lemma_tag_ensured(s: StoreView, name: Seq<u8>)
    requires
        s.wf(),
        s.with_tag_ensured(name).is_ok(),
    ensures
        ({
            let t = s.with_tag_ensured(name).unwrap();
            &&& t.wf()
            &&& t.files == s.files
            &&& t.assignments == s.assignments
            &&& t.schema_version == s.schema_version
            &&& t.next_file_id == s.next_file_id
            &&& t.has_tag_named(name)
            &&& forall|n: Seq<u8>| #[trigger]
                s.has_tag_named(n) ==> t.has_tag_named(n) && t.tag_named(n) == s.tag_named(n)
            &&& forall|id: u64| #[trigger] s.has_tag(id) ==> t.has_tag(id)
        }),
{
    let t = s.with_tag_ensured(name).unwrap();
    if !s.has_tag_named(name) {
        let row = TagView { id: s.next_tag_id, name };
        assert(t.tags == s.tags.push(row));
        assert(t.tags[s.tags.len() as int] == row);
        assert forall|i: int| 0 <= i < s.tags.len() implies #[trigger] t.tags[i] == s.tags[i] by {}
        assert forall|i: int, j: int| 0 <= i < j < t.tags.len() implies (#[trigger] t.tags[i]).id
            < (#[trigger] t.tags[j]).id && t.tags[i].name != t.tags[j].name by {
            assert(t.tags[i] == s.tags[i]);
            if j < s.tags.len() {
                assert(t.tags[j] == s.tags[j]);
            }
        }
        assert forall|i: int| 0 <= i < t.tags.len() implies 0 < (#[trigger] t.tags[i]).id
            < t.next_tag_id && tag_name_ok(t.tags[i].name) by {
            if i < s.tags.len() {
                assert(t.tags[i] == s.tags[i]);
            }
        }
        assert forall|id: u64| #[trigger] s.has_tag(id) implies t.has_tag(id) by {
            let k = s.tag_index(id);
            assert(t.tags[k] == s.tags[k]);
        }
        assert forall|p: (u64, u64)| #[trigger] t.assignments.contains(p) implies t.has_file(p.0)
            && t.has_tag(p.1) by {
            assert(s.assignments.contains(p));
            assert(s.has_file(p.0));
            let f = s.file_index(p.0);
            assert(t.files[f] == s.files[f]);
            assert(s.has_tag(p.1));
        }
        assert forall|n: Seq<u8>| #[trigger] s.has_tag_named(n) implies t.has_tag_named(n)
            && t.tag_named(n) == s.tag_named(n) by {
            let k = choose|k: int| 0 <= k < s.tags.len() && (#[trigger] s.tags[k]).name == n;
            assert(t.tags[k] == s.tags[k]);
            lemma_tag_index(s, k);
            lemma_tag_index(t, k);
        }
    }
}

/// Ensuring tags keeps the store well formed, keeps its files and its
/// assignments, keeps every tag that it had, and makes each of the names the
/// name of a tag.
pub proof fn lemma_tags_ensured(s: StoreView, names: Seq<Seq<u8>>)
    requires
        s.wf(),
        s.with_tags_ensured(names).is_ok(),
    ensures
        ({
            let t = s.with_tags_ensured(names).unwrap();
            &&& t.wf()
            &&& t.files == s.files
            &&& t.assignments == s.assignments
            &&& t.schema_version == s.schema_version
            &&& t.next_file_id == s.next_file_id
            &&& t.all_known(names)
            &&& forall|n: Seq<u8>| #[trigger]
                s.has_tag_named(n) ==> t.has_tag_named(n) && t.tag_named(n) == s.tag_named(n)
            &&& forall|id: u64| #[trigger] s.has_tag(id) ==> t.has_tag(id)
        }),
    decreases names.len(),
{
    if names.len() > 0 {
        let head = names.drop_last();
        lemma_tags_ensured(s, head);
        let m = s.with_tags_ensured(head).unwrap();
        lemma_tag_ensured(m, names.last());
        let t = s.with_tags_ensured(names).unwrap();
        assert forall|k: int| 0 <= k < names.len() implies t.has_tag_named(#[trigger] names[k]) by {
            if k < head.len() {
                assert(m.has_tag_named(head[k]));
            }
        }
    }
}

/// Once a name cannot be ensured, the names after it do not matter.
pub proof fn lemma_ensure_error_sticks(s: StoreView, names: Seq<Seq<u8>>, k: int)
    requires
        0 <= k <= names.len(),
        s.with_tags_ensured(names.take(k)).is_err(),
    ensures
        s.with_tags_ensured(names) == s.with_tags_ensured(names.take(k)),
    decreases names.len(),
{
    if k == names.len() {
        assert(names.take(k) =~= names);
    } else {
        let head = names.drop_last();
        assert(head.take(k) =~= names.take(k));
        lemma_ensure_error_sticks(s, head, k);
    }
}

/// Resolves names as tags, creating the tags that do not exist where that is
/// allowed. The store changes only on success.
pub fn ensure_tags(store: &mut Store, names: &Vec<Vec<u8>>, create: bool) -> (r: Result<
    Vec<u64>,
    FsError,
>)
    requires
        old(store).wf(),
    ensures
        final(store).wf(),
        match old(store)@.tags_resolved(views(names@), create) {
            Ok(s) => r matches Ok(ids) && final(store)@ == s && ids@ == s.ids_of(views(names@))
                && s.all_known(views(names@)),
            Err(cause) => r matches Err(e) && e == cause && final(store)@ == old(store)@,
        },
{
    if !create {
        return match tag_ids(store, names) {
            Some(ids) => Ok(ids),
            None => Err(FsError::UnknownTag),
        };
    }
    let saved = store.snapshot();
    let ghost all = views(names@);
    let mut i: usize = 0;
    assert(all.take(0) =~= Seq::<Seq<u8>>::empty());
    while i < names.len()
        invariant
            i <= names.len(),
            create,
            all == views(names@),
            store.wf(),
            saved.wf(),
            saved@ == old(store)@,
            old(store)@.with_tags_ensured(all.take(i as int)) == Ok::<StoreView, FsError>(store@),
        decreases names.len() - i,
    {
        proof {
            assert(all.take(i as int + 1).drop_last() =~= all.take(i as int));
            assert(all.take(i as int + 1).last() == names[i as int]@);
        }
        if store.tag_id(names[i].as_slice()).is_none() {
            match store.create_tag(names[i].as_slice()) {
                Ok(_) => {},
                Err(e) => {
                    proof {
                        let upto = all.take(i as int + 1);
                        assert(old(store)@.with_tags_ensured(upto.drop_last()) == Ok::<
                            StoreView,
                            FsError,
                        >(store@));
                        assert(old(store)@.with_tags_ensured(upto) == store@.with_tag_ensured(
                            upto.last(),
                        ));
                        assert(store@.with_tag_ensured(upto.last()).is_err());
                        lemma_ensure_error_sticks(old(store)@, all, i as int + 1);
                    }
                    let cause = match e {
                        FsError::StoreError(fault) => FsError::StoreError(fault),
                        _ => FsError::UnknownTag,
                    };
                    *store = saved;
                    return Err(cause);
                },
            }
        }
        i += 1;
    }
    proof {
        assert(all.take(names.len() as int) =~= all);
        lemma_tags_ensured(old(store)@, all);
    }
    match tag_ids(store, names) {
        Some(ids) => Ok(ids),
        None => {
            *store = saved;
            Err(FsError::UnknownTag)
        },
    }
}

/// Gives a file every tag of a sequence that it does not carry yet.
fn attach_all(store: &mut Store, file: u64, tags: &Vec<u64>)
    requires
        old(store).wf(),
        old(store)@.has_file(file),
        forall|k: int| 0 <= k < tags.len() ==> old(store)@.has_tag(#[trigger] tags[k]),
    ensures
        final(store).wf(),
        final(store)@ == old(store)@.retagged(file, Seq::empty(), tags@),
{
    let mut i: usize = 0;
    proof {
        assert(store@.assignments =~= old(store)@.retagged(
            file,
            Seq::empty(),
            tags@.take(0),
        ).assignments);
    }
    while i < tags.len()
        invariant
            i <= tags.len(),
            store.wf(),
            store@ == old(store)@.retagged(file, Seq::empty(), tags@.take(i as int)),
            old(store)@.has_file(file),
            forall|k: int| 0 <= k < tags.len() ==> old(store)@.has_tag(#[trigger] tags[k]),
        decreases tags.len() - i,
    {
        let ghost before = store@;
        proof {
            lemma_same_tables(old(store)@, before);
        }
        let done = store.assign(file, tags[i]);
        i += 1;
        proof {
            let want = old(store)@.retagged(file, Seq::empty(), tags@.take(i as int));
            assert forall|p: (u64, u64)| store@.assignments.contains(p)
                <==> want.assignments.contains(p) by {
                let prev = tags@.take(i - 1);
                let cur = tags@.take(i as int);
                if p.0 == file && cur.contains(p.1) {
                    let k = choose|k: int| 0 <= k < cur.len() && cur[k] == p.1;
                    if k < i - 1 {
                        assert(prev[k] == p.1);
                    }
                }
                if p.0 == file && prev.contains(p.1) {
                    let k = choose|k: int| 0 <= k < prev.len() && prev[k] == p.1;
                    assert(cur[k] == p.1);
                }
                if p == (file, tags[i - 1]) {
                    assert(cur[i - 1] == p.1);
                }
            }
            assert(store@.assignments =~= want.assignments);
        }
    }
    assert(tags@.take(tags.len() as int) =~= tags@);
}

/// Takes from a file every tag of a sequence that it carries.
fn detach_all(store: &mut Store, file: u64, tags: &Vec<u64>)
    requires
        old(store).wf(),
    ensures
        final(store).wf(),
        final(store)@ == old(store)@.retagged(file, tags@, Seq::empty()),
{
    let mut i: usize = 0;
    proof {
        assert(store@.assignments =~= old(store)@.retagged(
            file,
            tags@.take(0),
            Seq::empty(),
        ).assignments);
    }
    while i < tags.len()
        invariant
            i <= tags.len(),
            store.wf(),
            store@ == old(store)@.retagged(file, tags@.take(i as int), Seq::empty()),
        decreases tags.len() - i,
    {
        let done = store.unassign(file, tags[i]);
        i += 1;
        proof {
            let want = old(store)@.retagged(file, tags@.take(i as int), Seq::empty());
            assert forall|p: (u64, u64)| store@.assignments.contains(p)
                <==> want.assignments.contains(p) by {
                let prev = tags@.take(i - 1);
                let cur = tags@.take(i as int);
                if p.0 == file && cur.contains(p.1) {
                    let k = choose|k: int| 0 <= k < cur.len() && cur[k] == p.1;
                    if k < i - 1 {
                        assert(prev[k] == p.1);
                    }
                }
                if p.0 == file && prev.contains(p.1) {
                    let k = choose|k: int| 0 <= k < prev.len() && prev[k] == p.1;
                    assert(cur[k] == p.1);
                }
                if p == (file, tags[i - 1]) {
                    assert(cur[i - 1] == p.1);
                }
            }
            assert(store@.assignments =~= want.assignments);
        }
    }
    assert(tags@.take(tags.len() as int) =~= tags@);
}

/// Stops tracking a file that carries no tag, where the policy says so.
fn prune(store: &mut Store, policy: &Policy, file: u64)
    requires
        old(store).wf(),
    ensures
        final(store).wf(),
        final(store)@ == old(store)@.pruned(*policy, file),
{
    if policy.prune_untagged && !is_tagged(store, file) {
        let done = store.forget_file(file);
    }
}

/// Makes a directory: creates the tag that the last segment of the path
/// names. The segments before it must name tags. Where the tag exists, the
/// policy decides between success without a change and `Exists`.
pub fn mkdir(store: &mut Store, policy: &Policy, path: &[u8]) -> (r: Result<
    Option<Operation>,
    Errno,
>)
    requires
        old(store).wf(),
    ensures
        final(store).wf(),
        r == old(store)@.mkdir_effect(*policy, path@).reply,
        final(store)@ == old(store)@.mkdir_effect(*policy, path@).store,
{
    let mut segs = split_path(path);
    let ghost all = views(segs@);
    let last = match segs.pop() {
        Some(last) => last,
        None => {
            return Err(Errno::Exists);
        },
    };
    proof {
        assert(views(segs@) =~= all.drop_last());
        assert(last@ == all.last());
    }
    if tag_ids(store, &segs).is_none() {
        return Err(Errno::NoEntry);
    }
    if store.tag_id(last.as_slice()).is_some() {
        return if policy.reuse_existing_tags {
            Ok(None)
        } else {
            Err(Errno::Exists)
        };
    }
    match store.create_tag(last.as_slice()) {
        Ok(_) => Ok(Some(Operation::CreateTag)),
        Err(e) => Err(e.errno()),
    }
}

/// Removes a directory: removes the tag that the path ends in, and with it
/// every assignment of that tag. No file is touched. The root cannot be
/// removed.
pub fn rmdir(store: &mut Store, path: &[u8]) -> (r: Result<Option<Operation>, Errno>)
    requires
        old(store).wf(),
    ensures
        final(store).wf(),
        r == old(store)@.rmdir_effect(path@).reply,
        final(store)@ == old(store)@.rmdir_effect(path@).store,
{
    match resolve_path(store, path) {
        Err(e) => Err(e.errno()),
        Ok(Node::Leaf { .. }) => Err(Errno::NotDirectory),
        Ok(Node::Directory { tags }) => {
            if tags.len() == 0 {
                return Err(Errno::Exists);
            }
            let last = tags[tags.len() - 1];
            proof {
                // The last segment of the path names the tag.
                let segs = segments(path@);
                assert(store@.has_tag_named(segs.last()));
                let k = choose|k: int|
                    0 <= k < store@.tags.len() && (#[trigger] store@.tags[k]).name == segs.last();
                lemma_tag_index(store@, k);
                assert(store@.ids_of(segs)[segs.len() - 1] == store@.tags[k].id);
            }
            match store.remove_tag(last) {
                Ok(()) => Ok(Some(Operation::RemoveTag)),
                Err(e) => Err(e.errno()),
            }
        },
    }
}

/// Removes a leaf: takes from its file every tag on the path, so that the
/// file leaves the directory. At the root, where a file appears for any tag,
/// the file loses all its tags. The underlying file is not touched.
pub fn unlink(store: &mut Store, policy: &Policy, path: &[u8]) -> (r: Result<
    Option<Operation>,
    Errno,
>)
    requires
        old(store).wf(),
    ensures
        final(store).wf(),
        r == old(store)@.unlink_effect(*policy, path@).reply,
        final(store)@ == old(store)@.unlink_effect(*policy, path@).store,
{
    match resolve_path(store, path) {
        Err(e) => Err(e.errno()),
        Ok(Node::Directory { .. }) => Err(Errno::IsDirectory),
        Ok(Node::Leaf { tags, file }) => {
            if tags.len() == 0 {
                store.untag(file);
            } else {
                detach_all(store, file, &tags);
            }
            prune(store, policy, file);
            Ok(Some(Operation::RemoveAssignment))
        },
    }
}

/// Links a real file into a directory: the file is tracked, if it was not,
/// and gets every tag on the path of the link. The last segment of the path
/// is the name of the link; the store derives the name under which the file
/// appears from its real path. A link in the root names no tag and is
/// refused as `NoEntry`. Where the file is in the directory already, the
/// policy decides between success without a change and `Exists`. The store
/// changes only on success.
pub fn symlink(
    store: &mut Store,
    policy: &Policy,
    real_path: &[u8],
    size: u64,
    mtime: u64,
    link_path: &[u8],
) -> (r: Result<Option<Operation>, Errno>)
    requires
        old(store).wf(),
    ensures
        final(store).wf(),
        r == old(store)@.symlink_effect(*policy, real_path@, size, mtime, link_path@).reply,
        final(store)@ == old(store)@.symlink_effect(
            *policy,
            real_path@,
            size,
            mtime,
            link_path@,
        ).store,
{
    let mut segs = split_path(link_path);
    let ghost all = views(segs@);
    match segs.pop() {
        Some(_) => {},
        None => {
            return Err(Errno::Exists);
        },
    }
    proof {
        assert(views(segs@) =~= all.drop_last());
    }
    if segs.len() == 0 {
        return Err(Errno::NoEntry);
    }
    let saved = store.snapshot();
    let ids = match ensure_tags(store, &segs, policy.implicit_tags) {
        Ok(ids) => ids,
        Err(e) => {
            return Err(e.errno());
        },
    };
    let ghost s1 = store@;
    proof {
        if policy.implicit_tags {
            lemma_tags_ensured(old(store)@, views(segs@));
        }
    }
    let file = match store.track_file(real_path, size, mtime) {
        Ok(file) => file,
        Err(e) => {
            *store = saved;
            return Err(e.errno());
        },
    };
    if carries_all(store, file, ids.as_slice()) {
        *store = saved;
        return if policy.idempotent_assign {
            Ok(None)
        } else {
            Err(Errno::Exists)
        };
    }
    proof {
        let s2 = store@;
        // The file is tracked, and every id is that of a tag.
        if s1.has_file_at(real_path@) {
            let k = choose|k: int|
                0 <= k < s1.files.len() && (#[trigger] s1.files[k]).real_path == real_path@;
            assert(s1.files[k].id == file);
        } else {
            assert(s2.files[s1.files.len() as int].id == file);
        }
        assert forall|k: int| 0 <= k < ids.len() implies s2.has_tag(#[trigger] ids[k]) by {
            let n = views(segs@)[k];
            assert(s1.has_tag_named(n));
            let r = choose|r: int| 0 <= r < s1.tags.len() && (#[trigger] s1.tags[r]).name == n;
            lemma_tag_index(s1, r);
            assert(s2.tags[r] == s1.tags[r]);
        }
    }
    attach_all(store, file, &ids);
    Ok(Some(Operation::CreateAssignment))
}

/// Moves a leaf from one directory to another: its file loses the tags on
/// the old path and gets the tags on the new one, in one step. The last
/// segment of the new path is the name of the leaf there and may not be the
/// name of a tag. Whatever fails, the store is left as it was.
pub fn rename(store: &mut Store, policy: &Policy, from: &[u8], to: &[u8]) -> (r: Result<
    Option<Operation>,
    Errno,
>)
    requires
        old(store).wf(),
    ensures
        final(store).wf(),
        r == old(store)@.rename_effect(*policy, from@, to@).reply,
        final(store)@ == old(store)@.rename_effect(*policy, from@, to@).store,
{
    let (old_tags, file) = match resolve_path(store, from) {
        Err(e) => {
            return Err(e.errno());
        },
        Ok(Node::Directory { .. }) => {
            return Err(Errno::IsDirectory);
        },
        Ok(Node::Leaf { tags, file }) => (tags, file),
    };
    let mut segs = split_path(to);
    let ghost all = views(segs@);
    let last = match segs.pop() {
        Some(last) => last,
        None => {
            return Err(Errno::Exists);
        },
    };
    proof {
        assert(views(segs@) =~= all.drop_last());
        assert(last@ == all.last());
    }
    if store.tag_id(last.as_slice()).is_some() {
        return Err(Errno::IsDirectory);
    }
    let new_tags = match ensure_tags(store, &segs, policy.implicit_tags) {
        Ok(ids) => ids,
        Err(e) => {
            return Err(e.errno());
        },
    };
    let ghost s1 = store@;
    proof {
        if policy.implicit_tags {
            lemma_tags_ensured(old(store)@, views(segs@));
        }
        lemma_same_tables(
            StoreView { tags: old(store)@.tags, ..s1 },
            StoreView { files: s1.files, ..old(store)@ },
        );
        assert(s1.has_file(file));
    }
    detach_all(store, file, &old_tags);
    proof {
        let s2 = store@;
        lemma_same_tables(s1, s2);
        assert forall|k: int| 0 <= k < new_tags.len() implies s2.has_tag(#[trigger] new_tags[k]) by {
            let n = views(segs@)[k];
            assert(s1.has_tag_named(n));
            let r = choose|r: int| 0 <= r < s1.tags.len() && (#[trigger] s1.tags[r]).name == n;
            lemma_tag_index(s1, r);
        }
    }
    attach_all(store, file, &new_tags);
    proof {
        assert(store@.assignments =~= s1.retagged(file, old_tags@, new_tags@).assignments);
    }
    prune(store, policy, file);
    Ok(Some(Operation::RenameAssignment))
}

/// A callback that fails leaves the store exactly as it was, and so does one
/// that succeeds without reporting a change: no part of a rename, of a link
/// or of any other change is ever to be seen alone.
pub proof fn lemma_all_or_nothing(
    s: StoreView,
    policy: Policy,
    path: Seq<u8>,
    other: Seq<u8>,
    size: u64,
    mtime: u64,
)
    ensures
        !(s.rename_effect(policy, path, other).reply matches Ok(Some(_))) ==> s.rename_effect(
            policy,
            path,
            other,
        ).store == s,
        !(s.symlink_effect(policy, other, size, mtime, path).reply matches Ok(Some(_)))
            ==> s.symlink_effect(policy, other, size, mtime, path).store == s,
        !(s.unlink_effect(policy, path).reply matches Ok(Some(_))) ==> s.unlink_effect(
            policy,
            path,
        ).store == s,
        !(s.mkdir_effect(policy, path).reply matches Ok(Some(_))) ==> s.mkdir_effect(
            policy,
            path,
        ).store == s,
        !(s.rmdir_effect(path).reply matches Ok(Some(_))) ==> s.rmdir_effect(path).store == s,
{
}

/// No callback stops tracking a file unless the policy is to forget files
/// without a tag: removing a directory, removing a leaf and moving a leaf
/// change tags and assignments, never the table of files.
pub proof fn lemma_files_are_kept(s: StoreView, policy: Policy, path: Seq<u8>, other: Seq<u8>)
    requires
        s.wf(),
        !policy.prune_untagged,
    ensures
        s.mkdir_effect(policy, path).store.files == s.files,
        s.rmdir_effect(path).store.files == s.files,
        s.unlink_effect(policy, path).store.files == s.files,
        s.rename_effect(policy, path, other).store.files == s.files,
{
    let names = segments(other).drop_last();
    if policy.implicit_tags && s.with_tags_ensured(names).is_ok() {
        lemma_tags_ensured(s, names);
    }
}

/// The names of the entries that the kernel reads are the names of the
/// listing, in the same order.
pub proof fn lemma_entries_carry_the_names(listing: Listing, tags: Seq<u64>)
    ensures
        entries_of(listing, tags).len() == listing.all_names().len(),
        forall|i: int|
            0 <= i < listing.all_names().len() ==> (#[trigger] entries_of(listing, tags)[i]).name
                == listing.all_names()[i],
{
}

/// Resolving a path is looking its last segment up in the directory of the
/// segments before it.
pub proof fn lemma_resolution_is_lookup(s: StoreView, path: Seq<u8>)
    requires
        segments(path).len() > 0,
        s.all_known(segments(path).drop_last()),
    ensures
        s.resolution(path) == match s.child(
            s.ids_of(segments(path).drop_last()),
            segments(path).last(),
        ) {
            Some(node) => Ok::<NodeView, FsError>(node),
            None => Err::<NodeView, FsError>(FsError::NoSuchEntry),
        },
{
    let segs = segments(path);
    if s.has_tag_named(segs.last()) {
        assert(s.ids_of(segs) =~= s.ids_of(segs.drop_last()).push(
            s.tag_named(segs.last()).unwrap(),
        ));
    }
}

/// What a directory lists can be looked up in it: the name of a listed tag
/// leads to the directory that the tag narrows it to, the name of a listed
/// file leads to that file. And a file that a name leads to is listed.
pub proof fn lemma_listed_entries_resolve(s: StoreView, tags: Seq<u64>, listing: Listing)
    requires
        s.wf(),
        listing.lists(s, tags),
    ensures
        forall|k: int|
            0 <= k < listing.tags.len() ==> s.child(tags, (#[trigger] listing.tags[k]).name@)
                == Some(NodeView::Directory { tags: tags.push(listing.tags[k].id) }),
        forall|k: int|
            0 <= k < listing.files.len() ==> s.child(tags, (#[trigger] listing.files[k]).name@)
                == Some(NodeView::Leaf { tags, file: listing.files[k].id }),
        forall|name: Seq<u8>| #[trigger]
            s.has_leaf(tags, name) ==> entry_ids(listing.files@).contains(s.leaf(tags, name)),
{
    let tag_ids = entry_ids(listing.tags@);
    let file_ids = entry_ids(listing.files@);
    assert forall|k: int| 0 <= k < listing.tags.len() implies s.child(
        tags,
        (#[trigger] listing.tags[k]).name@,
    ) == Some(NodeView::Directory { tags: tags.push(listing.tags[k].id) }) by {
        let t = listing.tags[k].id;
        assert(tag_ids[k] == t);
        assert(tag_ids.contains(t));
        assert(s.narrows(tags, t));
        lemma_tag_index(s, s.tag_index(t));
    }
    assert forall|k: int| 0 <= k < listing.files.len() implies s.child(
        tags,
        (#[trigger] listing.files[k]).name@,
    ) == Some(NodeView::Leaf { tags, file: listing.files[k].id }) by {
        let f = listing.files[k].id;
        let name = listing.files[k].name@;
        assert(file_ids[k] == f);
        assert(file_ids.contains(f));
        assert(s.visible(tags, f));
        lemma_leaf_name_is_free(s, tags, f);
        assert(s.has_leaf(tags, name));
        let found = s.leaf(tags, name);
        if found != f {
            lemma_leaf_names_distinct(s, tags, found, f);
        }
    }
    assert forall|name: Seq<u8>| #[trigger] s.has_leaf(tags, name) implies file_ids.contains(
        s.leaf(tags, name),
    ) by {
        assert(s.visible(tags, s.leaf(tags, name)));
    }
}

/// A link shows: once a file was linked into a directory, it is in that
/// directory, whatever the order in which the tags of the directory are
/// named.
pub proof fn lemma_linked_file_is_visible(
    s: StoreView,
    policy: Policy,
    real_path: Seq<u8>,
    size: u64,
    mtime: u64,
    link_path: Seq<u8>,
)
    requires
        s.wf(),
        s.symlink_effect(policy, real_path, size, mtime, link_path).reply matches Ok(Some(_)),
    ensures
        ({
            let after = s.symlink_effect(policy, real_path, size, mtime, link_path).store;
            let names = segments(link_path).drop_last();
            &&& after.all_known(names)
            &&& after.file_at(real_path) matches Some(file) && after.visible(
                after.ids_of(names),
                file,
            )
        }),
{
    let names = segments(link_path).drop_last();
    let s1 = s.tags_resolved(names, policy.implicit_tags).unwrap();
    if policy.implicit_tags {
        lemma_tags_ensured(s, names);
    }
    let file = s1.track_file_result(real_path).unwrap();
    let s2 = if s1.has_file_at(real_path) {
        s1
    } else {
        s1.with_file(real_path, size, mtime)
    };
    let ids = s1.ids_of(names);
    let after = s2.retagged(file, Seq::empty(), ids);
    lemma_same_tables(s2, after);
    lemma_same_tables(
        StoreView { files: s1.files, ..s2 },
        StoreView { tags: s2.tags, ..s1 },
    );
    assert(after.ids_of(names) =~= ids);
    // The file stands in the table under its path.
    if s1.has_file_at(real_path) {
        let k = choose|k: int|
            0 <= k < s1.files.len() && (#[trigger] s1.files[k]).real_path == real_path;
        assert(s2.files[k].id == file);
    } else {
        let n = s1.files.len() as int;
        assert(s2.files[n].real_path == real_path);
        assert(s2.files[n].id == file);
        let c = choose|c: int|
            0 <= c < s2.files.len() && (#[trigger] s2.files[c]).real_path == real_path;
        if c < n {
            assert(s2.files[c] == s1.files[c]);
        }
    }
    assert(after.has_file(file));
    assert forall|k: int| 0 <= k < ids.len() implies after.assigned(file, #[trigger] ids[k]) by {
        assert(ids.contains(ids[k]));
    }
    assert(ids.len() > 0);
    assert(after.assigned(file, ids[0]));
}

/// An unlinked leaf is gone: once a leaf was removed from a directory, its
/// file is not in that directory, and no other file has lost a tag.
pub proof fn lemma_unlinked_file_is_gone(s: StoreView, policy: Policy, path: Seq<u8>)
    requires
        s.wf(),
        s.unlink_effect(policy, path).reply.is_ok(),
    ensures
        s.resolution(path) matches Ok(NodeView::Leaf { tags, file }) && !s.unlink_effect(
            policy,
            path,
        ).store.visible(tags, file),
        forall|f: u64, t: u64|
            s.resolution(path) matches Ok(NodeView::Leaf { file, .. }) && f != file ==> (
            #[trigger] s.unlink_effect(policy, path).store.assigned(f, t)) == s.assigned(f, t),
{
    let tags = s.resolution(path).unwrap()->Leaf_tags;
    let file = s.resolution(path).unwrap()->Leaf_file;
    let detached = if tags.len() == 0 {
        s.without_tags_of(file)
    } else {
        s.retagged(file, tags, Seq::empty())
    };
    let after = detached.pruned(policy, file);
    lemma_same_tables(s, detached);
    if tags.len() > 0 {
        assert(tags.contains(tags[0]));
        assert(!detached.assigned(file, tags[0]));
        assert(!after.assigned(file, tags[0]));
    } else {
        assert forall|t: u64| !(#[trigger] detached.assigned(file, t)) by {}
        assert forall|t: u64| !(#[trigger] after.assigned(file, t)) by {}
    }
}

/// A renamed leaf has moved: its file carries every tag of the new path and
/// none of the old path that the new path does not name, and no other file
/// has gained or lost a tag.
pub proof fn lemma_renamed_file_has_moved(s: StoreView, policy: Policy, from: Seq<u8>, to: Seq<u8>)
    requires
        s.wf(),
        s.rename_effect(policy, from, to).reply.is_ok(),
        !policy.prune_untagged,
    ensures
        ({
            let after = s.rename_effect(policy, from, to).store;
            let names = segments(to).drop_last();
            &&& s.resolution(from) matches Ok(NodeView::Leaf { tags, file })
            &&& after.all_known(names)
            &&& after.carries_all(file, after.ids_of(names))
            &&& forall|k: int|
                0 <= k < tags.len() && !after.ids_of(names).contains(#[trigger] tags[k])
                    ==> !after.assigned(file, tags[k])
            &&& forall|f: u64, t: u64|
                f != file ==> (#[trigger] after.assigned(f, t)) == s.assigned(f, t)
        }),
{
    let tags = s.resolution(from).unwrap()->Leaf_tags;
    let file = s.resolution(from).unwrap()->Leaf_file;
    let names = segments(to).drop_last();
    let s1 = s.tags_resolved(names, policy.implicit_tags).unwrap();
    if policy.implicit_tags {
        lemma_tags_ensured(s, names);
    }
    let ids = s1.ids_of(names);
    let after = s1.retagged(file, tags, ids);
    lemma_same_tables(s1, after);
    assert(after.ids_of(names) =~= ids);
    assert forall|k: int| 0 <= k < ids.len() implies after.assigned(file, #[trigger] ids[k]) by {
        assert(ids.contains(ids[k]));
    }
    assert forall|k: int| 0 <= k < tags.len() && !ids.contains(
        #[trigger] tags[k],
    ) implies !after.assigned(file, tags[k]) by {
        assert(tags.contains(tags[k]));
    }
}

} // verus!
