//! The tag index: tags, tracked files, and the assignments between them.
//!
//! The store is a relational model with three tables. Its rows are kept in
//! the order in which their ids were handed out, and an id is never handed
//! out twice. Every operation either takes effect as a whole or leaves the
//! store as it was.

use crate::errors::{FsError, StoreFault};
use crate::names::{copy_bytes, has_byte, is_dots, is_segment, same_bytes, dot, dot_dot, MARK, SLASH};
use vstd::prelude::*;

verus! {

/// A named category; a directory component of the view.
pub struct Tag {
    pub id: u64,
    pub name: Vec<u8>,
}

/// The record of one real file.
pub struct TrackedFile {
    pub id: u64,
    /// The absolute path of the underlying file.
    pub real_path: Vec<u8>,
    /// The size of the underlying file when it was last looked at.
    pub size: u64,
    /// The modification time of the underlying file when it was last looked at.
    pub mtime: u64,
    /// The path for which size and modification time were recorded.
    pub link_target: Vec<u8>,
}

/// A tag as a mathematical value.
pub struct TagView {
    pub id: u64,
    pub name: Seq<u8>,
}

/// A tracked file as a mathematical value.
pub struct FileView {
    pub id: u64,
    pub real_path: Seq<u8>,
    pub size: u64,
    pub mtime: u64,
    pub link_target: Seq<u8>,
}

/// The store as a mathematical value: the rows of the two tables in the order
/// of their ids, and the assignments as a set of pairs of a file id and a tag
/// id.
pub struct StoreView {
    pub schema_version: u32,
    pub tags: Seq<TagView>,
    pub files: Seq<FileView>,
    pub assignments: Set<(u64, u64)>,
    pub next_tag_id: u64,
    pub next_file_id: u64,
}

impl View for Tag {
    type V = TagView;

    open spec fn view(&self) -> TagView {
        TagView { id: self.id, name: self.name@ }
    }
}

impl View for TrackedFile {
    type V = FileView;

    open spec fn view(&self) -> FileView {
        FileView {
            id: self.id,
            real_path: self.real_path@,
            size: self.size,
            mtime: self.mtime,
            link_target: self.link_target@,
        }
    }
}

/// The rows of a table of tags as mathematical values.
pub open spec fn tag_rows(rows: Seq<Tag>) -> Seq<TagView> {
    Seq::new(rows.len(), |i: int| rows[i]@)
}

/// The rows of a table of files as mathematical values.
pub open spec fn file_rows(rows: Seq<TrackedFile>) -> Seq<FileView> {
    Seq::new(rows.len(), |i: int| rows[i]@)
}

/// A name that a tag can have: one path segment, other than the names of the
/// current and the parent view, and without the mark that tells leaf names
/// apart.
pub open spec fn tag_name_ok(name: Seq<u8>) -> bool {
    is_segment(name) && !name.contains(MARK) && name != dot() && name != dot_dot()
}

/// The pairs of one file with each tag of a sequence.
pub open spec fn pairs_of(file: u64, tags: Seq<u64>) -> Set<(u64, u64)> {
    Set::new(|p: (u64, u64)| p.0 == file && tags.contains(p.1))
}

/// Whether an assignment is that of the file, where one is given, and of the
/// tag, where one is given.
pub open spec fn matches_pair(p: (u64, u64), file: Option<u64>, tag: Option<u64>) -> bool {
    (file matches Some(f) ==> p.0 == f) && (tag matches Some(t) ==> p.1 == t)
}

impl FileView {
    /// The cached metadata is stale when it was recorded for another path.
    pub open spec fn stale(self) -> bool {
        self.link_target != self.real_path
    }
}

impl StoreView {
    /// The store without any row.
    pub open spec fn empty() -> StoreView {
        StoreView {
            schema_version: 0,
            tags: Seq::empty(),
            files: Seq::empty(),
            assignments: Set::empty(),
            next_tag_id: 1,
            next_file_id: 1,
        }
    }

    /// A tag has this id.
    pub open spec fn has_tag(self, id: u64) -> bool {
        exists|i: int| 0 <= i < self.tags.len() && (#[trigger] self.tags[i]).id == id
    }

    /// The row of the tag with this id.
    pub open spec fn tag_index(self, id: u64) -> int {
        choose|i: int| 0 <= i < self.tags.len() && (#[trigger] self.tags[i]).id == id
    }

    /// A tag has this name.
    pub open spec fn has_tag_named(self, name: Seq<u8>) -> bool {
        exists|i: int| 0 <= i < self.tags.len() && (#[trigger] self.tags[i]).name == name
    }

    /// The id of the tag with this name.
    pub open spec fn tag_named(self, name: Seq<u8>) -> Option<u64> {
        if self.has_tag_named(name) {
            Some(
                self.tags[choose|i: int|
                    0 <= i < self.tags.len() && (#[trigger] self.tags[i]).name == name].id,
            )
        } else {
            None
        }
    }

    /// A tracked file has this id.
    pub open spec fn has_file(self, id: u64) -> bool {
        exists|i: int| 0 <= i < self.files.len() && (#[trigger] self.files[i]).id == id
    }

    /// The row of the file with this id.
    pub open spec fn file_index(self, id: u64) -> int {
        choose|i: int| 0 <= i < self.files.len() && (#[trigger] self.files[i]).id == id
    }

    /// The file with this id.
    pub open spec fn file(self, id: u64) -> FileView {
        self.files[self.file_index(id)]
    }

    /// A tracked file has this real path.
    pub open spec fn has_file_at(self, path: Seq<u8>) -> bool {
        exists|i: int| 0 <= i < self.files.len() && (#[trigger] self.files[i]).real_path == path
    }

    /// The id of the file with this real path.
    pub open spec fn file_at(self, path: Seq<u8>) -> Option<u64> {
        if self.has_file_at(path) {
            Some(
                self.files[choose|i: int|
                    0 <= i < self.files.len() && (#[trigger] self.files[i]).real_path == path].id,
            )
        } else {
            None
        }
    }

    /// The file carries the tag.
    pub open spec fn assigned(self, file: u64, tag: u64) -> bool {
        self.assignments.contains((file, tag))
    }

    /// The file carries at least one tag.
    pub open spec fn tagged(self, file: u64) -> bool {
        exists|t: u64| #[trigger] self.assigned(file, t)
    }

    /// The file carries every tag of the sequence.
    pub open spec fn carries_all(self, file: u64, tags: Seq<u64>) -> bool {
        forall|k: int| 0 <= k < tags.len() ==> self.assigned(file, #[trigger] tags[k])
    }

    /// The invariant of the store.
    pub open spec fn wf(self) -> bool {
        &&& 0 < self.next_tag_id
        &&& 0 < self.next_file_id
        &&& forall|i: int|
            0 <= i < self.tags.len() ==> 0 < (#[trigger] self.tags[i]).id < self.next_tag_id
                && tag_name_ok(self.tags[i].name)
        &&& forall|i: int, j: int|
            0 <= i < j < self.tags.len() ==> (#[trigger] self.tags[i]).id < (
            #[trigger] self.tags[j]).id && self.tags[i].name != self.tags[j].name
        &&& forall|i: int|
            0 <= i < self.files.len() ==> 0 < (#[trigger] self.files[i]).id < self.next_file_id
        &&& forall|i: int, j: int|
            0 <= i < j < self.files.len() ==> (#[trigger] self.files[i]).id < (
            #[trigger] self.files[j]).id && self.files[i].real_path != self.files[j].real_path
        &&& forall|p: (u64, u64)| #[trigger]
            self.assignments.contains(p) ==> self.has_file(p.0) && self.has_tag(p.1)
    }

    /// What `restore_tag` answers for an id and a name.
    pub open spec fn restore_tag_result(self, id: u64, name: Seq<u8>) -> Result<u64, FsError> {
        if !is_segment(name) {
            Err(FsError::NoSuchEntry)
        } else if !tag_name_ok(name) || self.has_tag_named(name) || id < self.next_tag_id {
            Err(FsError::AlreadyExists)
        } else if id == u64::MAX {
            Err(FsError::StoreError(StoreFault::Failure))
        } else {
            Ok(id)
        }
    }

    /// What `create_tag` answers for a name.
    pub open spec fn create_tag_result(self, name: Seq<u8>) -> Result<u64, FsError> {
        self.restore_tag_result(self.next_tag_id, name)
    }

    /// The store with one more tag under a given id; the ids up to that one
    /// are used up.
    pub open spec fn with_tag_at(self, id: u64, name: Seq<u8>) -> StoreView {
        StoreView {
            tags: self.tags.push(TagView { id, name }),
            next_tag_id: (id + 1) as u64,
            ..self
        }
    }

    /// The store with one more tag, which gets the next id.
    pub open spec fn with_tag(self, name: Seq<u8>) -> StoreView {
        self.with_tag_at(self.next_tag_id, name)
    }

    /// The store without a tag and without the assignments that refer to it.
    pub open spec fn without_tag(self, id: u64) -> StoreView {
        StoreView {
            tags: self.tags.remove(self.tag_index(id)),
            assignments: self.assignments.filter(|p: (u64, u64)| p.1 != id),
            ..self
        }
    }

    /// What `track_file` answers for a real path.
    pub open spec fn track_file_result(self, path: Seq<u8>) -> Result<u64, FsError> {
        if path.len() == 0 || path[0] != SLASH {
            Err(FsError::NoSuchEntry)
        } else if self.has_file_at(path) {
            Ok(self.file_at(path).unwrap())
        } else {
            self.restore_file_result(self.next_file_id, path)
        }
    }

    /// What `restore_file` answers for an id and a real path.
    pub open spec fn restore_file_result(self, id: u64, path: Seq<u8>) -> Result<u64, FsError> {
        if path.len() == 0 || path[0] != SLASH {
            Err(FsError::NoSuchEntry)
        } else if self.has_file_at(path) || id < self.next_file_id {
            Err(FsError::AlreadyExists)
        } else if id == u64::MAX {
            Err(FsError::StoreError(StoreFault::Failure))
        } else {
            Ok(id)
        }
    }

    /// The store with one more file; the ids up to that of the file are used
    /// up.
    pub open spec fn with_file_row(self, row: FileView) -> StoreView {
        StoreView { files: self.files.push(row), next_file_id: (row.id + 1) as u64, ..self }
    }

    /// The store with one more file, which gets the next id and whose
    /// metadata is recorded for its path.
    pub open spec fn with_file(self, path: Seq<u8>, size: u64, mtime: u64) -> StoreView {
        self.with_file_row(
            FileView { id: self.next_file_id, real_path: path, size, mtime, link_target: path },
        )
    }

    /// The store in which the metadata of a file was recorded anew, for the
    /// path that the file has.
    pub open spec fn refreshed(self, id: u64, size: u64, mtime: u64) -> StoreView {
        StoreView {
            files: self.files.update(
                self.file_index(id),
                FileView { size, mtime, link_target: self.file(id).real_path, ..self.file(id) },
            ),
            ..self
        }
    }

    /// The store without a file and without its assignments.
    pub open spec fn without_file(self, id: u64) -> StoreView {
        StoreView {
            files: self.files.remove(self.file_index(id)),
            assignments: self.assignments.filter(|p: (u64, u64)| p.0 != id),
            ..self
        }
    }

    /// The store in which a file has lost every tag.
    pub open spec fn without_tags_of(self, file: u64) -> StoreView {
        StoreView { assignments: self.assignments.filter(|p: (u64, u64)| p.0 != file), ..self }
    }

    /// The store with one more assignment.
    pub open spec fn with_assignment(self, file: u64, tag: u64) -> StoreView {
        StoreView { assignments: self.assignments.insert((file, tag)), ..self }
    }

    /// The store without one assignment.
    pub open spec fn without_assignment(self, file: u64, tag: u64) -> StoreView {
        StoreView { assignments: self.assignments.remove((file, tag)), ..self }
    }

    /// What `assign` answers for a pair.
    pub open spec fn assign_result(self, file: u64, tag: u64) -> Result<(), FsError> {
        if !self.has_file(file) {
            Err(FsError::NoSuchEntry)
        } else if !self.has_tag(tag) {
            Err(FsError::UnknownTag)
        } else if self.assigned(file, tag) {
            Err(FsError::AlreadyExists)
        } else {
            Ok(())
        }
    }

    /// The store in which a file has lost the tags of one sequence and then
    /// gained those of another.
    pub open spec fn retagged(self, file: u64, remove: Seq<u64>, add: Seq<u64>) -> StoreView {
        StoreView {
            assignments: self.assignments.difference(pairs_of(file, remove)).union(
                pairs_of(file, add),
            ),
            ..self
        }
    }

    /// The store at a schema version.
    pub open spec fn at_version(self, version: u32) -> StoreView {
        StoreView { schema_version: version, ..self }
    }
}

/// A store stays well formed when its tables stay as they are and every
/// assignment that it gains is one of a file and a tag that it holds.
pub proof fn lemma_wf_frame(a: StoreView, b: StoreView)
    requires
        a.wf(),
        b.tags == a.tags,
        b.files == a.files,
        b.next_tag_id == a.next_tag_id,
        b.next_file_id == a.next_file_id,
        forall|p: (u64, u64)| #[trigger]
            b.assignments.contains(p) ==> a.assignments.contains(p) || (a.has_file(p.0)
                && a.has_tag(p.1)),
    ensures
        b.wf(),
{
    assert forall|p: (u64, u64)| #[trigger] b.assignments.contains(p) implies b.has_file(p.0)
        && b.has_tag(p.1) by {
        assert(a.has_file(p.0) && a.has_tag(p.1));
    }
}

/// Removing a tag detaches every assignment that refers to it and no other,
/// and leaves every tracked file as it is.
pub proof fn lemma_remove_tag_detaches(s: StoreView, tag: u64)
    requires
        s.wf(),
        s.has_tag(tag),
    ensures
        !s.without_tag(tag).has_tag(tag),
        s.without_tag(tag).files == s.files,
        forall|f: u64, t: u64| #[trigger]
            s.without_tag(tag).assigned(f, t) <==> s.assigned(f, t) && t != tag,
        forall|t: u64| t != tag ==> s.without_tag(tag).has_tag(t) == s.has_tag(t),
{
    let after = s.without_tag(tag);
    let idx = s.tag_index(tag);
    assert forall|t: u64| after.has_tag(t) implies s.has_tag(t) && t != tag by {
        let k = choose|k: int| 0 <= k < after.tags.len() && (#[trigger] after.tags[k]).id == t;
        let o = if k < idx {
            k
        } else {
            k + 1
        };
        assert(after.tags[k] == s.tags[o]);
        if o < idx {
            assert(s.tags[o].id < s.tags[idx].id);
        } else {
            assert(s.tags[idx].id < s.tags[o].id);
        }
    }
    assert forall|t: u64| t != tag && s.has_tag(t) implies after.has_tag(t) by {
        let o = s.tag_index(t);
        if o < idx {
            assert(after.tags[o] == s.tags[o]);
        } else {
            assert(after.tags[o - 1] == s.tags[o]);
        }
    }
}

/// Two stores with the same tables hold the same tags and the same files.
pub proof fn lemma_same_tables(a: StoreView, b: StoreView)
    requires
        a.tags == b.tags,
        a.files == b.files,
    ensures
        forall|id: u64| #[trigger] a.has_tag(id) == b.has_tag(id),
        forall|id: u64| #[trigger] a.has_file(id) == b.has_file(id),
        forall|id: u64| #[trigger] a.tag_index(id) == b.tag_index(id),
        forall|id: u64| #[trigger] a.file_index(id) == b.file_index(id),
        forall|id: u64| #[trigger] a.file(id) == b.file(id),
        forall|n: Seq<u8>| #[trigger] a.has_tag_named(n) == b.has_tag_named(n),
        forall|n: Seq<u8>| #[trigger] a.tag_named(n) == b.tag_named(n),
        forall|n: Seq<u8>| #[trigger] a.has_file_at(n) == b.has_file_at(n),
        forall|n: Seq<u8>| #[trigger] a.file_at(n) == b.file_at(n),
{
}

/// The store after a sequence of assignments, each made in turn.
pub open spec fn assign_all(s: StoreView, pairs: Seq<(u64, u64)>) -> StoreView
    decreases pairs.len(),
{
    if pairs.len() == 0 {
        s
    } else {
        assign_all(s, pairs.drop_last()).with_assignment(pairs.last().0, pairs.last().1)
    }
}

/// Assignments of different pairs do not disturb each other: whichever is
/// made first, each is answered as it would be alone, and the store ends up
/// the same.
pub proof fn lemma_assignments_commute(s: StoreView, f1: u64, t1: u64, f2: u64, t2: u64)
    requires
        (f1, t1) != (f2, t2),
    ensures
        s.with_assignment(f1, t1).assign_result(f2, t2) == s.assign_result(f2, t2),
        s.with_assignment(f2, t2).assign_result(f1, t1) == s.assign_result(f1, t1),
        s.with_assignment(f1, t1).with_assignment(f2, t2) == s.with_assignment(
            f2,
            t2,
        ).with_assignment(f1, t1),
{
    lemma_same_tables(s, s.with_assignment(f1, t1));
    lemma_same_tables(s, s.with_assignment(f2, t2));
    assert(s.assignments.insert((f1, t1)).insert((f2, t2)) =~= s.assignments.insert(
        (f2, t2),
    ).insert((f1, t1)));
}

/// An assignment that is made a second time is refused as `AlreadyExists`,
/// and the store holds it once.
pub proof fn lemma_assignment_made_once(s: StoreView, file: u64, tag: u64)
    requires
        s.assign_result(file, tag).is_ok(),
    ensures
        s.with_assignment(file, tag).assign_result(file, tag) == Err::<(), FsError>(
            FsError::AlreadyExists,
        ),
        s.with_assignment(file, tag).with_assignment(file, tag) == s.with_assignment(file, tag),
{
    lemma_same_tables(s, s.with_assignment(file, tag));
    assert(s.assignments.insert((file, tag)).insert((file, tag)) =~= s.assignments.insert(
        (file, tag),
    ));
}

/// Assignments of distinct pairs, each of which would succeed alone, all
/// succeed when made one after the other, in whatever order they stand, and
/// none is lost: the store ends up with its assignments and all of theirs.
pub proof fn lemma_no_lost_assignment(s: StoreView, pairs: Seq<(u64, u64)>)
    requires
        pairs.no_duplicates(),
        forall|k: int| 0 <= k < pairs.len() ==> s.assign_result(pairs[k].0, pairs[k].1).is_ok(),
    ensures
        forall|k: int|
            0 <= k < pairs.len() ==> (#[trigger] assign_all(s, pairs.take(k))).assign_result(
                pairs[k].0,
                pairs[k].1,
            ).is_ok(),
        assign_all(s, pairs).assignments == s.assignments.union(pairs.to_set()),
        assign_all(s, pairs).tags == s.tags,
        assign_all(s, pairs).files == s.files,
    decreases pairs.len(),
{
    if pairs.len() == 0 {
        assert(s.assignments.union(pairs.to_set()) =~= s.assignments);
    } else {
        let head = pairs.drop_last();
        let last = pairs.last();
        lemma_no_lost_assignment(s, head);
        let mid = assign_all(s, head);
        assert(!head.contains(last)) by {
            if head.contains(last) {
                let i = choose|i: int| 0 <= i < head.len() && head[i] == last;
                assert(pairs[i] == pairs[pairs.len() - 1]);
            }
        }
        assert(s.assign_result(last.0, last.1).is_ok());
        assert(!mid.assignments.contains(last));
        assert(mid.assign_result(last.0, last.1).is_ok());
        assert forall|k: int| 0 <= k < pairs.len() implies (#[trigger] assign_all(
            s,
            pairs.take(k),
        )).assign_result(pairs[k].0, pairs[k].1).is_ok() by {
            if k < head.len() {
                assert(pairs.take(k) =~= head.take(k));
                assert(pairs[k] == head[k]);
            } else {
                assert(pairs.take(k) =~= head);
            }
        }
        assert(assign_all(s, pairs).assignments =~= s.assignments.union(pairs.to_set())) by {
            assert forall|p: (u64, u64)| pairs.to_set().contains(p) <==> head.to_set().contains(p)
                || p == last by {
                if pairs.contains(p) {
                    let i = choose|i: int| 0 <= i < pairs.len() && pairs[i] == p;
                    if i < head.len() {
                        assert(head[i] == p);
                    }
                }
                if head.contains(p) {
                    let i = choose|i: int| 0 <= i < head.len() && head[i] == p;
                    assert(pairs[i] == p);
                }
                if p == last {
                    assert(pairs[pairs.len() - 1] == p);
                }
            }
        }
    }
}

/// The persistent tag index.
pub struct Store {
    schema_version: u32,
    tags: Vec<Tag>,
    files: Vec<TrackedFile>,
    assignments: Vec<(u64, u64)>,
    next_tag_id: u64,
    next_file_id: u64,
}

impl View for Store {
    type V = StoreView;

    closed spec fn view(&self) -> StoreView {
        StoreView {
            schema_version: self.schema_version,
            tags: tag_rows(self.tags@),
            files: file_rows(self.files@),
            assignments: self.assignments@.to_set(),
            next_tag_id: self.next_tag_id,
            next_file_id: self.next_file_id,
        }
    }
}

impl Store {
    /// No assignment is recorded twice.
    pub closed spec fn rows_distinct(&self) -> bool {
        self.assignments@.no_duplicates()
    }

    /// The invariant of the store: that of its view, and no assignment is
    /// recorded twice.
    pub open spec fn wf(&self) -> bool {
        self@.wf() && self.rows_distinct()
    }

    /// A store without any row, at schema version zero.
    pub fn new() -> (store: Store)
        ensures
            store.wf(),
            store@ == StoreView::empty(),
    {
        let store = Store {
            schema_version: 0,
            tags: Vec::new(),
            files: Vec::new(),
            assignments: Vec::new(),
            next_tag_id: 1,
            next_file_id: 1,
        };
        assert(store@.tags =~= Seq::empty());
        assert(store@.files =~= Seq::empty());
        assert(store@.assignments =~= Set::empty());
        store
    }

    /// The persisted schema version.
    pub fn schema_version(&self) -> (v: u32)
        ensures
            v == self@.schema_version,
    {
        self.schema_version
    }

    /// The table of tags, in the order of their ids.
    pub fn tags(&self) -> (rows: &Vec<Tag>)
        ensures
            tag_rows(rows@) == self@.tags,
    {
        &self.tags
    }

    /// The table of tracked files, in the order of their ids.
    pub fn files(&self) -> (rows: &Vec<TrackedFile>)
        ensures
            file_rows(rows@) == self@.files,
    {
        &self.files
    }

    /// The table of assignments, each a file id and a tag id, none twice.
    pub fn assignments(&self) -> (rows: &Vec<(u64, u64)>)
        requires
            self.wf(),
        ensures
            rows@.to_set() == self@.assignments,
            rows@.no_duplicates(),
    {
        &self.assignments
    }

    /// The row of the tag with a name.
    fn find_tag_by_name(&self, name: &[u8]) -> (found: Option<usize>)
        ensures
            match found {
                Some(i) => i < self.tags.len() && self.tags[i as int].name@ == name@,
                None => !self@.has_tag_named(name@),
            },
    {
        let mut i: usize = 0;
        while i < self.tags.len()
            invariant
                i <= self.tags.len(),
                forall|k: int| 0 <= k < i ==> (#[trigger] self.tags[k]).name@ != name@,
            decreases self.tags.len() - i,
        {
            if same_bytes(self.tags[i].name.as_slice(), name) {
                return Some(i);
            }
            i += 1;
        }
        assert forall|k: int| 0 <= k < self@.tags.len() implies (#[trigger] self@.tags[k]).name
            != name@ by {
            assert(self@.tags[k] == self.tags[k]@);
        }
        None
    }

    /// The row of the tag with an id.
    fn find_tag_by_id(&self, id: u64) -> (found: Option<usize>)
        ensures
            match found {
                Some(i) => i < self.tags.len() && self.tags[i as int].id == id,
                None => !self@.has_tag(id),
            },
    {
        let mut i: usize = 0;
        while i < self.tags.len()
            invariant
                i <= self.tags.len(),
                forall|k: int| 0 <= k < i ==> (#[trigger] self.tags[k]).id != id,
            decreases self.tags.len() - i,
        {
            if self.tags[i].id == id {
                return Some(i);
            }
            i += 1;
        }
        assert forall|k: int| 0 <= k < self@.tags.len() implies (#[trigger] self@.tags[k]).id
            != id by {
            assert(self@.tags[k] == self.tags[k]@);
        }
        None
    }

    /// The row of the file with an id.
    fn find_file_by_id(&self, id: u64) -> (found: Option<usize>)
        ensures
            match found {
                Some(i) => i < self.files.len() && self.files[i as int].id == id,
                None => !self@.has_file(id),
            },
    {
        let mut i: usize = 0;
        while i < self.files.len()
            invariant
                i <= self.files.len(),
                forall|k: int| 0 <= k < i ==> (#[trigger] self.files[k]).id != id,
            decreases self.files.len() - i,
        {
            if self.files[i].id == id {
                return Some(i);
            }
            i += 1;
        }
        assert forall|k: int| 0 <= k < self@.files.len() implies (#[trigger] self@.files[k]).id
            != id by {
            assert(self@.files[k] == self.files[k]@);
        }
        None
    }

    /// The row of the file with a real path.
    fn find_file_by_path(&self, path: &[u8]) -> (found: Option<usize>)
        ensures
            match found {
                Some(i) => i < self.files.len() && self.files[i as int].real_path@ == path@,
                None => !self@.has_file_at(path@),
            },
    {
        let mut i: usize = 0;
        while i < self.files.len()
            invariant
                i <= self.files.len(),
                forall|k: int| 0 <= k < i ==> (#[trigger] self.files[k]).real_path@ != path@,
            decreases self.files.len() - i,
        {
            if same_bytes(self.files[i].real_path.as_slice(), path) {
                return Some(i);
            }
            i += 1;
        }
        assert forall|k: int| 0 <= k < self@.files.len() implies (
        #[trigger] self@.files[k]).real_path != path@ by {
            assert(self@.files[k] == self.files[k]@);
        }
        None
    }

    /// The row of an assignment.
    fn find_assignment(&self, file: u64, tag: u64) -> (found: Option<usize>)
        ensures
            match found {
                Some(i) => i < self.assignments.len() && self.assignments[i as int] == (file, tag),
                None => !self@.assigned(file, tag),
            },
    {
        let mut i: usize = 0;
        while i < self.assignments.len()
            invariant
                i <= self.assignments.len(),
                forall|k: int| 0 <= k < i ==> self.assignments[k] != (file, tag),
            decreases self.assignments.len() - i,
        {
            let row = self.assignments[i];
            if row.0 == file && row.1 == tag {
                return Some(i);
            }
            i += 1;
        }
        None
    }

    /// The id of the tag with this name, if there is one.
    pub fn tag_id(&self, name: &[u8]) -> (id: Option<u64>)
        requires
            self.wf(),
        ensures
            id == self@.tag_named(name@),
    {
        match self.find_tag_by_name(name) {
            Some(i) => {
                proof {
                    assert(self@.tags[i as int] == self.tags[i as int]@);
                    let c = choose|c: int|
                        0 <= c < self@.tags.len() && (#[trigger] self@.tags[c]).name == name@;
                    assert(c == i) by {
                        if c < i {
                            assert(self@.tags[c].name != self@.tags[i as int].name);
                        } else if i < c {
                            assert(self@.tags[i as int].name != self@.tags[c].name);
                        }
                    }
                }
                Some(self.tags[i].id)
            },
            None => None,
        }
    }

    /// Whether a tag has this id.
    pub fn contains_tag(&self, id: u64) -> (found: bool)
        ensures
            found == self@.has_tag(id),
    {
        match self.find_tag_by_id(id) {
            Some(i) => {
                assert(self@.tags[i as int] == self.tags[i as int]@);
                true
            },
            None => false,
        }
    }

    /// The tracked file with this id, if there is one.
    pub fn file(&self, id: u64) -> (found: Option<&TrackedFile>)
        requires
            self.wf(),
        ensures
            found.is_some() == self@.has_file(id),
            found matches Some(f) ==> f@ == self@.file(id),
    {
        match self.find_file_by_id(id) {
            Some(i) => {
                proof {
                    assert(self@.files[i as int] == self.files[i as int]@);
                    let c = self@.file_index(id);
                    assert(c == i) by {
                        if c < i {
                            assert(self@.files[c].id < self@.files[i as int].id);
                        } else if i < c {
                            assert(self@.files[i as int].id < self@.files[c].id);
                        }
                    }
                }
                Some(&self.files[i])
            },
            None => None,
        }
    }

    /// Whether the metadata of a file was recorded for another path than the
    /// one that the file has now; nothing where the file is not tracked.
    pub fn is_stale(&self, id: u64) -> (stale: Option<bool>)
        requires
            self.wf(),
        ensures
            stale == if self@.has_file(id) {
                Some(self@.file(id).stale())
            } else {
                None
            },
    {
        match self.file(id) {
            Some(row) => Some(
                !same_bytes(row.link_target.as_slice(), row.real_path.as_slice()),
            ),
            None => None,
        }
    }

    /// The id of the tracked file with this real path, if there is one.
    pub fn file_id(&self, path: &[u8]) -> (id: Option<u64>)
        requires
            self.wf(),
        ensures
            id == self@.file_at(path@),
    {
        match self.find_file_by_path(path) {
            Some(i) => {
                proof {
                    assert(self@.files[i as int] == self.files[i as int]@);
                    let c = choose|c: int|
                        0 <= c < self@.files.len() && (#[trigger] self@.files[c]).real_path
                            == path@;
                    assert(c == i) by {
                        if c < i {
                            assert(self@.files[c].real_path != self@.files[i as int].real_path);
                        } else if i < c {
                            assert(self@.files[i as int].real_path != self@.files[c].real_path);
                        }
                    }
                }
                Some(self.files[i].id)
            },
            None => None,
        }
    }

    /// Whether the file carries the tag.
    pub fn is_assigned(&self, file: u64, tag: u64) -> (found: bool)
        ensures
            found == self@.assigned(file, tag),
    {
        match self.find_assignment(file, tag) {
            Some(i) => {
                assert(self.assignments@[i as int] == (file, tag));
                true
            },
            None => false,
        }
    }

    /// Puts back a tag that was persisted under an id. Tags are put back in
    /// the order of their ids.
    ///
    /// A name that is no path segment is refused as `NoSuchEntry`. A name
    /// that the view keeps for itself (`.`, `..`, any name with the mark) or
    /// that a tag already has is refused as `AlreadyExists`, and so is an id
    /// that is not above every id handed out so far. The highest number is no
    /// id: with it the store fails. The store changes only on success.
    pub fn restore_tag(&mut self, id: u64, name: &[u8]) -> (r: Result<u64, FsError>)
        requires
            old(self).wf(),
        ensures
            final(self).wf(),
            r == old(self)@.restore_tag_result(id, name@),
            final(self)@ == if r.is_ok() {
                old(self)@.with_tag_at(id, name@)
            } else {
                old(self)@
            },
    {
        if name.len() == 0 || has_byte(name, SLASH) {
            return Err(FsError::NoSuchEntry);
        }
        if has_byte(name, MARK) || is_dots(name) {
            return Err(FsError::AlreadyExists);
        }
        match self.find_tag_by_name(name) {
            Some(i) => {
                assert(self@.tags[i as int] == self.tags[i as int]@);
                return Err(FsError::AlreadyExists);
            },
            None => {},
        }
        if id < self.next_tag_id {
            return Err(FsError::AlreadyExists);
        }
        if id == u64::MAX {
            return Err(FsError::StoreError(StoreFault::Failure));
        }
        self.tags.push(Tag { id, name: copy_bytes(name) });
        self.next_tag_id = id + 1;
        proof {
            let before = old(self)@;
            let after = self@;
            assert(after.tags =~= before.tags.push(TagView { id, name: name@ }));
            assert(after.files == before.files);
            assert forall|i: int| 0 <= i < after.tags.len() implies 0 < (
            #[trigger] after.tags[i]).id < after.next_tag_id && tag_name_ok(after.tags[i].name) by {
                if i < before.tags.len() {
                    assert(after.tags[i] == before.tags[i]);
                }
            }
            assert forall|i: int, j: int| 0 <= i < j < after.tags.len() implies (
            #[trigger] after.tags[i]).id < (#[trigger] after.tags[j]).id && after.tags[i].name
                != after.tags[j].name by {
                assert(after.tags[i] == before.tags[i]);
                if j < before.tags.len() {
                    assert(after.tags[j] == before.tags[j]);
                }
            }
            assert forall|p: (u64, u64)| #[trigger] after.assignments.contains(p) implies
                after.has_file(p.0) && after.has_tag(p.1) by {
                assert(before.assignments.contains(p));
                let k = before.tag_index(p.1);
                assert(after.tags[k] == before.tags[k]);
            }
        }
        Ok(id)
    }

    /// Creates a tag, which gets an id that no tag had before.
    ///
    /// A name that is no path segment is refused as `NoSuchEntry`. A name
    /// that the view keeps for itself (`.`, `..`, any name with the mark) or
    /// that a tag already has is refused as `AlreadyExists`. When no id is
    /// left the store fails. The store changes only on success.
    pub fn create_tag(&mut self, name: &[u8]) -> (r: Result<u64, FsError>)
        requires
            old(self).wf(),
        ensures
            final(self).wf(),
            r == old(self)@.create_tag_result(name@),
            final(self)@ == if r.is_ok() {
                old(self)@.with_tag(name@)
            } else {
                old(self)@
            },
    {
        let id = self.next_tag_id;
        self.restore_tag(id, name)
    }

    /// Removes the assignments that match: those of one file, those of one
    /// tag, or the one of a file and a tag.
    fn drop_assignments(&mut self, file: Option<u64>, tag: Option<u64>)
        requires
            old(self).wf(),
        ensures
            final(self).wf(),
            final(self)@ == (StoreView {
                assignments: old(self)@.assignments.filter(
                    |p: (u64, u64)| !matches_pair(p, file, tag),
                ),
                ..old(self)@
            }),
    {
        let mut kept: Vec<(u64, u64)> = Vec::new();
        let mut i: usize = 0;
        while i < self.assignments.len()
            invariant
                i <= self.assignments.len(),
                self.assignments@.no_duplicates(),
                kept@.no_duplicates(),
                forall|k: int|
                    0 <= k < kept.len() ==> !matches_pair(#[trigger] kept[k], file, tag) && exists|
                        m: int,
                    | 0 <= m < i && self.assignments[m] == kept[k],
                forall|m: int|
                    0 <= m < i && !matches_pair(#[trigger] self.assignments[m], file, tag)
                        ==> kept@.contains(self.assignments[m]),
            decreases self.assignments.len() - i,
        {
            let row = self.assignments[i];
            let of_file = match file {
                Some(f) => row.0 == f,
                None => true,
            };
            let of_tag = match tag {
                Some(t) => row.1 == t,
                None => true,
            };
            if !(of_file && of_tag) {
                let ghost before = kept@;
                kept.push(row);
                proof {
                    assert forall|m: int|
                        0 <= m < i + 1 && !matches_pair(
                            #[trigger] self.assignments[m],
                            file,
                            tag,
                        ) implies kept@.contains(self.assignments[m]) by {
                        if m < i {
                            let k = choose|k: int|
                                0 <= k < before.len() && before[k] == self.assignments[m];
                            assert(kept@[k] == self.assignments[m]);
                        } else {
                            assert(kept@[before.len() as int] == row);
                        }
                    }
                }
            }
            i += 1;
        }
        proof {
            let want = old(self)@.assignments.filter(|p: (u64, u64)| !matches_pair(p, file, tag));
            assert forall|p: (u64, u64)| kept@.to_set().contains(p) <==> want.contains(p) by {
                if kept@.to_set().contains(p) {
                    let k = choose|k: int| 0 <= k < kept.len() && kept[k] == p;
                    assert(!matches_pair(kept[k], file, tag));
                }
                if want.contains(p) {
                    let m = choose|m: int|
                        0 <= m < self.assignments.len() && self.assignments[m] == p;
                    assert(!matches_pair(self.assignments[m], file, tag));
                }
            }
            assert(kept@.to_set() =~= want);
        }
        self.assignments = kept;
        proof {
            lemma_wf_frame(old(self)@, self@);
        }
    }

    /// Removes a tag and detaches every assignment that refers to it. No row
    /// of a tracked file changes.
    pub fn remove_tag(&mut self, id: u64) -> (r: Result<(), FsError>)
        requires
            old(self).wf(),
        ensures
            final(self).wf(),
            r == if old(self)@.has_tag(id) {
                Ok::<(), FsError>(())
            } else {
                Err(FsError::UnknownTag)
            },
            final(self)@ == if r.is_ok() {
                old(self)@.without_tag(id)
            } else {
                old(self)@
            },
    {
        let idx = match self.find_tag_by_id(id) {
            Some(i) => i,
            None => {
                return Err(FsError::UnknownTag);
            },
        };
        proof {
            let v = self@;
            assert(v.tags[idx as int] == self.tags[idx as int]@);
            let c = v.tag_index(id);
            if c < idx {
                assert(v.tags[c].id < v.tags[idx as int].id);
            } else if idx < c {
                assert(v.tags[idx as int].id < v.tags[c].id);
            }
        }
        self.drop_assignments(None, Some(id));
        let ghost mid = self@;
        self.tags.remove(idx);
        proof {
            let before = old(self)@;
            let after = self@;
            assert(before.tag_index(id) == idx);
            assert(after.tags =~= before.tags.remove(idx as int));
            assert(after.files == before.files);
            assert(after.assignments == mid.assignments);
            assert(mid.assignments =~= before.assignments.filter(|p: (u64, u64)| p.1 != id));
            assert(after.assignments == before.without_tag(id).assignments);
            assert(after.tags == before.without_tag(id).tags);
            assert(after == before.without_tag(id));
            assert forall|p: (u64, u64)| #[trigger] after.assignments.contains(p) implies
                after.has_file(p.0) && after.has_tag(p.1) by {
                assert(before.assignments.contains(p));
                assert(p.1 != id);
                assert(before.has_tag(p.1));
                let k = before.tag_index(p.1);
                assert(before.tags[k].id == p.1);
                assert(k != idx);
                if k < idx {
                    assert(after.tags[k] == before.tags[k]);
                } else {
                    assert(after.tags[k - 1] == before.tags[k]);
                }
            }
            assert forall|i: int, j: int| 0 <= i < j < after.tags.len() implies (
            #[trigger] after.tags[i]).id < (#[trigger] after.tags[j]).id && after.tags[i].name
                != after.tags[j].name by {
                let oi = if i < idx { i } else { i + 1 };
                let oj = if j < idx { j } else { j + 1 };
                assert(after.tags[i] == before.tags[oi]);
                assert(after.tags[j] == before.tags[oj]);
            }
            assert forall|i: int| 0 <= i < after.tags.len() implies 0 < (
            #[trigger] after.tags[i]).id < after.next_tag_id && tag_name_ok(after.tags[i].name) by {
                let oi = if i < idx { i } else { i + 1 };
                assert(after.tags[i] == before.tags[oi]);
            }
        }
        Ok(())
    }

    /// Puts back a file that was persisted under an id, with the metadata
    /// that was recorded for it. Files are put back in the order of their
    /// ids.
    ///
    /// The real path must be absolute, else there is no such entry. A path
    /// that is tracked already is refused as `AlreadyExists`, and so is an id
    /// that is not above every id handed out so far. The highest number is no
    /// id: with it the store fails. The store changes only on success.
    pub fn restore_file(
        &mut self,
        id: u64,
        path: &[u8],
        size: u64,
        mtime: u64,
        link_target: &[u8],
    ) -> (r: Result<u64, FsError>)
        requires
            old(self).wf(),
        ensures
            final(self).wf(),
            r == old(self)@.restore_file_result(id, path@),
            final(self)@ == if r.is_ok() {
                old(self)@.with_file_row(
                    FileView { id, real_path: path@, size, mtime, link_target: link_target@ },
                )
            } else {
                old(self)@
            },
    {
        if path.len() == 0 || path[0] != SLASH {
            return Err(FsError::NoSuchEntry);
        }
        match self.find_file_by_path(path) {
            Some(i) => {
                assert(self@.files[i as int] == self.files[i as int]@);
                return Err(FsError::AlreadyExists);
            },
            None => {},
        }
        if id < self.next_file_id {
            return Err(FsError::AlreadyExists);
        }
        if id == u64::MAX {
            return Err(FsError::StoreError(StoreFault::Failure));
        }
        self.files.push(
            TrackedFile {
                id,
                real_path: copy_bytes(path),
                size,
                mtime,
                link_target: copy_bytes(link_target),
            },
        );
        self.next_file_id = id + 1;
        proof {
            let before = old(self)@;
            let after = self@;
            assert(after.files =~= before.files.push(
                FileView { id, real_path: path@, size, mtime, link_target: link_target@ },
            ));
            assert(after.tags == before.tags);
            assert forall|i: int| 0 <= i < after.files.len() implies 0 < (
            #[trigger] after.files[i]).id < after.next_file_id by {
                if i < before.files.len() {
                    assert(after.files[i] == before.files[i]);
                }
            }
            assert forall|i: int, j: int| 0 <= i < j < after.files.len() implies (
            #[trigger] after.files[i]).id < (#[trigger] after.files[j]).id
                && after.files[i].real_path != after.files[j].real_path by {
                assert(after.files[i] == before.files[i]);
                if j < before.files.len() {
                    assert(after.files[j] == before.files[j]);
                }
            }
            assert forall|p: (u64, u64)| #[trigger] after.assignments.contains(p) implies
                after.has_file(p.0) && after.has_tag(p.1) by {
                assert(before.assignments.contains(p));
                let k = before.file_index(p.0);
                assert(after.files[k] == before.files[k]);
            }
        }
        Ok(id)
    }

    /// Starts to track a real file, or finds the file that is tracked for the
    /// path already.
    ///
    /// The path must be absolute. A new file gets an id that no file had
    /// before, and its metadata is recorded for the path. When no id is left
    /// the store fails. The store changes only when a new file is tracked.
    pub fn track_file(&mut self, path: &[u8], size: u64, mtime: u64) -> (r: Result<u64, FsError>)
        requires
            old(self).wf(),
        ensures
            final(self).wf(),
            r == old(self)@.track_file_result(path@),
            final(self)@ == if r.is_ok() && !old(self)@.has_file_at(path@) {
                old(self)@.with_file(path@, size, mtime)
            } else {
                old(self)@
            },
    {
        if path.len() == 0 || path[0] != SLASH {
            return Err(FsError::NoSuchEntry);
        }
        match self.file_id(path) {
            Some(id) => {
                return Ok(id);
            },
            None => {},
        }
        let id = self.next_file_id;
        self.restore_file(id, path, size, mtime, path)
    }

    /// Records the size and the modification time of a file anew, for the
    /// path that the file has now. Afterwards the metadata is not stale.
    pub fn refresh_file(&mut self, id: u64, size: u64, mtime: u64) -> (r: Result<(), FsError>)
        requires
            old(self).wf(),
        ensures
            final(self).wf(),
            r == if old(self)@.has_file(id) {
                Ok::<(), FsError>(())
            } else {
                Err(FsError::NoSuchEntry)
            },
            final(self)@ == if r.is_ok() {
                old(self)@.refreshed(id, size, mtime)
            } else {
                old(self)@
            },
            r.is_ok() ==> !final(self)@.file(id).stale(),
    {
        let idx = match self.find_file_by_id(id) {
            Some(i) => i,
            None => {
                return Err(FsError::NoSuchEntry);
            },
        };
        proof {
            let v = self@;
            assert(v.files[idx as int] == self.files[idx as int]@);
            let c = v.file_index(id);
            if c < idx {
                assert(v.files[c].id < v.files[idx as int].id);
            } else if idx < c {
                assert(v.files[idx as int].id < v.files[c].id);
            }
        }
        let row = TrackedFile {
            id,
            real_path: copy_bytes(self.files[idx].real_path.as_slice()),
            size,
            mtime,
            link_target: copy_bytes(self.files[idx].real_path.as_slice()),
        };
        self.files.set(idx, row);
        proof {
            let before = old(self)@;
            let after = self@;
            assert(after.files =~= before.refreshed(id, size, mtime).files);
            assert(after.tags == before.tags);
            assert forall|i: int| 0 <= i < after.files.len() implies (#[trigger] after.files[i]).id
                == before.files[i].id && after.files[i].real_path == before.files[i].real_path by {}
            assert forall|i: int, j: int| 0 <= i < j < after.files.len() implies (
            #[trigger] after.files[i]).id < (#[trigger] after.files[j]).id
                && after.files[i].real_path != after.files[j].real_path by {
                assert(before.files[i].id < before.files[j].id);
            }
            assert forall|i: int| 0 <= i < after.files.len() implies 0 < (
            #[trigger] after.files[i]).id < after.next_file_id by {
                assert(0 < before.files[i].id);
            }
            assert forall|p: (u64, u64)| #[trigger] after.assignments.contains(p) implies
                after.has_file(p.0) && after.has_tag(p.1) by {
                assert(before.assignments.contains(p));
                let k = before.file_index(p.0);
                assert(after.files[k].id == before.files[k].id);
            }
            let c = after.file_index(id);
            assert(after.files[idx as int].id == id);
            if c < idx {
                assert(after.files[c].id < after.files[idx as int].id);
            } else if idx < c {
                assert(after.files[idx as int].id < after.files[c].id);
            }
        }
        Ok(())
    }

    /// Stops tracking a file and detaches its assignments. The underlying
    /// file is not touched.
    pub fn forget_file(&mut self, id: u64) -> (r: Result<(), FsError>)
        requires
            old(self).wf(),
        ensures
            final(self).wf(),
            r == if old(self)@.has_file(id) {
                Ok::<(), FsError>(())
            } else {
                Err(FsError::NoSuchEntry)
            },
            final(self)@ == if r.is_ok() {
                old(self)@.without_file(id)
            } else {
                old(self)@
            },
    {
        let idx = match self.find_file_by_id(id) {
            Some(i) => i,
            None => {
                return Err(FsError::NoSuchEntry);
            },
        };
        proof {
            let v = self@;
            assert(v.files[idx as int] == self.files[idx as int]@);
            let c = v.file_index(id);
            if c < idx {
                assert(v.files[c].id < v.files[idx as int].id);
            } else if idx < c {
                assert(v.files[idx as int].id < v.files[c].id);
            }
        }
        self.drop_assignments(Some(id), None);
        let ghost mid = self@;
        self.files.remove(idx);
        proof {
            let before = old(self)@;
            let after = self@;
            assert(before.file_index(id) == idx);
            assert(after.files =~= before.files.remove(idx as int));
            assert(after.tags == before.tags);
            assert(after.assignments == mid.assignments);
            assert(mid.assignments =~= before.assignments.filter(|p: (u64, u64)| p.0 != id));
            assert(after.assignments == before.without_file(id).assignments);
            assert(after.files == before.without_file(id).files);
            assert(after == before.without_file(id));
            assert forall|p: (u64, u64)| #[trigger] after.assignments.contains(p) implies
                after.has_file(p.0) && after.has_tag(p.1) by {
                assert(before.assignments.contains(p));
                assert(p.0 != id);
                assert(before.has_file(p.0));
                let k = before.file_index(p.0);
                assert(before.files[k].id == p.0);
                assert(k != idx);
                if k < idx {
                    assert(after.files[k] == before.files[k]);
                } else {
                    assert(after.files[k - 1] == before.files[k]);
                }
            }
            assert forall|i: int, j: int| 0 <= i < j < after.files.len() implies (
            #[trigger] after.files[i]).id < (#[trigger] after.files[j]).id
                && after.files[i].real_path != after.files[j].real_path by {
                let oi = if i < idx { i } else { i + 1 };
                let oj = if j < idx { j } else { j + 1 };
                assert(after.files[i] == before.files[oi]);
                assert(after.files[j] == before.files[oj]);
            }
            assert forall|i: int| 0 <= i < after.files.len() implies 0 < (
            #[trigger] after.files[i]).id < after.next_file_id by {
                let oi = if i < idx { i } else { i + 1 };
                assert(after.files[i] == before.files[oi]);
            }
        }
        Ok(())
    }

    /// Assigns a tag to a file.
    ///
    /// Fails with `NoSuchEntry` when the file is not tracked, with
    /// `UnknownTag` when the tag does not exist, and with `AlreadyExists`
    /// when the file carries the tag already: an assignment is never recorded
    /// twice. The store changes only on success.
    pub fn assign(&mut self, file: u64, tag: u64) -> (r: Result<(), FsError>)
        requires
            old(self).wf(),
        ensures
            final(self).wf(),
            r == old(self)@.assign_result(file, tag),
            final(self)@ == if r.is_ok() {
                old(self)@.with_assignment(file, tag)
            } else {
                old(self)@
            },
    {
        match self.find_file_by_id(file) {
            Some(i) => {
                assert(self@.files[i as int] == self.files[i as int]@);
            },
            None => {
                return Err(FsError::NoSuchEntry);
            },
        }
        if !self.contains_tag(tag) {
            return Err(FsError::UnknownTag);
        }
        if self.is_assigned(file, tag) {
            return Err(FsError::AlreadyExists);
        }
        self.assignments.push((file, tag));
        proof {
            let before = old(self)@;
            let after = self@;
            let rows = old(self).assignments@;
            assert(self.assignments@ =~= rows.push((file, tag)));
            assert forall|p: (u64, u64)| after.assignments.contains(p)
                <==> before.assignments.insert((file, tag)).contains(p) by {
                if after.assignments.contains(p) {
                    let k = choose|k: int|
                        0 <= k < self.assignments.len() && self.assignments[k] == p;
                    if k < rows.len() {
                        assert(rows[k] == p);
                    }
                }
                if before.assignments.contains(p) {
                    let k = choose|k: int| 0 <= k < rows.len() && rows[k] == p;
                    assert(self.assignments[k] == p);
                }
                if p == (file, tag) {
                    assert(self.assignments[rows.len() as int] == p);
                }
            }
            assert(after.assignments =~= before.assignments.insert((file, tag)));
            lemma_wf_frame(before, after);
        }
        Ok(())
    }

    /// Takes a tag from a file. Fails with `NoSuchEntry` when the file does
    /// not carry the tag. The store changes only on success.
    pub fn unassign(&mut self, file: u64, tag: u64) -> (r: Result<(), FsError>)
        requires
            old(self).wf(),
        ensures
            final(self).wf(),
            r == if old(self)@.assigned(file, tag) {
                Ok::<(), FsError>(())
            } else {
                Err(FsError::NoSuchEntry)
            },
            final(self)@ == if r.is_ok() {
                old(self)@.without_assignment(file, tag)
            } else {
                old(self)@
            },
    {
        if !self.is_assigned(file, tag) {
            return Err(FsError::NoSuchEntry);
        }
        self.drop_assignments(Some(file), Some(tag));
        proof {
            assert(self@.assignments =~= old(self)@.assignments.remove((file, tag)));
        }
        Ok(())
    }

    /// Takes every tag from a file. The file stays tracked.
    pub fn untag(&mut self, file: u64)
        requires
            old(self).wf(),
        ensures
            final(self).wf(),
            final(self)@ == old(self)@.without_tags_of(file),
    {
        self.drop_assignments(Some(file), None);
        proof {
            assert(self@.assignments =~= old(self)@.without_tags_of(file).assignments);
        }
    }

    /// Raises the schema version. The version never goes down: a version that
    /// is not above the persisted one changes nothing.
    pub fn advance_schema(&mut self, version: u32) -> (advanced: bool)
        requires
            old(self).wf(),
        ensures
            final(self).wf(),
            advanced == (version > old(self)@.schema_version),
            final(self)@ == if advanced {
                old(self)@.at_version(version)
            } else {
                old(self)@
            },
    {
        if version > self.schema_version {
            self.schema_version = version;
            proof {
                lemma_wf_frame(old(self)@, self@);
            }
            true
        } else {
            false
        }
    }

    /// A copy of the store, to go back to when a transaction fails.
    pub fn snapshot(&self) -> (copy: Store)
        requires
            self.wf(),
        ensures
            copy.wf(),
            copy@ == self@,
    {
        let mut tags: Vec<Tag> = Vec::new();
        let mut i: usize = 0;
        while i < self.tags.len()
            invariant
                i <= self.tags.len(),
                tags.len() == i,
                tag_rows(tags@) == tag_rows(self.tags@).take(i as int),
            decreases self.tags.len() - i,
        {
            let row = &self.tags[i];
            let ghost prev = tags@;
            tags.push(Tag { id: row.id, name: copy_bytes(row.name.as_slice()) });
            i += 1;
            proof {
                let want = tag_rows(self.tags@).take(i as int);
                assert forall|m: int| 0 <= m < want.len() implies tag_rows(tags@)[m] == want[m] by {
                    if m < i - 1 {
                        assert(tags@[m] == prev[m]);
                        assert(tag_rows(prev)[m] == tag_rows(self.tags@).take(i - 1)[m]);
                    }
                }
                assert(tag_rows(tags@) =~= want);
            }
        }
        assert(tag_rows(self.tags@).take(self.tags.len() as int) =~= tag_rows(self.tags@));
        let mut files: Vec<TrackedFile> = Vec::new();
        let mut j: usize = 0;
        while j < self.files.len()
            invariant
                j <= self.files.len(),
                files.len() == j,
                file_rows(files@) == file_rows(self.files@).take(j as int),
            decreases self.files.len() - j,
        {
            let row = &self.files[j];
            let ghost prev = files@;
            files.push(
                TrackedFile {
                    id: row.id,
                    real_path: copy_bytes(row.real_path.as_slice()),
                    size: row.size,
                    mtime: row.mtime,
                    link_target: copy_bytes(row.link_target.as_slice()),
                },
            );
            j += 1;
            proof {
                let want = file_rows(self.files@).take(j as int);
                assert forall|m: int| 0 <= m < want.len() implies file_rows(files@)[m]
                    == want[m] by {
                    if m < j - 1 {
                        assert(files@[m] == prev[m]);
                        assert(file_rows(prev)[m] == file_rows(self.files@).take(j - 1)[m]);
                    }
                }
                assert(file_rows(files@) =~= want);
            }
        }
        assert(file_rows(self.files@).take(self.files.len() as int) =~= file_rows(self.files@));
        let mut assignments: Vec<(u64, u64)> = Vec::new();
        let mut k: usize = 0;
        while k < self.assignments.len()
            invariant
                k <= self.assignments.len(),
                assignments@ == self.assignments@.take(k as int),
            decreases self.assignments.len() - k,
        {
            assignments.push(self.assignments[k]);
            k += 1;
            assert(assignments@ =~= self.assignments@.take(k as int));
        }
        assert(self.assignments@.take(self.assignments.len() as int) =~= self.assignments@);
        Store {
            schema_version: self.schema_version,
            tags,
            files,
            assignments,
            next_tag_id: self.next_tag_id,
            next_file_id: self.next_file_id,
        }
    }
}

} // verus!
