//! From paths to tags and files, and back.
//!
//! A path names a sequence of tags and, perhaps, a leaf. The files of a
//! sequence of tags are those that carry every tag of it; the order of the
//! tags does not matter. A directory lists the tags that narrow it further
//! and the files that it holds.

use crate::errors::FsError;
use crate::names::{
    base_name, base_name_of, copy_bytes, dot, dot_dot, has_byte, is_dots, is_segment,
    lemma_marked_has_mark, lemma_marked_injective, lemma_marked_no_slash,
    lemma_segments_are_segments, mark_name, marked, same_bytes, segments, split_path, views, DOT,
    MARK,
};
use crate::store::{file_rows, tag_name_ok, tag_rows, Store, StoreView};
use vstd::prelude::*;

verus! {

/// Each element is below the next.
pub open spec fn increasing(ids: Seq<u64>) -> bool {
    forall|i: int, j: int| 0 <= i < j < ids.len() ==> ids[i] < ids[j]
}

impl StoreView {
    /// The file is in the directory of the tag sequence: it carries every tag
    /// of the sequence. The directory of the empty sequence, the root, holds
    /// the files that carry at least one tag.
    pub open spec fn visible(self, tags: Seq<u64>, file: u64) -> bool {
        &&& self.has_file(file)
        &&& self.carries_all(file, tags)
        &&& tags.len() == 0 ==> self.tagged(file)
    }

    /// The tag narrows the directory of the tag sequence: it is not on the
    /// path yet, and a file of the directory carries it.
    pub open spec fn narrows(self, tags: Seq<u64>, tag: u64) -> bool {
        &&& self.has_tag(tag)
        &&& !tags.contains(tag)
        &&& exists|f: u64| #[trigger] self.visible(tags, f) && self.assigned(f, tag)
    }

    /// `files` is the resolution of the tag sequence: the ids of the files of
    /// its directory, in increasing order.
    pub open spec fn resolves(self, tags: Seq<u64>, files: Seq<u64>) -> bool {
        &&& increasing(files)
        &&& forall|f: u64| files.contains(f) <==> self.visible(tags, f)
    }

    /// `next` are the tags that narrow the directory of the tag sequence, in
    /// increasing order.
    pub open spec fn narrowed_by(self, tags: Seq<u64>, next: Seq<u64>) -> bool {
        &&& increasing(next)
        &&& forall|t: u64| next.contains(t) <==> self.narrows(tags, t)
    }

    /// The name of the tag with this id.
    pub open spec fn tag_name(self, id: u64) -> Seq<u8> {
        self.tags[self.tag_index(id)].name
    }

    /// The base name of the real path of a file.
    pub open spec fn base_of(self, file: u64) -> Seq<u8> {
        base_name(self.file(file).real_path)
    }

    /// Another file of the directory has the same base name.
    pub open spec fn shares_base(self, tags: Seq<u64>, file: u64) -> bool {
        exists|g: u64|
            g != file && #[trigger] self.visible(tags, g) && self.base_of(g) == self.base_of(file)
    }

    /// Whether the leaf name of a file in a directory is its base name
    /// followed by the mark and its id. It is where the base name alone would
    /// not do: it could not be the name of a tag, it is the name of a tag, or
    /// another file of the directory has it too.
    pub open spec fn needs_mark(self, tags: Seq<u64>, file: u64) -> bool {
        ||| !tag_name_ok(self.base_of(file))
        ||| self.has_tag_named(self.base_of(file))
        ||| self.shares_base(tags, file)
    }

    /// The name under which a file appears in a directory.
    pub open spec fn leaf_name(self, tags: Seq<u64>, file: u64) -> Seq<u8> {
        if self.needs_mark(tags, file) {
            marked(self.base_of(file), file)
        } else {
            self.base_of(file)
        }
    }

    /// Every name is the name of a tag.
    pub open spec fn all_known(self, names: Seq<Seq<u8>>) -> bool {
        forall|k: int| 0 <= k < names.len() ==> self.has_tag_named(#[trigger] names[k])
    }

    /// The ids of the tags with these names, in the same order.
    pub open spec fn ids_of(self, names: Seq<Seq<u8>>) -> Seq<u64> {
        Seq::new(names.len(), |k: int| self.tag_named(names[k]).unwrap())
    }

    /// A file of the directory appears in it under this name.
    pub open spec fn has_leaf(self, tags: Seq<u64>, name: Seq<u8>) -> bool {
        exists|f: u64| #[trigger] self.visible(tags, f) && self.leaf_name(tags, f) == name
    }

    /// The file that appears in the directory under this name.
    pub open spec fn leaf(self, tags: Seq<u64>, name: Seq<u8>) -> u64 {
        choose|f: u64| #[trigger] self.visible(tags, f) && self.leaf_name(tags, f) == name
    }

    /// What a path names.
    ///
    /// All segments but the last name tags; one that names none makes the
    /// tag unknown. The last segment names a tag, and the path a directory,
    /// or it is the name of a leaf in the directory of the segments before
    /// it; where it is neither, there is no such entry. The path without any
    /// segment names the root.
    pub open spec fn resolution(self, path: Seq<u8>) -> Result<NodeView, FsError> {
        let segs = segments(path);
        if segs.len() == 0 {
            Ok(NodeView::Directory { tags: Seq::empty() })
        } else if !self.all_known(segs.drop_last()) {
            Err(FsError::UnknownTag)
        } else if self.has_tag_named(segs.last()) {
            Ok(NodeView::Directory { tags: self.ids_of(segs) })
        } else if self.has_leaf(self.ids_of(segs.drop_last()), segs.last()) {
            Ok(
                NodeView::Leaf {
                    tags: self.ids_of(segs.drop_last()),
                    file: self.leaf(self.ids_of(segs.drop_last()), segs.last()),
                },
            )
        } else {
            Err(FsError::NoSuchEntry)
        }
    }
}

/// What a path names, as a mathematical value.
pub enum NodeView {
    /// The directory of a tag sequence.
    Directory { tags: Seq<u64> },
    /// A file in the directory of a tag sequence.
    Leaf { tags: Seq<u64>, file: u64 },
}

/// What a path names.
pub enum Node {
    /// The directory of a tag sequence, given by the ids of its tags in the
    /// order of the path.
    Directory { tags: Vec<u64> },
    /// A file in the directory of a tag sequence.
    Leaf { tags: Vec<u64>, file: u64 },
}

impl View for Node {
    type V = NodeView;

    open spec fn view(&self) -> NodeView {
        match self {
            Node::Directory { tags } => NodeView::Directory { tags: tags@ },
            Node::Leaf { tags, file } => NodeView::Leaf { tags: tags@, file: *file },
        }
    }
}

/// One entry of a directory: the id of a tag or of a file, and the name under
/// which it appears.
pub struct Entry {
    pub id: u64,
    pub name: Vec<u8>,
}

/// The entries of a directory: the tags that narrow it, then its files, each
/// in the order of their ids.
pub struct Listing {
    pub tags: Vec<Entry>,
    pub files: Vec<Entry>,
}

/// The ids of a sequence of entries.
pub open spec fn entry_ids(entries: Seq<Entry>) -> Seq<u64> {
    Seq::new(entries.len(), |i: int| entries[i].id)
}

/// The names of a sequence of entries.
pub open spec fn entry_names(entries: Seq<Entry>) -> Seq<Seq<u8>> {
    Seq::new(entries.len(), |i: int| entries[i].name@)
}

impl Listing {
    /// The listing is that of the directory of the tag sequence.
    pub open spec fn lists(&self, s: StoreView, tags: Seq<u64>) -> bool {
        &&& s.narrowed_by(tags, entry_ids(self.tags@))
        &&& forall|k: int|
            0 <= k < self.tags.len() ==> (#[trigger] self.tags[k]).name@ == s.tag_name(
                self.tags[k].id,
            )
        &&& s.resolves(tags, entry_ids(self.files@))
        &&& forall|k: int|
            0 <= k < self.files.len() ==> (#[trigger] self.files[k]).name@ == s.leaf_name(
                tags,
                self.files[k].id,
            )
    }

    /// Every name of the listing: those of the current and of the parent
    /// view, those of the tags, those of the files.
    pub open spec fn all_names(&self) -> Seq<Seq<u8>> {
        seq![dot(), dot_dot()] + entry_names(self.tags@) + entry_names(self.files@)
    }
}

/// Two increasing sequences with the same elements are the same sequence.
pub proof fn lemma_increasing_unique(a: Seq<u64>, b: Seq<u64>)
    requires
        increasing(a),
        increasing(b),
        forall|x: u64| a.contains(x) <==> b.contains(x),
    ensures
        a == b,
    decreases a.len(),
{
    if a.len() == 0 {
        if b.len() > 0 {
            assert(b.contains(b[0]));
        }
        assert(a =~= b);
    } else {
        let last = a.last();
        assert(a.contains(last));
        assert(b.contains(last));
        if b.len() == 0 {
            assert(false);
        }
        let bl = b.last();
        assert(b.contains(bl));
        assert(a.contains(bl));
        let ia = choose|i: int| 0 <= i < a.len() && a[i] == bl;
        let ib = choose|i: int| 0 <= i < b.len() && b[i] == last;
        assert(bl <= last) by {
            if ia < a.len() - 1 {
                assert(a[ia] < a[a.len() - 1]);
            }
        }
        assert(last <= bl) by {
            if ib < b.len() - 1 {
                assert(b[ib] < b[b.len() - 1]);
            }
        }
        let a0 = a.drop_last();
        let b0 = b.drop_last();
        assert forall|x: u64| a0.contains(x) <==> b0.contains(x) by {
            if a0.contains(x) {
                let i = choose|i: int| 0 <= i < a0.len() && a0[i] == x;
                assert(a[i] == x);
                assert(a[i] < a[a.len() - 1]);
                assert(b.contains(x));
                let j = choose|j: int| 0 <= j < b.len() && b[j] == x;
                assert(j < b.len() - 1);
                assert(b0[j] == x);
            }
            if b0.contains(x) {
                let i = choose|i: int| 0 <= i < b0.len() && b0[i] == x;
                assert(b[i] == x);
                assert(b[i] < b[b.len() - 1]);
                assert(a.contains(x));
                let j = choose|j: int| 0 <= j < a.len() && a[j] == x;
                assert(j < a.len() - 1);
                assert(a0[j] == x);
            }
        }
        lemma_increasing_unique(a0, b0);
        assert(a =~= a0.push(last));
        assert(b =~= b0.push(bl));
    }
}

/// Which files a directory holds depends on the set of the tags on its path,
/// not on their order or on how often one is named.
pub proof fn lemma_visible_ignores_order(s: StoreView, t1: Seq<u64>, t2: Seq<u64>, file: u64)
    requires
        t1.to_set() == t2.to_set(),
    ensures
        s.visible(t1, file) == s.visible(t2, file),
{
    assert forall|a: Seq<u64>, b: Seq<u64>|
        a.to_set() == b.to_set() && s.visible(a, file) implies s.visible(b, file) by {
        assert forall|k: int| 0 <= k < b.len() implies s.assigned(file, #[trigger] b[k]) by {
            assert(b.to_set().contains(b[k]));
            assert(a.contains(b[k]));
        }
        if b.len() == 0 && a.len() > 0 {
            assert(a.to_set().contains(a[0]));
            assert(b.contains(a[0]));
        }
    }
}

/// A file appears in the directory of a sequence of tags that is not empty
/// exactly if it carries every tag of the sequence.
pub proof fn lemma_member_iff_carries_all(s: StoreView, tags: Seq<u64>, files: Seq<u64>, file: u64)
    requires
        s.wf(),
        tags.len() > 0,
        s.resolves(tags, files),
    ensures
        files.contains(file) <==> s.carries_all(file, tags),
{
    if s.carries_all(file, tags) {
        assert(s.assigned(file, tags[0]));
        assert(s.assignments.contains((file, tags[0])));
    }
}

/// Any two orders of the same tags resolve to the same files.
pub proof fn lemma_resolution_ignores_order(
    s: StoreView,
    t1: Seq<u64>,
    t2: Seq<u64>,
    r1: Seq<u64>,
    r2: Seq<u64>,
)
    requires
        t1.to_set() == t2.to_set(),
        s.resolves(t1, r1),
        s.resolves(t2, r2),
    ensures
        r1 == r2,
{
    assert forall|f: u64| r1.contains(f) <==> r2.contains(f) by {
        lemma_visible_ignores_order(s, t1, t2, f);
    }
    lemma_increasing_unique(r1, r2);
}

/// Whether a file carries at least one tag.
pub fn is_tagged(store: &Store, file: u64) -> (tagged: bool)
    requires
        store.wf(),
    ensures
        tagged == store@.tagged(file),
{
    let rows = store.assignments();
    let mut i: usize = 0;
    while i < rows.len()
        invariant
            i <= rows.len(),
            rows@.to_set() == store@.assignments,
            forall|k: int| 0 <= k < i ==> (#[trigger] rows[k]).0 != file,
        decreases rows.len() - i,
    {
        if rows[i].0 == file {
            proof {
                let row = rows[i as int];
                assert(rows@.contains(row));
                assert(store@.assigned(file, row.1));
            }
            return true;
        }
        i += 1;
    }
    proof {
        if store@.tagged(file) {
            let t = choose|t: u64| #[trigger] store@.assigned(file, t);
            assert(rows@.contains((file, t)));
            let k = choose|k: int| 0 <= k < rows.len() && rows[k] == (file, t);
            assert(rows[k].0 == file);
        }
    }
    false
}

/// Whether a file carries every tag of a sequence.
pub fn carries_all(store: &Store, file: u64, tags: &[u64]) -> (all: bool)
    ensures
        all == store@.carries_all(file, tags@),
{
    let mut k: usize = 0;
    while k < tags.len()
        invariant
            k <= tags.len(),
            forall|m: int| 0 <= m < k ==> store@.assigned(file, #[trigger] tags@[m]),
        decreases tags.len() - k,
    {
        if !store.is_assigned(file, tags[k]) {
            return false;
        }
        k += 1;
    }
    true
}

/// Whether a tracked file is in the directory of a tag sequence.
fn in_directory(store: &Store, tags: &[u64], file: u64) -> (yes: bool)
    requires
        store.wf(),
        store@.has_file(file),
    ensures
        yes == store@.visible(tags@, file),
{
    if !carries_all(store, file, tags) {
        return false;
    }
    if tags.len() == 0 {
        is_tagged(store, file)
    } else {
        true
    }
}

/// Resolves a tag sequence: the ids of the files that carry every tag of it,
/// in increasing order. The empty sequence resolves to the files that carry
/// at least one tag.
pub fn files_under(store: &Store, tags: &[u64]) -> (files: Vec<u64>)
    requires
        store.wf(),
    ensures
        store@.resolves(tags@, files@),
{
    let rows = store.files();
    let mut out: Vec<u64> = Vec::new();
    let mut i: usize = 0;
    while i < rows.len()
        invariant
            i <= rows.len(),
            store.wf(),
            file_rows(rows@) == store@.files,
            increasing(out@),
            forall|k: int| 0 <= k < out.len() ==> store@.visible(tags@, #[trigger] out[k]) && exists|
                m: int,
            | 0 <= m < i && rows[m].id == out[k],
            forall|m: int|
                0 <= m < i && store@.visible(tags@, (#[trigger] rows[m]).id) ==> out@.contains(
                    rows[m].id,
                ),
        decreases rows.len() - i,
    {
        let id = rows[i].id;
        proof {
            assert(store@.files[i as int] == rows[i as int]@);
        }
        if in_directory(store, tags, id) {
            let ghost before = out@;
            proof {
                assert forall|k: int| 0 <= k < before.len() implies before[k] < id by {
                    let m = choose|m: int| 0 <= m < i && rows[m].id == before[k];
                    assert(store@.files[m] == rows[m]@);
                    assert(store@.files[m].id < store@.files[i as int].id);
                }
            }
            out.push(id);
            proof {
                assert forall|m: int|
                    0 <= m < i + 1 && store@.visible(
                        tags@,
                        (#[trigger] rows[m]).id,
                    ) implies out@.contains(rows[m].id) by {
                    if m < i {
                        let k = choose|k: int| 0 <= k < before.len() && before[k] == rows[m].id;
                        assert(out@[k] == rows[m].id);
                    } else {
                        assert(out@[before.len() as int] == id);
                    }
                }
            }
        }
        i += 1;
    }
    proof {
        assert forall|f: u64| out@.contains(f) <==> store@.visible(tags@, f) by {
            if out@.contains(f) {
                let k = choose|k: int| 0 <= k < out.len() && out[k] == f;
                assert(store@.visible(tags@, out[k]));
            }
            if store@.visible(tags@, f) {
                let m = store@.file_index(f);
                assert(store@.files[m] == rows[m]@);
                assert(rows[m].id == f);
            }
        }
    }
    out
}

/// The row of a tag is the one at which its id stands.
pub proof fn lemma_tag_index(s: StoreView, i: int)
    requires
        s.wf(),
        0 <= i < s.tags.len(),
    ensures
        s.has_tag(s.tags[i].id),
        s.tag_index(s.tags[i].id) == i,
        s.tag_name(s.tags[i].id) == s.tags[i].name,
        s.has_tag_named(s.tags[i].name),
        s.tag_named(s.tags[i].name) == Some(s.tags[i].id),
{
    let c = s.tag_index(s.tags[i].id);
    if c < i {
        assert(s.tags[c].id < s.tags[i].id);
    } else if i < c {
        assert(s.tags[i].id < s.tags[c].id);
    }
    let d = choose|d: int| 0 <= d < s.tags.len() && (#[trigger] s.tags[d]).name == s.tags[i].name;
    if d < i {
        assert(s.tags[d].name != s.tags[i].name);
    } else if i < d {
        assert(s.tags[i].name != s.tags[d].name);
    }
}

/// A leaf name is one path segment, and is neither the name of the current or
/// of the parent view nor the name of a tag.
pub proof fn lemma_leaf_name_is_free(s: StoreView, tags: Seq<u64>, file: u64)
    requires
        s.wf(),
    ensures
        is_segment(s.leaf_name(tags, file)),
        s.leaf_name(tags, file) != dot(),
        s.leaf_name(tags, file) != dot_dot(),
        !s.has_tag_named(s.leaf_name(tags, file)),
{
    let base = s.base_of(file);
    let name = s.leaf_name(tags, file);
    lemma_segments_are_segments(s.file(file).real_path);
    if s.needs_mark(tags, file) {
        lemma_marked_has_mark(base, file);
        lemma_marked_no_slash(base, file);
        let k = choose|k: int| 0 <= k < name.len() && name[k] == MARK;
        if name == dot() || name == dot_dot() {
            assert(name[k] == DOT);
        }
        if s.has_tag_named(name) {
            let i = choose|i: int| 0 <= i < s.tags.len() && (#[trigger] s.tags[i]).name == name;
            assert(tag_name_ok(s.tags[i].name));
        }
    }
}

/// Two files of one directory appear in it under different names.
pub proof fn lemma_leaf_names_distinct(s: StoreView, tags: Seq<u64>, f: u64, g: u64)
    requires
        s.wf(),
        s.visible(tags, f),
        s.visible(tags, g),
        f != g,
    ensures
        s.leaf_name(tags, f) != s.leaf_name(tags, g),
{
    let bf = s.base_of(f);
    let bg = s.base_of(g);
    if s.needs_mark(tags, f) && s.needs_mark(tags, g) {
        if marked(bf, f) == marked(bg, g) {
            lemma_marked_injective(bf, f, bg, g);
        }
    } else if s.needs_mark(tags, f) {
        lemma_marked_has_mark(bf, f);
    } else if s.needs_mark(tags, g) {
        lemma_marked_has_mark(bg, g);
    } else {
        if bf == bg {
            assert(s.shares_base(tags, f));
        }
    }
}

/// No name stands twice in the listing of a directory.
pub proof fn lemma_listing_names_distinct(s: StoreView, tags: Seq<u64>, listing: Listing)
    requires
        s.wf(),
        listing.lists(s, tags),
    ensures
        listing.all_names().no_duplicates(),
{
    let names = listing.all_names();
    let nt = listing.tags.len() as int;
    let nf = listing.files.len() as int;
    let tag_ids = entry_ids(listing.tags@);
    let file_ids = entry_ids(listing.files@);
    assert(names.len() == 2 + nt + nf);
    assert(names[0] == dot());
    assert(names[1] == dot_dot());
    assert(dot().len() != dot_dot().len());
    assert forall|i: int| 2 <= i < 2 + nt implies {
        &&& #[trigger] names[i] == s.tag_name(tag_ids[i - 2])
        &&& s.has_tag(tag_ids[i - 2])
        &&& s.has_tag_named(names[i])
        &&& tag_name_ok(names[i])
    } by {
        let e = listing.tags[i - 2];
        assert(names[i] == e.name@);
        assert(tag_ids[i - 2] == e.id);
        assert(tag_ids.contains(tag_ids[i - 2]));
        assert(s.narrows(tags, e.id));
        let r = s.tag_index(e.id);
        lemma_tag_index(s, r);
    }
    assert forall|i: int| 2 + nt <= i < 2 + nt + nf implies {
        &&& #[trigger] names[i] == s.leaf_name(tags, file_ids[i - 2 - nt])
        &&& s.visible(tags, file_ids[i - 2 - nt])
        &&& names[i] != dot()
        &&& names[i] != dot_dot()
        &&& !s.has_tag_named(names[i])
    } by {
        let e = listing.files[i - 2 - nt];
        assert(names[i] == e.name@);
        assert(file_ids[i - 2 - nt] == e.id);
        assert(file_ids.contains(file_ids[i - 2 - nt]));
        lemma_leaf_name_is_free(s, tags, e.id);
    }
    assert forall|i: int, j: int| 0 <= i < j < names.len() implies names[i] != names[j] by {
        if j < 2 {
        } else if j < 2 + nt {
            if i >= 2 {
                assert(names[i] == s.tag_name(tag_ids[i - 2]));
                assert(names[j] == s.tag_name(tag_ids[j - 2]));
                assert(tag_ids[i - 2] < tag_ids[j - 2]);
                let ri = s.tag_index(tag_ids[i - 2]);
                let rj = s.tag_index(tag_ids[j - 2]);
                if ri < rj {
                    assert(s.tags[ri].name != s.tags[rj].name);
                } else if rj < ri {
                    assert(s.tags[rj].name != s.tags[ri].name);
                }
            }
        } else {
            assert(names[j] == s.leaf_name(tags, file_ids[j - 2 - nt]));
            if i >= 2 + nt {
                assert(names[i] == s.leaf_name(tags, file_ids[i - 2 - nt]));
                assert(file_ids[i - 2 - nt] < file_ids[j - 2 - nt]);
                lemma_leaf_names_distinct(s, tags, file_ids[i - 2 - nt], file_ids[j - 2 - nt]);
            }
        }
    }
}

/// Whether an id stands in a sequence of ids.
pub fn contains_id(ids: &[u64], id: u64) -> (found: bool)
    ensures
        found == ids@.contains(id),
{
    let mut i: usize = 0;
    while i < ids.len()
        invariant
            i <= ids.len(),
            forall|k: int| 0 <= k < i ==> ids[k] != id,
        decreases ids.len() - i,
    {
        if ids[i] == id {
            return true;
        }
        i += 1;
    }
    false
}

/// Whether one of the files carries the tag.
fn any_carries(store: &Store, files: &Vec<u64>, tag: u64) -> (found: bool)
    ensures
        found == exists|k: int| 0 <= k < files.len() && store@.assigned(#[trigger] files[k], tag),
{
    let mut i: usize = 0;
    while i < files.len()
        invariant
            i <= files.len(),
            forall|k: int| 0 <= k < i ==> !store@.assigned(#[trigger] files[k], tag),
        decreases files.len() - i,
    {
        if store.is_assigned(files[i], tag) {
            return true;
        }
        i += 1;
    }
    false
}

/// Whether another file of the directory has the base name.
fn shares_base_in(store: &Store, tags: &[u64], files: &Vec<u64>, file: u64, base: &[u8]) -> (shared:
    bool)
    requires
        store.wf(),
        store@.resolves(tags@, files@),
        base@ == store@.base_of(file),
    ensures
        shared == store@.shares_base(tags@, file),
{
    let mut i: usize = 0;
    while i < files.len()
        invariant
            i <= files.len(),
            store.wf(),
            store@.resolves(tags@, files@),
            base@ == store@.base_of(file),
            forall|k: int|
                0 <= k < i && #[trigger] files[k] != file ==> store@.base_of(files[k]) != base@,
        decreases files.len() - i,
    {
        let g = files[i];
        proof {
            assert(files@.contains(g));
            assert(store@.visible(tags@, g));
        }
        if g != file {
            match store.file(g) {
                Some(row) => {
                    let other = base_name_of(row.real_path.as_slice());
                    if same_bytes(other.as_slice(), base) {
                        return true;
                    }
                },
                None => {},
            }
        }
        i += 1;
    }
    proof {
        if store@.shares_base(tags@, file) {
            let g = choose|g: u64|
                g != file && #[trigger] store@.visible(tags@, g) && store@.base_of(g)
                    == store@.base_of(file);
            assert(files@.contains(g));
            let k = choose|k: int| 0 <= k < files.len() && files[k] == g;
            assert(files[k] != file);
        }
    }
    false
}

/// The name under which a file appears in a directory of which the files are
/// known.
fn leaf_name_in(store: &Store, tags: &[u64], files: &Vec<u64>, file: u64) -> (name: Vec<u8>)
    requires
        store.wf(),
        store@.resolves(tags@, files@),
        store@.has_file(file),
    ensures
        name@ == store@.leaf_name(tags@, file),
{
    let row = match store.file(file) {
        Some(row) => row,
        None => {
            return Vec::new();
        },
    };
    let base = base_name_of(row.real_path.as_slice());
    proof {
        lemma_segments_are_segments(row.real_path@);
    }
    let plain = base.len() > 0 && !has_byte(base.as_slice(), MARK) && !is_dots(base.as_slice());
    let marks = !plain || store.tag_id(base.as_slice()).is_some() || shares_base_in(
        store,
        tags,
        files,
        file,
        base.as_slice(),
    );
    if marks {
        mark_name(base.as_slice(), file)
    } else {
        base
    }
}

/// The name under which a file appears in the directory of a tag sequence:
/// its base name, or its base name with the mark and its id where the base
/// name alone could be taken for something else.
pub fn leaf_name(store: &Store, tags: &[u64], file: u64) -> (name: Option<Vec<u8>>)
    requires
        store.wf(),
    ensures
        name.is_some() == store@.has_file(file),
        name matches Some(n) ==> n@ == store@.leaf_name(tags@, file),
{
    if store.file(file).is_none() {
        return None;
    }
    let files = files_under(store, tags);
    Some(leaf_name_in(store, tags, &files, file))
}

/// The file that appears under a name among the files of a directory.
fn find_leaf(store: &Store, tags: &[u64], files: &Vec<u64>, name: &[u8]) -> (found: Option<u64>)
    requires
        store.wf(),
        store@.resolves(tags@, files@),
    ensures
        found.is_some() == store@.has_leaf(tags@, name@),
        found matches Some(f) ==> f == store@.leaf(tags@, name@),
{
    let mut i: usize = 0;
    while i < files.len()
        invariant
            i <= files.len(),
            store.wf(),
            store@.resolves(tags@, files@),
            forall|k: int| 0 <= k < i ==> store@.leaf_name(tags@, #[trigger] files[k]) != name@,
        decreases files.len() - i,
    {
        let f = files[i];
        proof {
            assert(files@.contains(f));
            assert(store@.visible(tags@, f));
        }
        let leaf = leaf_name_in(store, tags, files, f);
        if same_bytes(leaf.as_slice(), name) {
            proof {
                let c = store@.leaf(tags@, name@);
                if c != f {
                    lemma_leaf_names_distinct(store@, tags@, c, f);
                }
            }
            return Some(f);
        }
        i += 1;
    }
    proof {
        if store@.has_leaf(tags@, name@) {
            let f = store@.leaf(tags@, name@);
            assert(files@.contains(f));
            let k = choose|k: int| 0 <= k < files.len() && files[k] == f;
            assert(store@.leaf_name(tags@, files[k]) == name@);
        }
    }
    None
}

/// The ids of the tags with the given names, or nothing where a name is not
/// the name of a tag.
pub fn tag_ids(store: &Store, names: &Vec<Vec<u8>>) -> (ids: Option<Vec<u64>>)
    requires
        store.wf(),
    ensures
        ids.is_some() == store@.all_known(views(names@)),
        ids matches Some(v) ==> v@ == store@.ids_of(views(names@)),
{
    let mut out: Vec<u64> = Vec::new();
    let mut i: usize = 0;
    while i < names.len()
        invariant
            i <= names.len(),
            store.wf(),
            out.len() == i,
            forall|k: int| 0 <= k < i ==> store@.tag_named(#[trigger] views(names@)[k]) == Some(out[k]),
        decreases names.len() - i,
    {
        assert(views(names@)[i as int] == names[i as int]@);
        match store.tag_id(names[i].as_slice()) {
            Some(id) => {
                out.push(id);
            },
            None => {
                return None;
            },
        }
        i += 1;
    }
    proof {
        assert(out@ =~= store@.ids_of(views(names@)));
    }
    Some(out)
}

/// Resolves a path to the directory or the leaf that it names.
pub fn resolve_path(store: &Store, path: &[u8]) -> (r: Result<Node, FsError>)
    requires
        store.wf(),
    ensures
        match r {
            Ok(node) => store@.resolution(path@) == Ok::<NodeView, FsError>(node@),
            Err(e) => store@.resolution(path@) == Err::<NodeView, FsError>(e),
        },
{
    let mut segs = split_path(path);
    let ghost all = views(segs@);
    let last = match segs.pop() {
        Some(last) => last,
        None => {
            return Ok(Node::Directory { tags: Vec::new() });
        },
    };
    proof {
        assert(views(segs@) =~= all.drop_last());
        assert(last@ == all.last());
    }
    let mut ids = match tag_ids(store, &segs) {
        Some(ids) => ids,
        None => {
            return Err(FsError::UnknownTag);
        },
    };
    match store.tag_id(last.as_slice()) {
        Some(t) => {
            let ghost before = ids@;
            ids.push(t);
            proof {
                assert(ids@ =~= store@.ids_of(all)) by {
                    assert forall|k: int| 0 <= k < all.len() implies ids@[k] == store@.ids_of(
                        all,
                    )[k] by {
                        if k < all.len() - 1 {
                            assert(all[k] == all.drop_last()[k]);
                            assert(before[k] == store@.ids_of(all.drop_last())[k]);
                        }
                    }
                }
            }
            Ok(Node::Directory { tags: ids })
        },
        None => {
            let files = files_under(store, ids.as_slice());
            match find_leaf(store, ids.as_slice(), &files, last.as_slice()) {
                Some(file) => Ok(Node::Leaf { tags: ids, file }),
                None => Err(FsError::NoSuchEntry),
            }
        },
    }
}

/// Lists the directory of a tag sequence: the tags that narrow it, then the
/// files that it holds.
pub fn list_directory(store: &Store, tags: &[u64]) -> (listing: Listing)
    requires
        store.wf(),
    ensures
        listing.lists(store@, tags@),
{
    let files = files_under(store, tags);
    let rows = store.tags();
    let mut tag_entries: Vec<Entry> = Vec::new();
    let mut i: usize = 0;
    while i < rows.len()
        invariant
            i <= rows.len(),
            store.wf(),
            store@.resolves(tags@, files@),
            tag_rows(rows@) == store@.tags,
            increasing(entry_ids(tag_entries@)),
            forall|k: int|
                0 <= k < tag_entries.len() ==> {
                    &&& store@.narrows(tags@, (#[trigger] tag_entries[k]).id)
                    &&& tag_entries[k].name@ == store@.tag_name(tag_entries[k].id)
                    &&& exists|m: int| 0 <= m < i && rows[m].id == tag_entries[k].id
                },
            forall|m: int|
                0 <= m < i && store@.narrows(tags@, (#[trigger] rows[m]).id) ==> entry_ids(
                    tag_entries@,
                ).contains(rows[m].id),
        decreases rows.len() - i,
    {
        let id = rows[i].id;
        proof {
            assert(store@.tags[i as int] == rows[i as int]@);
            lemma_tag_index(store@, i as int);
        }
        let carried = any_carries(store, &files, id);
        proof {
            if carried {
                let k = choose|k: int|
                    0 <= k < files.len() && store@.assigned(#[trigger] files[k], id);
                assert(files@.contains(files[k]));
                assert(store@.visible(tags@, files[k]));
            }
            if exists|f: u64| #[trigger] store@.visible(tags@, f) && store@.assigned(f, id) {
                let f = choose|f: u64| #[trigger] store@.visible(tags@, f) && store@.assigned(f, id);
                assert(files@.contains(f));
                let k = choose|k: int| 0 <= k < files.len() && files[k] == f;
                assert(store@.assigned(files[k], id));
            }
        }
        if carried && !contains_id(tags, id) {
            let ghost before = tag_entries@;
            proof {
                assert forall|k: int| 0 <= k < before.len() implies before[k].id < id by {
                    let m = choose|m: int| 0 <= m < i && rows[m].id == before[k].id;
                    assert(store@.tags[m] == rows[m]@);
                    assert(store@.tags[m].id < store@.tags[i as int].id);
                }
            }
            tag_entries.push(Entry { id, name: copy_bytes(rows[i].name.as_slice()) });
            proof {
                let ids = entry_ids(tag_entries@);
                assert forall|a: int, b: int| 0 <= a < b < ids.len() implies ids[a] < ids[b] by {
                    assert(ids[a] == before[a].id);
                    if b < before.len() {
                        assert(entry_ids(before)[a] < entry_ids(before)[b]);
                    }
                }
                assert forall|m: int|
                    0 <= m < i + 1 && store@.narrows(
                        tags@,
                        (#[trigger] rows[m]).id,
                    ) implies ids.contains(rows[m].id) by {
                    if m < i {
                        let k = choose|k: int|
                            0 <= k < before.len() && entry_ids(before)[k] == rows[m].id;
                        assert(ids[k] == rows[m].id);
                    } else {
                        assert(ids[before.len() as int] == id);
                    }
                }
            }
        }
        i += 1;
    }
    proof {
        let ids = entry_ids(tag_entries@);
        assert forall|t: u64| ids.contains(t) <==> store@.narrows(tags@, t) by {
            if ids.contains(t) {
                let k = choose|k: int| 0 <= k < ids.len() && ids[k] == t;
                assert(store@.narrows(tags@, tag_entries[k].id));
            }
            if store@.narrows(tags@, t) {
                let m = store@.tag_index(t);
                assert(store@.tags[m] == rows[m]@);
                assert(rows[m].id == t);
            }
        }
    }
    let mut file_entries: Vec<Entry> = Vec::new();
    let mut j: usize = 0;
    while j < files.len()
        invariant
            j <= files.len(),
            store.wf(),
            store@.resolves(tags@, files@),
            file_entries.len() == j,
            forall|k: int|
                0 <= k < j ==> (#[trigger] file_entries[k]).id == files[k] && file_entries[k].name@
                    == store@.leaf_name(tags@, files[k]),
        decreases files.len() - j,
    {
        let f = files[j];
        proof {
            assert(files@.contains(f));
            assert(store@.visible(tags@, f));
        }
        let name = leaf_name_in(store, tags, &files, f);
        file_entries.push(Entry { id: f, name });
        j += 1;
    }
    proof {
        assert(entry_ids(file_entries@) =~= files@);
    }
    Listing { tags: tag_entries, files: file_entries }
}

impl Listing {
    /// Every name of the listing, in the order in which a directory is read:
    /// `.`, `..`, the tags, the files.
    pub fn names(&self) -> (names: Vec<Vec<u8>>)
        ensures
            views(names@) == self.all_names(),
    {
        let mut out: Vec<Vec<u8>> = Vec::new();
        let mut one: Vec<u8> = Vec::new();
        one.push(DOT);
        let mut two: Vec<u8> = Vec::new();
        two.push(DOT);
        two.push(DOT);
        assert(one@ =~= dot());
        assert(two@ =~= dot_dot());
        out.push(one);
        out.push(two);
        assert(views(out@) =~= seq![dot(), dot_dot()]);
        let mut i: usize = 0;
        while i < self.tags.len()
            invariant
                i <= self.tags.len(),
                views(out@) == seq![dot(), dot_dot()] + entry_names(self.tags@).take(i as int),
            decreases self.tags.len() - i,
        {
            let ghost before = views(out@);
            out.push(copy_bytes(self.tags[i].name.as_slice()));
            i += 1;
            proof {
                assert(views(out@) =~= before.push(self.tags[i - 1].name@));
                assert(views(out@) =~= seq![dot(), dot_dot()] + entry_names(self.tags@).take(
                    i as int,
                ));
            }
        }
        assert(entry_names(self.tags@).take(self.tags.len() as int) =~= entry_names(self.tags@));
        let ghost head = views(out@);
        let mut j: usize = 0;
        while j < self.files.len()
            invariant
                j <= self.files.len(),
                views(out@) == head + entry_names(self.files@).take(j as int),
            decreases self.files.len() - j,
        {
            let ghost before = views(out@);
            out.push(copy_bytes(self.files[j].name.as_slice()));
            j += 1;
            proof {
                assert(views(out@) =~= before.push(self.files[j - 1].name@));
                assert(views(out@) =~= head + entry_names(self.files@).take(j as int));
            }
        }
        assert(entry_names(self.files@).take(self.files.len() as int) =~= entry_names(
            self.files@,
        ));
        out
    }
}


/// A copy of a sequence of ids.
pub fn copy_ids(ids: &[u64]) -> (copy: Vec<u64>)
    ensures
        copy@ == ids@,
{
    let mut out: Vec<u64> = Vec::new();
    let mut i: usize = 0;
    while i < ids.len()
        invariant
            i <= ids.len(),
            out@ == ids@.take(i as int),
        decreases ids.len() - i,
    {
        out.push(ids[i]);
        i += 1;
        assert(out@ =~= ids@.take(i as int));
    }
    assert(ids@.take(ids.len() as int) =~= ids@);
    out
}

/// The file that appears under a name in the directory of a tag sequence.
pub fn leaf_named(store: &Store, tags: &[u64], name: &[u8]) -> (found: Option<u64>)
    requires
        store.wf(),
    ensures
        found.is_some() == store@.has_leaf(tags@, name@),
        found matches Some(f) ==> f == store@.leaf(tags@, name@) && store@.visible(tags@, f),
{
    let files = files_under(store, tags);
    find_leaf(store, tags, &files, name)
}

} // verus!
