//! Stable identities for the kernel.
//!
//! A directory is the same directory in whatever order its tags are named, so
//! its inode number is computed from the tags in increasing order, each taken
//! once. The root has the number one. The number of a file is computed from
//! the id of the file. A directory and a file never have the same number.

use crate::resolver::{increasing, lemma_increasing_unique, Node, NodeView};
use vstd::prelude::*;

verus! {

/// The inode number of the root.
pub const ROOT_INODE: u64 = 1;

/// The value from which the hash of a tag sequence starts.
pub const HASH_BASIS: u64 = 0xcbf2_9ce4_8422_2325;

/// The factor by which the hash is multiplied after each tag.
pub const HASH_PRIME: u64 = 0x0000_0100_0000_01b3;

/// The bit that tells the number of a directory from that of a file.
pub const DIRECTORY_BIT: u64 = 0x8000_0000_0000_0000;

/// How many numbers there are for files.
pub const FILE_SPAN: u64 = 0x7fff_ffff_ffff_fffe;

/// The place of a value in an increasing sequence that does not hold it: the
/// number of elements below it.
pub open spec fn rank(c: Seq<u64>, x: u64) -> int
    decreases c.len(),
{
    if c.len() == 0 {
        0
    } else if c.last() < x {
        c.len() as int
    } else {
        rank(c.drop_last(), x)
    }
}

/// An increasing sequence with one more value, if it did not hold it.
pub open spec fn inserted(c: Seq<u64>, x: u64) -> Seq<u64> {
    if c.contains(x) {
        c
    } else {
        c.insert(rank(c, x), x)
    }
}

/// The canonical form of a tag sequence: its tags in increasing order, each
/// once.
pub open spec fn canon(tags: Seq<u64>) -> Seq<u64>
    decreases tags.len(),
{
    if tags.len() == 0 {
        Seq::empty()
    } else {
        inserted(canon(tags.drop_last()), tags.last())
    }
}

/// One step of the hash.
pub open spec fn mix(h: u64, id: u64) -> u64 {
    vstd::wrapping::u64_specs::wrapping_mul(h ^ id, HASH_PRIME)
}

/// The hash of a sequence of ids.
pub open spec fn hash(ids: Seq<u64>) -> u64
    decreases ids.len(),
{
    if ids.len() == 0 {
        HASH_BASIS
    } else {
        mix(hash(ids.drop_last()), ids.last())
    }
}

/// The inode number of the directory of a tag sequence.
pub open spec fn directory_inode(tags: Seq<u64>) -> u64 {
    if tags.len() == 0 {
        ROOT_INODE
    } else {
        hash(canon(tags)) | DIRECTORY_BIT
    }
}

/// The inode number of a file.
pub open spec fn file_inode(file: u64) -> u64 {
    (2 + file % FILE_SPAN) as u64
}

/// The inode number of what a path names.
pub open spec fn inode(node: NodeView) -> u64 {
    match node {
        NodeView::Directory { tags } => directory_inode(tags),
        NodeView::Leaf { tags, file } => file_inode(file),
    }
}

/// The place of a value that an increasing sequence does not hold: all before
/// it are below the value, all from it on are above.
pub proof fn lemma_rank(c: Seq<u64>, x: u64)
    requires
        increasing(c),
        !c.contains(x),
    ensures
        0 <= rank(c, x) <= c.len(),
        forall|i: int| 0 <= i < rank(c, x) ==> c[i] < x,
        forall|i: int| rank(c, x) <= i < c.len() ==> x < c[i],
    decreases c.len(),
{
    if c.len() > 0 {
        let last = c.last();
        assert(c.contains(last));
        if last < x {
            assert forall|i: int| 0 <= i < c.len() implies c[i] < x by {
                if i < c.len() - 1 {
                    assert(c[i] < c[c.len() - 1]);
                }
            }
        } else {
            let head = c.drop_last();
            assert(increasing(head)) by {
                assert forall|i: int, j: int| 0 <= i < j < head.len() implies head[i] < head[j] by {
                    assert(c[i] < c[j]);
                }
            }
            assert(!head.contains(x)) by {
                if head.contains(x) {
                    let i = choose|i: int| 0 <= i < head.len() && head[i] == x;
                    assert(c[i] == x);
                }
            }
            lemma_rank(head, x);
            assert forall|i: int| 0 <= i < rank(c, x) implies c[i] < x by {
                assert(head[i] < x);
            }
            assert forall|i: int| rank(c, x) <= i < c.len() implies x < c[i] by {
                if i < c.len() - 1 {
                    assert(x < head[i]);
                }
            }
        }
    }
}

/// Inserting keeps a sequence increasing and adds the value to its elements.
pub proof fn lemma_inserted(c: Seq<u64>, x: u64)
    requires
        increasing(c),
    ensures
        increasing(inserted(c, x)),
        forall|y: u64| inserted(c, x).contains(y) <==> c.contains(y) || y == x,
{
    if !c.contains(x) {
        lemma_rank(c, x);
        let k = rank(c, x);
        let r = c.insert(k, x);
        assert forall|i: int, j: int| 0 <= i < j < r.len() implies r[i] < r[j] by {
            let oi = if i < k {
                i
            } else {
                i - 1
            };
            let oj = if j < k {
                j
            } else {
                j - 1
            };
            if i != k && j != k {
                assert(r[i] == c[oi]);
                assert(r[j] == c[oj]);
                assert(c[oi] < c[oj]);
            } else if i == k {
                assert(r[j] == c[oj]);
            } else {
                assert(r[i] == c[oi]);
            }
        }
        assert forall|y: u64| r.contains(y) <==> c.contains(y) || y == x by {
            if r.contains(y) {
                let i = choose|i: int| 0 <= i < r.len() && r[i] == y;
                if i < k {
                    assert(c[i] == y);
                } else if i > k {
                    assert(c[i - 1] == y);
                }
            }
            if c.contains(y) {
                let i = choose|i: int| 0 <= i < c.len() && c[i] == y;
                if i < k {
                    assert(r[i] == y);
                } else {
                    assert(r[i + 1] == y);
                }
            }
            if y == x {
                assert(r[k] == x);
            }
        }
    }
}

/// The canonical form is increasing and holds the tags of the sequence, no
/// more and no fewer.
pub proof fn lemma_canon(tags: Seq<u64>)
    ensures
        increasing(canon(tags)),
        forall|y: u64| canon(tags).contains(y) <==> tags.contains(y),
    decreases tags.len(),
{
    if tags.len() > 0 {
        let head = tags.drop_last();
        lemma_canon(head);
        lemma_inserted(canon(head), tags.last());
        assert forall|y: u64| canon(tags).contains(y) <==> tags.contains(y) by {
            if tags.contains(y) {
                let i = choose|i: int| 0 <= i < tags.len() && tags[i] == y;
                if i < head.len() {
                    assert(head[i] == y);
                }
            }
            if head.contains(y) {
                let i = choose|i: int| 0 <= i < head.len() && head[i] == y;
                assert(tags[i] == y);
            }
            if y == tags.last() {
                assert(tags[tags.len() - 1] == y);
            }
        }
    }
}

/// A directory keeps its inode number however the tags on the path to it are
/// ordered or repeated.
pub proof fn lemma_directory_inode_ignores_order(t1: Seq<u64>, t2: Seq<u64>)
    requires
        t1.to_set() == t2.to_set(),
    ensures
        canon(t1) == canon(t2),
        directory_inode(t1) == directory_inode(t2),
{
    lemma_canon(t1);
    lemma_canon(t2);
    assert forall|y: u64| canon(t1).contains(y) <==> canon(t2).contains(y) by {
        assert(t1.contains(y) <==> t1.to_set().contains(y));
        assert(t2.contains(y) <==> t2.to_set().contains(y));
    }
    lemma_increasing_unique(canon(t1), canon(t2));
    if t1.len() == 0 && t2.len() > 0 {
        assert(t2.to_set().contains(t2[0]));
        assert(t1.contains(t2[0]));
    }
    if t2.len() == 0 && t1.len() > 0 {
        assert(t1.to_set().contains(t1[0]));
        assert(t2.contains(t1[0]));
    }
}

/// The number of a file is not the number of any directory, and files whose
/// ids lie within the span of file numbers have different numbers.
pub proof fn lemma_inodes_apart(tags: Seq<u64>, f: u64, g: u64)
    ensures
        file_inode(f) != directory_inode(tags),
        2 <= file_inode(f) < DIRECTORY_BIT,
        f < FILE_SPAN && g < FILE_SPAN && f != g ==> file_inode(f) != file_inode(g),
{
    let h = hash(canon(tags));
    assert(h | 0x8000_0000_0000_0000u64 >= 0x8000_0000_0000_0000u64) by (bit_vector);
}

/// The tags of a sequence in increasing order, each once.
pub fn canonical(tags: &[u64]) -> (c: Vec<u64>)
    ensures
        c@ == canon(tags@),
{
    let mut out: Vec<u64> = Vec::new();
    let mut i: usize = 0;
    assert(tags@.take(0) =~= Seq::<u64>::empty());
    while i < tags.len()
        invariant
            i <= tags.len(),
            out@ == canon(tags@.take(i as int)),
        decreases tags.len() - i,
    {
        let x = tags[i];
        proof {
            lemma_canon(tags@.take(i as int));
            assert(tags@.take(i as int + 1).drop_last() =~= tags@.take(i as int));
        }
        let mut k: usize = 0;
        let mut present = false;
        while k < out.len()
            invariant_except_break
                !present,
                forall|m: int| 0 <= m < k ==> out[m] < x,
            invariant
                k <= out.len(),
                increasing(out@),
            ensures
                k <= out.len(),
                present == out@.contains(x),
                !present ==> k == rank(out@, x),
            decreases out.len() - k,
        {
            if out[k] == x {
                present = true;
                break ;
            }
            if out[k] > x {
                proof {
                    if out@.contains(x) {
                        let m = choose|m: int| 0 <= m < out.len() && out[m] == x;
                        if m > k {
                            assert(out[k as int] < out[m]);
                        }
                    }
                    lemma_rank(out@, x);
                    let r = rank(out@, x);
                    if r < k {
                        assert(out[r] < x);
                    }
                    if r > k {
                        assert(out[k as int] < x);
                    }
                }
                break ;
            }
            k += 1;
        }
        proof {
            if !present && k == out.len() {
                if out@.contains(x) {
                    let m = choose|m: int| 0 <= m < out.len() && out[m] == x;
                    assert(out[m] < x);
                }
                lemma_rank(out@, x);
                let r = rank(out@, x);
                if r < k {
                    assert(out[r] < x);
                }
            }
        }
        if !present {
            out.insert(k, x);
        }
        i += 1;
    }
    assert(tags@.take(tags.len() as int) =~= tags@);
    out
}

/// The inode number of the directory of a tag sequence.
pub fn directory_inode_of(tags: &[u64]) -> (ino: u64)
    ensures
        ino == directory_inode(tags@),
{
    if tags.len() == 0 {
        return ROOT_INODE;
    }
    let c = canonical(tags);
    let mut h: u64 = HASH_BASIS;
    let mut i: usize = 0;
    assert(c@.take(0) =~= Seq::<u64>::empty());
    while i < c.len()
        invariant
            i <= c.len(),
            h == hash(c@.take(i as int)),
        decreases c.len() - i,
    {
        proof {
            assert(c@.take(i as int + 1).drop_last() =~= c@.take(i as int));
        }
        h = (h ^ c[i]).wrapping_mul(HASH_PRIME);
        i += 1;
    }
    assert(c@.take(c.len() as int) =~= c@);
    h | DIRECTORY_BIT
}

/// The inode number of a file.
pub fn file_inode_of(file: u64) -> (ino: u64)
    ensures
        ino == file_inode(file),
{
    2 + file % FILE_SPAN
}

/// The inode number of what a path names.
pub fn inode_of(node: &Node) -> (ino: u64)
    ensures
        ino == inode(node@),
{
    match node {
        Node::Directory { tags } => directory_inode_of(tags.as_slice()),
        Node::Leaf { tags, file } => file_inode_of(*file),
    }
}

} // verus!
