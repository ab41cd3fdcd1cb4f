//! Names and paths as bytes: how a path splits into segments, what the base
//! name of a real path is, and how a leaf name is told apart from another of
//! the same base name by the id of its file.

use vstd::prelude::*;

verus! {

/// The byte that separates the segments of a path.
pub const SLASH: u8 = 47;

/// The byte that separates a base name from the id that tells it apart.
pub const MARK: u8 = 64;

/// The byte of which the names of the current and of the parent view consist.
pub const DOT: u8 = 46;

/// The views of a sequence of byte strings.
pub open spec fn views(v: Seq<Vec<u8>>) -> Seq<Seq<u8>> {
    Seq::new(v.len(), |i: int| v[i]@)
}

/// The name of the current view, `.`.
pub open spec fn dot() -> Seq<u8> {
    seq![DOT]
}

/// The name of the parent view, `..`.
pub open spec fn dot_dot() -> Seq<u8> {
    seq![DOT, DOT]
}

/// A name that can stand as one segment of a path: not empty and without a
/// slash.
pub open spec fn is_segment(name: Seq<u8>) -> bool {
    name.len() > 0 && !name.contains(SLASH)
}

/// Scanning a path from the left: the segments that a slash has closed so far,
/// and the bytes since the last slash.
pub open spec fn scan(path: Seq<u8>) -> (Seq<Seq<u8>>, Seq<u8>)
    decreases path.len(),
{
    if path.len() == 0 {
        (Seq::empty(), Seq::empty())
    } else {
        let (closed, open) = scan(path.drop_last());
        if path.last() != SLASH {
            (closed, open.push(path.last()))
        } else if open.len() > 0 {
            (closed.push(open), Seq::empty())
        } else {
            (closed, Seq::empty())
        }
    }
}

/// The segments of a slash-separated path, in order. Slashes at either end and
/// runs of slashes separate nothing.
pub open spec fn segments(path: Seq<u8>) -> Seq<Seq<u8>> {
    let (closed, open) = scan(path);
    if open.len() > 0 {
        closed.push(open)
    } else {
        closed
    }
}

/// The last segment of a path, or the empty name where it has none.
pub open spec fn base_name(path: Seq<u8>) -> Seq<u8> {
    let segs = segments(path);
    if segs.len() > 0 {
        segs.last()
    } else {
        Seq::empty()
    }
}

/// The decimal digits of a number, most significant first.
pub open spec fn decimal(n: nat) -> Seq<u8>
    decreases n,
{
    if n < 10 {
        seq![(48 + n) as u8]
    } else {
        decimal(n / 10).push((48 + n % 10) as u8)
    }
}

/// The number that a sequence of decimal digits spells.
pub open spec fn decimal_value(digits: Seq<u8>) -> nat
    decreases digits.len(),
{
    if digits.len() == 0 {
        0
    } else {
        decimal_value(digits.drop_last()) * 10 + (digits.last() - 48) as nat
    }
}

/// A base name followed by the mark and the decimal id of its file.
pub open spec fn marked(base: Seq<u8>, id: u64) -> Seq<u8> {
    base.push(MARK) + decimal(id as nat)
}

/// Every byte of a decimal is a digit, and there is at least one.
pub proof fn lemma_decimal_digits(n: nat)
    ensures
        decimal(n).len() >= 1,
        forall|i: int| 0 <= i < decimal(n).len() ==> 48 <= #[trigger] decimal(n)[i] <= 57,
    decreases n,
{
    if n >= 10 {
        lemma_decimal_digits(n / 10);
    }
}

/// Reading the digits of a number gives the number back.
pub proof fn lemma_decimal_value(n: nat)
    ensures
        decimal_value(decimal(n)) == n,
    decreases n,
{
    if n < 10 {
        let d = decimal(n);
        assert(d.drop_last() =~= Seq::<u8>::empty());
        assert(decimal_value(d.drop_last()) == 0);
    } else {
        lemma_decimal_value(n / 10);
        let d = decimal(n);
        assert(d.drop_last() =~= decimal(n / 10));
    }
}

/// Two numbers with the same digits are the same number.
pub proof fn lemma_decimal_injective(a: nat, b: nat)
    requires
        decimal(a) == decimal(b),
    ensures
        a == b,
{
    lemma_decimal_value(a);
    lemma_decimal_value(b);
}

/// A marked name holds the mark, and tells both its base name and its id: two
/// marked names are equal only if base name and id are.
pub proof fn lemma_marked_injective(b1: Seq<u8>, id1: u64, b2: Seq<u8>, id2: u64)
    requires
        marked(b1, id1) == marked(b2, id2),
    ensures
        b1 == b2,
        id1 == id2,
{
    let d1 = decimal(id1 as nat);
    let d2 = decimal(id2 as nat);
    let s1 = marked(b1, id1);
    let s2 = marked(b2, id2);
    lemma_decimal_digits(id1 as nat);
    lemma_decimal_digits(id2 as nat);
    assert(s1.len() == b1.len() + 1 + d1.len());
    assert(s2.len() == b2.len() + 1 + d2.len());
    assert(s1[b1.len() as int] == MARK);
    assert(s2[b2.len() as int] == MARK);
    if d1.len() < d2.len() {
        let k = b1.len() as int;
        assert(s2[k] == d2[k - b2.len() - 1]);
        assert(false);
    }
    if d2.len() < d1.len() {
        let k = b2.len() as int;
        assert(s1[k] == d1[k - b1.len() - 1]);
        assert(false);
    }
    assert(b1.len() == b2.len());
    assert(b1 =~= b2) by {
        assert forall|i: int| 0 <= i < b1.len() implies b1[i] == b2[i] by {
            assert(s1[i] == b1[i]);
            assert(s2[i] == b2[i]);
        }
    }
    assert(d1 =~= d2) by {
        assert forall|i: int| 0 <= i < d1.len() implies d1[i] == d2[i] by {
            assert(s1[b1.len() + 1 + i] == d1[i]);
            assert(s2[b2.len() + 1 + i] == d2[i]);
        }
    }
    lemma_decimal_injective(id1 as nat, id2 as nat);
}

/// A marked name holds the mark.
pub proof fn lemma_marked_has_mark(base: Seq<u8>, id: u64)
    ensures
        marked(base, id).contains(MARK),
        marked(base, id).len() >= 2,
{
    lemma_decimal_digits(id as nat);
    assert(marked(base, id)[base.len() as int] == MARK);
}

/// A marked name is slash-free where its base name is.
pub proof fn lemma_marked_no_slash(base: Seq<u8>, id: u64)
    requires
        !base.contains(SLASH),
    ensures
        !marked(base, id).contains(SLASH),
{
    lemma_decimal_digits(id as nat);
    let m = marked(base, id);
    let d = decimal(id as nat);
    if m.contains(SLASH) {
        let i = choose|i: int| 0 <= i < m.len() && m[i] == SLASH;
        if i < base.len() {
            assert(base[i] == SLASH);
        } else if i > base.len() {
            assert(m[i] == d[i - base.len() - 1]);
        }
    }
}

/// What the scan has closed are segments, and what it holds open is
/// slash-free.
pub proof fn lemma_scan_segments(path: Seq<u8>)
    ensures
        forall|i: int| 0 <= i < scan(path).0.len() ==> is_segment(#[trigger] scan(path).0[i]),
        !scan(path).1.contains(SLASH),
    decreases path.len(),
{
    if path.len() > 0 {
        lemma_scan_segments(path.drop_last());
        let (closed, open) = scan(path.drop_last());
        if path.last() != SLASH {
            let grown = open.push(path.last());
            if grown.contains(SLASH) {
                let i = choose|i: int| 0 <= i < grown.len() && grown[i] == SLASH;
                if i < open.len() {
                    assert(open[i] == SLASH);
                }
            }
        }
    }
}

/// Every segment of a path is a name that is not empty and has no slash.
pub proof fn lemma_segments_are_segments(path: Seq<u8>)
    ensures
        forall|i: int| 0 <= i < segments(path).len() ==> is_segment(#[trigger] segments(path)[i]),
        is_segment(base_name(path)) || base_name(path).len() == 0,
{
    lemma_scan_segments(path);
}

/// Whether two byte strings are the same.
pub fn same_bytes(a: &[u8], b: &[u8]) -> (same: bool)
    ensures
        same == (a@ == b@),
{
    if a.len() != b.len() {
        return false;
    }
    let mut i: usize = 0;
    while i < a.len()
        invariant
            i <= a.len(),
            a.len() == b.len(),
            forall|k: int| 0 <= k < i ==> a[k] == b[k],
        decreases a.len() - i,
    {
        if a[i] != b[i] {
            return false;
        }
        i += 1;
    }
    assert(a@ =~= b@);
    true
}

/// A copy of a byte string.
pub fn copy_bytes(a: &[u8]) -> (copy: Vec<u8>)
    ensures
        copy@ == a@,
{
    let mut out: Vec<u8> = Vec::new();
    let mut i: usize = 0;
    while i < a.len()
        invariant
            i <= a.len(),
            out@ == a@.take(i as int),
        decreases a.len() - i,
    {
        out.push(a[i]);
        i += 1;
        assert(out@ =~= a@.take(i as int));
    }
    assert(a@.take(a.len() as int) =~= a@);
    out
}

/// Whether a byte occurs in a byte string.
pub fn has_byte(a: &[u8], byte: u8) -> (found: bool)
    ensures
        found == a@.contains(byte),
{
    let mut i: usize = 0;
    while i < a.len()
        invariant
            i <= a.len(),
            forall|k: int| 0 <= k < i ==> a[k] != byte,
        decreases a.len() - i,
    {
        if a[i] == byte {
            return true;
        }
        i += 1;
    }
    false
}

/// Whether a name consists of one or two dots and nothing else.
pub fn is_dots(name: &[u8]) -> (dots: bool)
    ensures
        dots == (name@ == dot() || name@ == dot_dot()),
{
    if name.len() == 1 {
        let yes = name[0] == DOT;
        assert(yes ==> name@ =~= dot());
        assert(!yes ==> name@[0] != dot()[0]);
        yes
    } else if name.len() == 2 {
        let yes = name[0] == DOT && name[1] == DOT;
        assert(yes ==> name@ =~= dot_dot());
        assert(!yes ==> name@[0] != dot_dot()[0] || name@[1] != dot_dot()[1]);
        yes
    } else {
        false
    }
}

/// Splits a slash-separated path into its segments.
pub fn split_path(path: &[u8]) -> (segs: Vec<Vec<u8>>)
    ensures
        views(segs@) == segments(path@),
{
    let mut closed: Vec<Vec<u8>> = Vec::new();
    let mut open: Vec<u8> = Vec::new();
    let mut i: usize = 0;
    assert(views(closed@) =~= Seq::<Seq<u8>>::empty());
    assert(path@.take(0) =~= Seq::<u8>::empty());
    while i < path.len()
        invariant
            i <= path.len(),
            (views(closed@), open@) == scan(path@.take(i as int)),
        decreases path.len() - i,
    {
        let ghost before = views(closed@);
        let ghost upto = path@.take(i as int + 1);
        assert(upto.drop_last() =~= path@.take(i as int));
        assert(upto.last() == path[i as int]);
        let b = path[i];
        if b != SLASH {
            open.push(b);
        } else if open.len() > 0 {
            let ghost done = open@;
            closed.push(open);
            open = Vec::new();
            assert(views(closed@) =~= before.push(done));
        }
        i += 1;
    }
    assert(path@.take(path.len() as int) =~= path@);
    if open.len() > 0 {
        let ghost before = views(closed@);
        let ghost done = open@;
        closed.push(open);
        assert(views(closed@) =~= before.push(done));
    }
    closed
}

/// The last segment of a path; empty where the path has no segment.
pub fn base_name_of(path: &[u8]) -> (name: Vec<u8>)
    ensures
        name@ == base_name(path@),
{
    let mut segs = split_path(path);
    let ghost all = segs@;
    match segs.pop() {
        Some(last) => {
            assert(last@ == views(all).last());
            last
        },
        None => Vec::new(),
    }
}

/// The decimal digits of a number, most significant first.
pub fn decimal_digits(n: u64) -> (digits: Vec<u8>)
    ensures
        digits@ == decimal(n as nat),
    decreases n,
{
    if n < 10 {
        let mut v: Vec<u8> = Vec::new();
        v.push(48 + n as u8);
        assert(v@ =~= decimal(n as nat));
        v
    } else {
        let mut v = decimal_digits(n / 10);
        v.push(48 + (n % 10) as u8);
        v
    }
}

/// A base name followed by the mark and the decimal id.
pub fn mark_name(base: &[u8], id: u64) -> (name: Vec<u8>)
    ensures
        name@ == marked(base@, id),
{
    let mut out = copy_bytes(base);
    out.push(MARK);
    let digits = decimal_digits(id);
    let mut i: usize = 0;
    let ghost head = out@;
    while i < digits.len()
        invariant
            i <= digits.len(),
            out@ == head + digits@.take(i as int),
        decreases digits.len() - i,
    {
        out.push(digits[i]);
        i += 1;
        assert(out@ =~= head + digits@.take(i as int));
    }
    assert(digits@.take(digits.len() as int) =~= digits@);
    out
}

} // verus!
