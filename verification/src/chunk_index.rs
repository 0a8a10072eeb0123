use vstd::prelude::*;

verus! {

/// A region identifier: the child selectors on the way from the octree's
/// root to the region's node. A region's identifier is a prefix of the
/// identifiers of all regions inside it.
pub type ChunkIndex = Vec<u8>;

/// Whether region `a` lies strictly above region `b`.
pub open spec fn is_strict_prefix(a: Seq<u8>, b: Seq<u8>) -> bool {
    a.len() < b.len() && a.is_prefix_of(b)
}

/// Whether neither region lies in the other.
pub open spec fn disjoint(a: Seq<u8>, b: Seq<u8>) -> bool {
    !a.is_prefix_of(b) && !b.is_prefix_of(a)
}

/// The identifiers that a list of indices stands for.
pub open spec fn index_views(indices: Seq<ChunkIndex>) -> Seq<Seq<u8>> {
    Seq::new(indices.len(), |i: int| indices[i]@)
}

/// Whether `index` occurs among `indices`.
pub open spec fn has_index(indices: Seq<ChunkIndex>, index: Seq<u8>) -> bool {
    exists|i: int| 0 <= i < indices.len() && (#[trigger] indices[i])@ == index
}

/// Whether two identifiers are the same.
pub fn same_index(a: &[u8], b: &[u8]) -> (r: bool)
    ensures
        r == (a@ == b@),
{
    if a.len() != b.len() {
        return false;
    }
    let mut i: usize = 0;
    while i < a.len()
        invariant
            i <= a@.len(),
            a@.len() == b@.len(),
            forall|j: int| 0 <= j < i ==> a@[j] == b@[j],
        decreases a@.len() - i,
    {
        if a[i] != b[i] {
            return false;
        }
        i += 1;
    }
    proof {
        assert(a@ =~= b@);
    }
    true
}

/// Whether `path` begins with `prefix`.
pub fn starts_with(path: &[u8], prefix: &[u8]) -> (r: bool)
    ensures
        r == prefix@.is_prefix_of(path@),
{
    if prefix.len() > path.len() {
        return false;
    }
    let mut i: usize = 0;
    while i < prefix.len()
        invariant
            i <= prefix@.len(),
            prefix@.len() <= path@.len(),
            forall|j: int| 0 <= j < i ==> prefix@[j] == path@[j],
        decreases prefix@.len() - i,
    {
        if prefix[i] != path[i] {
            proof {
                assert(path@.subrange(0, prefix@.len() as int)[i as int] == path@[i as int]);
            }
            return false;
        }
        i += 1;
    }
    proof {
        assert(prefix@ =~= path@.subrange(0, prefix@.len() as int));
    }
    true
}

/// The first `len` selectors of `index`: the ancestor at that depth.
pub fn ancestor(index: &[u8], len: usize) -> (r: ChunkIndex)
    requires
        len <= index@.len(),
    ensures
        r@ == index@.subrange(0, len as int),
{
    let mut r: Vec<u8> = Vec::new();
    let mut i: usize = 0;
    while i < len
        invariant
            i <= len <= index@.len(),
            r@ == index@.subrange(0, i as int),
        decreases len - i,
    {
        r.push(index[i]);
        proof {
            assert(index@.subrange(0, i + 1) =~= index@.subrange(0, i as int).push(index@[i as int]));
        }
        i += 1;
    }
    r
}

/// Whether `index` occurs among `indices`.
pub fn contains_index(indices: &Vec<ChunkIndex>, index: &[u8]) -> (r: bool)
    ensures
        r == has_index(indices@, index@),
{
    let mut i: usize = 0;
    while i < indices.len()
        invariant
            i <= indices@.len(),
            forall|j: int| 0 <= j < i ==> (#[trigger] indices@[j])@ != index@,
        decreases indices@.len() - i,
    {
        if same_index(indices[i].as_slice(), index) {
            return true;
        }
        i += 1;
    }
    false
}

/// An identifier is among the views of a list where it is in the list.
pub proof fn lemma_views_contain(indices: Seq<ChunkIndex>, index: Seq<u8>)
    ensures
        index_views(indices).contains(index) <==> has_index(indices, index),
{
    let views = index_views(indices);
    if views.contains(index) {
        let i = choose|i: int| 0 <= i < views.len() && views[i] == index;
        assert(indices[i]@ == index);
    }
    if has_index(indices, index) {
        let i = choose|i: int| 0 <= i < indices.len() && (#[trigger] indices[i])@ == index;
        assert(views[i] == index);
    }
}

/// Whether `a` comes before `b` from selector `i` on: at the first place
/// from `i` where the two differ, `a` has ended or has the lesser
/// selector.
pub open spec fn before_from(a: Seq<u8>, b: Seq<u8>, i: int) -> bool
    decreases b.len() - i,
{
    if i < 0 || i >= b.len() {
        false
    } else if i >= a.len() {
        true
    } else if a[i] != b[i] {
        a[i] < b[i]
    } else {
        before_from(a, b, i + 1)
    }
}

/// Whether identifier `a` comes before identifier `b` in rising order:
/// selector by selector, a region before the regions inside it.
pub open spec fn comes_before(a: Seq<u8>, b: Seq<u8>) -> bool {
    before_from(a, b, 0)
}

/// Whether the identifiers of a list stand in rising order.
pub open spec fn rising(indices: Seq<ChunkIndex>) -> bool {
    forall|i: int, j: int|
        0 <= i < j < indices.len() ==> comes_before(
            (#[trigger] indices[i])@,
            (#[trigger] indices[j])@,
        )
}

/// What comes before something that comes before a third comes before
/// the third.
pub proof fn lemma_before_carries(a: Seq<u8>, b: Seq<u8>, c: Seq<u8>, i: int)
    requires
        0 <= i,
        before_from(a, b, i),
        before_from(b, c, i),
    ensures
        before_from(a, c, i),
    decreases c.len() - i,
{
    if i < a.len() && i < b.len() && i < c.len() && a[i] == b[i] && b[i] == c[i] {
        lemma_before_carries(a, b, c, i + 1);
    }
}

/// Of two identifiers that agree up to selector `i`, one comes before the
/// other or the two are the same; and never both.
pub proof fn lemma_before_or_same(a: Seq<u8>, b: Seq<u8>, i: int)
    requires
        0 <= i <= a.len(),
        i <= b.len(),
        a.subrange(0, i) == b.subrange(0, i),
    ensures
        before_from(a, b, i) || before_from(b, a, i) || a == b,
        !(before_from(a, b, i) && before_from(b, a, i)),
        a == b ==> !before_from(a, b, i),
    decreases a.len() + b.len() - i,
{
    if i < a.len() && i < b.len() {
        if a[i] == b[i] {
            assert(a.subrange(0, i + 1) =~= a.subrange(0, i).push(a[i]));
            assert(b.subrange(0, i + 1) =~= b.subrange(0, i).push(b[i]));
            lemma_before_or_same(a, b, i + 1);
        }
    } else if i == a.len() && i == b.len() {
        assert(a.subrange(0, i) =~= a);
        assert(b.subrange(0, i) =~= b);
    }
}

/// Of two different identifiers exactly one comes before the other, and
/// none comes before itself.
pub proof fn lemma_order_is_total(a: Seq<u8>, b: Seq<u8>)
    ensures
        comes_before(a, b) || comes_before(b, a) || a == b,
        !(comes_before(a, b) && comes_before(b, a)),
        comes_before(a, b) ==> a != b,
{
    assert(a.subrange(0, 0) =~= b.subrange(0, 0));
    lemma_before_or_same(a, b, 0);
}

/// Whether identifier `a` comes before identifier `b` in rising order.
pub fn is_before(a: &[u8], b: &[u8]) -> (r: bool)
    ensures
        r == comes_before(a@, b@),
{
    let mut i: usize = 0;
    while i < a.len() && i < b.len()
        invariant
            i <= a@.len(),
            i <= b@.len(),
            comes_before(a@, b@) == before_from(a@, b@, i as int),
        decreases a@.len() - i,
    {
        if a[i] != b[i] {
            return a[i] < b[i];
        }
        i += 1;
    }
    i < b.len()
}

} // verus!
