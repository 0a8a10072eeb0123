use vstd::prelude::*;
use crate::chunk_index::is_strict_prefix;
use crate::chunk_storage::ChunkView;
use crate::chunk_storage::POV;
use crate::chunk_storage::all_ready;
use crate::chunk_storage::dependents_of;
use crate::chunk_storage::descendants_upto;
use crate::chunk_storage::despawn_spec;
use crate::chunk_storage::nearest_above;
use crate::chunk_storage::ready;
use crate::chunk_storage::recompute_spec;
use crate::chunk_storage::reinstated;
use crate::chunk_storage::update_spec;
use crate::octree::Octree;

verus! {

/// A retired chunk stays as long as one region that it waits for has a
/// chunk without a mesh: nothing goes before what replaces it can be
/// seen.
pub proof fn lemma_no_gap(chunks: Map<Seq<u8>, ChunkView>, index: Seq<u8>, i: int)
    requires
        chunks.contains_key(index),
        chunks[index].cleanup,
        0 <= i < chunks[index].dependents.len(),
        chunks.contains_key(chunks[index].dependents[i]),
        !chunks[chunks[index].dependents[i]].has_mesh,
    ensures
        despawn_spec(chunks).contains_key(index),
        despawn_spec(chunks)[index] == chunks[index],
{
    assert(!ready(chunks, chunks[index].dependents[i]));
}

/// A retired chunk goes in the pass in which all that it waits for is
/// ready.
pub proof fn lemma_gate_opens(chunks: Map<Seq<u8>, ChunkView>, index: Seq<u8>)
    requires
        chunks.contains_key(index),
        chunks[index].cleanup,
        all_ready(chunks, chunks[index].dependents),
    ensures
        !despawn_spec(chunks).contains_key(index),
{
}

/// No active chunk goes, and what stays is not changed.
pub proof fn lemma_gate_spares(chunks: Map<Seq<u8>, ChunkView>, index: Seq<u8>)
    requires
        chunks.contains_key(index),
        !chunks[index].cleanup,
    ensures
        despawn_spec(chunks).contains_key(index),
        despawn_spec(chunks)[index] == chunks[index],
{
}

/// Taking the same sighting twice in a row changes nothing the second
/// time.
pub proof fn lemma_sighting_idempotent(
    pov: POV,
    chunks: Map<Seq<u8>, ChunkView>,
    seen: POV,
    octree: Octree,
)
    ensures
        ({
            let once = update_spec(pov, chunks, seen, octree);
            update_spec(once.0, once.1, seen, octree) == once
        }),
{
    assert(seen.unchanged(seen));
}

/// A sighting within the tolerance of the last one changes nothing.
pub proof fn lemma_small_move_is_none(
    pov: POV,
    chunks: Map<Seq<u8>, ChunkView>,
    seen: POV,
    octree: Octree,
)
    requires
        pov.unchanged(seen),
    ensures
        update_spec(pov, chunks, seen, octree) == (pov, chunks),
{
}

/// Bringing the chunks in line with the same needed regions twice changes
/// nothing the second time.
pub proof fn lemma_recompute_idempotent(chunks: Map<Seq<u8>, ChunkView>, needed: Seq<Seq<u8>>)
    ensures
        recompute_spec(recompute_spec(chunks, needed), needed) == recompute_spec(chunks, needed),
{
    let once = recompute_spec(chunks, needed);
    assert(recompute_spec(once, needed) =~= once);
}

/// A retired chunk whose region is needed again is active afterwards: it
/// waits for nothing, wants a mesh, and has no build in flight.
pub proof fn lemma_reinstatement(
    chunks: Map<Seq<u8>, ChunkView>,
    needed: Seq<Seq<u8>>,
    index: Seq<u8>,
)
    requires
        chunks.contains_key(index),
        chunks[index].cleanup,
        needed.contains(index),
    ensures
        recompute_spec(chunks, needed).contains_key(index),
        recompute_spec(chunks, needed)[index] == reinstated(chunks[index]),
        !recompute_spec(chunks, needed)[index].cleanup,
        recompute_spec(chunks, needed)[index].dependents.len() == 0,
        recompute_spec(chunks, needed)[index].needs_mesh,
        !recompute_spec(chunks, needed)[index].generating,
        despawn_spec(recompute_spec(chunks, needed)).contains_key(index),
{
}

/// A change of the needed regions lets no chunk go, and leaves every
/// chunk the mesh it shows.
pub proof fn lemma_recompute_keeps_chunks(
    chunks: Map<Seq<u8>, ChunkView>,
    needed: Seq<Seq<u8>>,
    index: Seq<u8>,
)
    requires
        chunks.contains_key(index),
    ensures
        recompute_spec(chunks, needed).contains_key(index),
        recompute_spec(chunks, needed)[index].has_mesh == chunks[index].has_mesh,
        recompute_spec(chunks, needed)[index].cleanup == !needed.contains(index),
{
}

/// The needed regions strictly inside `index` among the first `n` are
/// exactly those found.
pub proof fn lemma_descendants(index: Seq<u8>, needed: Seq<Seq<u8>>, n: int, d: Seq<u8>)
    requires
        0 <= n <= needed.len(),
    ensures
        descendants_upto(index, needed, n).contains(d) <==> needed.subrange(0, n).contains(d)
            && is_strict_prefix(index, d),
    decreases n,
{
    if n > 0 {
        lemma_descendants(index, needed, n - 1, d);
        crate::seq_facts::lemma_prefix_contains(needed, n - 1, d);
        let before = descendants_upto(index, needed, n - 1);
        if is_strict_prefix(index, needed[n - 1]) {
            crate::seq_facts::lemma_push_contains(before, needed[n - 1], d);
        }
    } else {
        assert(needed.subrange(0, n) =~= Seq::<Seq<u8>>::empty());
    }
}

/// The nearest needed region above `index` is needed, lies strictly above
/// `index`, and no needed region lies between the two.
pub proof fn lemma_nearest_above(index: Seq<u8>, needed: Seq<Seq<u8>>, limit: int)
    requires
        0 <= limit <= index.len(),
    ensures
        match nearest_above(index, needed, limit) {
            Some(parent) => needed.contains(parent) && is_strict_prefix(parent, index)
                && parent.len() < limit && forall|len: int|
                parent.len() < len < limit ==> !needed.contains(#[trigger] index.subrange(0, len)),
            None => forall|len: int|
                0 <= len < limit ==> !needed.contains(#[trigger] index.subrange(0, len)),
        },
    decreases limit,
{
    if limit > 0 {
        lemma_nearest_above(index, needed, limit - 1);
    }
}

/// What an obsolete region waits for is needed, and lies strictly inside
/// the region or strictly above it: it is part of what replaces the
/// region.
pub proof fn lemma_dependents_replace(index: Seq<u8>, needed: Seq<Seq<u8>>, i: int)
    requires
        0 <= i < dependents_of(index, needed).len(),
    ensures
        needed.contains(dependents_of(index, needed)[i]),
        is_strict_prefix(index, dependents_of(index, needed)[i]) || is_strict_prefix(
            dependents_of(index, needed)[i],
            index,
        ),
{
    let below = descendants_upto(index, needed, needed.len() as int);
    let d = dependents_of(index, needed)[i];
    if i < below.len() {
        assert(below[i] == d);
        assert(below.contains(d));
        lemma_descendants(index, needed, needed.len() as int, d);
        assert(needed.subrange(0, needed.len() as int) =~= needed);
    } else {
        lemma_nearest_above(index, needed, index.len() as int);
    }
}

/// Every needed region strictly inside an obsolete region is waited for.
pub proof fn lemma_finer_regions_awaited(index: Seq<u8>, needed: Seq<Seq<u8>>, d: Seq<u8>)
    requires
        needed.contains(d),
        is_strict_prefix(index, d),
    ensures
        dependents_of(index, needed).contains(d),
{
    let below = descendants_upto(index, needed, needed.len() as int);
    lemma_descendants(index, needed, needed.len() as int, d);
    assert(needed.subrange(0, needed.len() as int) =~= needed);
    let i = choose|i: int| 0 <= i < below.len() && below[i] == d;
    assert(dependents_of(index, needed)[i] == d);
}

} // verus!
