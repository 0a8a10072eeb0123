use vstd::prelude::*;
use crate::chunk_index::ChunkIndex;
use crate::chunk_index::index_views;
use crate::chunk_index::lemma_views_contain;
use crate::chunk_storage::ChunkData;
use crate::chunk_storage::ChunkDataView;
use crate::chunk_storage::POSITION_TOLERANCE;
use crate::chunk_storage::mesh_stored;
use crate::chunk_storage::pair_views;
use crate::geometry_data::GeometryData;
use crate::geometry_data::cell_points;
use crate::geometry_data::grown_over;
use crate::geometry_data::octree_of;
use crate::grid::Position;
use crate::grid::UNIT;
use crate::grid::distance_squared;
use crate::grid::distance_squared_of;
use crate::index_map::IndexMap;
use crate::index_map::IndexSet;
use crate::octree::Octree;
use crate::seq_facts::lemma_prefix_contains;
use crate::seq_facts::lemma_push_contains;
use crate::seq_facts::lemma_push_fresh;

verus! {

/// Whether a chunk is to be on screen.
#[derive(Debug)]
pub enum ChunkState {
    Active,
    Inactive,
}

/// At most this many chunks come to the screen, and at most this many
/// leave it, in one pass.
pub const BACKLOG_STEP: usize = 10;

/// A surface whose chunks are built by workers that take requests and
/// send back responses.
pub struct ChunkManager {
    pub geometry: GeometryData,
    pub octree: Octree,
    /// All that is known of each chunk.
    pub chunk_data: IndexMap<ChunkData>,
    /// The point of view of the last sighting.
    pub pov: Position,
    /// The regions whose geometry was asked for and has not come.
    pub active_requests: IndexSet,
    /// The regions that are to be on screen.
    pub active_chunks: IndexSet,
}

/// The needed regions whose geometry is to be asked for: those without a
/// mesh that are not asked for already.
pub open spec fn to_request(
    data: Map<Seq<u8>, ChunkDataView>,
    requests: Set<Seq<u8>>,
    needed: Seq<Seq<u8>>,
    index: Seq<u8>,
) -> bool {
    needed.contains(index) && !mesh_stored(data, index) && !requests.contains(index)
}

/// What is known of a chunk after a response for it has come: its cells
/// and its mesh, unless it had a mesh already.
pub open spec fn after_response(
    data: Map<Seq<u8>, ChunkDataView>,
    index: Seq<u8>,
    cells: Seq<usize>,
    mesh: u64,
) -> ChunkDataView {
    if mesh_stored(data, index) {
        data[index]
    } else {
        ChunkDataView {
            mesh_handle: Some(mesh),
            entity: if data.contains_key(index) {
                data[index].entity
            } else {
                None
            },
            cells: Some(cells),
        }
    }
}

/// Whether the chunk of region `index` is on screen.
pub open spec fn on_screen(data: Map<Seq<u8>, ChunkDataView>, index: Seq<u8>) -> bool {
    data.contains_key(index) && data[index].entity is Some
}

/// The chunks among the first `n` in `order` that leave the screen in a
/// pass: those on screen that are not to be, up to [`BACKLOG_STEP`] of
/// them.
pub open spec fn leaving_upto(
    data: Map<Seq<u8>, ChunkDataView>,
    active: Set<Seq<u8>>,
    order: Seq<Seq<u8>>,
    n: int,
) -> Seq<Seq<u8>>
    decreases n,
{
    if n <= 0 || n > order.len() {
        Seq::empty()
    } else {
        let before = leaving_upto(data, active, order, n - 1);
        let k = order[n - 1];
        if before.len() < BACKLOG_STEP && on_screen(data, k) && !active.contains(k) {
            before.push(k)
        } else {
            before
        }
    }
}

/// How far a pass over the chunks that are to be on screen has come.
pub struct Arrivals {
    /// The chunks met that are not on screen.
    pub met: int,
    /// Those of them that have a mesh, and so come to the screen.
    pub coming: Seq<Seq<u8>>,
}

/// The chunks among the first `n` in `order` that come to the screen in
/// a pass: of the first [`BACKLOG_STEP`] that are not on screen, those
/// that have a mesh.
pub open spec fn coming_upto(data: Map<Seq<u8>, ChunkDataView>, order: Seq<Seq<u8>>, n: int) -> Arrivals
    decreases n,
{
    if n <= 0 || n > order.len() {
        Arrivals { met: 0, coming: Seq::empty() }
    } else {
        let before = coming_upto(data, order, n - 1);
        let k = order[n - 1];
        if before.met >= BACKLOG_STEP || on_screen(data, k) {
            before
        } else if mesh_stored(data, k) {
            Arrivals { met: before.met + 1, coming: before.coming.push(k) }
        } else {
            Arrivals { met: before.met + 1, ..before }
        }
    }
}

impl ChunkManager {
    /// All maps and sets are well formed, and so is the octree.
    pub open spec fn wf(&self) -> bool {
        &&& self.octree.wf()
        &&& self.chunk_data.wf()
        &&& self.active_requests.wf()
        &&& self.active_chunks.wf()
    }

    /// Whether a sighting from `new_pov` is the last sighting once more:
    /// the point of view has moved by less than the tolerance.
    pub open spec fn stands_still(&self, new_pov: Position) -> bool {
        distance_squared(self.pov, new_pov) < POSITION_TOLERANCE
    }

    /// A manager over `geometry` that knows of no chunk yet. A leaf of its
    /// octree has room for 128 points.
    pub fn new(geometry: GeometryData) -> (m: ChunkManager)
        ensures
            m.wf(),
            m.geometry == geometry,
            m.octree.shape() == grown_over(geometry.cell_normals@, 128),
            m.octree.content().to_multiset() == cell_points(geometry.cell_normals@).to_multiset(),
            m.octree.capacity == 128,
            m.octree.half_width == UNIT,
            m.octree.octree_index@ == Seq::<u8>::empty(),
            m.chunk_data@ == Map::<Seq<u8>, ChunkDataView>::empty(),
            m.pov.x == 0 && m.pov.y == 0 && m.pov.z == 0,
            m.active_requests@ == Set::<Seq<u8>>::empty(),
            m.active_chunks@ == Set::<Seq<u8>>::empty(),
    {
        let octree = octree_of(&geometry.cell_normals, 128);
        ChunkManager {
            geometry,
            octree,
            chunk_data: IndexMap::new(),
            pov: Position { x: 0, y: 0, z: 0 },
            active_requests: IndexSet::new(),
            active_chunks: IndexSet::new(),
        }
    }

    /// Takes a sighting. A point of view that has moved from the last one
    /// by less than the tolerance changes nothing and asks for nothing.
    /// Any other one becomes the last one and chooses the regions that are
    /// to be on screen, with a detail radius of one unit. Returns the
    /// regions whose geometry is to be asked for now, each once: the
    /// chosen ones that have no mesh and are not asked for already. They
    /// count as asked for from then on.
    pub fn update_pov(&mut self, new_pov: Position) -> (requests: Vec<ChunkIndex>)
        requires
            old(self).wf(),
        ensures
            final(self).wf(),
            final(self).geometry == old(self).geometry,
            final(self).octree == old(self).octree,
            final(self).chunk_data == old(self).chunk_data,
            old(self).stands_still(new_pov) ==> {
                &&& requests@.len() == 0
                &&& final(self).pov == old(self).pov
                &&& final(self).active_requests == old(self).active_requests
                &&& final(self).active_chunks == old(self).active_chunks
            },
            final(self).pov == pov_after(old(self).pov, new_pov),
            !old(self).stands_still(new_pov) ==> {
                let needed = old(self).octree.chunk_indices(new_pov, UNIT as int);
                &&& final(self).pov == new_pov
                &&& final(self).active_chunks@ == needed.to_set()
                &&& forall|k: Seq<u8>| #[trigger]
                    index_views(requests@).contains(k) <==> to_request(
                        old(self).chunk_data@,
                        old(self).active_requests@,
                        needed,
                        k,
                    )
                &&& forall|k: Seq<u8>| #[trigger]
                    final(self).active_requests@.contains(k) <==> old(self).active_requests@.contains(k) || (needed.contains(k) && !mesh_stored(
                        old(self).chunk_data@,
                        k,
                    ))
                &&& index_views(requests@).no_duplicates()
            },
    {
        let mut requests: Vec<ChunkIndex> = Vec::new();
        if distance_squared_of(self.pov, new_pov) < POSITION_TOLERANCE {
            return requests;
        }
        self.pov = new_pov;
        let needed_indices = self.octree.get_chunk_indices(new_pov, UNIT);
        let ghost needed = index_views(needed_indices@);
        let ghost asked = old(self).active_requests@;
        let ghost data = self.chunk_data@;
        let mut new_active_chunks = IndexSet::new();
        let mut i: usize = 0;
        proof {
            assert(needed.subrange(0, 0) =~= Seq::<Seq<u8>>::empty());
            assert(needed.subrange(0, 0).to_set() =~= Set::<Seq<u8>>::empty());
            assert(index_views(requests@) =~= Seq::<Seq<u8>>::empty());
        }
        while i < needed_indices.len()
            invariant
                i <= needed_indices@.len(),
                needed == index_views(needed_indices@),
                self.wf(),
                new_active_chunks.wf(),
                self.geometry == old(self).geometry,
                self.octree == old(self).octree,
                self.chunk_data == old(self).chunk_data,
                self.active_chunks == old(self).active_chunks,
                self.pov == new_pov,
                data == self.chunk_data@,
                new_active_chunks@ == needed.subrange(0, i as int).to_set(),
                forall|k: Seq<u8>| #[trigger]
                    index_views(requests@).contains(k) <==> to_request(
                        data,
                        asked,
                        needed.subrange(0, i as int),
                        k,
                    ),
                forall|k: Seq<u8>| #[trigger]
                    self.active_requests@.contains(k) <==> asked.contains(k) || (needed.subrange(
                        0,
                        i as int,
                    ).contains(k) && !mesh_stored(data, k)),
                index_views(requests@).no_duplicates(),
            decreases needed_indices@.len() - i,
        {
            let idx = &needed_indices[i];
            let ghost key = idx@;
            let ghost requests_before = index_views(requests@);
            proof {
                assert(key == needed[i as int]);
                assert forall|k: Seq<u8>|
                    needed.subrange(0, i + 1).contains(k) <==> needed.subrange(0, i as int).contains(
                        k,
                    ) || key == k by {
                    lemma_prefix_contains(needed, i as int, k);
                }
                let short = needed.subrange(0, i as int);
                let long = needed.subrange(0, i + 1);
                assert forall|k: Seq<u8>| long.to_set().contains(k) <==> short.to_set().insert(
                    key,
                ).contains(k) by {
                    lemma_prefix_contains(needed, i as int, k);
                }
                assert(long.to_set() =~= short.to_set().insert(key));
            }
            let have_mesh = match self.chunk_data.get(idx.as_slice()) {
                Some(data) => data.mesh_handle.is_some(),
                None => false,
            };
            if !have_mesh && !self.active_requests.contains(idx.as_slice()) {
                proof {
                    assert(!requests_before.contains(key));
                }
                requests.push(idx.clone());
                self.active_requests.insert(idx.clone());
                proof {
                    assert(index_views(requests@) =~= requests_before.push(key));
                    lemma_push_fresh(requests_before, key);
                }
            }
            new_active_chunks.insert(idx.clone());
            proof {
                assert forall|k: Seq<u8>| #[trigger]
                    index_views(requests@).contains(k) <==> to_request(
                        data,
                        asked,
                        needed.subrange(0, i + 1),
                        k,
                    ) by {
                    lemma_push_contains(requests_before, key, k);
                }
            }
            i += 1;
        }
        proof {
            assert(needed.subrange(0, i as int) =~= needed);
        }
        self.active_chunks = new_active_chunks;
        requests
    }

    /// Whether a response for region `index` would be stored: the chunk
    /// has no mesh yet.
    pub fn wants_response(&self, index: &[u8]) -> (r: bool)
        requires
            self.wf(),
        ensures
            r == !mesh_stored(self.chunk_data@, index@),
    {
        match self.chunk_data.get(index) {
            Some(data) => data.mesh_handle.is_none(),
            None => true,
        }
    }

    /// Takes in the response for region `index`: the region is no longer
    /// asked for, and its chunk gets the cells and the mesh unless it has
    /// a mesh already.
    pub fn process_chunk_response(&mut self, index: ChunkIndex, cells: Vec<usize>, mesh: u64)
        requires
            old(self).wf(),
        ensures
            final(self).wf(),
            final(self).geometry == old(self).geometry,
            final(self).octree == old(self).octree,
            final(self).pov == old(self).pov,
            final(self).active_chunks == old(self).active_chunks,
            final(self).active_requests@ == old(self).active_requests@.remove(index@),
            final(self).chunk_data@ == old(self).chunk_data@.insert(
                index@,
                after_response(old(self).chunk_data@, index@, cells@, mesh),
            ),
    {
        self.active_requests.remove(index.as_slice());
        let found: Option<(bool, Option<u64>)> = match self.chunk_data.get(index.as_slice()) {
            Some(data) => Some((data.mesh_handle.is_some(), data.entity)),
            None => None,
        };
        match found {
            Some((stored, entity)) => {
                if !stored {
                    self.chunk_data.insert(
                        index,
                        ChunkData { mesh_handle: Some(mesh), entity, cells: Some(cells) },
                    );
                } else {
                    proof {
                        assert(self.chunk_data@ =~= old(self).chunk_data@.insert(
                            index@,
                            after_response(old(self).chunk_data@, index@, cells@, mesh),
                        ));
                    }
                }
            },
            None => {
                self.chunk_data.insert(
                    index,
                    ChunkData { mesh_handle: Some(mesh), entity: None, cells: Some(cells) },
                );
            },
        }
    }

    /// Forgets every chunk that is not on screen.
    pub fn cleanup_old_handles(&mut self)
        requires
            old(self).wf(),
        ensures
            final(self).wf(),
            final(self).geometry == old(self).geometry,
            final(self).octree == old(self).octree,
            final(self).pov == old(self).pov,
            final(self).active_chunks == old(self).active_chunks,
            final(self).active_requests == old(self).active_requests,
            final(self).chunk_data@ == Map::new(
                |k: Seq<u8>| on_screen(old(self).chunk_data@, k),
                |k: Seq<u8>| old(self).chunk_data@[k],
            ),
    {
        let ghost data = self.chunk_data@;
        let mut doomed: Vec<ChunkIndex> = Vec::new();
        let ghost order = index_views(self.chunk_data.keys@);
        let mut i: usize = 0;
        while i < self.chunk_data.keys.len()
            invariant
                i <= self.chunk_data.keys@.len(),
                self.wf(),
                self.chunk_data == old(self).chunk_data,
                order == index_views(self.chunk_data.keys@),
                data == self.chunk_data@,
                forall|k: Seq<u8>| #[trigger]
                    index_views(doomed@).contains(k) <==> order.subrange(0, i as int).contains(k)
                        && !on_screen(data, k),
            decreases self.chunk_data.keys@.len() - i,
        {
            let ghost key = order[i as int];
            let ghost before = index_views(doomed@);
            proof {
                self.chunk_data.lemma_slot(i as int);
                lemma_prefix_contains(order, i as int, key);
            }
            if self.chunk_data.values[i].entity.is_none() {
                doomed.push(self.chunk_data.keys[i].clone());
                proof {
                    assert(index_views(doomed@) =~= before.push(key));
                }
            }
            proof {
                assert forall|k: Seq<u8>| #[trigger]
                    index_views(doomed@).contains(k) <==> order.subrange(0, i + 1).contains(k)
                        && !on_screen(data, k) by {
                    lemma_prefix_contains(order, i as int, k);
                    lemma_push_contains(before, key, k);
                }
            }
            i += 1;
        }
        proof {
            assert(order.subrange(0, i as int) =~= order);
            assert forall|k: Seq<u8>| data.contains_key(k) implies order.contains(k) by {
                lemma_views_contain(self.chunk_data.keys@, k);
            }
        }
        let ghost gone = index_views(doomed@);
        let mut j: usize = 0;
        proof {
            assert(self.chunk_data@ =~= Map::new(
                |k: Seq<u8>| data.contains_key(k) && !gone.subrange(0, 0).contains(k),
                |k: Seq<u8>| data[k],
            ));
        }
        while j < doomed.len()
            invariant
                j <= doomed@.len(),
                gone == index_views(doomed@),
                self.wf(),
                self.geometry == old(self).geometry,
                self.octree == old(self).octree,
                self.pov == old(self).pov,
                self.active_chunks == old(self).active_chunks,
                self.active_requests == old(self).active_requests,
                self.chunk_data@ == Map::new(
                    |k: Seq<u8>| data.contains_key(k) && !gone.subrange(0, j as int).contains(k),
                    |k: Seq<u8>| data[k],
                ),
            decreases doomed@.len() - j,
        {
            self.chunk_data.remove(doomed[j].as_slice());
            proof {
                assert forall|k: Seq<u8>|
                    gone.subrange(0, j + 1).contains(k) <==> gone.subrange(0, j as int).contains(k)
                        || gone[j as int] == k by {
                    lemma_prefix_contains(gone, j as int, k);
                }
                assert(self.chunk_data@ =~= Map::new(
                    |k: Seq<u8>| data.contains_key(k) && !gone.subrange(0, j + 1).contains(k),
                    |k: Seq<u8>| data[k],
                ));
            }
            j += 1;
        }
        proof {
            assert(gone.subrange(0, j as int) =~= gone);
            assert(self.chunk_data@ =~= Map::new(
                |k: Seq<u8>| on_screen(data, k),
                |k: Seq<u8>| data[k],
            ));
        }
    }
}

/// The point of view that a manager holds after a sighting from `seen`:
/// the one it held where that has moved by less than the tolerance, and
/// `seen` otherwise.
pub open spec fn pov_after(pov: Position, seen: Position) -> Position {
    if distance_squared(pov, seen) < POSITION_TOLERANCE {
        pov
    } else {
        seen
    }
}

/// After a sighting, a sighting from the same place once more stands
/// still: it asks for nothing and changes nothing.
pub proof fn lemma_second_sighting_stands_still(pov: Position, seen: Position)
    ensures
        distance_squared(pov_after(pov, seen), seen) < POSITION_TOLERANCE,
        pov_after(pov_after(pov, seen), seen) == pov_after(pov, seen),
{
    assert(distance_squared(seen, seen) == 0) by (nonlinear_arith)
        requires
            distance_squared(seen, seen) == (seen.x - seen.x) * (seen.x - seen.x) + (seen.y
                - seen.y) * (seen.y - seen.y) + (seen.z - seen.z) * (seen.z - seen.z),
    ;
}

/// What is known of a chunk that is bound to `entity`.
pub open spec fn with_entity(data: ChunkDataView, entity: Option<u64>) -> ChunkDataView {
    ChunkDataView { mesh_handle: data.mesh_handle, entity, cells: data.cells }
}

/// Binds the chunk at place `i` to `entity`, or to none.
pub(crate) fn set_entity_at(data: &mut IndexMap<ChunkData>, i: usize, entity: Option<u64>)
    requires
        old(data).wf(),
        i < old(data).keys@.len(),
    ensures
        final(data).wf(),
        final(data).keys@ == old(data).keys@,
        final(data)@ == old(data)@.insert(
            old(data).keys@[i as int]@,
            with_entity(old(data).values@[i as int]@, entity),
        ),
{
    let ghost before = *data;
    data.values[i].entity = entity;
    proof {
        let key = before.keys@[i as int]@;
        let state = with_entity(before.values@[i as int]@, entity);
        before.lemma_slot(i as int);
        assert forall|k: Seq<u8>| #[trigger] data@.contains_key(k) implies data@[k]
            == before@.insert(key, state)[k] by {
            let t = data.slot_of(k);
            data.lemma_slot(t);
            before.lemma_slot(t);
        }
        assert(data@ =~= before@.insert(key, state));
    }
}

/// Each chunk that leaves the screen with the entity it was bound to.
pub open spec fn with_entities(data: Map<Seq<u8>, ChunkDataView>, leaving: Seq<Seq<u8>>) -> Seq<
    (Seq<u8>, u64),
> {
    Seq::new(leaving.len(), |i: int| (leaving[i], data[leaving[i]].entity->0))
}

/// Every chunk that leaves among the first `n` is one of them.
pub proof fn lemma_leaving_within(
    data: Map<Seq<u8>, ChunkDataView>,
    active: Set<Seq<u8>>,
    order: Seq<Seq<u8>>,
    n: int,
    k: Seq<u8>,
)
    requires
        0 <= n <= order.len(),
    ensures
        leaving_upto(data, active, order, n).contains(k) ==> order.subrange(0, n).contains(k)
            && on_screen(data, k) && !active.contains(k),
        leaving_upto(data, active, order, n).len() <= BACKLOG_STEP,
    decreases n,
{
    if n > 0 {
        let before = leaving_upto(data, active, order, n - 1);
        lemma_leaving_within(data, active, order, n - 1, k);
        lemma_prefix_contains(order, n - 1, k);
        lemma_push_contains(before, order[n - 1], k);
    }
}

/// No more chunks are met than [`BACKLOG_STEP`], and none comes that was
/// not met.
pub proof fn lemma_coming_bounded(data: Map<Seq<u8>, ChunkDataView>, order: Seq<Seq<u8>>, n: int)
    requires
        0 <= n <= order.len(),
    ensures
        0 <= coming_upto(data, order, n).met <= BACKLOG_STEP,
        coming_upto(data, order, n).coming.len() <= coming_upto(data, order, n).met,
    decreases n,
{
    if n > 0 {
        lemma_coming_bounded(data, order, n - 1);
    }
}

impl ChunkManager {
    /// Moves chunks off and on the screen. While any geometry is asked
    /// for, nothing leaves; otherwise the first chunks on screen that are
    /// not to be there leave it, up to [`BACKLOG_STEP`]. Of the first
    /// [`BACKLOG_STEP`] chunks that are to be on screen and are not, those
    /// with a mesh come to it. "First" is by the rising order of the
    /// regions' identifiers, in which both the chunks and the regions that
    /// are to be on screen are kept. Returns the chunks that left, each
    /// with the entity it was bound to, and the regions whose chunks are
    /// to come.
    pub fn process_chunk_backlog(&mut self) -> (moves: (Vec<(ChunkIndex, u64)>, Vec<ChunkIndex>))
        requires
            old(self).wf(),
        ensures
            final(self).wf(),
            final(self).geometry == old(self).geometry,
            final(self).octree == old(self).octree,
            final(self).pov == old(self).pov,
            final(self).active_chunks == old(self).active_chunks,
            final(self).active_requests == old(self).active_requests,
            final(self).chunk_data.keys@ == old(self).chunk_data.keys@,
            ({
                let data = old(self).chunk_data@;
                let leaving = if old(self).active_requests@ == Set::<Seq<u8>>::empty() {
                    leaving_upto(
                        data,
                        old(self).active_chunks@,
                        index_views(old(self).chunk_data.keys@),
                        old(self).chunk_data.keys@.len() as int,
                    )
                } else {
                    Seq::empty()
                };
                &&& pair_views(moves.0@) == with_entities(data, leaving)
                &&& final(self).chunk_data@ == Map::new(
                    |k: Seq<u8>| data.contains_key(k),
                    |k: Seq<u8>|
                        if leaving.contains(k) {
                            with_entity(data[k], None)
                        } else {
                            data[k]
                        },
                )
                &&& index_views(moves.1@) == coming_upto(
                    data,
                    old(self).active_chunks.order(),
                    old(self).active_chunks.order().len() as int,
                ).coming
            }),
    {
        let ghost data = self.chunk_data@;
        let ghost active = self.active_chunks@;
        let ghost keys = self.chunk_data.keys@;
        let ghost order = index_views(keys);
        let ghost wanted = self.active_chunks.order();
        let mut coming: Vec<ChunkIndex> = Vec::new();
        let mut met: usize = 0;
        let mut j: usize = 0;
        proof {
            assert(index_views(coming@) =~= Seq::<Seq<u8>>::empty());
        }
        while j < self.active_chunks.0.keys.len()
            invariant
                j <= wanted.len(),
                self.wf(),
                *self == *old(self),
                data == self.chunk_data@,
                wanted == self.active_chunks.order(),
                met == coming_upto(data, wanted, j as int).met,
                index_views(coming@) == coming_upto(data, wanted, j as int).coming,
            decreases wanted.len() - j,
        {
            let ghost before = index_views(coming@);
            proof {
                lemma_coming_bounded(data, wanted, j as int);
            }
            let idx = &self.active_chunks.0.keys[j];
            assert(idx@ == wanted[j as int]);
            if met < BACKLOG_STEP {
                let found: Option<(bool, bool)> = match self.chunk_data.get(idx.as_slice()) {
                    Some(d) => Some((d.entity.is_some(), d.mesh_handle.is_some())),
                    None => None,
                };
                match found {
                    Some((bound, stored)) => {
                        if !bound {
                            met += 1;
                            if stored {
                                coming.push(idx.clone());
                                proof {
                                    assert(index_views(coming@) =~= before.push(idx@));
                                }
                            }
                        }
                    },
                    None => {
                        met += 1;
                    },
                }
            }
            j += 1;
        }
        let mut leaving: Vec<(ChunkIndex, u64)> = Vec::new();
        if !self.active_requests.is_empty() {
            proof {
                assert(pair_views(leaving@) =~= with_entities(data, Seq::<Seq<u8>>::empty()));
                assert(self.chunk_data@ =~= Map::new(
                    |k: Seq<u8>| data.contains_key(k),
                    |k: Seq<u8>|
                        if Seq::<Seq<u8>>::empty().contains(k) {
                            with_entity(data[k], None)
                        } else {
                            data[k]
                        },
                ));
            }
            return (leaving, coming);
        }
        let mut i: usize = 0;
        proof {
            assert(pair_views(leaving@) =~= with_entities(
                data,
                leaving_upto(data, active, order, 0),
            ));
            assert(self.chunk_data@ =~= Map::new(
                |k: Seq<u8>| data.contains_key(k),
                |k: Seq<u8>|
                    if leaving_upto(data, active, order, 0).contains(k) {
                        with_entity(data[k], None)
                    } else {
                        data[k]
                    },
            ));
        }
        while i < self.chunk_data.keys.len()
            invariant
                i <= keys.len(),
                self.wf(),
                self.geometry == old(self).geometry,
                self.octree == old(self).octree,
                self.pov == old(self).pov,
                self.active_chunks == old(self).active_chunks,
                self.active_requests == old(self).active_requests,
                self.chunk_data.keys@ == keys,
                order == index_views(keys),
                active == self.active_chunks@,
                data.dom() == self.chunk_data@.dom(),
                pair_views(leaving@) == with_entities(
                    data,
                    leaving_upto(data, active, order, i as int),
                ),
                self.chunk_data@ == Map::new(
                    |k: Seq<u8>| data.contains_key(k),
                    |k: Seq<u8>|
                        if leaving_upto(data, active, order, i as int).contains(k) {
                            with_entity(data[k], None)
                        } else {
                            data[k]
                        },
                ),
            decreases keys.len() - i,
        {
            let ghost key = order[i as int];
            let ghost before = leaving_upto(data, active, order, i as int);
            let ghost after = leaving_upto(data, active, order, i + 1);
            let ghost pairs_before = pair_views(leaving@);
            proof {
                self.chunk_data.lemma_slot(i as int);
                assert(key == keys[i as int]@);
                lemma_leaving_within(data, active, order, i as int, key);
                if order.subrange(0, i as int).contains(key) {
                    let t = choose|t: int| 0 <= t < i && order.subrange(0, i as int)[t] == key;
                    assert(keys[t]@ == keys[i as int]@);
                }
                assert(pairs_before.len() == before.len());
            }
            if leaving.len() < BACKLOG_STEP {
                let entity = self.chunk_data.values[i].entity;
                match entity {
                    Some(e) => {
                        if !self.active_chunks.contains(self.chunk_data.keys[i].as_slice()) {
                            set_entity_at(&mut self.chunk_data, i, None);
                            leaving.push((self.chunk_data.keys[i].clone(), e));
                            proof {
                                assert(pair_views(leaving@) =~= pairs_before.push((key, e)));
                                assert(pair_views(leaving@) =~= with_entities(data, after));
                            }
                        }
                    },
                    None => {},
                }
            }
            proof {
                assert(pair_views(leaving@) =~= with_entities(data, after));
                assert forall|k: Seq<u8>| #[trigger] data.contains_key(k) implies self.chunk_data@[k]
                    == (if after.contains(k) {
                    with_entity(data[k], None)
                } else {
                    data[k]
                }) by {
                    lemma_push_contains(before, key, k);
                }
                assert(self.chunk_data@ =~= Map::new(
                    |k: Seq<u8>| data.contains_key(k),
                    |k: Seq<u8>|
                        if after.contains(k) {
                            with_entity(data[k], None)
                        } else {
                            data[k]
                        },
                ));
            }
            i += 1;
        }
        (leaving, coming)
    }

    /// Binds the chunk of region `index` to the entity that shows it. A
    /// region unknown to the manager is left alone.
    pub fn bind_entity(&mut self, index: &[u8], entity: u64)
        requires
            old(self).wf(),
        ensures
            final(self).wf(),
            final(self).geometry == old(self).geometry,
            final(self).octree == old(self).octree,
            final(self).pov == old(self).pov,
            final(self).active_chunks == old(self).active_chunks,
            final(self).active_requests == old(self).active_requests,
            final(self).chunk_data@ == if old(self).chunk_data@.contains_key(index@) {
                old(self).chunk_data@.insert(
                    index@,
                    with_entity(old(self).chunk_data@[index@], Some(entity)),
                )
            } else {
                old(self).chunk_data@
            },
    {
        match self.chunk_data.position(index) {
            Some(i) => {
                proof {
                    self.chunk_data.lemma_slot(i as int);
                }
                set_entity_at(&mut self.chunk_data, i, Some(entity));
            },
            None => {},
        }
    }
}

} // verus!
