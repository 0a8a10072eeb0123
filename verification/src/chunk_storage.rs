use vstd::prelude::*;
use std::collections::BTreeMap;
use std::collections::BTreeSet;
use crate::chunk_index::ChunkIndex;
use crate::chunk_index::ancestor;
use crate::chunk_index::contains_index;
use crate::chunk_index::has_index;
use crate::chunk_index::index_views;
use crate::chunk_index::is_strict_prefix;
use crate::chunk_index::starts_with;
use crate::geometry_data::GeometryData;
use crate::geometry_data::cell_points;
use crate::geometry_data::grown_over;
use crate::geometry_data::octree_of;
use crate::grid::Position;
use crate::grid::UNIT;
use crate::grid::distance_squared;
use crate::grid::distance_squared_of;
use crate::chunk_index::lemma_views_contain;
use crate::index_map::IndexMap;
use crate::octree::Octree;
use crate::octree::Point;
use crate::seq_facts::lemma_prefix_contains;
use crate::seq_facts::lemma_push_contains;
use crate::seq_facts::lemma_push_fresh;

verus! {

/// A surface: its geometry, and the octree over the centres of its cells.
/// Neither changes once the body is made.
pub struct Body {
    pub geometry: GeometryData,
    pub octree: Octree,
}

impl Body {
    /// A body over `geometry`: cell `i` stands in the octree at its centre
    /// under the identifier `i`. A leaf has room for 16 points.
    pub fn new(geometry: GeometryData) -> (body: Body)
        ensures
            body.geometry == geometry,
            body.octree.wf(),
            body.octree.shape() == grown_over(geometry.cell_normals@, 16),
            body.octree.content().to_multiset() == cell_points(
                geometry.cell_normals@,
            ).to_multiset(),
            body.octree.capacity == 16,
            body.octree.center.x == 0 && body.octree.center.y == 0 && body.octree.center.z == 0,
            body.octree.half_width == UNIT,
            body.octree.depth == 0,
            body.octree.octree_index@ == Seq::<u8>::empty(),
            geometry.wf() ==> body.wf(),
    {
        let octree = octree_of(&geometry.cell_normals, 16);
        let body = Body { geometry, octree };
        proof {
            broadcast use vstd::seq_lib::group_to_multiset_ensures;

            let points = cell_points(body.geometry.cell_normals@);
            assert forall|p: Point| #[trigger] body.octree.content().contains(p) implies p.value
                < body.geometry.cell_normals@.len() by {
                assert(points.to_multiset().count(p) > 0);
                assert(points.contains(p));
                let i = choose|i: int| 0 <= i < points.len() && points[i] == p;
                assert(body.geometry.cell_normals@.len() == body.geometry.cell_normals.len());
            }
        }
        body
    }

    /// The octree and the geometry are well formed, and every point of
    /// the octree names a cell of the geometry.
    pub open spec fn wf(&self) -> bool {
        &&& self.octree.wf()
        &&& self.geometry.wf()
        &&& forall|p: Point| #[trigger]
            self.octree.content().contains(p) ==> p.value < self.geometry.cells@.len()
    }

    /// The first half of a build for region `index`: the region's cells and
    /// the part of the geometry that they make up. `None` where the region
    /// is not realized. The result rests on the body and the identifier
    /// alone.
    pub fn prepare_chunk(&self, index: &[u8]) -> (r: Option<ChunkBuild>)
        requires
            self.wf(),
        ensures
            match r {
                Some(build) => {
                    &&& self.octree.region_cells(index@) == Some(build.cells@)
                    &&& build.wf()
                    &&& self.geometry.is_part(
                        build.cells@,
                        build.local_geometry,
                        build.cells_to_local@,
                    )
                },
                None => self.octree.region_cells(index@) is None,
            },
    {
        match self.octree.get_cells_for_index(index) {
            Some(cells) => {
                proof {
                    let node = self.octree.node_at(index@)->0;
                    assert forall|j: int| 0 <= j < cells@.len() implies (#[trigger] cells@[j])
                        < self.geometry.cells@.len() by {
                        let p = node.content()[j];
                        assert(node.content().contains(p));
                        self.octree.lemma_region_within(index@, p);
                    }
                    assert(cells@.subrange(0, cells@.len() as int) =~= cells@);
                }
                let (local_geometry, cells_to_local) = self.geometry.sub_geometry(cells.as_slice());
                Some(ChunkBuild { cells, local_geometry, cells_to_local })
            },
            None => None,
        }
    }
}

/// Two builds of one region over one body come to the same: the same
/// cells, and the same part of the surface with the same numbering. A
/// build sees the body and the identifier and nothing else, so that builds
/// of other regions, wherever they run, leave no trace in it.
pub proof fn lemma_build_is_fixed(body: Body, index: Seq<u8>, one: ChunkBuild, other: ChunkBuild)
    requires
        body.octree.region_cells(index) == Some(one.cells@),
        body.octree.region_cells(index) == Some(other.cells@),
        body.geometry.is_part(one.cells@, one.local_geometry, one.cells_to_local@),
        body.geometry.is_part(other.cells@, other.local_geometry, other.cells_to_local@),
    ensures
        one.cells@ == other.cells@,
        one.cells_to_local@ == other.cells_to_local@,
        one.local_geometry.vertices@ == other.local_geometry.vertices@,
        one.local_geometry.faces@.len() == other.local_geometry.faces@.len(),
        forall|f: int, c: int|
            0 <= f < one.local_geometry.faces@.len() && 0 <= c < 3 ==> (
            #[trigger] one.local_geometry.faces@[f]@[c]) == other.local_geometry.faces@[f]@[c],
        one.local_geometry.cells@.len() == other.local_geometry.cells@.len(),
        forall|i: int|
            0 <= i < one.local_geometry.cells@.len() ==> (#[trigger] one.local_geometry.cells@[i])@
                == other.local_geometry.cells@[i]@,
        one.local_geometry.cell_normals@ == other.local_geometry.cell_normals@,
        forall|a: int|
            0 <= a < one.local_geometry.cell_neighbors@.len() ==> (
            #[trigger] one.local_geometry.cell_neighbors@[a])@
                == other.local_geometry.cell_neighbors@[a]@,
{
    body.geometry.lemma_part_is_fixed(
        one.cells@,
        one.local_geometry,
        one.cells_to_local@,
        other.local_geometry,
        other.cells_to_local@,
    );
}

/// A region with more cells than this is shown by a coarse stand-in.
pub const PROXY_LIMIT: usize = 256;

/// What a build makes of a region.
pub struct ChunkBuild {
    /// The region's cells.
    pub cells: Vec<usize>,
    /// The part of the surface that the cells make up.
    pub local_geometry: GeometryData,
    /// For each of the cells, the cell of the local geometry that stands
    /// for it.
    pub cells_to_local: BTreeMap<usize, usize>,
}

impl ChunkBuild {
    /// The local geometry is well formed, and exactly the region's cells
    /// have a local cell.
    pub open spec fn wf(&self) -> bool {
        &&& self.local_geometry.wf()
        &&& forall|g: usize| #[trigger]
            self.cells_to_local@.contains_key(g) <==> self.cells@.contains(g)
    }

    /// The second half of a build. A region of more than [`PROXY_LIMIT`]
    /// cells becomes a fan from `apex` over its rim, and all its cells
    /// share the fan's one cell. Any smaller region gets a vertex of its
    /// own for every corner of every face.
    pub fn finish(self, apex: Position) -> (r: ChunkBuild)
        requires
            self.wf(),
        ensures
            r.wf(),
            r.cells == self.cells,
            self.local_geometry.cells@.len() > PROXY_LIMIT ==> {
                &&& self.local_geometry.is_proxy(apex, r.local_geometry)
                &&& forall|g: usize| #[trigger]
                    r.cells_to_local@.contains_key(g) ==> r.cells_to_local@[g] == 0
            },
            self.local_geometry.cells@.len() <= PROXY_LIMIT ==> {
                &&& self.local_geometry.is_duplicate(r.local_geometry)
                &&& r.cells_to_local == self.cells_to_local
            },
    {
        if self.local_geometry.cells.len() > PROXY_LIMIT {
            let local_geometry = self.local_geometry.simplify(apex);
            let mut cells_to_local: BTreeMap<usize, usize> = BTreeMap::new();
            let mut i: usize = 0;
            proof {
                crate::geometry_data::lemma_keys_ordered();
                assert(self.cells@.subrange(0, 0) =~= Seq::<usize>::empty());
            }
            while i < self.cells.len()
                invariant
                    i <= self.cells@.len(),
                    forall|g: usize| #[trigger]
                        cells_to_local@.contains_key(g) <==> self.cells@.subrange(
                            0,
                            i as int,
                        ).contains(g),
                    forall|g: usize| #[trigger]
                        cells_to_local@.contains_key(g) ==> cells_to_local@[g] == 0,
                decreases self.cells@.len() - i,
            {
                cells_to_local.insert(self.cells[i], 0);
                proof {
                    assert forall|g: usize|
                        self.cells@.subrange(0, i + 1).contains(g) <==> self.cells@.subrange(
                            0,
                            i as int,
                        ).contains(g) || self.cells@[i as int] == g by {
                        lemma_prefix_contains(self.cells@, i as int, g);
                    }
                }
                i += 1;
            }
            proof {
                assert(self.cells@.subrange(0, i as int) =~= self.cells@);
            }
            ChunkBuild { cells: self.cells, local_geometry, cells_to_local }
        } else {
            let local_geometry = self.local_geometry.duplicate();
            ChunkBuild { cells: self.cells, local_geometry, cells_to_local: self.cells_to_local }
        }
    }
}

/// What a chunk that shows its mesh knows of itself, for those who paint
/// it.
pub struct ChunkCells {
    pub cells: Option<BTreeSet<usize>>,
    pub cells_to_local: Option<BTreeMap<usize, usize>>,
    pub local_geometry: Option<GeometryData>,
}

impl ChunkCells {
    /// The cells of a finished build as a set, with the build's map and
    /// geometry.
    pub fn new(build: ChunkBuild) -> (r: ChunkCells)
        ensures
            r.cells matches Some(set) && set@ == build.cells@.to_set(),
            r.cells_to_local == Some(build.cells_to_local),
            r.local_geometry == Some(build.local_geometry),
    {
        let mut set: BTreeSet<usize> = BTreeSet::new();
        let mut i: usize = 0;
        proof {
            crate::geometry_data::lemma_keys_ordered();
            assert(build.cells@.subrange(0, 0).to_set() =~= Set::<usize>::empty());
        }
        while i < build.cells.len()
            invariant
                i <= build.cells@.len(),
                set@ == build.cells@.subrange(0, i as int).to_set(),
            decreases build.cells@.len() - i,
        {
            set.insert(build.cells[i]);
            proof {
                let g = build.cells@[i as int];
                assert(build.cells@.subrange(0, i + 1) =~= build.cells@.subrange(0, i as int).push(
                    g,
                ));
                assert(build.cells@.subrange(0, i as int).push(g).to_set()
                    =~= build.cells@.subrange(0, i as int).to_set().insert(g)) by {
                    assert forall|x: usize|
                        build.cells@.subrange(0, i as int).push(g).contains(x)
                            <==> build.cells@.subrange(0, i as int).contains(x) || g == x by {
                        lemma_push_contains(build.cells@.subrange(0, i as int), g, x);
                    }
                }
            }
            i += 1;
        }
        proof {
            assert(build.cells@.subrange(0, i as int) =~= build.cells@);
        }
        ChunkCells {
            cells: Some(set),
            cells_to_local: Some(build.cells_to_local),
            local_geometry: Some(build.local_geometry),
        }
    }
}

/// A point of view: the place on the grid that the viewer looks at, and
/// the detail radius, which grows as the view widens.
#[derive(Clone, Copy, Debug)]
pub struct POV(pub Position, pub u32);

/// A squared distance below this is no movement: a ten-thousandth of a
/// squared unit.
pub const POSITION_TOLERANCE: u128 = 109_951_163;

/// A change of the detail radius below this is no change: a
/// ten-thousandth of a unit.
pub const DETAIL_TOLERANCE: u32 = 105;

impl POV {
    /// Whether `seen` is this point of view once more: its place has moved
    /// by less than the tolerance, and so has its detail radius.
    pub open spec fn unchanged(self, seen: POV) -> bool {
        &&& distance_squared(self.0, seen.0) < POSITION_TOLERANCE
        &&& -DETAIL_TOLERANCE < self.1 - seen.1 < DETAIL_TOLERANCE
    }

    /// Decides [`Self::unchanged`].
    pub fn is_unchanged(&self, seen: &POV) -> (r: bool)
        ensures
            r == self.unchanged(*seen),
    {
        let moved = distance_squared_of(self.0, seen.0);
        let delta = if self.1 >= seen.1 {
            self.1 - seen.1
        } else {
            seen.1 - self.1
        };
        moved < POSITION_TOLERANCE && delta < DETAIL_TOLERANCE
    }
}

impl Default for POV {
    /// The point of view before anything was seen: the origin, with no
    /// detail radius.
    fn default() -> (pov: POV)
        ensures
            pov.0.x == 0 && pov.0.y == 0 && pov.0.z == 0,
            pov.1 == 0,
    {
        POV(Position { x: 0, y: 0, z: 0 }, 0)
    }
}

/// What a finished build has left for a region until its chunk shows it.
#[derive(Clone, Debug, Default)]
pub struct ChunkData {
    /// The handle of the mesh that the renderer made.
    pub mesh_handle: Option<u64>,
    pub entity: Option<u64>,
    /// The cells of the region.
    pub cells: Option<Vec<usize>>,
}

/// What a [`ChunkData`] holds.
pub struct ChunkDataView {
    pub mesh_handle: Option<u64>,
    pub entity: Option<u64>,
    pub cells: Option<Seq<usize>>,
}

impl View for ChunkData {
    type V = ChunkDataView;

    open spec fn view(&self) -> ChunkDataView {
        ChunkDataView {
            mesh_handle: self.mesh_handle,
            entity: self.entity,
            cells: match self.cells {
                Some(c) => Some(c@),
                None => None,
            },
        }
    }
}

/// The finished builds of one body that no chunk shows yet, by region.
pub struct ChunkStorage(pub IndexMap<ChunkData>);

impl View for ChunkStorage {
    type V = Map<Seq<u8>, ChunkDataView>;

    open spec fn view(&self) -> Map<Seq<u8>, ChunkDataView> {
        self.0@
    }
}

impl ChunkStorage {
    /// No region is stored twice.
    pub open spec fn wf(&self) -> bool {
        self.0.wf()
    }

    /// Nothing stored.
    pub fn new() -> (r: ChunkStorage)
        ensures
            r.wf(),
            r@ == Map::<Seq<u8>, ChunkDataView>::empty(),
    {
        ChunkStorage(IndexMap::new())
    }
}

/// The regions whose meshes a retired chunk waits for before it goes.
pub struct AwaitingDeletion(pub Vec<ChunkIndex>);

/// The chunk of one region: what is known of its mesh.
pub struct Chunk {
    pub index: ChunkIndex,
    /// The chunk is wanted on screen and has no mesh to show yet.
    pub needs_mesh: bool,
    /// A build of the chunk's mesh is in flight.
    pub generating: bool,
    /// The chunk shows a mesh.
    pub has_mesh: bool,
}

/// A region's chunk: in use, or kept on screen until what replaces it is
/// ready.
pub enum ChunkRef {
    Active(Chunk),
    Cleanup(Chunk, AwaitingDeletion),
}

/// What a [`ChunkRef`] says, without the chunk's own identifier.
pub struct ChunkView {
    pub cleanup: bool,
    /// The regions waited for; none while the chunk is active.
    pub dependents: Seq<Seq<u8>>,
    pub needs_mesh: bool,
    pub generating: bool,
    pub has_mesh: bool,
}

impl ChunkRef {
    /// The chunk that the reference holds.
    pub open spec fn chunk(self) -> Chunk {
        match self {
            ChunkRef::Active(c) => c,
            ChunkRef::Cleanup(c, _) => c,
        }
    }
}

impl View for ChunkRef {
    type V = ChunkView;

    open spec fn view(&self) -> ChunkView {
        match *self {
            ChunkRef::Active(c) => ChunkView {
                cleanup: false,
                dependents: Seq::empty(),
                needs_mesh: c.needs_mesh,
                generating: c.generating,
                has_mesh: c.has_mesh,
            },
            ChunkRef::Cleanup(c, a) => ChunkView {
                cleanup: true,
                dependents: index_views(a.0@),
                needs_mesh: c.needs_mesh,
                generating: c.generating,
                has_mesh: c.has_mesh,
            },
        }
    }
}

/// The chunks of one body, by region.
pub struct ChunkRefs(pub IndexMap<ChunkRef>);

impl View for ChunkRefs {
    type V = Map<Seq<u8>, ChunkView>;

    open spec fn view(&self) -> Map<Seq<u8>, ChunkView> {
        self.0@
    }
}

/// The state of a chunk that has just been made.
pub open spec fn fresh() -> ChunkView {
    ChunkView {
        cleanup: false,
        dependents: Seq::empty(),
        needs_mesh: true,
        generating: false,
        has_mesh: false,
    }
}

/// The state of a retired chunk that is needed again: active, waiting for
/// nothing, in want of a mesh, its build in flight given up. The mesh it
/// still shows stays.
pub open spec fn reinstated(s: ChunkView) -> ChunkView {
    ChunkView {
        cleanup: false,
        dependents: Seq::empty(),
        needs_mesh: true,
        generating: false,
        has_mesh: s.has_mesh,
    }
}

/// The state of a chunk that is no longer needed: it waits for
/// `dependents`, wants no mesh, and its build in flight is given up. The
/// mesh it shows stays until the chunk goes.
pub open spec fn retired(s: ChunkView, dependents: Seq<Seq<u8>>) -> ChunkView {
    ChunkView {
        cleanup: true,
        dependents,
        needs_mesh: false,
        generating: false,
        has_mesh: s.has_mesh,
    }
}

/// The state of a needed region's chunk: made where there was none,
/// reinstated where it was retired, as it was where it was active.
pub open spec fn activated(chunks: Map<Seq<u8>, ChunkView>, index: Seq<u8>) -> ChunkView {
    if !chunks.contains_key(index) {
        fresh()
    } else if chunks[index].cleanup {
        reinstated(chunks[index])
    } else {
        chunks[index]
    }
}

/// The needed regions among the first `n` that lie strictly inside
/// `index`, in the order of `needed`.
pub open spec fn descendants_upto(index: Seq<u8>, needed: Seq<Seq<u8>>, n: int) -> Seq<Seq<u8>>
    decreases n,
{
    if n <= 0 || n > needed.len() {
        Seq::empty()
    } else {
        let before = descendants_upto(index, needed, n - 1);
        if is_strict_prefix(index, needed[n - 1]) {
            before.push(needed[n - 1])
        } else {
            before
        }
    }
}

/// The nearest needed region strictly above `index` among its ancestors
/// of fewer than `limit` selectors.
pub open spec fn nearest_above(index: Seq<u8>, needed: Seq<Seq<u8>>, limit: int) -> Option<Seq<u8>>
    decreases limit,
{
    if limit <= 0 || limit > index.len() {
        None
    } else {
        let parent = index.subrange(0, limit - 1);
        if needed.contains(parent) {
            Some(parent)
        } else {
            nearest_above(index, needed, limit - 1)
        }
    }
}

/// The regions that an obsolete region waits for: every needed region
/// strictly inside it, which replace it by finer ones, and then the
/// nearest needed region strictly above it, which replaces it by a coarser
/// one.
pub open spec fn dependents_of(index: Seq<u8>, needed: Seq<Seq<u8>>) -> Seq<Seq<u8>> {
    descendants_upto(index, needed, needed.len() as int) + (match nearest_above(
        index,
        needed,
        index.len() as int,
    ) {
        Some(parent) => seq![parent],
        None => Seq::empty(),
    })
}

/// The chunks after the needed regions have changed to `needed`: every
/// needed region has an active chunk, every other chunk is retired and
/// waits for what replaces it, and no chunk goes.
pub open spec fn recompute_spec(chunks: Map<Seq<u8>, ChunkView>, needed: Seq<Seq<u8>>) -> Map<
    Seq<u8>,
    ChunkView,
> {
    Map::new(
        |k: Seq<u8>| chunks.contains_key(k) || needed.contains(k),
        |k: Seq<u8>|
            if needed.contains(k) {
                activated(chunks, k)
            } else {
                retired(chunks[k], dependents_of(k, needed))
            },
    )
}

/// What a change of the needed regions did to the chunks. Each list
/// names a region once.
pub struct Transitions {
    /// The regions that got a new chunk.
    pub spawned: Vec<ChunkIndex>,
    /// The regions whose retired chunk is active again.
    pub reinstated: Vec<ChunkIndex>,
    /// The regions whose active chunk was retired.
    pub retired: Vec<ChunkIndex>,
}

/// The chunks after every needed region has got its active chunk.
pub open spec fn activate_spec(chunks: Map<Seq<u8>, ChunkView>, needed: Seq<Seq<u8>>) -> Map<
    Seq<u8>,
    ChunkView,
> {
    Map::new(
        |k: Seq<u8>| chunks.contains_key(k) || needed.contains(k),
        |k: Seq<u8>|
            if needed.contains(k) {
                activated(chunks, k)
            } else {
                chunks[k]
            },
    )
}

/// The chunks after those of `done` that are not needed have been
/// retired.
pub open spec fn retire_spec(
    chunks: Map<Seq<u8>, ChunkView>,
    needed: Seq<Seq<u8>>,
    done: Seq<Seq<u8>>,
) -> Map<Seq<u8>, ChunkView> {
    Map::new(
        |k: Seq<u8>| chunks.contains_key(k),
        |k: Seq<u8>|
            if !needed.contains(k) && done.contains(k) {
                retired(chunks[k], dependents_of(k, needed))
            } else {
                chunks[k]
            },
    )
}

impl Chunk {
    /// A chunk that has just been made for `index`.
    pub fn new(index: ChunkIndex) -> (c: Chunk)
        ensures
            c.index == index,
            c.needs_mesh,
            !c.generating,
            !c.has_mesh,
    {
        Chunk { index, needs_mesh: true, generating: false, has_mesh: false }
    }
}

impl ChunkRef {
    /// The chunk that the reference holds.
    pub fn get_chunk(&self) -> (c: &Chunk)
        ensures
            *c == self.chunk(),
    {
        match self {
            ChunkRef::Active(c) => c,
            ChunkRef::Cleanup(c, _) => c,
        }
    }

    /// Whether the chunk is retired.
    pub fn is_cleanup(&self) -> (r: bool)
        ensures
            r == self@.cleanup,
    {
        match self {
            ChunkRef::Active(_) => false,
            ChunkRef::Cleanup(_, _) => true,
        }
    }
}

impl ChunkRefs {
    /// No region has two chunks, and every chunk knows its region.
    pub open spec fn wf(&self) -> bool {
        &&& self.0.wf()
        &&& forall|i: int|
            0 <= i < self.0.keys@.len() ==> (#[trigger] self.0.values@[i]).chunk().index@
                == self.0.keys@[i]@
    }

    /// No chunks.
    pub fn new() -> (r: ChunkRefs)
        ensures
            r.wf(),
            r@ == Map::<Seq<u8>, ChunkView>::empty(),
    {
        ChunkRefs(IndexMap::new())
    }

    /// The chunk of region `index`, if it has one.
    pub fn get(&self, index: &[u8]) -> (r: Option<&ChunkRef>)
        requires
            self.wf(),
        ensures
            match r {
                Some(v) => self@.contains_key(index@) && self@[index@] == v@ && v.chunk().index@
                    == index@,
                None => !self@.contains_key(index@),
            },
    {
        match self.0.position(index) {
            Some(i) => {
                proof {
                    self.0.lemma_slot(i as int);
                }
                Some(&self.0.values[i])
            },
            None => None,
        }
    }

    /// Puts `value` in the place of its region's chunk, or where the
    /// region had none, at the region's place in the rising order.
    pub fn put(&mut self, value: ChunkRef)
        requires
            old(self).wf(),
        ensures
            final(self).wf(),
            final(self)@ == old(self)@.insert(value.chunk().index@, value@),
            old(self)@.contains_key(value.chunk().index@) ==> final(self).0.keys@ == old(self).0.keys@,
    {
        let key = value.get_chunk().index.clone();
        self.0.insert(key, value);
    }

    /// Gives every needed region an active chunk: a new one where it has
    /// none, its retired one where it has that.
    pub fn activate_needed(&mut self, needed: &Vec<ChunkIndex>) -> (made: (
        Vec<ChunkIndex>,
        Vec<ChunkIndex>,
    ))
        requires
            old(self).wf(),
        ensures
            final(self).wf(),
            final(self)@ == activate_spec(old(self)@, index_views(needed@)),
            forall|k: Seq<u8>| #[trigger]
                index_views(made.0@).contains(k) <==> index_views(needed@).contains(k) && !old(self)@.contains_key(k),
            forall|k: Seq<u8>| #[trigger]
                index_views(made.1@).contains(k) <==> index_views(needed@).contains(k) && old(self)@.contains_key(k) && old(self)@[k].cleanup,
            index_views(made.0@).no_duplicates(),
            index_views(made.1@).no_duplicates(),
    {
        let ghost chunks = self@;
        let ghost views = index_views(needed@);
        let mut spawned: Vec<ChunkIndex> = Vec::new();
        let mut reinstated: Vec<ChunkIndex> = Vec::new();
        let mut j: usize = 0;
        proof {
            assert(self@ =~= activate_spec(chunks, views.subrange(0, 0)));
            assert(index_views(spawned@) =~= Seq::<Seq<u8>>::empty());
            assert(index_views(reinstated@) =~= Seq::<Seq<u8>>::empty());
        }
        while j < needed.len()
            invariant
                j <= needed@.len(),
                views == index_views(needed@),
                self.wf(),
                self@ == activate_spec(chunks, views.subrange(0, j as int)),
                forall|k: Seq<u8>| #[trigger]
                    index_views(spawned@).contains(k) <==> views.subrange(0, j as int).contains(k)
                        && !chunks.contains_key(k),
                forall|k: Seq<u8>| #[trigger]
                    index_views(reinstated@).contains(k) <==> views.subrange(0, j as int).contains(
                        k,
                    ) && chunks.contains_key(k) && chunks[k].cleanup,
                index_views(spawned@).no_duplicates(),
                index_views(reinstated@).no_duplicates(),
            decreases needed@.len() - j,
        {
            let index = &needed[j];
            let ghost key = index@;
            let ghost before = self@;
            let ghost spawned_before = index_views(spawned@);
            let ghost reinstated_before = index_views(reinstated@);
            assert(key == views[j as int]);
            let found: Option<(bool, bool)> = match self.get(index.as_slice()) {
                Some(r) => Some((r.is_cleanup(), r.get_chunk().has_mesh)),
                None => None,
            };
            match found {
                Some((cleanup, has_mesh)) => {
                    if cleanup {
                        self.put(
                            ChunkRef::Active(
                                Chunk {
                                    index: index.clone(),
                                    needs_mesh: true,
                                    generating: false,
                                    has_mesh,
                                },
                            ),
                        );
                        reinstated.push(index.clone());
                        proof {
                            assert(index_views(reinstated@) =~= reinstated_before.push(key));
                            lemma_push_fresh(reinstated_before, key);
                        }
                    }
                },
                None => {
                    self.put(ChunkRef::Active(Chunk::new(index.clone())));
                    spawned.push(index.clone());
                    proof {
                        assert(index_views(spawned@) =~= spawned_before.push(key));
                        lemma_push_fresh(spawned_before, key);
                    }
                },
            }
            proof {
                let short = views.subrange(0, j as int);
                let long = views.subrange(0, j + 1);
                assert forall|k: Seq<u8>| long.contains(k) <==> short.contains(k) || key == k by {
                    lemma_prefix_contains(views, j as int, k);
                }
                assert(self@ =~= activate_spec(chunks, long));
                assert forall|k: Seq<u8>| #[trigger]
                    index_views(spawned@).contains(k) <==> long.contains(k) && !chunks.contains_key(
                        k,
                    ) by {
                    lemma_push_contains(spawned_before, key, k);
                }
                assert forall|k: Seq<u8>| #[trigger]
                    index_views(reinstated@).contains(k) <==> long.contains(k)
                        && chunks.contains_key(k) && chunks[k].cleanup by {
                    lemma_push_contains(reinstated_before, key, k);
                }
            }
            j += 1;
        }
        proof {
            assert(views.subrange(0, j as int) =~= views);
        }
        (spawned, reinstated)
    }
}

impl ChunkRefs {
    /// Retires every chunk whose region is not needed: it waits for the
    /// regions that replace it, wants no mesh, and gives up its build. A
    /// chunk that was retired before waits for the new replacements.
    pub fn retire_obsolete(&mut self, needed: &Vec<ChunkIndex>) -> (gone: Vec<ChunkIndex>)
        requires
            old(self).wf(),
        ensures
            final(self).wf(),
            final(self)@ == retire_spec(
                old(self)@,
                index_views(needed@),
                index_views(old(self).0.keys@),
            ),
            final(self).0.keys@ == old(self).0.keys@,
            forall|k: Seq<u8>| #[trigger]
                index_views(gone@).contains(k) <==> old(self)@.contains_key(k) && !index_views(
                    needed@,
                ).contains(k) && !old(self)@[k].cleanup,
            index_views(gone@).no_duplicates(),
    {
        let ghost chunks = self@;
        let ghost views = index_views(needed@);
        let ghost keys = self.0.keys@;
        let ghost key_views = index_views(self.0.keys@);
        let mut gone: Vec<ChunkIndex> = Vec::new();
        let mut i: usize = 0;
        proof {
            assert(self@ =~= retire_spec(chunks, views, key_views.subrange(0, 0)));
            assert(index_views(gone@) =~= Seq::<Seq<u8>>::empty());
        }
        while i < self.0.keys.len()
            invariant
                i <= keys.len(),
                views == index_views(needed@),
                key_views == index_views(keys),
                self.0.keys@ == keys,
                self.wf(),
                chunks.dom() == self@.dom(),
                self@ == retire_spec(chunks, views, key_views.subrange(0, i as int)),
                forall|k: Seq<u8>| #[trigger]
                    index_views(gone@).contains(k) <==> key_views.subrange(0, i as int).contains(k)
                        && !views.contains(k) && !chunks[k].cleanup,
                index_views(gone@).no_duplicates(),
            decreases keys.len() - i,
        {
            let key = self.0.keys[i].clone();
            let ghost gone_before = index_views(gone@);
            proof {
                assert(key@ == key_views[i as int]);
                self.0.lemma_slot(i as int);
                lemma_views_contain(needed@, key@);
                assert forall|k: Seq<u8>|
                    key_views.subrange(0, i + 1).contains(k) <==> key_views.subrange(
                        0,
                        i as int,
                    ).contains(k) || key@ == k by {
                    lemma_prefix_contains(key_views, i as int, k);
                }
                if key_views.subrange(0, i as int).contains(key@) {
                    let t = choose|t: int|
                        0 <= t < i && key_views.subrange(0, i as int)[t] == key@;
                    assert(keys[t]@ == keys[i as int]@);
                }
            }
            if !contains_index(needed, key.as_slice()) {
                let waits_for = dependents(key.as_slice(), needed);
                let (was_cleanup, has_mesh) = {
                    let r = &self.0.values[i];
                    (r.is_cleanup(), r.get_chunk().has_mesh)
                };
                self.put(
                    ChunkRef::Cleanup(
                        Chunk { index: key.clone(), needs_mesh: false, generating: false, has_mesh },
                        AwaitingDeletion(waits_for),
                    ),
                );
                if !was_cleanup {
                    gone.push(key);
                    proof {
                        assert(index_views(gone@) =~= gone_before.push(key@));
                        lemma_push_fresh(gone_before, key@);
                    }
                }
            }
            proof {
                assert(self@ =~= retire_spec(chunks, views, key_views.subrange(0, i + 1)));
                assert forall|k: Seq<u8>| #[trigger]
                    index_views(gone@).contains(k) <==> key_views.subrange(0, i + 1).contains(k)
                        && !views.contains(k) && !chunks[k].cleanup by {
                    lemma_push_contains(gone_before, key@, k);
                }
            }
            i += 1;
        }
        proof {
            assert(key_views.subrange(0, i as int) =~= key_views);
            assert forall|k: Seq<u8>| chunks.contains_key(k) implies key_views.contains(k) by {
                lemma_views_contain(keys, k);
            }
        }
        gone
    }

    /// Brings the chunks in line with the needed regions: every needed
    /// region gets or keeps an active chunk, every other chunk is retired
    /// and waits for what replaces it. No chunk goes here.
    pub fn recompute(&mut self, needed: &Vec<ChunkIndex>) -> (changes: Transitions)
        requires
            old(self).wf(),
        ensures
            final(self).wf(),
            final(self)@ == recompute_spec(old(self)@, index_views(needed@)),
            forall|k: Seq<u8>| #[trigger]
                index_views(changes.spawned@).contains(k) <==> index_views(needed@).contains(k)
                    && !old(self)@.contains_key(k),
            forall|k: Seq<u8>| #[trigger]
                index_views(changes.reinstated@).contains(k) <==> index_views(needed@).contains(k)
                    && old(self)@.contains_key(k) && old(self)@[k].cleanup,
            forall|k: Seq<u8>| #[trigger]
                index_views(changes.retired@).contains(k) <==> old(self)@.contains_key(k)
                    && !index_views(needed@).contains(k) && !old(self)@[k].cleanup,
            index_views(changes.spawned@).no_duplicates(),
            index_views(changes.reinstated@).no_duplicates(),
            index_views(changes.retired@).no_duplicates(),
    {
        let ghost chunks = self@;
        let ghost views = index_views(needed@);
        let (spawned, reinstated) = self.activate_needed(needed);
        let ghost keys = self.0.keys@;
        let retired = self.retire_obsolete(needed);
        proof {
            assert forall|k: Seq<u8>| activate_spec(chunks, views).contains_key(k) implies index_views(
                keys,
            ).contains(k) by {
                lemma_views_contain(keys, k);
            }
            assert(self@ =~= recompute_spec(chunks, views));
        }
        Transitions { spawned, reinstated, retired }
    }
}

/// Whether nothing is left to wait for in region `index`: its chunk shows
/// a mesh, or it has no chunk any more.
pub open spec fn ready(chunks: Map<Seq<u8>, ChunkView>, index: Seq<u8>) -> bool {
    !chunks.contains_key(index) || chunks[index].has_mesh
}

/// Whether every region of the list is ready.
pub open spec fn all_ready(chunks: Map<Seq<u8>, ChunkView>, pending: Seq<Seq<u8>>) -> bool {
    forall|i: int| 0 <= i < pending.len() ==> ready(chunks, #[trigger] pending[i])
}

/// Whether the chunk of region `index` may go: it is retired, and all it
/// waits for is ready.
pub open spec fn may_go(chunks: Map<Seq<u8>, ChunkView>, index: Seq<u8>) -> bool {
    chunks.contains_key(index) && chunks[index].cleanup && all_ready(
        chunks,
        chunks[index].dependents,
    )
}

/// The chunks that stay when all that may go have gone.
pub open spec fn despawn_spec(chunks: Map<Seq<u8>, ChunkView>) -> Map<Seq<u8>, ChunkView> {
    Map::new(|k: Seq<u8>| chunks.contains_key(k) && !may_go(chunks, k), |k: Seq<u8>| chunks[k])
}

impl ChunkRefs {
    /// Takes the chunk of region `index` out, if there is one.
    pub fn remove(&mut self, index: &[u8]) -> (r: Option<ChunkRef>)
        requires
            old(self).wf(),
        ensures
            final(self).wf(),
            final(self)@ == old(self)@.remove(index@),
            match r {
                Some(v) => old(self)@.contains_key(index@) && old(self)@[index@] == v@,
                None => !old(self)@.contains_key(index@),
            },
    {
        self.0.remove(index)
    }

    /// Decides [`all_ready`].
    pub fn is_all_ready(&self, pending: &Vec<ChunkIndex>) -> (r: bool)
        requires
            self.wf(),
        ensures
            r == all_ready(self@, index_views(pending@)),
    {
        let mut i: usize = 0;
        while i < pending.len()
            invariant
                i <= pending@.len(),
                self.wf(),
                forall|j: int| 0 <= j < i ==> ready(self@, #[trigger] index_views(pending@)[j]),
            decreases pending@.len() - i,
        {
            let shown = match self.get(pending[i].as_slice()) {
                Some(r) => r.get_chunk().has_mesh,
                None => true,
            };
            if !shown {
                proof {
                    assert(!ready(self@, index_views(pending@)[i as int]));
                }
                return false;
            }
            i += 1;
        }
        true
    }

    /// The regions whose chunks may go, each once.
    pub fn doomed(&self) -> (r: Vec<ChunkIndex>)
        requires
            self.wf(),
        ensures
            forall|k: Seq<u8>| #[trigger] index_views(r@).contains(k) <==> may_go(self@, k),
            index_views(r@).no_duplicates(),
    {
        let ghost key_views = index_views(self.0.keys@);
        let mut r: Vec<ChunkIndex> = Vec::new();
        let mut i: usize = 0;
        proof {
            assert(index_views(r@) =~= Seq::<Seq<u8>>::empty());
        }
        while i < self.0.keys.len()
            invariant
                i <= self.0.keys@.len(),
                self.wf(),
                key_views == index_views(self.0.keys@),
                forall|k: Seq<u8>| #[trigger]
                    index_views(r@).contains(k) <==> key_views.subrange(0, i as int).contains(k)
                        && may_go(self@, k),
                index_views(r@).no_duplicates(),
            decreases self.0.keys@.len() - i,
        {
            let ghost before = index_views(r@);
            let ghost key = self.0.keys@[i as int]@;
            proof {
                self.0.lemma_slot(i as int);
                assert(key == key_views[i as int]);
            }
            let goes = match &self.0.values[i] {
                ChunkRef::Active(_) => false,
                ChunkRef::Cleanup(_, AwaitingDeletion(pending)) => self.is_all_ready(pending),
            };
            if goes {
                r.push(self.0.keys[i].clone());
                proof {
                    assert(index_views(r@) =~= before.push(key));
                    if key_views.subrange(0, i as int).contains(key) {
                        let t = choose|t: int|
                            0 <= t < i && key_views.subrange(0, i as int)[t] == key;
                        assert(self.0.keys@[t]@ == self.0.keys@[i as int]@);
                    }
                    lemma_push_fresh(before, key);
                }
            }
            proof {
                assert forall|k: Seq<u8>| #[trigger]
                    index_views(r@).contains(k) <==> key_views.subrange(0, i + 1).contains(k)
                        && may_go(self@, k) by {
                    lemma_prefix_contains(key_views, i as int, k);
                    lemma_push_contains(before, key, k);
                }
            }
            i += 1;
        }
        proof {
            assert(key_views.subrange(0, i as int) =~= key_views);
            assert forall|k: Seq<u8>| #[trigger] index_views(r@).contains(k) <==> may_go(
                self@,
                k,
            ) by {
                lemma_views_contain(self.0.keys@, k);
            }
        }
        r
    }
}

/// Lets every retired chunk go that waits for nothing any more: each
/// region it waits for shows a mesh or has no chunk left. What was stored
/// for a chunk goes with it. Whether a chunk may go is judged on the
/// chunks as they are when the pass begins. Returns the regions whose
/// chunks went, each once.
pub fn despawn_chunks(chunk_refs: &mut ChunkRefs, storage: &mut ChunkStorage) -> (gone: Vec<
    ChunkIndex,
>)
    requires
        old(chunk_refs).wf(),
        old(storage).wf(),
    ensures
        final(chunk_refs).wf(),
        final(storage).wf(),
        final(chunk_refs)@ == despawn_spec(old(chunk_refs)@),
        final(storage)@ == Map::new(
            |k: Seq<u8>| old(storage)@.contains_key(k) && !may_go(old(chunk_refs)@, k),
            |k: Seq<u8>| old(storage)@[k],
        ),
        forall|k: Seq<u8>| #[trigger]
            index_views(gone@).contains(k) <==> may_go(old(chunk_refs)@, k),
        index_views(gone@).no_duplicates(),
{
    let ghost chunks = chunk_refs@;
    let ghost stored = storage@;
    let gone = chunk_refs.doomed();
    let ghost views = index_views(gone@);
    let mut j: usize = 0;
    proof {
        assert(chunk_refs@ =~= Map::new(
            |k: Seq<u8>| chunks.contains_key(k) && !views.subrange(0, 0).contains(k),
            |k: Seq<u8>| chunks[k],
        ));
        assert(storage@ =~= Map::new(
            |k: Seq<u8>| stored.contains_key(k) && !views.subrange(0, 0).contains(k),
            |k: Seq<u8>| stored[k],
        ));
    }
    while j < gone.len()
        invariant
            j <= gone@.len(),
            views == index_views(gone@),
            chunk_refs.wf(),
            storage.wf(),
            chunk_refs@ == Map::new(
                |k: Seq<u8>| chunks.contains_key(k) && !views.subrange(0, j as int).contains(k),
                |k: Seq<u8>| chunks[k],
            ),
            storage@ == Map::new(
                |k: Seq<u8>| stored.contains_key(k) && !views.subrange(0, j as int).contains(k),
                |k: Seq<u8>| stored[k],
            ),
        decreases gone@.len() - j,
    {
        let index = &gone[j];
        chunk_refs.remove(index.as_slice());
        storage.0.remove(index.as_slice());
        proof {
            assert(index@ == views[j as int]);
            assert forall|k: Seq<u8>|
                views.subrange(0, j + 1).contains(k) <==> views.subrange(0, j as int).contains(k)
                    || index@ == k by {
                lemma_prefix_contains(views, j as int, k);
            }
            assert(chunk_refs@ =~= Map::new(
                |k: Seq<u8>| chunks.contains_key(k) && !views.subrange(0, j + 1).contains(k),
                |k: Seq<u8>| chunks[k],
            ));
            assert(storage@ =~= Map::new(
                |k: Seq<u8>| stored.contains_key(k) && !views.subrange(0, j + 1).contains(k),
                |k: Seq<u8>| stored[k],
            ));
        }
        j += 1;
    }
    proof {
        assert(views.subrange(0, j as int) =~= views);
        assert(chunk_refs@ =~= despawn_spec(chunks));
        assert(storage@ =~= Map::new(
            |k: Seq<u8>| stored.contains_key(k) && !may_go(chunks, k),
            |k: Seq<u8>| stored[k],
        ));
    }
    gone
}

/// A chunk's state with other flags.
pub open spec fn with_flags(s: ChunkView, needs_mesh: bool, generating: bool, has_mesh: bool) -> ChunkView {
    ChunkView { cleanup: s.cleanup, dependents: s.dependents, needs_mesh, generating, has_mesh }
}

impl ChunkRefs {
    /// Sets the flags of the chunk at place `i`.
    pub(crate) fn set_flags_at(&mut self, i: usize, needs_mesh: bool, generating: bool, has_mesh: bool)
        requires
            old(self).wf(),
            i < old(self).0.keys@.len(),
        ensures
            final(self).wf(),
            final(self).0.keys@ == old(self).0.keys@,
            final(self)@ == old(self)@.insert(
                old(self).0.keys@[i as int]@,
                with_flags(old(self).0.values@[i as int]@, needs_mesh, generating, has_mesh),
            ),
    {
        let ghost before = *self;
        match &mut self.0.values[i] {
            ChunkRef::Active(c) => {
                c.needs_mesh = needs_mesh;
                c.generating = generating;
                c.has_mesh = has_mesh;
            },
            ChunkRef::Cleanup(c, _) => {
                c.needs_mesh = needs_mesh;
                c.generating = generating;
                c.has_mesh = has_mesh;
            },
        }
        proof {
            let key = before.0.keys@[i as int]@;
            let state = with_flags(before.0.values@[i as int]@, needs_mesh, generating, has_mesh);
            assert(self.0.values@[i as int]@ == state);
            assert forall|j: int| 0 <= j < self.0.keys@.len() && j != i implies self.0.values@[j]
                == before.0.values@[j] by {}
            before.0.lemma_slot(i as int);
            assert forall|k: Seq<u8>| #[trigger] self@.contains_key(k) implies self@[k]
                == before@.insert(key, state)[k] by {
                let t = self.0.slot_of(k);
                self.0.lemma_slot(t);
                before.0.lemma_slot(t);
            }
            assert(self@ =~= before@.insert(key, state));
        }
    }
}

/// No build is started while more than this many are in flight.
pub const MAX_BUILDS: usize = 256;

/// What a pass over the chunks decides about builds.
pub struct BuildPlan {
    /// The builds in flight, those started in the pass included.
    pub in_flight: int,
    /// The pass has met a chunk that must wait for a later pass, and has
    /// ended there.
    pub stopped: bool,
    /// The regions whose builds start, in the order of the chunks.
    pub started: Seq<Seq<u8>>,
    /// The regions whose chunks show a mesh and so want none.
    pub cleared: Seq<Seq<u8>>,
}

/// Whether a finished build's mesh is stored for region `index`.
pub open spec fn mesh_stored(stored: Map<Seq<u8>, ChunkDataView>, index: Seq<u8>) -> bool {
    stored.contains_key(index) && stored[index].mesh_handle is Some
}

/// What the pass decides over the first `n` chunks in `order`, with
/// `in_flight` builds in flight when it begins. Only a chunk that wants a
/// mesh and has no build in flight is looked at. One that shows a mesh
/// wants none any more. At the first other one that finds more than
/// [`MAX_BUILDS`] builds in flight the pass ends. One whose mesh is stored
/// is passed over. For every other one a build starts.
pub open spec fn plan_upto(
    chunks: Map<Seq<u8>, ChunkView>,
    stored: Map<Seq<u8>, ChunkDataView>,
    order: Seq<Seq<u8>>,
    n: int,
    in_flight: int,
) -> BuildPlan
    decreases n,
{
    if n <= 0 || n > order.len() {
        BuildPlan { in_flight, stopped: false, started: Seq::empty(), cleared: Seq::empty() }
    } else {
        let before = plan_upto(chunks, stored, order, n - 1, in_flight);
        let k = order[n - 1];
        let s = chunks[k];
        if before.stopped || !s.needs_mesh || s.generating {
            before
        } else if s.has_mesh {
            BuildPlan { cleared: before.cleared.push(k), ..before }
        } else if before.in_flight > MAX_BUILDS {
            BuildPlan { stopped: true, ..before }
        } else if mesh_stored(stored, k) {
            before
        } else {
            BuildPlan {
                in_flight: before.in_flight + 1,
                started: before.started.push(k),
                ..before
            }
        }
    }
}

/// The chunks after a pass with this plan: a build is in flight for every
/// region started, and no region cleared wants a mesh.
pub open spec fn generate_spec(chunks: Map<Seq<u8>, ChunkView>, plan: BuildPlan) -> Map<
    Seq<u8>,
    ChunkView,
> {
    Map::new(
        |k: Seq<u8>| chunks.contains_key(k),
        |k: Seq<u8>|
            if plan.started.contains(k) {
                with_flags(chunks[k], chunks[k].needs_mesh, true, chunks[k].has_mesh)
            } else if plan.cleared.contains(k) {
                with_flags(chunks[k], false, chunks[k].generating, chunks[k].has_mesh)
            } else {
                chunks[k]
            },
    )
}

/// Every region started or cleared among the first `n` is one of them.
pub proof fn lemma_plan_within(
    chunks: Map<Seq<u8>, ChunkView>,
    stored: Map<Seq<u8>, ChunkDataView>,
    order: Seq<Seq<u8>>,
    n: int,
    in_flight: int,
    k: Seq<u8>,
)
    requires
        0 <= n <= order.len(),
    ensures
        plan_upto(chunks, stored, order, n, in_flight).started.contains(k) ==> order.subrange(
            0,
            n,
        ).contains(k),
        plan_upto(chunks, stored, order, n, in_flight).cleared.contains(k) ==> order.subrange(
            0,
            n,
        ).contains(k),
    decreases n,
{
    if n > 0 {
        let before = plan_upto(chunks, stored, order, n - 1, in_flight);
        lemma_plan_within(chunks, stored, order, n - 1, in_flight, k);
        lemma_prefix_contains(order, n - 1, k);
        lemma_push_contains(before.started, order[n - 1], k);
        lemma_push_contains(before.cleared, order[n - 1], k);
    }
}

/// Starts the builds that are due. The chunks are looked at in the
/// rising order of their regions, as [`plan_upto`] says, with `in_flight`
/// builds already in flight. Returns the regions whose builds are to be
/// started now.
pub fn generate_meshes(chunk_refs: &mut ChunkRefs, storage: &ChunkStorage, in_flight: usize) -> (started:
    Vec<ChunkIndex>)
    requires
        old(chunk_refs).wf(),
        storage.wf(),
    ensures
        final(chunk_refs).wf(),
        final(chunk_refs).0.keys@ == old(chunk_refs).0.keys@,
        ({
            let plan = plan_upto(
                old(chunk_refs)@,
                storage@,
                index_views(old(chunk_refs).0.keys@),
                old(chunk_refs).0.keys@.len() as int,
                in_flight as int,
            );
            &&& final(chunk_refs)@ == generate_spec(old(chunk_refs)@, plan)
            &&& index_views(started@) == plan.started
        }),
{
    let ghost chunks = chunk_refs@;
    let ghost keys = chunk_refs.0.keys@;
    let ghost order = index_views(keys);
    let mut started: Vec<ChunkIndex> = Vec::new();
    let mut count: usize = in_flight;
    let mut stopped = false;
    let mut i: usize = 0;
    proof {
        assert(chunk_refs@ =~= generate_spec(
            chunks,
            plan_upto(chunks, storage@, order, 0, in_flight as int),
        ));
        assert(index_views(started@) =~= Seq::<Seq<u8>>::empty());
    }
    while i < chunk_refs.0.keys.len() && !stopped
        invariant
            i <= keys.len(),
            order == index_views(keys),
            chunk_refs.0.keys@ == keys,
            chunk_refs.wf(),
            storage.wf(),
            chunks.dom() == chunk_refs@.dom(),
            ({
                let plan = plan_upto(chunks, storage@, order, i as int, in_flight as int);
                &&& chunk_refs@ == generate_spec(chunks, plan)
                &&& index_views(started@) == plan.started
                &&& count == plan.in_flight
                &&& stopped == plan.stopped
            }),
            forall|j: int| i <= j < keys.len() ==> chunk_refs@[#[trigger] order[j]] == chunks[order[j]],
        decreases keys.len() - i,
    {
        let ghost before = plan_upto(chunks, storage@, order, i as int, in_flight as int);
        let ghost after = plan_upto(chunks, storage@, order, i + 1, in_flight as int);
        let ghost key = order[i as int];
        let ghost started_before = index_views(started@);
        proof {
            chunk_refs.0.lemma_slot(i as int);
            assert(key == keys[i as int]@);
            assert forall|j: int| i < j < keys.len() implies order[j] != key by {
                assert(keys[i as int]@ != keys[j]@);
            }
            lemma_plan_within(chunks, storage@, order, i as int, in_flight as int, key);
            if order.subrange(0, i as int).contains(key) {
                let t = choose|t: int| 0 <= t < i && order.subrange(0, i as int)[t] == key;
                assert(keys[t]@ == keys[i as int]@);
            }
        }
        let (needs_mesh, generating, has_mesh) = {
            let c = chunk_refs.0.values[i].get_chunk();
            (c.needs_mesh, c.generating, c.has_mesh)
        };
        if needs_mesh && !generating {
            if has_mesh {
                chunk_refs.set_flags_at(i, false, generating, has_mesh);
            } else if count > MAX_BUILDS {
                stopped = true;
            } else {
                let stored = match storage.0.get(chunk_refs.0.keys[i].as_slice()) {
                    Some(data) => data.mesh_handle.is_some(),
                    None => false,
                };
                if !stored {
                    chunk_refs.set_flags_at(i, needs_mesh, true, has_mesh);
                    started.push(chunk_refs.0.keys[i].clone());
                    count += 1;
                    proof {
                        assert(index_views(started@) =~= started_before.push(key));
                    }
                }
            }
        }
        proof {
            assert forall|k: Seq<u8>| #[trigger] chunks.contains_key(k) implies chunk_refs@[k]
                == generate_spec(chunks, after)[k] by {
                lemma_push_contains(before.started, key, k);
                lemma_push_contains(before.cleared, key, k);
            }
            assert(chunk_refs@ =~= generate_spec(chunks, after));
        }
        i += 1;
    }
    proof {
        lemma_plan_stopped(chunks, storage@, order, i as int, keys.len() as int, in_flight as int);
    }
    started
}

/// Once the pass has ended, nothing more is decided.
pub proof fn lemma_plan_stopped(
    chunks: Map<Seq<u8>, ChunkView>,
    stored: Map<Seq<u8>, ChunkDataView>,
    order: Seq<Seq<u8>>,
    n: int,
    m: int,
    in_flight: int,
)
    requires
        0 <= n <= m <= order.len(),
        n == m || plan_upto(chunks, stored, order, n, in_flight).stopped,
    ensures
        plan_upto(chunks, stored, order, m, in_flight) == plan_upto(
            chunks,
            stored,
            order,
            n,
            in_flight,
        ),
    decreases m - n,
{
    if n < m {
        lemma_plan_stopped(chunks, stored, order, n, m - 1, in_flight);
    }
}

/// A pass leaves no more builds in flight than one above [`MAX_BUILDS`],
/// unless more were in flight when it began; and it starts as many builds
/// as it adds to those in flight.
pub proof fn lemma_builds_bounded(
    chunks: Map<Seq<u8>, ChunkView>,
    stored: Map<Seq<u8>, ChunkDataView>,
    order: Seq<Seq<u8>>,
    n: int,
    in_flight: int,
)
    requires
        0 <= n <= order.len(),
        0 <= in_flight,
    ensures
        plan_upto(chunks, stored, order, n, in_flight).in_flight == in_flight + plan_upto(
            chunks,
            stored,
            order,
            n,
            in_flight,
        ).started.len(),
        plan_upto(chunks, stored, order, n, in_flight).in_flight <= MAX_BUILDS + 1
            || plan_upto(chunks, stored, order, n, in_flight).in_flight == in_flight,
    decreases n,
{
    if n > 0 {
        lemma_builds_bounded(chunks, stored, order, n - 1, in_flight);
    }
}

/// Whether a build is in flight for region `index`.
pub open spec fn awaited(chunks: Map<Seq<u8>, ChunkView>, index: Seq<u8>) -> bool {
    chunks.contains_key(index) && chunks[index].generating
}

/// The chunks after the build for region `index` has ended: no build is
/// in flight for it any more. A build that nobody waits for changes
/// nothing.
pub open spec fn poll_chunks_spec(chunks: Map<Seq<u8>, ChunkView>, index: Seq<u8>) -> Map<
    Seq<u8>,
    ChunkView,
> {
    if awaited(chunks, index) {
        chunks.insert(
            index,
            with_flags(chunks[index], chunks[index].needs_mesh, false, chunks[index].has_mesh),
        )
    } else {
        chunks
    }
}

/// What is stored after the build for region `index` has ended with
/// `outcome`: the cells and the mesh of a build that was waited for and
/// that has made something. A build that was given up, and one that found
/// no cells, leave nothing.
pub open spec fn poll_storage_spec(
    chunks: Map<Seq<u8>, ChunkView>,
    stored: Map<Seq<u8>, ChunkDataView>,
    index: Seq<u8>,
    outcome: Option<(Seq<usize>, u64)>,
) -> Map<Seq<u8>, ChunkDataView> {
    match outcome {
        Some((cells, mesh)) => if awaited(chunks, index) {
            stored.insert(
                index,
                ChunkDataView {
                    mesh_handle: Some(mesh),
                    entity: if stored.contains_key(index) {
                        stored[index].entity
                    } else {
                        None
                    },
                    cells: Some(cells),
                },
            )
        } else {
            stored
        },
        None => stored,
    }
}

/// The outcome of a build as contracts speak of it.
pub open spec fn outcome_view(outcome: Option<(Vec<usize>, u64)>) -> Option<(Seq<usize>, u64)> {
    match outcome {
        Some((cells, mesh)) => Some((cells@, mesh)),
        None => None,
    }
}

/// Takes in the end of the build for region `index`: `outcome` holds the
/// region's cells and the handle of the mesh made of them, or nothing
/// where the region had no cells. The outcome of a build that the chunk
/// no longer waits for is dropped. Returns whether the outcome was stored.
pub fn poll_mesh_tasks(
    chunk_refs: &mut ChunkRefs,
    storage: &mut ChunkStorage,
    index: &[u8],
    outcome: Option<(Vec<usize>, u64)>,
) -> (kept: bool)
    requires
        old(chunk_refs).wf(),
        old(storage).wf(),
    ensures
        final(chunk_refs).wf(),
        final(storage).wf(),
        final(chunk_refs)@ == poll_chunks_spec(old(chunk_refs)@, index@),
        final(storage)@ == poll_storage_spec(
            old(chunk_refs)@,
            old(storage)@,
            index@,
            outcome_view(outcome),
        ),
        kept == (awaited(old(chunk_refs)@, index@) && outcome is Some),
{
    let place = match chunk_refs.0.position(index) {
        Some(i) => {
            proof {
                chunk_refs.0.lemma_slot(i as int);
            }
            if chunk_refs.0.values[i].get_chunk().generating {
                Some(i)
            } else {
                None
            }
        },
        None => None,
    };
    match place {
        Some(i) => {
            let (needs_mesh, has_mesh) = {
                let c = chunk_refs.0.values[i].get_chunk();
                (c.needs_mesh, c.has_mesh)
            };
            chunk_refs.set_flags_at(i, needs_mesh, false, has_mesh);
            match outcome {
                Some((cells, mesh)) => {
                    let entity = match storage.0.get(index) {
                        Some(data) => data.entity,
                        None => None,
                    };
                    let key = chunk_refs.0.keys[i].clone();
                    storage.0.insert(
                        key,
                        ChunkData { mesh_handle: Some(mesh), entity, cells: Some(cells) },
                    );
                    true
                },
                None => false,
            }
        },
        None => false,
    }
}

/// Whether the stored build of region `index` is taken up in a pass: the
/// region's chunk wants a mesh, has no build in flight, and the build is
/// bound to no entity.
pub open spec fn taken_up(
    chunks: Map<Seq<u8>, ChunkView>,
    stored: Map<Seq<u8>, ChunkDataView>,
    index: Seq<u8>,
) -> bool {
    &&& chunks.contains_key(index)
    &&& chunks[index].needs_mesh
    &&& !chunks[index].generating
    &&& stored.contains_key(index)
    &&& stored[index].entity is None
}

/// Whether the chunk of region `index` comes to show the stored mesh.
pub open spec fn shown(
    chunks: Map<Seq<u8>, ChunkView>,
    stored: Map<Seq<u8>, ChunkDataView>,
    index: Seq<u8>,
) -> bool {
    taken_up(chunks, stored, index) && stored[index].mesh_handle is Some
}

/// The chunks after the stored meshes have been taken up: a chunk that
/// comes to show its mesh wants none any more.
pub open spec fn spawn_chunks_spec(
    chunks: Map<Seq<u8>, ChunkView>,
    stored: Map<Seq<u8>, ChunkDataView>,
) -> Map<Seq<u8>, ChunkView> {
    Map::new(
        |k: Seq<u8>| chunks.contains_key(k),
        |k: Seq<u8>|
            if shown(chunks, stored, k) {
                with_flags(chunks[k], false, chunks[k].generating, true)
            } else {
                chunks[k]
            },
    )
}

/// What is stored after the pass: what was taken up is no longer stored.
pub open spec fn spawn_storage_spec(
    chunks: Map<Seq<u8>, ChunkView>,
    stored: Map<Seq<u8>, ChunkDataView>,
) -> Map<Seq<u8>, ChunkDataView> {
    Map::new(
        |k: Seq<u8>| stored.contains_key(k) && !taken_up(chunks, stored, k),
        |k: Seq<u8>| stored[k],
    )
}

/// The regions and mesh handles that a list of pairs stands for.
pub open spec fn pair_views(pairs: Seq<(ChunkIndex, u64)>) -> Seq<(Seq<u8>, u64)> {
    Seq::new(pairs.len(), |i: int| (pairs[i].0@, pairs[i].1))
}

/// Gives every chunk that wants a mesh and has no build in flight the
/// mesh stored for its region. Returns each such region, once, with the
/// handle of its mesh.
pub fn spawn_ready_chunks(chunk_refs: &mut ChunkRefs, storage: &mut ChunkStorage) -> (ready: Vec<
    (ChunkIndex, u64),
>)
    requires
        old(chunk_refs).wf(),
        old(storage).wf(),
    ensures
        final(chunk_refs).wf(),
        final(storage).wf(),
        final(chunk_refs).0.keys@ == old(chunk_refs).0.keys@,
        final(chunk_refs)@ == spawn_chunks_spec(old(chunk_refs)@, old(storage)@),
        final(storage)@ == spawn_storage_spec(old(chunk_refs)@, old(storage)@),
        forall|k: Seq<u8>, h: u64| #[trigger]
            pair_views(ready@).contains((k, h)) <==> shown(old(chunk_refs)@, old(storage)@, k)
                && old(storage)@[k].mesh_handle == Some(h),
        pair_views(ready@).no_duplicates(),
{
    let ghost chunks = chunk_refs@;
    let ghost stored = storage@;
    let ghost keys = chunk_refs.0.keys@;
    let ghost order = index_views(keys);
    let mut ready: Vec<(ChunkIndex, u64)> = Vec::new();
    let mut i: usize = 0;
    proof {
        assert(chunk_refs@ =~= Map::new(
            |k: Seq<u8>| chunks.contains_key(k),
            |k: Seq<u8>|
                if order.subrange(0, 0).contains(k) && shown(chunks, stored, k) {
                    with_flags(chunks[k], false, chunks[k].generating, true)
                } else {
                    chunks[k]
                },
        ));
        assert(storage@ =~= Map::new(
            |k: Seq<u8>|
                stored.contains_key(k) && !(order.subrange(0, 0).contains(k) && taken_up(
                    chunks,
                    stored,
                    k,
                )),
            |k: Seq<u8>| stored[k],
        ));
    }
    while i < chunk_refs.0.keys.len()
        invariant
            i <= keys.len(),
            order == index_views(keys),
            chunk_refs.0.keys@ == keys,
            chunk_refs.wf(),
            storage.wf(),
            chunks.dom() == chunk_refs@.dom(),
            chunk_refs@ == Map::new(
                |k: Seq<u8>| chunks.contains_key(k),
                |k: Seq<u8>|
                    if order.subrange(0, i as int).contains(k) && shown(chunks, stored, k) {
                        with_flags(chunks[k], false, chunks[k].generating, true)
                    } else {
                        chunks[k]
                    },
            ),
            storage@ == Map::new(
                |k: Seq<u8>|
                    stored.contains_key(k) && !(order.subrange(0, i as int).contains(k)
                        && taken_up(chunks, stored, k)),
                |k: Seq<u8>| stored[k],
            ),
            forall|k: Seq<u8>, h: u64| #[trigger]
                pair_views(ready@).contains((k, h)) <==> order.subrange(0, i as int).contains(k)
                    && shown(chunks, stored, k) && stored[k].mesh_handle == Some(h),
            pair_views(ready@).no_duplicates(),
        decreases keys.len() - i,
    {
        let ghost key = order[i as int];
        let ghost ready_before = pair_views(ready@);
        proof {
            chunk_refs.0.lemma_slot(i as int);
            assert(key == keys[i as int]@);
            if order.subrange(0, i as int).contains(key) {
                let t = choose|t: int| 0 <= t < i && order.subrange(0, i as int)[t] == key;
                assert(keys[t]@ == keys[i as int]@);
            }
            assert forall|k: Seq<u8>|
                order.subrange(0, i + 1).contains(k) <==> order.subrange(0, i as int).contains(k)
                    || key == k by {
                lemma_prefix_contains(order, i as int, k);
            }
        }
        let (needs_mesh, generating) = {
            let c = chunk_refs.0.values[i].get_chunk();
            (c.needs_mesh, c.generating)
        };
        let mut pushed: Ghost<Option<u64>> = Ghost(None);
        if needs_mesh && !generating {
            let found: Option<(bool, Option<u64>)> = match storage.0.get(
                chunk_refs.0.keys[i].as_slice(),
            ) {
                Some(data) => Some((data.entity.is_some(), data.mesh_handle)),
                None => None,
            };
            match found {
                Some((bound, mesh_handle)) => {
                    if !bound {
                        match mesh_handle {
                            Some(mesh) => {
                                chunk_refs.set_flags_at(i, false, generating, true);
                                ready.push((chunk_refs.0.keys[i].clone(), mesh));
                                proof {
                                    pushed@ = Some(mesh);
                                    assert(pair_views(ready@) =~= ready_before.push((key, mesh)));
                                    lemma_push_fresh(ready_before, (key, mesh));
                                }
                            },
                            None => {},
                        }
                        storage.0.remove(chunk_refs.0.keys[i].as_slice());
                    }
                },
                None => {},
            }
        }
        proof {
            assert(chunk_refs@ =~= Map::new(
                |k: Seq<u8>| chunks.contains_key(k),
                |k: Seq<u8>|
                    if order.subrange(0, i + 1).contains(k) && shown(chunks, stored, k) {
                        with_flags(chunks[k], false, chunks[k].generating, true)
                    } else {
                        chunks[k]
                    },
            ));
            assert(storage@ =~= Map::new(
                |k: Seq<u8>|
                    stored.contains_key(k) && !(order.subrange(0, i + 1).contains(k) && taken_up(
                        chunks,
                        stored,
                        k,
                    )),
                |k: Seq<u8>| stored[k],
            ));
            assert forall|k: Seq<u8>, h: u64| #[trigger]
                pair_views(ready@).contains((k, h)) <==> order.subrange(0, i + 1).contains(k)
                    && shown(chunks, stored, k) && stored[k].mesh_handle == Some(h) by {
                match pushed@ {
                    Some(mesh) => {
                        lemma_push_contains(ready_before, (key, mesh), (k, h));
                    },
                    None => {},
                }
            }
        }
        i += 1;
    }
    proof {
        assert(order.subrange(0, i as int) =~= order);
        assert forall|k: Seq<u8>| chunks.contains_key(k) implies order.contains(k) by {
            lemma_views_contain(keys, k);
        }
        assert(chunk_refs@ =~= spawn_chunks_spec(chunks, stored));
        assert(storage@ =~= spawn_storage_spec(chunks, stored));
    }
    ready
}

/// What a sighting does: nothing where the point of view is unchanged;
/// otherwise the point of view becomes `seen`, and the chunks follow the
/// regions that the octree chooses for it.
pub open spec fn update_spec(
    pov: POV,
    chunks: Map<Seq<u8>, ChunkView>,
    seen: POV,
    octree: Octree,
) -> (POV, Map<Seq<u8>, ChunkView>) {
    if pov.unchanged(seen) {
        (pov, chunks)
    } else {
        (seen, recompute_spec(chunks, octree.chunk_indices(seen.0, seen.1 as int)))
    }
}

/// Takes a sighting of the point of view. Where it has not changed,
/// nothing happens. Where it has, the regions needed for it are chosen
/// and the chunks brought in line with them.
pub fn calculate_povs(pov: &mut POV, seen: POV, body: &Body, chunk_refs: &mut ChunkRefs) -> (changes:
    Transitions)
    requires
        old(chunk_refs).wf(),
        body.octree.wf(),
    ensures
        final(chunk_refs).wf(),
        (*final(pov), final(chunk_refs)@) == update_spec(
            *old(pov),
            old(chunk_refs)@,
            seen,
            body.octree,
        ),
        old(pov).unchanged(seen) ==> changes.spawned@.len() == 0 && changes.reinstated@.len() == 0
            && changes.retired@.len() == 0,
        !old(pov).unchanged(seen) ==> {
            let needed = body.octree.chunk_indices(seen.0, seen.1 as int);
            &&& forall|k: Seq<u8>| #[trigger]
                index_views(changes.spawned@).contains(k) <==> needed.contains(k) && !old(chunk_refs)@.contains_key(k)
            &&& forall|k: Seq<u8>| #[trigger]
                index_views(changes.reinstated@).contains(k) <==> needed.contains(k) && old(chunk_refs)@.contains_key(k) && old(chunk_refs)@[k].cleanup
            &&& forall|k: Seq<u8>| #[trigger]
                index_views(changes.retired@).contains(k) <==> old(chunk_refs)@.contains_key(k)
                    && !needed.contains(k) && !old(chunk_refs)@[k].cleanup
            &&& index_views(changes.spawned@).no_duplicates()
            &&& index_views(changes.reinstated@).no_duplicates()
            &&& index_views(changes.retired@).no_duplicates()
        },
{
    if pov.is_unchanged(&seen) {
        return Transitions { spawned: Vec::new(), reinstated: Vec::new(), retired: Vec::new() };
    }
    *pov = seen;
    let needed = body.octree.get_chunk_indices(seen.0, seen.1);
    chunk_refs.recompute(&needed)
}

/// Computes [`dependents_of`].
pub fn dependents(index: &[u8], needed: &Vec<ChunkIndex>) -> (r: Vec<ChunkIndex>)
    ensures
        index_views(r@) == dependents_of(index@, index_views(needed@)),
{
    let ghost views = index_views(needed@);
    let mut r: Vec<ChunkIndex> = Vec::new();
    let mut j: usize = 0;
    proof {
        assert(index_views(r@) =~= descendants_upto(index@, views, 0));
    }
    while j < needed.len()
        invariant
            j <= needed@.len(),
            views == index_views(needed@),
            index_views(r@) == descendants_upto(index@, views, j as int),
        decreases needed@.len() - j,
    {
        let candidate = &needed[j];
        let ghost before = r@;
        if candidate.len() > index.len() && starts_with(candidate.as_slice(), index) {
            r.push(candidate.clone());
            proof {
                assert(index_views(r@) =~= index_views(before).push(views[j as int]));
            }
        }
        j += 1;
    }
    let ghost below = r@;
    let mut limit: usize = index.len();
    while limit > 0
        invariant
            limit <= index@.len(),
            views == index_views(needed@),
            r@ == below,
            index_views(below) == descendants_upto(index@, views, views.len() as int),
            nearest_above(index@, views, index@.len() as int) == nearest_above(
                index@,
                views,
                limit as int,
            ),
        decreases limit,
    {
        let parent = ancestor(index, limit - 1);
        proof {
            lemma_views_contain(needed@, parent@);
        }
        if contains_index(needed, parent.as_slice()) {
            r.push(parent);
            proof {
                assert(index_views(r@) =~= index_views(below) + seq![index@.subrange(0, limit - 1)]);
            }
            return r;
        }
        limit -= 1;
    }
    proof {
        assert(index_views(r@) =~= index_views(below) + Seq::<Seq<u8>>::empty());
    }
    r
}

} // verus!
