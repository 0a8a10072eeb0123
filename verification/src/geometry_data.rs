use vstd::prelude::*;
use std::collections::BTreeMap;
use std::collections::BTreeSet;
use crate::grid::Position;
use crate::grid::UNIT;
use crate::octree::Octree;
use crate::octree::Point;
use crate::shape::Shape;
use vstd::std_specs::btree::spec_btree_keys_iter;
use vstd::std_specs::iter::IteratorSpec;

verus! {

/// A surface as triangles grouped into cells. Positions are on the grid.
#[derive(Clone, Debug, Default)]
pub struct GeometryData {
    /// The position of vertex `i` at place `i`.
    pub vertices: Vec<Position>,
    /// The triangles, each by its three vertices.
    pub faces: Vec<[usize; 3]>,
    /// The cells, each by its faces.
    pub cells: Vec<Vec<usize>>,
    /// The neighbours of each cell.
    pub cell_neighbors: Vec<BTreeSet<usize>>,
    /// The centre of each cell, which is also its normal.
    pub cell_normals: Vec<Position>,
}

/// The points that a list of cell centres stands for: centre `i` with the
/// cell identifier `i`.
pub open spec fn cell_points(centres: Seq<Position>) -> Seq<Point> {
    Seq::new(centres.len(), |i: int| Point { position: centres[i], value: i as usize })
}

/// The shape of the octree of the given capacity that grows over the unit
/// cube around the origin when the cell centres are added in their order.
pub open spec fn grown_over(centres: Seq<Position>, capacity: int) -> Shape {
    Shape::grown(
        cell_points(centres),
        centres.len() as int,
        capacity,
        crate::grid::Center { x: 0, y: 0, z: 0 },
        UNIT as int,
    )
}

/// An octree of the given capacity over the unit cube around the origin
/// to which one point for each cell centre has been added, in the order
/// of the cells.
pub fn octree_of(centres: &Vec<Position>, capacity: usize) -> (tree: Octree)
    ensures
        tree.wf(),
        tree.shape() == grown_over(centres@, capacity as int),
        tree.content().to_multiset() == cell_points(centres@).to_multiset(),
        tree.capacity == capacity,
        tree.center.x == 0 && tree.center.y == 0 && tree.center.z == 0,
        tree.half_width == UNIT,
        tree.depth == 0,
        tree.octree_index@ == Seq::<u8>::empty(),
{
    broadcast use vstd::seq_lib::group_to_multiset_ensures;

    let mut tree = Octree::new(capacity, Position { x: 0, y: 0, z: 0 }, UNIT, 0, Vec::new());
    let ghost frame = tree;
    let mut i: usize = 0;
    proof {
        assert(cell_points(centres@).subrange(0, 0) =~= Seq::<Point>::empty());
    }
    while i < centres.len()
        invariant
            i <= centres@.len(),
            tree.wf(),
            tree.same_frame(frame),
            frame.capacity == capacity,
            frame.half_width == UNIT,
            frame.center == (crate::grid::Center { x: 0, y: 0, z: 0 }),
            tree.content().to_multiset() == cell_points(centres@).subrange(
                0,
                i as int,
            ).to_multiset(),
            tree.shape() == Shape::grown(
                cell_points(centres@),
                i as int,
                capacity as int,
                crate::grid::Center { x: 0, y: 0, z: 0 },
                UNIT as int,
            ),
        decreases centres@.len() - i,
    {
        let point = Point { position: centres[i], value: i };
        tree.insert(point);
        proof {
            let all = cell_points(centres@);
            assert(all[i as int] == point);
            assert(tree.center == crate::grid::Center { x: 0, y: 0, z: 0 });
            assert(tree.half_width == UNIT && tree.capacity == capacity);
            assert(all.subrange(0, i + 1) =~= all.subrange(0, i as int).push(point));
            vstd::seq_lib::to_multiset_build(all.subrange(0, i as int), point);
        }
        i += 1;
    }
    proof {
        assert(cell_points(centres@).subrange(0, i as int) =~= cell_points(centres@));
    }
    tree
}

/// The different values among the first `n` of a stream, each at the
/// place of its first coming.
pub open spec fn first_seen(stream: Seq<usize>, n: int) -> Seq<usize>
    decreases n,
{
    if n <= 0 || n > stream.len() {
        Seq::empty()
    } else {
        let before = first_seen(stream, n - 1);
        if before.contains(stream[n - 1]) {
            before
        } else {
            before.push(stream[n - 1])
        }
    }
}

/// The order of first coming names nothing twice, and names exactly what
/// has come.
pub proof fn lemma_first_seen(stream: Seq<usize>, n: int)
    requires
        0 <= n <= stream.len(),
    ensures
        first_seen(stream, n).no_duplicates(),
        forall|g: usize| first_seen(stream, n).contains(g) <==> stream.subrange(0, n).contains(g),
    decreases n,
{
    if n > 0 {
        lemma_first_seen(stream, n - 1);
        let before = first_seen(stream, n - 1);
        let last = stream[n - 1];
        assert forall|g: usize| first_seen(stream, n).contains(g) <==> stream.subrange(
            0,
            n,
        ).contains(g) by {
            crate::seq_facts::lemma_prefix_contains(stream, n - 1, g);
            crate::seq_facts::lemma_push_contains(before, last, g);
        }
    } else {
        assert(stream.subrange(0, n) =~= Seq::<usize>::empty());
    }
}

/// What stands at a place of a run without repeats stands at no place
/// before it.
pub proof fn lemma_not_seen_before(elems: Seq<usize>, at: int)
    requires
        elems.no_duplicates(),
        0 <= at < elems.len(),
    ensures
        !(exists|e: int| 0 <= e < at && #[trigger] elems[e] == elems[at]),
{
}

/// A value is among the first `at + 1` where it is among the first `at`
/// or stands at place `at`.
pub proof fn lemma_seen_step(elems: Seq<usize>, at: int, x: int)
    requires
        0 <= at < elems.len(),
    ensures
        (exists|e: int| 0 <= e < at + 1 && #[trigger] elems[e] == x) <==> (exists|e: int|
            0 <= e < at && #[trigger] elems[e] == x) || elems[at] == x,
{
    if exists|e: int| 0 <= e < at + 1 && #[trigger] elems[e] == x {
        let e = choose|e: int| 0 <= e < at + 1 && #[trigger] elems[e] == x;
        if e < at {
            assert(elems[e] == x);
        }
    }
    if exists|e: int| 0 <= e < at && #[trigger] elems[e] == x {
        let e = choose|e: int| 0 <= e < at && #[trigger] elems[e] == x;
        assert(elems[e] == x);
    }
}

/// A run that lists a set holds a value where the set does.
pub proof fn lemma_seen_all(elems: Seq<usize>, set: Set<usize>, x: int)
    requires
        elems.to_set() == set,
    ensures
        (exists|e: int| 0 <= e < elems.len() && #[trigger] elems[e] == x) <==> (0 <= x
            <= usize::MAX && set.contains(x as usize)),
{
    if exists|e: int| 0 <= e < elems.len() && #[trigger] elems[e] == x {
        let e = choose|e: int| 0 <= e < elems.len() && #[trigger] elems[e] == x;
        assert(elems.to_set().contains(elems[e]));
    }
    if 0 <= x <= usize::MAX && set.contains(x as usize) {
        assert(elems.to_set().contains(x as usize));
        assert(elems.contains(x as usize));
        let e = choose|e: int| 0 <= e < elems.len() && elems[e] == x as usize;
        assert(elems[e] == x);
    }
}

/// Every value of a run that lists a set is below a bound where every
/// value of the set is.
pub proof fn lemma_all_below(elems: Seq<usize>, set: Set<usize>, bound: int)
    requires
        elems.to_set() == set,
    ensures
        (forall|e: int| 0 <= e < elems.len() ==> (#[trigger] elems[e]) < bound) <==> (forall|
            n: usize,
        | #[trigger] set.contains(n) ==> n < bound),
{
    if forall|e: int| 0 <= e < elems.len() ==> (#[trigger] elems[e]) < bound {
        assert forall|n: usize| #[trigger] set.contains(n) implies n < bound by {
            assert(elems.to_set().contains(n));
            assert(elems.contains(n));
            let e = choose|e: int| 0 <= e < elems.len() && elems[e] == n;
            assert(elems[e] < bound);
        }
    }
    if forall|n: usize| #[trigger] set.contains(n) ==> n < bound {
        assert forall|e: int| 0 <= e < elems.len() implies (#[trigger] elems[e]) < bound by {
            assert(elems.to_set().contains(elems[e]));
        }
    }
}

/// The coordinate of `p` along an axis: 0 for x, 1 for y, 2 for z.
pub open spec fn coordinate(p: Position, axis: int) -> int {
    if axis == 0 {
        p.x as int
    } else if axis == 1 {
        p.y as int
    } else {
        p.z as int
    }
}

/// The sum, along an axis, of the coordinates of all corners of the first
/// `n` faces.
pub open spec fn corner_sum(
    vertices: Seq<Position>,
    faces: Seq<[usize; 3]>,
    n: int,
    axis: int,
) -> int
    decreases n,
{
    if n <= 0 || n > faces.len() {
        0
    } else {
        corner_sum(vertices, faces, n - 1, axis) + coordinate(
            vertices[faces[n - 1]@[0] as int],
            axis,
        ) + coordinate(vertices[faces[n - 1]@[1] as int], axis) + coordinate(
            vertices[faces[n - 1]@[2] as int],
            axis,
        )
    }
}

/// The mean of the centres of the faces, which is the mean of all their
/// corners, rounded down to the grid; the origin where there is no face.
pub open spec fn face_mean(vertices: Seq<Position>, faces: Seq<[usize; 3]>) -> Position {
    if faces.len() == 0 {
        Position { x: 0, y: 0, z: 0 }
    } else {
        let corners = 3 * faces.len() as int;
        Position {
            x: (corner_sum(vertices, faces, faces.len() as int, 0) / corners) as i32,
            y: (corner_sum(vertices, faces, faces.len() as int, 1) / corners) as i32,
            z: (corner_sum(vertices, faces, faces.len() as int, 2) / corners) as i32,
        }
    }
}

/// The sum of the corners of `n` faces lies between the least and the
/// greatest that `3 * n` coordinates can come to.
pub proof fn lemma_corner_sum_bounds(
    vertices: Seq<Position>,
    faces: Seq<[usize; 3]>,
    n: int,
    axis: int,
)
    requires
        0 <= n <= faces.len(),
    ensures
        3 * n * (-0x8000_0000) <= corner_sum(vertices, faces, n, axis) <= 3 * n * 0x7fff_ffff,
    decreases n,
{
    if n > 0 {
        lemma_corner_sum_bounds(vertices, faces, n - 1, axis);
    }
}

/// A mean that was taken over coordinates raised by 2^31 each is the
/// mean of the coordinates raised by 2^31, and the mean of coordinates
/// is a coordinate.
pub proof fn lemma_raised_mean(sum: int, corners: int)
    requires
        0 < corners,
        corners * (-0x8000_0000) <= sum <= corners * 0x7fff_ffff,
    ensures
        (sum + corners * 0x8000_0000) / corners == sum / corners + 0x8000_0000,
        -0x8000_0000 <= sum / corners <= 0x7fff_ffff,
{
    vstd::arithmetic::div_mod::lemma_hoist_over_denominator(sum, 0x8000_0000, corners as nat);
    assert(0x8000_0000 * corners == corners * 0x8000_0000) by (nonlinear_arith);
    vstd::arithmetic::div_mod::lemma_div_is_ordered(corners * (-0x8000_0000), sum, corners);
    vstd::arithmetic::div_mod::lemma_div_is_ordered(sum, corners * 0x7fff_ffff, corners);
    vstd::arithmetic::div_mod::lemma_div_multiples_vanish(-0x8000_0000, corners);
    vstd::arithmetic::div_mod::lemma_div_multiples_vanish(0x7fff_ffff, corners);
}

/// Computes [`face_mean`].
pub fn mean_of_faces(vertices: &Vec<Position>, faces: &Vec<[usize; 3]>) -> (r: Position)
    requires
        forall|f: int, c: int|
            0 <= f < faces@.len() && 0 <= c < 3 ==> (#[trigger] faces@[f]@[c]) < vertices@.len(),
    ensures
        r == face_mean(vertices@, faces@),
{
    if faces.len() == 0 {
        return Position { x: 0, y: 0, z: 0 };
    }
    let mut x: u128 = 0;
    let mut y: u128 = 0;
    let mut z: u128 = 0;
    let mut f: usize = 0;
    while f < faces.len()
        invariant
            f <= faces@.len(),
            forall|g: int, c: int|
                0 <= g < faces@.len() && 0 <= c < 3 ==> (#[trigger] faces@[g]@[c])
                    < vertices@.len(),
            x == corner_sum(vertices@, faces@, f as int, 0) + 3 * f * 0x8000_0000,
            y == corner_sum(vertices@, faces@, f as int, 1) + 3 * f * 0x8000_0000,
            z == corner_sum(vertices@, faces@, f as int, 2) + 3 * f * 0x8000_0000,
        decreases faces@.len() - f,
    {
        let face = faces[f];
        proof {
            assert(faces@[f as int]@[0] < vertices@.len());
            assert(faces@[f as int]@[1] < vertices@.len());
            assert(faces@[f as int]@[2] < vertices@.len());
            lemma_corner_sum_bounds(vertices@, faces@, f as int, 0);
            lemma_corner_sum_bounds(vertices@, faces@, f as int, 1);
            lemma_corner_sum_bounds(vertices@, faces@, f as int, 2);
            assert(faces@.len() == faces.len());
        }
        let a = vertices[face[0]];
        let b = vertices[face[1]];
        let c = vertices[face[2]];
        x = x + raised(a.x) + raised(b.x) + raised(c.x);
        y = y + raised(a.y) + raised(b.y) + raised(c.y);
        z = z + raised(a.z) + raised(b.z) + raised(c.z);
        f += 1;
    }
    let corners: u128 = 3 * (faces.len() as u128);
    proof {
        let n = faces@.len() as int;
        lemma_corner_sum_bounds(vertices@, faces@, n, 0);
        lemma_corner_sum_bounds(vertices@, faces@, n, 1);
        lemma_corner_sum_bounds(vertices@, faces@, n, 2);
        lemma_raised_mean(corner_sum(vertices@, faces@, n, 0), 3 * n);
        lemma_raised_mean(corner_sum(vertices@, faces@, n, 1), 3 * n);
        lemma_raised_mean(corner_sum(vertices@, faces@, n, 2), 3 * n);
    }
    Position { x: lowered(x / corners), y: lowered(y / corners), z: lowered(z / corners) }
}

/// A coordinate raised by 2^31, so that it is not negative.
fn raised(c: i32) -> (r: u128)
    ensures
        r == c + 0x8000_0000,
{
    (c as i64 + 0x8000_0000) as u128
}

/// A raised coordinate brought down again.
fn lowered(r: u128) -> (c: i32)
    requires
        r <= 0xffff_ffff,
    ensures
        c == r - 0x8000_0000,
{
    (r as i64 - 0x8000_0000) as i32
}

/// Usize keys are in order, as the maps and sets of cells need them.
pub proof fn lemma_keys_ordered()
    ensures
        vstd::laws_cmp::obeys_cmp::<usize>(),
{
    broadcast use vstd::laws_cmp::group_laws_cmp;

}

impl GeometryData {
    /// Every face names vertices, every cell faces, and every cell has
    /// its centre and its neighbours, which are cells.
    pub open spec fn wf(&self) -> bool {
        &&& forall|f: int, c: int|
            0 <= f < self.faces@.len() && 0 <= c < 3 ==> (#[trigger] self.faces@[f]@[c])
                < self.vertices@.len()
        &&& forall|i: int, t: int|
            0 <= i < self.cells@.len() && 0 <= t < self.cells@[i]@.len() ==> (
            #[trigger] self.cells@[i]@[t]) < self.faces@.len()
        &&& self.cell_neighbors@.len() == self.cells@.len()
        &&& self.cell_normals@.len() == self.cells@.len()
        &&& forall|i: int, n: usize|
            0 <= i < self.cell_neighbors@.len() && (#[trigger] self.cell_neighbors@[i]@.contains(n))
                ==> n < self.cells@.len()
    }

    /// The faces of the first `n` cells of `cells`, cell by cell.
    pub open spec fn faces_of(&self, cells: Seq<usize>, n: int) -> Seq<usize>
        decreases n,
    {
        if n <= 0 || n > cells.len() {
            Seq::empty()
        } else {
            self.faces_of(cells, n - 1) + self.cells@[cells[n - 1] as int]@
        }
    }

    /// The vertices of the faces `faces`, corner by corner.
    pub open spec fn corners_of(&self, faces: Seq<usize>) -> Seq<usize> {
        Seq::new(3 * faces.len(), |k: int| self.faces@[faces[k / 3] as int]@[k % 3])
    }

    /// Whether `local` with the numbering `map` is the part of this
    /// surface that the cells `cells` make up. Its faces are those of the
    /// chosen cells, cell by cell; its vertices are the corners of those
    /// faces in the order of their first coming, each once, where they
    /// lay; its cells are the chosen ones in their order, each with its
    /// faces and its centre; `map` numbers the chosen cells; and two of
    /// its cells are neighbours where one stands for a cell that has a
    /// neighbour for which the other stands.
    pub open spec fn is_part(&self, cells: Seq<usize>, local: GeometryData, map: Map<usize, usize>) -> bool {
        let faces = self.faces_of(cells, cells.len() as int);
        let stream = self.corners_of(faces);
        let order = first_seen(stream, stream.len() as int);
        &&& local.vertices@ == Seq::new(order.len(), |v: int| self.vertices@[order[v] as int])
        &&& local.faces@.len() == faces.len()
        &&& forall|f: int, c: int|
            0 <= f < faces.len() && 0 <= c < 3 ==> (#[trigger] local.faces@[f]@[c]) < order.len()
                && order[local.faces@[f]@[c] as int] == self.faces@[faces[f] as int]@[c]
        &&& local.cells@.len() == cells.len()
        &&& forall|i: int|
            0 <= i < cells.len() ==> (#[trigger] local.cells@[i])@ == Seq::new(
                self.cells@[cells[i] as int]@.len(),
                |t: int| (self.faces_of(cells, i).len() + t) as usize,
            )
        &&& local.cell_normals@ == Seq::new(
            cells.len(),
            |i: int| self.cell_normals@[cells[i] as int],
        )
        &&& self.numbered(cells, cells.len() as int, map)
        &&& local.cell_neighbors@.len() == cells.len()
        &&& forall|a: int, b: usize|
            0 <= a < cells.len() ==> (#[trigger] local.cell_neighbors@[a]@.contains(b)
                <==> self.linked(map, a as usize, b) || self.linked(map, b, a as usize))
    }

    /// Whether `r` is this surface with every corner of every face a
    /// vertex of its own: face `f` has the vertices `3f`, `3f + 1` and
    /// `3f + 2`, which lie where its corners lay; all else is the same.
    pub open spec fn is_duplicate(&self, r: GeometryData) -> bool {
        &&& r.vertices@ == Seq::new(
            3 * self.faces@.len(),
            |k: int| self.vertices@[self.faces@[k / 3]@[k % 3] as int],
        )
        &&& r.faces@.len() == self.faces@.len()
        &&& forall|f: int, c: int|
            0 <= f < r.faces@.len() && 0 <= c < 3 ==> (#[trigger] r.faces@[f]@[c]) == 3 * f + c
        &&& r.cells == self.cells
        &&& r.cell_neighbors == self.cell_neighbors
        &&& r.cell_normals == self.cell_normals
    }

    /// Whether `r` is the fan from `apex` over this surface's rim. Vertex
    /// 0 is the apex, the rim vertices follow in their order; face `e`
    /// joins the apex to rim edge `e`; the one cell holds every face and
    /// has no neighbour; and its centre is the mean of the centres of the
    /// fan's faces.
    pub open spec fn is_proxy(&self, apex: Position, r: GeometryData) -> bool {
        let rim = self.rim_vertices(self.vertices@.len() as int);
        let edges = self.rim_edges(3 * (self.faces@.len() as int));
        &&& r.vertices@ == seq![apex] + Seq::new(rim.len(), |k: int| self.vertices@[rim[k] as int])
        &&& r.faces@.len() == edges.len()
        &&& forall|e: int|
            0 <= e < edges.len() ==> {
                &&& (#[trigger] r.faces@[e])@[0] == 0
                &&& 1 <= r.faces@[e]@[1] <= rim.len()
                &&& rim[r.faces@[e]@[1] - 1] == edges[e].0
                &&& 1 <= r.faces@[e]@[2] <= rim.len()
                &&& rim[r.faces@[e]@[2] - 1] == edges[e].1
            }
        &&& r.cells@.len() == 1
        &&& r.cells@[0]@ == Seq::new(edges.len(), |i: int| i as usize)
        &&& r.cell_neighbors@.len() == 1
        &&& r.cell_neighbors@[0]@ == Set::<usize>::empty()
        &&& r.cell_normals@ == seq![face_mean(r.vertices@, r.faces@)]
    }

    /// The octree over the cells' centres, with room for 128 points in a
    /// leaf.
    pub fn create_octree(&self) -> (tree: Octree)
        ensures
            tree.wf(),
            tree.shape() == grown_over(self.cell_normals@, 128),
            tree.content().to_multiset() == cell_points(self.cell_normals@).to_multiset(),
            tree.capacity == 128,
            tree.center.x == 0 && tree.center.y == 0 && tree.center.z == 0,
            tree.half_width == UNIT,
            tree.depth == 0,
            tree.octree_index@ == Seq::<u8>::empty(),
    {
        octree_of(&self.cell_normals, 128)
    }

    /// The same surface with every corner of every face a vertex of its
    /// own, as flat shading needs it.
    pub fn duplicate(self) -> (r: GeometryData)
        requires
            self.wf(),
        ensures
            r.wf(),
            self.is_duplicate(r),
    {
        let mut new_vertices: Vec<Position> = Vec::new();
        let mut new_faces: Vec<[usize; 3]> = Vec::new();
        let mut f: usize = 0;
        while f < self.faces.len()
            invariant
                f <= self.faces@.len(),
                self.wf(),
                new_vertices@.len() == 3 * f,
                new_faces@.len() == f,
                forall|k: int|
                    0 <= k < 3 * f ==> #[trigger] new_vertices@[k] == self.vertices@[self.faces@[k
                        / 3]@[k % 3] as int],
                forall|g: int, c: int|
                    0 <= g < f && 0 <= c < 3 ==> (#[trigger] new_faces@[g]@[c]) == 3 * g + c,
            decreases self.faces@.len() - f,
        {
            let face = self.faces[f];
            proof {
                assert(self.faces@[f as int]@[0] < self.vertices@.len());
                assert(self.faces@[f as int]@[1] < self.vertices@.len());
                assert(self.faces@[f as int]@[2] < self.vertices@.len());
            }
            new_vertices.push(self.vertices[face[0]]);
            new_vertices.push(self.vertices[face[1]]);
            new_vertices.push(self.vertices[face[2]]);
            let n = new_vertices.len();
            new_faces.push([n - 3, n - 2, n - 1]);
            f += 1;
        }
        let r = GeometryData {
            vertices: new_vertices,
            faces: new_faces,
            cells: self.cells,
            cell_neighbors: self.cell_neighbors,
            cell_normals: self.cell_normals,
        };
        proof {
            assert(r.vertices@ =~= Seq::new(
                3 * self.faces@.len(),
                |k: int| self.vertices@[self.faces@[k / 3]@[k % 3] as int],
            ));
        }
        r
    }
    /// Whether a table of local vertices agrees with the order `seen` of
    /// first coming: local vertex `v` lies where the vertex `seen[v]`
    /// lies, and `map` finds `v` by `seen[v]`.
    pub open spec fn table_ok(
        &self,
        vertices: Seq<Position>,
        map: Map<usize, usize>,
        seen: Seq<usize>,
    ) -> bool {
        &&& seen.no_duplicates()
        &&& vertices.len() == seen.len()
        &&& forall|v: int|
            0 <= v < seen.len() ==> {
                &&& (#[trigger] seen[v]) < self.vertices@.len()
                &&& vertices[v] == self.vertices@[seen[v] as int]
                &&& map.contains_key(seen[v])
                &&& map[seen[v]] == v
            }
        &&& forall|g: usize| #[trigger] map.contains_key(g) ==> seen.contains(g)
    }

    /// The local vertex that stands for vertex `g`: the one it has, or a
    /// new last one.
    fn local_vertex(
        &self,
        g: usize,
        chunk_vertices: &mut Vec<Position>,
        vert_map: &mut BTreeMap<usize, usize>,
        Ghost(seen): Ghost<Seq<usize>>,
    ) -> (v: usize)
        requires
            g < self.vertices@.len(),
            self.table_ok(old(chunk_vertices)@, old(vert_map)@, seen),
        ensures
            ({
                let after = if seen.contains(g) {
                    seen
                } else {
                    seen.push(g)
                };
                &&& self.table_ok(final(chunk_vertices)@, final(vert_map)@, after)
                &&& v < after.len()
                &&& after[v as int] == g
            }),
    {
        proof {
            lemma_keys_ordered();
        }
        let found: Option<usize> = match vert_map.get(&g) {
            Some(v) => Some(*v),
            None => None,
        };
        match found {
            Some(v) => {
                proof {
                    let at = choose|at: int| 0 <= at < seen.len() && seen[at] == g;
                    assert(vert_map@[seen[at]] == at);
                }
                v
            },
            None => {
                chunk_vertices.push(self.vertices[g]);
                let v = chunk_vertices.len() - 1;
                vert_map.insert(g, v);
                proof {
                    let after = seen.push(g);
                    if seen.contains(g) {
                        let at = choose|at: int| 0 <= at < seen.len() && seen[at] == g;
                        assert(old(vert_map)@.contains_key(seen[at]));
                    }
                    assert forall|w: int| 0 <= w < after.len() implies {
                        &&& (#[trigger] after[w]) < self.vertices@.len()
                        &&& chunk_vertices@[w] == self.vertices@[after[w] as int]
                        &&& vert_map@.contains_key(after[w])
                        &&& vert_map@[after[w]] == w
                    } by {
                        if w < seen.len() {
                            assert(after[w] == seen[w]);
                            assert(old(vert_map)@.contains_key(seen[w]));
                        }
                    }
                    assert forall|h: usize| #[trigger] vert_map@.contains_key(h) implies after.contains(
                        h,
                    ) by {
                        crate::seq_facts::lemma_push_contains(seen, g, h);
                    }
                }
                v
            },
        }
    }

    /// The faces of the first cells are the first faces of more cells.
    pub proof fn lemma_faces_prefix(&self, cells: Seq<usize>, n: int, m: int)
        requires
            0 <= n <= m <= cells.len(),
        ensures
            self.faces_of(cells, n).len() <= self.faces_of(cells, m).len(),
            forall|f: int|
                0 <= f < self.faces_of(cells, n).len() ==> self.faces_of(cells, m)[f]
                    == self.faces_of(cells, n)[f],
        decreases m - n,
    {
        if n < m {
            self.lemma_faces_prefix(cells, n, m - 1);
        }
    }

    /// The part of the surface that the cells `cells` make up, with its
    /// vertices, faces and cells numbered anew, and the map from each
    /// chosen cell to its new number.
    pub fn sub_geometry(&self, cells: &[usize]) -> (r: (GeometryData, BTreeMap<usize, usize>))
        requires
            self.wf(),
            forall|j: int| 0 <= j < cells@.len() ==> (#[trigger] cells@[j]) < self.cells@.len(),
        ensures
            r.0.wf(),
            self.is_part(cells@, r.0, r.1@),
    {
        let ghost faces = self.faces_of(cells@, cells@.len() as int);
        let ghost stream = self.corners_of(faces);
        let mut chunk_vertices: Vec<Position> = Vec::new();
        let mut chunk_faces: Vec<[usize; 3]> = Vec::new();
        let mut chunk_cells: Vec<Vec<usize>> = Vec::new();
        let mut chunk_cell_normals: Vec<Position> = Vec::new();
        let mut vert_map: BTreeMap<usize, usize> = BTreeMap::new();
        let mut cell_map: BTreeMap<usize, usize> = BTreeMap::new();
        let ghost mut seen: Seq<usize> = Seq::empty();
        let mut j: usize = 0;
        proof {
            lemma_keys_ordered();
            assert(cells@.subrange(0, 0) =~= Seq::<usize>::empty());
        }
        while j < cells.len()
            invariant
                j <= cells@.len(),
                self.wf(),
                forall|i: int| 0 <= i < cells@.len() ==> (#[trigger] cells@[i]) < self.cells@.len(),
                faces == self.faces_of(cells@, cells@.len() as int),
                stream == self.corners_of(faces),
                chunk_faces@.len() == self.faces_of(cells@, j as int).len(),
                seen == first_seen(stream, 3 * (chunk_faces@.len() as int)),
                self.table_ok(chunk_vertices@, vert_map@, seen),
                forall|f: int, c: int|
                    0 <= f < chunk_faces@.len() && 0 <= c < 3 ==> (#[trigger] chunk_faces@[f]@[c])
                        < seen.len() && seen[chunk_faces@[f]@[c] as int] == self.faces@[faces[f] as int]@[c],
                chunk_cells@.len() == j,
                chunk_cell_normals@.len() == j,
                forall|i: int|
                    0 <= i < j ==> (#[trigger] chunk_cells@[i])@ == Seq::new(
                        self.cells@[cells@[i] as int]@.len(),
                        |t: int| (self.faces_of(cells@, i).len() + t) as usize,
                    ),
                forall|i: int|
                    0 <= i < j ==> #[trigger] chunk_cell_normals@[i] == self.cell_normals@[cells@[i] as int],
                self.numbered(cells@, j as int, cell_map@),
            decreases cells@.len() - j,
        {
            let cell_id = cells[j];
            let face_indices = &self.cells[cell_id];
            let mut new_cell_faces: Vec<usize> = Vec::new();
            let ghost base = chunk_faces@.len() as int;
            let mut t: usize = 0;
            proof {
                self.lemma_faces_prefix(cells@, j + 1, cells@.len() as int);
                self.lemma_faces_prefix(cells@, j as int, j + 1);
                assert(self.faces_of(cells@, j + 1) == self.faces_of(cells@, j as int)
                    + face_indices@);
                assert forall|u: int| 0 <= u < face_indices@.len() implies faces[base + u]
                    == face_indices@[u] by {
                    assert(self.faces_of(cells@, j + 1)[base + u] == face_indices@[u]);
                }
            }
            while t < face_indices.len()
                invariant
                    t <= face_indices@.len(),
                    self.wf(),
                    cell_id < self.cells@.len(),
                    face_indices@ == self.cells@[cell_id as int]@,
                    stream == self.corners_of(faces),
                    base + face_indices@.len() <= faces.len(),
                    forall|u: int| 0 <= u < face_indices@.len() ==> faces[base + u] == face_indices@[u],
                    chunk_faces@.len() == base + t,
                    new_cell_faces@ == Seq::new(t as nat, |u: int| (base + u) as usize),
                    seen == first_seen(stream, 3 * (chunk_faces@.len() as int)),
                    self.table_ok(chunk_vertices@, vert_map@, seen),
                    forall|f: int, c: int|
                        0 <= f < chunk_faces@.len() && 0 <= c < 3 ==> (
                        #[trigger] chunk_faces@[f]@[c]) < seen.len() && seen[chunk_faces@[f]@[c] as int]
                            == self.faces@[faces[f] as int]@[c],
                decreases face_indices@.len() - t,
            {
                let ghost f = base + t;
                let ghost old_faces = chunk_faces@;
                let ghost seen0 = seen;
                proof {
                    assert(self.cells@[cell_id as int]@[t as int] < self.faces@.len());
                }
                let face = self.faces[face_indices[t]];
                proof {
                    assert(faces[f] == face_indices@[t as int]);
                    assert(self.faces@[faces[f] as int]@[0] < self.vertices@.len());
                    assert(self.faces@[faces[f] as int]@[1] < self.vertices@.len());
                    assert(self.faces@[faces[f] as int]@[2] < self.vertices@.len());
                    assert(stream[3 * f] == face@[0]);
                    assert(stream[3 * f + 1] == face@[1]);
                    assert(stream[3 * f + 2] == face@[2]);
                }
                let a = self.local_vertex(face[0], &mut chunk_vertices, &mut vert_map, Ghost(seen));
                proof {
                    seen = first_seen(stream, 3 * f + 1);
                }
                let ghost seen1 = seen;
                let b = self.local_vertex(face[1], &mut chunk_vertices, &mut vert_map, Ghost(seen));
                proof {
                    seen = first_seen(stream, 3 * f + 2);
                }
                let ghost seen2 = seen;
                let c = self.local_vertex(face[2], &mut chunk_vertices, &mut vert_map, Ghost(seen));
                proof {
                    seen = first_seen(stream, 3 * f + 3);
                }
                chunk_faces.push([a, b, c]);
                new_cell_faces.push(chunk_faces.len() - 1);
                proof {
                    assert(new_cell_faces@ =~= Seq::new((t + 1) as nat, |u: int| (base + u) as usize));
                    assert forall|v: int| 0 <= v < seen0.len() implies seen[v] == seen0[v] by {
                        assert(seen1[v] == seen0[v]);
                        assert(seen2[v] == seen1[v]);
                    }
                    assert(seen[a as int] == face@[0]) by {
                        assert(seen2[a as int] == seen1[a as int]);
                    }
                    assert forall|g: int, k: int|
                        0 <= g < chunk_faces@.len() && 0 <= k < 3 implies (
                    #[trigger] chunk_faces@[g]@[k]) < seen.len() && seen[chunk_faces@[g]@[k] as int]
                        == self.faces@[faces[g] as int]@[k] by {
                        if g < f {
                            assert(chunk_faces@[g] == old_faces[g]);
                            assert(old_faces[g]@[k] < seen0.len());
                        }
                    }
                }
                t += 1;
            }
            chunk_cells.push(new_cell_faces);
            chunk_cell_normals.push(self.cell_normals[cell_id]);
            let ghost map0 = cell_map@;
            cell_map.insert(cell_id, chunk_cells.len() - 1);
            proof {
                assert forall|g: usize|
                    cells@.subrange(0, j + 1).contains(g) <==> cells@.subrange(0, j as int).contains(
                        g,
                    ) || cell_id == g by {
                    crate::seq_facts::lemma_prefix_contains(cells@, j as int, g);
                }
            }
            j += 1;
        }
        proof {
            lemma_first_seen(stream, stream.len() as int);
        }
        let mut chunk_cell_neighbors: Vec<BTreeSet<usize>> = Vec::new();
        let mut k: usize = 0;
        while k < chunk_cells.len()
            invariant
                k <= chunk_cells@.len(),
                chunk_cell_neighbors@.len() == k,
                forall|a: int|
                    0 <= a < k ==> (#[trigger] chunk_cell_neighbors@[a])@ == Set::<usize>::empty(),
            decreases chunk_cells@.len() - k,
        {
            chunk_cell_neighbors.push(BTreeSet::new());
            k += 1;
        }
        self.link_neighbors(cells, &cell_map, &mut chunk_cell_neighbors);
        let local = GeometryData {
            vertices: chunk_vertices,
            faces: chunk_faces,
            cells: chunk_cells,
            cell_neighbors: chunk_cell_neighbors,
            cell_normals: chunk_cell_normals,
        };
        proof {
            assert(local.vertices@ =~= Seq::new(
                seen.len(),
                |v: int| self.vertices@[seen[v] as int],
            ));
            assert(local.cell_normals@ =~= Seq::new(
                cells@.len(),
                |i: int| self.cell_normals@[cells@[i] as int],
            ));
            assert forall|i: int, t: int|
                0 <= i < local.cells@.len() && 0 <= t < local.cells@[i]@.len() implies (
            #[trigger] local.cells@[i]@[t]) < local.faces@.len() by {
                self.lemma_faces_prefix(cells@, i + 1, cells@.len() as int);
                self.lemma_faces_prefix(cells@, i, i + 1);
            }
            assert forall|a: int, n: usize|
                0 <= a < local.cell_neighbors@.len() && (
                #[trigger] local.cell_neighbors@[a]@.contains(n)) implies n < local.cells@.len() by {
                if self.linked(cell_map@, a as usize, n) {
                } else {
                    assert(self.linked(cell_map@, n, a as usize));
                }
            }
        }
        (local, cell_map)
    }

    /// Whether `map` numbers the first `n` chosen cells: each by the last
    /// place at which it was chosen.
    pub open spec fn numbered(&self, cells: Seq<usize>, n: int, map: Map<usize, usize>) -> bool {
        &&& forall|g: usize| #[trigger] map.contains_key(g) <==> cells.subrange(0, n).contains(g)
        &&& forall|g: usize| #[trigger]
            map.contains_key(g) ==> map[g] < n && cells[map[g] as int] == g && forall|i: int|
                map[g] < i < n ==> cells[i] != g
    }

    /// Whether new cell `a` stands for a cell that has a neighbour for
    /// which new cell `b` stands.
    pub open spec fn linked(&self, map: Map<usize, usize>, a: usize, b: usize) -> bool {
        exists|g: usize, n: usize|
            #![trigger map.contains_key(g), map.contains_key(n)]
            {
                &&& map.contains_key(g)
                &&& map[g] == a
                &&& g < self.cell_neighbors@.len()
                &&& self.cell_neighbors@[g as int]@.contains(n)
                &&& map.contains_key(n)
                &&& map[n] == b
            }
    }
    /// Whether cell `g` has a neighbour for which new cell `b` stands.
    pub open spec fn neighbor_numbered(&self, map: Map<usize, usize>, g: usize, b: usize) -> bool {
        exists|n: usize|
            #![trigger map.contains_key(n)]
            self.cell_neighbors@[g as int]@.contains(n) && map.contains_key(n) && map[n] == b
    }

    /// Whether one of the first `j` chosen cells has the new number `a`
    /// and a neighbour for which new cell `b` stands.
    pub open spec fn linked_upto(
        &self,
        cells: Seq<usize>,
        j: int,
        map: Map<usize, usize>,
        a: usize,
        b: usize,
    ) -> bool {
        exists|i: int|
            #![trigger cells[i]]
            0 <= i < j && map.contains_key(cells[i]) && map[cells[i]] == a
                && self.neighbor_numbered(map, cells[i], b)
    }

    /// Makes two new cells neighbours of each other where one stands for
    /// a cell that has a neighbour for which the other stands.
    fn link_neighbors(
        &self,
        cells: &[usize],
        cell_map: &BTreeMap<usize, usize>,
        neighbors: &mut Vec<BTreeSet<usize>>,
    )
        requires
            self.wf(),
            forall|j: int| 0 <= j < cells@.len() ==> (#[trigger] cells@[j]) < self.cells@.len(),
            self.numbered(cells@, cells@.len() as int, cell_map@),
            old(neighbors)@.len() == cells@.len(),
            forall|a: int|
                0 <= a < cells@.len() ==> (#[trigger] old(neighbors)@[a])@ == Set::<usize>::empty(),
        ensures
            final(neighbors)@.len() == cells@.len(),
            forall|a: int, b: usize|
                0 <= a < cells@.len() ==> (#[trigger] final(neighbors)@[a]@.contains(b)
                    <==> self.linked(cell_map@, a as usize, b) || self.linked(
                    cell_map@,
                    b,
                    a as usize,
                )),
    {
        let ghost map = cell_map@;
        let mut j: usize = 0;
        proof {
            lemma_keys_ordered();
        }
        while j < cells.len()
            invariant
                j <= cells@.len(),
                self.wf(),
                map == cell_map@,
                forall|i: int| 0 <= i < cells@.len() ==> (#[trigger] cells@[i]) < self.cells@.len(),
                self.numbered(cells@, cells@.len() as int, map),
                neighbors@.len() == cells@.len(),
                forall|a: int, b: usize|
                    0 <= a < cells@.len() ==> (#[trigger] neighbors@[a]@.contains(b)
                        <==> self.linked_upto(cells@, j as int, map, a as usize, b)
                        || self.linked_upto(cells@, j as int, map, b, a as usize)),
            decreases cells@.len() - j,
        {
            let global = cells[j];
            proof {
                assert(cells@.subrange(0, cells@.len() as int) =~= cells@);
                assert(cells@.contains(global));
            }
            let local: usize = match cell_map.get(&global) {
                Some(l) => *l,
                None => 0,
            };
            let set = &self.cell_neighbors[global];
            let ghost elems: Seq<usize> = spec_btree_keys_iter(set).remaining().unref();
            let ghost start = neighbors@;
            assert(elems.to_set() == set@);
            for n in it: set.iter()
                invariant
                    it.seq().unref() == elems,
                    elems.to_set() == set@,
                    map == cell_map@,
                    local < cells@.len(),
                    map.contains_key(global),
                    map[global] == local,
                    self.numbered(cells@, cells@.len() as int, map),
                    neighbors@.len() == cells@.len(),
                    forall|a: int, b: usize|
                        0 <= a < cells@.len() ==> (#[trigger] neighbors@[a]@.contains(b)
                            <==> start[a]@.contains(b) || (a == local && exists|e: int|
                            0 <= e < it.index() && map.contains_key(#[trigger] elems[e])
                                && map[elems[e]] == b) || (b == local && exists|e: int|
                            0 <= e < it.index() && map.contains_key(#[trigger] elems[e])
                                && map[elems[e]] == a)),
            {
                assert(*n == elems[it.index() as int]);
                let found: Option<usize> = match cell_map.get(n) {
                    Some(l) => Some(*l),
                    None => None,
                };
                let ghost mid = neighbors@;
                match found {
                    Some(local_neighbor) => {
                        neighbors[local].insert(local_neighbor);
                        neighbors[local_neighbor].insert(local);
                    },
                    None => {},
                }
            }
            proof {
                assert forall|a: int, b: usize| 0 <= a < cells@.len() implies (
                #[trigger] neighbors@[a]@.contains(b) <==> self.linked_upto(
                    cells@,
                    j + 1,
                    map,
                    a as usize,
                    b,
                ) || self.linked_upto(cells@, j + 1, map, b, a as usize)) by {
                    self.lemma_linked_step(cells@, j as int, map, a as usize, b, elems);
                    self.lemma_linked_step(cells@, j as int, map, b, a as usize, elems);
                }
            }
            j += 1;
        }
        proof {
            assert forall|a: int, b: usize| 0 <= a < cells@.len() implies (
            #[trigger] neighbors@[a]@.contains(b) <==> self.linked(map, a as usize, b)
                || self.linked(map, b, a as usize)) by {
                self.lemma_linked_all(cells@, map, a as usize, b);
                self.lemma_linked_all(cells@, map, b, a as usize);
            }
        }
    }

    /// One more chosen cell links what was linked, and its own number to
    /// the numbers of its neighbours.
    proof fn lemma_linked_step(
        &self,
        cells: Seq<usize>,
        j: int,
        map: Map<usize, usize>,
        a: usize,
        b: usize,
        elems: Seq<usize>,
    )
        requires
            0 <= j < cells.len(),
            map.contains_key(cells[j]),
            elems.to_set() == self.cell_neighbors@[cells[j] as int]@,
        ensures
            self.linked_upto(cells, j + 1, map, a, b) <==> self.linked_upto(cells, j, map, a, b) || (
            a == map[cells[j]] && exists|e: int|
                0 <= e < elems.len() && map.contains_key(#[trigger] elems[e]) && map[elems[e]]
                    == b),
    {
        let g = cells[j];
        if self.linked_upto(cells, j + 1, map, a, b) {
            let i = choose|i: int|
                #![trigger cells[i]]
                0 <= i < j + 1 && map.contains_key(cells[i]) && map[cells[i]] == a
                    && self.neighbor_numbered(map, cells[i], b);
            if i == j {
                let n = choose|n: usize|
                    #![trigger map.contains_key(n)]
                    self.cell_neighbors@[g as int]@.contains(n) && map.contains_key(n) && map[n]
                        == b;
                assert(elems.to_set().contains(n));
                assert(elems.contains(n));
                let e = choose|e: int| 0 <= e < elems.len() && elems[e] == n;
                assert(map.contains_key(elems[e]));
            }
        }
        if a == map[g] && exists|e: int|
            0 <= e < elems.len() && map.contains_key(#[trigger] elems[e]) && map[elems[e]] == b {
            let e = choose|e: int|
                0 <= e < elems.len() && map.contains_key(#[trigger] elems[e]) && map[elems[e]]
                    == b;
            assert(elems.to_set().contains(elems[e]));
            assert(self.neighbor_numbered(map, g, b));
            assert(map.contains_key(cells[j]));
        }
        if self.linked_upto(cells, j, map, a, b) {
            let i = choose|i: int|
                #![trigger cells[i]]
                0 <= i < j && map.contains_key(cells[i]) && map[cells[i]] == a
                    && self.neighbor_numbered(map, cells[i], b);
            assert(map.contains_key(cells[i]));
        }
    }

    /// All chosen cells together link what the cells of the map link.
    proof fn lemma_linked_all(&self, cells: Seq<usize>, map: Map<usize, usize>, a: usize, b: usize)
        requires
            self.numbered(cells, cells.len() as int, map),
            forall|j: int| 0 <= j < cells.len() ==> (#[trigger] cells[j]) < self.cells@.len(),
            self.cell_neighbors@.len() == self.cells@.len(),
        ensures
            self.linked_upto(cells, cells.len() as int, map, a, b) <==> self.linked(map, a, b),
    {
        assert(cells.subrange(0, cells.len() as int) =~= cells);
        if self.linked_upto(cells, cells.len() as int, map, a, b) {
            let i = choose|i: int|
                #![trigger cells[i]]
                0 <= i < cells.len() && map.contains_key(cells[i]) && map[cells[i]] == a
                    && self.neighbor_numbered(map, cells[i], b);
            let g = cells[i];
            let n = choose|n: usize|
                #![trigger map.contains_key(n)]
                self.cell_neighbors@[g as int]@.contains(n) && map.contains_key(n) && map[n] == b;
            assert(map.contains_key(g) && map.contains_key(n));
        }
        if self.linked(map, a, b) {
            let (g, n) = choose|g: usize, n: usize|
                #![trigger map.contains_key(g), map.contains_key(n)]
                {
                    &&& map.contains_key(g)
                    &&& map[g] == a
                    &&& g < self.cell_neighbors@.len()
                    &&& self.cell_neighbors@[g as int]@.contains(n)
                    &&& map.contains_key(n)
                    &&& map[n] == b
                };
            let i = map[g] as int;
            assert(cells[i] == g);
            assert(self.neighbor_numbered(map, cells[i], b));
        }
    }
    /// Whether cell `i` has a face with a corner at vertex `v`.
    pub open spec fn touches(&self, i: int, v: usize) -> bool {
        exists|t: int, c: int|
            0 <= t < self.cells@[i]@.len() && 0 <= c < 3 && #[trigger] self.faces@[self.cells@[i]@[t] as int]@[c]
                == v
    }

    /// How many of the first `n` cells touch vertex `v`.
    pub open spec fn cells_touching(&self, v: usize, n: int) -> nat
        decreases n,
    {
        if n <= 0 || n > self.cells@.len() {
            0
        } else {
            self.cells_touching(v, n - 1) + if self.touches(n - 1, v) {
                1nat
            } else {
                0nat
            }
        }
    }

    /// Whether vertex `v` lies inside the surface rather than on its rim:
    /// three cells or more meet in it.
    pub open spec fn internal(&self, v: usize) -> bool {
        self.cells_touching(v, self.cells@.len() as int) >= 3
    }

    /// The vertices on the rim among the first `n`, in rising order.
    pub open spec fn rim_vertices(&self, n: int) -> Seq<usize>
        decreases n,
    {
        if n <= 0 || n > self.vertices@.len() {
            Seq::empty()
        } else {
            let before = self.rim_vertices(n - 1);
            if self.internal((n - 1) as usize) {
                before
            } else {
                before.push((n - 1) as usize)
            }
        }
    }

    /// The edges along the rim among the first `n` edges, where edge `k`
    /// leads from corner `k % 3` of face `k / 3` to the face's next
    /// corner: those with both ends on the rim.
    pub open spec fn rim_edges(&self, n: int) -> Seq<(usize, usize)>
        decreases n,
    {
        if n <= 0 || n > 3 * self.faces@.len() {
            Seq::empty()
        } else {
            let before = self.rim_edges(n - 1);
            let face = self.faces@[(n - 1) / 3]@;
            let from = face[(n - 1) % 3];
            let to = face[((n - 1) % 3 + 1) % 3];
            if self.internal(from) || self.internal(to) {
                before
            } else {
                before.push((from, to))
            }
        }
    }

    /// No more cells touch a vertex than there are.
    pub proof fn lemma_cells_touching_bound(&self, v: usize, n: int)
        requires
            0 <= n <= self.cells@.len(),
        ensures
            self.cells_touching(v, n) <= n,
        decreases n,
    {
        if n > 0 {
            self.lemma_cells_touching_bound(v, n - 1);
        }
    }

    /// The vertices that cell `i` touches.
    fn cell_vertices(&self, i: usize) -> (set: BTreeSet<usize>)
        requires
            self.wf(),
            i < self.cells@.len(),
        ensures
            forall|v: usize| set@.contains(v) <==> self.touches(i as int, v),
            forall|v: usize| set@.contains(v) ==> v < self.vertices@.len(),
    {
        let cell = &self.cells[i];
        let mut set: BTreeSet<usize> = BTreeSet::new();
        let mut t: usize = 0;
        proof {
            lemma_keys_ordered();
        }
        while t < cell.len()
            invariant
                t <= cell@.len(),
                self.wf(),
                i < self.cells@.len(),
                cell@ == self.cells@[i as int]@,
                forall|v: usize|
                    set@.contains(v) <==> exists|u: int, c: int|
                        0 <= u < t && 0 <= c < 3 && #[trigger] self.faces@[cell@[u] as int]@[c] == v,
                forall|v: usize| set@.contains(v) ==> v < self.vertices@.len(),
            decreases cell@.len() - t,
        {
            proof {
                assert(self.cells@[i as int]@[t as int] < self.faces@.len());
            }
            let face = self.faces[cell[t]];
            let ghost before = set@;
            proof {
                assert(self.faces@[cell@[t as int] as int]@[0] < self.vertices@.len());
                assert(self.faces@[cell@[t as int] as int]@[1] < self.vertices@.len());
                assert(self.faces@[cell@[t as int] as int]@[2] < self.vertices@.len());
            }
            set.insert(face[0]);
            set.insert(face[1]);
            set.insert(face[2]);
            proof {
                assert forall|v: usize| set@.contains(v) implies exists|u: int, c: int|
                    0 <= u < t + 1 && 0 <= c < 3 && #[trigger] self.faces@[cell@[u] as int]@[c]
                        == v by {
                    if before.contains(v) {
                        let (u, c) = choose|u: int, c: int|
                            0 <= u < t && 0 <= c < 3 && #[trigger] self.faces@[cell@[u] as int]@[c]
                                == v;
                        assert(self.faces@[cell@[u] as int]@[c] == v);
                    } else if v == face@[0] {
                        assert(self.faces@[cell@[t as int] as int]@[0] == v);
                    } else if v == face@[1] {
                        assert(self.faces@[cell@[t as int] as int]@[1] == v);
                    } else {
                        assert(self.faces@[cell@[t as int] as int]@[2] == v);
                    }
                }
                assert forall|v: usize|
                    (exists|u: int, c: int|
                        0 <= u < t + 1 && 0 <= c < 3 && #[trigger] self.faces@[cell@[u] as int]@[c]
                            == v) implies set@.contains(v) by {
                    let (u, c) = choose|u: int, c: int|
                        0 <= u < t + 1 && 0 <= c < 3 && #[trigger] self.faces@[cell@[u] as int]@[c]
                            == v;
                    if u < t {
                        assert(before.contains(v));
                    }
                }
            }
            t += 1;
        }
        set
    }

    /// For each vertex, the number of cells that touch it.
    fn cell_counts(&self) -> (counts: Vec<usize>)
        requires
            self.wf(),
        ensures
            counts@.len() == self.vertices@.len(),
            forall|v: int|
                0 <= v < counts@.len() ==> #[trigger] counts@[v] == self.cells_touching(
                    v as usize,
                    self.cells@.len() as int,
                ),
    {
        let mut counts: Vec<usize> = Vec::new();
        let mut v: usize = 0;
        while v < self.vertices.len()
            invariant
                v <= self.vertices@.len(),
                counts@.len() == v,
                forall|w: int| 0 <= w < v ==> #[trigger] counts@[w] == 0,
            decreases self.vertices@.len() - v,
        {
            counts.push(0);
            v += 1;
        }
        let mut i: usize = 0;
        while i < self.cells.len()
            invariant
                i <= self.cells@.len(),
                self.wf(),
                counts@.len() == self.vertices@.len(),
                forall|w: int|
                    0 <= w < counts@.len() ==> #[trigger] counts@[w] == self.cells_touching(
                        w as usize,
                        i as int,
                    ),
            decreases self.cells@.len() - i,
        {
            let set = self.cell_vertices(i);
            let ghost elems: Seq<usize> = spec_btree_keys_iter(&set).remaining().unref();
            let ghost start = counts@;
            proof {
                lemma_keys_ordered();
                assert(elems.to_set() == set@);
                assert(spec_btree_keys_iter(&set).remaining().no_duplicates());
                assert(elems.no_duplicates()) by {
                    let refs = spec_btree_keys_iter(&set).remaining();
                    assert forall|a: int, b: int|
                        0 <= a < elems.len() && 0 <= b < elems.len() && a != b implies elems[a]
                        != elems[b] by {
                        assert(elems[a] == *refs[a]);
                        assert(elems[b] == *refs[b]);
                        assert(refs[a] != refs[b]);
                    }
                }
            }
            for w in it: set.iter()
                invariant
                    it.seq().unref() == elems,
                    elems.to_set() == set@,
                    elems.no_duplicates(),
                    i < self.cells@.len(),
                    forall|x: usize| set@.contains(x) ==> x < self.vertices@.len(),
                    counts@.len() == self.vertices@.len(),
                    start.len() == counts@.len(),
                    forall|x: int|
                        0 <= x < start.len() ==> #[trigger] start[x] == self.cells_touching(
                            x as usize,
                            i as int,
                        ),
                    forall|x: int|
                        0 <= x < counts@.len() ==> #[trigger] counts@[x] == start[x] + if exists|
                            e: int,
                        |
                            0 <= e < it.index() && #[trigger] elems[e] == x {
                            1int
                        } else {
                            0int
                        },
            {
                let ghost at = it.index() as int;
                let ghost mid = counts@;
                assert(*w == elems[at]);
                proof {
                    assert(elems.to_set().contains(elems[at]));
                    self.lemma_cells_touching_bound(*w, i as int);
                    lemma_not_seen_before(elems, at);
                    assert(set@.contains(*w));
                    assert(start[*w as int] == self.cells_touching(*w, i as int));
                    assert(counts@[*w as int] == start[*w as int]);
                }
                let count = counts[*w];
                assert(self.cells@.len() == self.cells.len());
                counts[*w] = count + 1;
                proof {
                    assert forall|x: int| 0 <= x < counts@.len() implies #[trigger] counts@[x]
                        == start[x] + if exists|e: int| 0 <= e < at + 1 && #[trigger] elems[e] == x {
                        1int
                    } else {
                        0int
                    } by {
                        lemma_seen_step(elems, at, x);
                    }
                }
            }
            proof {
                assert forall|x: int| 0 <= x < counts@.len() implies #[trigger] counts@[x]
                    == self.cells_touching(x as usize, i + 1) by {
                    assert(counts@.len() == counts.len());
                    lemma_seen_all(elems, set@, x);
                    assert(set@.contains(x as usize) <==> self.touches(i as int, x as usize));
                    assert(start[x] == self.cells_touching(x as usize, i as int));
                    assert(counts@[x] == start[x] + if set@.contains(x as usize) {
                        1int
                    } else {
                        0int
                    });
                }
            }
            i += 1;
        }
        counts
    }
    /// The rim vertices are in rising order below `n`, each once.
    pub proof fn lemma_rim_vertices(&self, n: int)
        requires
            0 <= n <= self.vertices@.len(),
        ensures
            self.rim_vertices(n).no_duplicates(),
            forall|k: int|
                0 <= k < self.rim_vertices(n).len() ==> (#[trigger] self.rim_vertices(n)[k]) < n
                    && !self.internal(self.rim_vertices(n)[k]),
            forall|v: usize|
                v < n && !self.internal(v) ==> #[trigger] self.rim_vertices(n).contains(v),
        decreases n,
    {
        if n > 0 {
            self.lemma_rim_vertices(n - 1);
            assert(self.vertices@.len() == self.vertices.len());
            let before = self.rim_vertices(n - 1);
            let last = (n - 1) as usize;
            if !self.internal(last) {
                assert forall|a: int, b: int|
                    0 <= a < before.len() + 1 && 0 <= b < before.len() + 1 && a != b implies before.push(
                    last,
                )[a] != before.push(last)[b] by {
                    if a < before.len() {
                        assert(before[a] < n - 1);
                    }
                    if b < before.len() {
                        assert(before[b] < n - 1);
                    }
                }
            }
            assert forall|v: usize| v < n && !self.internal(v) implies #[trigger] self.rim_vertices(
                n,
            ).contains(v) by {
                crate::seq_facts::lemma_push_contains(before, last, v);
            }
        }
    }

    /// A coarse stand-in for the whole surface as one cell: a fan of
    /// triangles from `apex` to every edge along the rim.
    pub fn simplify(self, apex: Position) -> (r: GeometryData)
        requires
            self.wf(),
        ensures
            r.wf(),
            self.is_proxy(apex, r),
    {
        let counts = self.cell_counts();
        let mut map: BTreeMap<usize, usize> = BTreeMap::new();
        let mut boundary_vertices: Vec<Position> = Vec::new();
        boundary_vertices.push(apex);
        let mut v: usize = 0;
        proof {
            lemma_keys_ordered();
        }
        while v < self.vertices.len()
            invariant
                v <= self.vertices@.len(),
                self.wf(),
                counts@.len() == self.vertices@.len(),
                forall|w: int|
                    0 <= w < counts@.len() ==> #[trigger] counts@[w] == self.cells_touching(
                        w as usize,
                        self.cells@.len() as int,
                    ),
                boundary_vertices@.len() == 1 + self.rim_vertices(v as int).len(),
                boundary_vertices@[0] == apex,
                forall|k: int|
                    1 <= k < boundary_vertices@.len() ==> #[trigger] boundary_vertices@[k]
                        == self.vertices@[self.rim_vertices(v as int)[k - 1] as int],
                forall|g: usize| #[trigger]
                    map@.contains_key(g) <==> g < v && !self.internal(g),
                forall|g: usize| #[trigger]
                    map@.contains_key(g) ==> 1 <= map@[g] <= self.rim_vertices(v as int).len()
                        && self.rim_vertices(v as int)[map@[g] - 1] == g,
            decreases self.vertices@.len() - v,
        {
            let ghost before = self.rim_vertices(v as int);
            let ghost old_vertices = boundary_vertices@;
            proof {
                self.lemma_rim_vertices(v as int);
            }
            if counts[v] < 3 {
                boundary_vertices.push(self.vertices[v]);
                map.insert(v, boundary_vertices.len() - 1);
                proof {
                    let after = self.rim_vertices(v + 1);
                    assert(after == before.push(v));
                    assert forall|k: int| 1 <= k < boundary_vertices@.len() implies #[trigger] boundary_vertices@[k]
                        == self.vertices@[after[k - 1] as int] by {
                        if k < old_vertices.len() {
                            assert(boundary_vertices@[k] == old_vertices[k]);
                            assert(after[k - 1] == before[k - 1]);
                        }
                    }
                }
            }
            v += 1;
        }
        let ghost rim = self.rim_vertices(self.vertices@.len() as int);
        let mut faces: Vec<[usize; 3]> = Vec::new();
        let mut f: usize = 0;
        while f < self.faces.len()
            invariant
                f <= self.faces@.len(),
                self.wf(),
                rim == self.rim_vertices(self.vertices@.len() as int),
                counts@.len() == self.vertices@.len(),
                forall|w: int|
                    0 <= w < counts@.len() ==> #[trigger] counts@[w] == self.cells_touching(
                        w as usize,
                        self.cells@.len() as int,
                    ),
                forall|g: usize| #[trigger]
                    map@.contains_key(g) <==> g < self.vertices@.len() && !self.internal(g),
                forall|g: usize| #[trigger]
                    map@.contains_key(g) ==> 1 <= map@[g] <= rim.len() && rim[map@[g] - 1] == g,
                faces@.len() == self.rim_edges(3 * (f as int)).len(),
                forall|e: int|
                    0 <= e < faces@.len() ==> {
                        &&& (#[trigger] faces@[e])@[0] == 0
                        &&& 1 <= faces@[e]@[1] <= rim.len()
                        &&& rim[faces@[e]@[1] - 1] == self.rim_edges(3 * (f as int))[e].0
                        &&& 1 <= faces@[e]@[2] <= rim.len()
                        &&& rim[faces@[e]@[2] - 1] == self.rim_edges(3 * (f as int))[e].1
                    },
            decreases self.faces@.len() - f,
        {
            let face = self.faces[f];
            let mut e: usize = 0;
            while e < 3
                invariant
                    e <= 3,
                    f < self.faces@.len(),
                    face == self.faces@[f as int],
                    self.wf(),
                    rim == self.rim_vertices(self.vertices@.len() as int),
                    counts@.len() == self.vertices@.len(),
                    forall|w: int|
                        0 <= w < counts@.len() ==> #[trigger] counts@[w] == self.cells_touching(
                            w as usize,
                            self.cells@.len() as int,
                        ),
                    forall|g: usize| #[trigger]
                        map@.contains_key(g) <==> g < self.vertices@.len() && !self.internal(g),
                    forall|g: usize| #[trigger]
                        map@.contains_key(g) ==> 1 <= map@[g] <= rim.len() && rim[map@[g] - 1] == g,
                    faces@.len() == self.rim_edges(3 * (f as int) + e).len(),
                    forall|k: int|
                        0 <= k < faces@.len() ==> {
                            &&& (#[trigger] faces@[k])@[0] == 0
                            &&& 1 <= faces@[k]@[1] <= rim.len()
                            &&& rim[faces@[k]@[1] - 1] == self.rim_edges(3 * (f as int) + e)[k].0
                            &&& 1 <= faces@[k]@[2] <= rim.len()
                            &&& rim[faces@[k]@[2] - 1] == self.rim_edges(3 * (f as int) + e)[k].1
                        },
                decreases 3 - e,
            {
                let from = face[e];
                let to = face[(e + 1) % 3];
                let ghost slot = 3 * (f as int) + e;
                let ghost old_faces = faces@;
                proof {
                    assert(self.faces@[f as int]@[e as int] < self.vertices@.len());
                    assert(self.faces@[f as int]@[(e + 1) % 3] < self.vertices@.len());
                    assert(slot / 3 == f && slot % 3 == e);
                }
                if !(counts[from] >= 3 || counts[to] >= 3) {
                    let a: usize = match map.get(&from) {
                        Some(i) => *i,
                        None => 0,
                    };
                    let b: usize = match map.get(&to) {
                        Some(i) => *i,
                        None => 0,
                    };
                    faces.push([0, a, b]);
                    proof {
                        let after = self.rim_edges(slot + 1);
                        assert(after == self.rim_edges(slot).push((from, to)));
                        assert forall|k: int| 0 <= k < faces@.len() implies {
                            &&& (#[trigger] faces@[k])@[0] == 0
                            &&& 1 <= faces@[k]@[1] <= rim.len()
                            &&& rim[faces@[k]@[1] - 1] == after[k].0
                            &&& 1 <= faces@[k]@[2] <= rim.len()
                            &&& rim[faces@[k]@[2] - 1] == after[k].1
                        } by {
                            if k < old_faces.len() {
                                assert(faces@[k] == old_faces[k]);
                            }
                        }
                    }
                }
                e += 1;
            }
            f += 1;
        }
        let mut all_faces: Vec<usize> = Vec::new();
        let mut i: usize = 0;
        while i < faces.len()
            invariant
                i <= faces@.len(),
                all_faces@ == Seq::new(i as nat, |k: int| k as usize),
            decreases faces@.len() - i,
        {
            all_faces.push(i);
            proof {
                assert(all_faces@ =~= Seq::new((i + 1) as nat, |k: int| k as usize));
            }
            i += 1;
        }
        let mut cells: Vec<Vec<usize>> = Vec::new();
        cells.push(all_faces);
        let mut cell_neighbors: Vec<BTreeSet<usize>> = Vec::new();
        cell_neighbors.push(BTreeSet::new());
        let mut cell_normals: Vec<Position> = Vec::new();
        cell_normals.push(mean_of_faces(&boundary_vertices, &faces));
        let r = GeometryData {
            vertices: boundary_vertices,
            faces,
            cells,
            cell_neighbors,
            cell_normals,
        };
        proof {
            assert(r.vertices@ =~= seq![apex] + Seq::new(
                rim.len(),
                |k: int| self.vertices@[rim[k] as int],
            ));
            assert(r.cell_normals@ =~= seq![face_mean(r.vertices@, r.faces@)]);
        }
        r
    }

    /// Decides [`Self::wf`].
    pub fn is_wf(&self) -> (r: bool)
        ensures
            r == self.wf(),
    {
        if self.cell_neighbors.len() != self.cells.len() || self.cell_normals.len()
            != self.cells.len() {
            return false;
        }
        let mut f: usize = 0;
        while f < self.faces.len()
            invariant
                f <= self.faces@.len(),
                forall|g: int, c: int|
                    0 <= g < f && 0 <= c < 3 ==> (#[trigger] self.faces@[g]@[c]) < self.vertices@.len(),
            decreases self.faces@.len() - f,
        {
            let face = self.faces[f];
            if face[0] >= self.vertices.len() || face[1] >= self.vertices.len() || face[2]
                >= self.vertices.len() {
                proof {
                    let c = if face@[0] >= self.vertices@.len() {
                        0int
                    } else if face@[1] >= self.vertices@.len() {
                        1int
                    } else {
                        2int
                    };
                    assert(!(self.faces@[f as int]@[c] < self.vertices@.len()));
                }
                return false;
            }
            f += 1;
        }
        let mut i: usize = 0;
        while i < self.cells.len()
            invariant
                i <= self.cells@.len(),
                self.cell_neighbors@.len() == self.cells@.len(),
                forall|j: int, t: int|
                    0 <= j < i && 0 <= t < self.cells@[j]@.len() ==> (#[trigger] self.cells@[j]@[t])
                        < self.faces@.len(),
                forall|j: int, n: usize|
                    0 <= j < i && (#[trigger] self.cell_neighbors@[j]@.contains(n)) ==> n
                        < self.cells@.len(),
            decreases self.cells@.len() - i,
        {
            let cell = &self.cells[i];
            let mut t: usize = 0;
            while t < cell.len()
                invariant
                    t <= cell@.len(),
                    i < self.cells@.len(),
                    cell@ == self.cells@[i as int]@,
                    forall|u: int| 0 <= u < t ==> (#[trigger] cell@[u]) < self.faces@.len(),
                decreases cell@.len() - t,
            {
                if cell[t] >= self.faces.len() {
                    proof {
                        assert(!(self.cells@[i as int]@[t as int] < self.faces@.len()));
                    }
                    return false;
                }
                t += 1;
            }
            if !self.neighbors_in_range(i) {
                return false;
            }
            i += 1;
        }
        true
    }

    /// Whether every neighbour of cell `i` is a cell.
    fn neighbors_in_range(&self, i: usize) -> (r: bool)
        requires
            i < self.cell_neighbors@.len(),
        ensures
            r == forall|n: usize| #[trigger]
                self.cell_neighbors@[i as int]@.contains(n) ==> n < self.cells@.len(),
    {
        let set = &self.cell_neighbors[i];
        let ghost elems: Seq<usize> = spec_btree_keys_iter(set).remaining().unref();
        proof {
            lemma_keys_ordered();
            assert(elems.to_set() == set@);
        }
        let mut ok = true;
        for n in it: set.iter()
            invariant
                it.seq().unref() == elems,
                elems.to_set() == set@,
                ok == forall|e: int| 0 <= e < it.index() ==> (#[trigger] elems[e]) < self.cells@.len(),
        {
            assert(*n == elems[it.index() as int]);
            if *n >= self.cells.len() {
                ok = false;
            }
        }
        proof {
            lemma_all_below(elems, set@, self.cells@.len() as int);
        }
        ok
    }

    /// A build rests on the surface and the cells alone: two parts of this
    /// surface made of the same cells are the same, vertex by vertex, face
    /// by face, cell by cell, with the same neighbours and the same
    /// numbering.
    pub proof fn lemma_part_is_fixed(
        &self,
        cells: Seq<usize>,
        one: GeometryData,
        one_map: Map<usize, usize>,
        other: GeometryData,
        other_map: Map<usize, usize>,
    )
        requires
            self.is_part(cells, one, one_map),
            self.is_part(cells, other, other_map),
        ensures
            one.vertices@ == other.vertices@,
            one.faces@.len() == other.faces@.len(),
            forall|f: int, c: int|
                0 <= f < one.faces@.len() && 0 <= c < 3 ==> (#[trigger] one.faces@[f]@[c])
                    == other.faces@[f]@[c],
            one.cells@.len() == other.cells@.len(),
            forall|i: int| 0 <= i < one.cells@.len() ==> (#[trigger] one.cells@[i])@ == other.cells@[i]@,
            one.cell_normals@ == other.cell_normals@,
            one.cell_neighbors@.len() == other.cell_neighbors@.len(),
            forall|a: int|
                0 <= a < one.cell_neighbors@.len() ==> (#[trigger] one.cell_neighbors@[a])@
                    == other.cell_neighbors@[a]@,
            one_map == other_map,
    {
        let faces = self.faces_of(cells, cells.len() as int);
        let stream = self.corners_of(faces);
        let order = first_seen(stream, stream.len() as int);
        lemma_first_seen(stream, stream.len() as int);
        assert forall|f: int, c: int| 0 <= f < one.faces@.len() && 0 <= c < 3 implies (
        #[trigger] one.faces@[f]@[c]) == other.faces@[f]@[c] by {
            let a = one.faces@[f]@[c] as int;
            let b = other.faces@[f]@[c] as int;
            assert(order[a] == order[b]);
        }
        assert forall|g: usize| one_map.contains_key(g) implies #[trigger] one_map[g]
            == other_map[g] by {
            assert(other_map.contains_key(g));
            let a = one_map[g] as int;
            let b = other_map[g] as int;
            if a < b {
                assert(cells[b] == g);
            } else if b < a {
                assert(cells[a] == g);
            }
        }
        assert(one_map =~= other_map);
        assert forall|a: int| 0 <= a < one.cell_neighbors@.len() implies (
        #[trigger] one.cell_neighbors@[a])@ == other.cell_neighbors@[a]@ by {
            assert(one.cell_neighbors@[a]@ =~= other.cell_neighbors@[a]@);
        }
    }
}

} // verus!
