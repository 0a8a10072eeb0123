use vstd::prelude::*;
use vstd::multiset::Multiset;
use crate::chunk_index::same_index;
use crate::chunk_index::starts_with;
use crate::grid::Center;
use crate::grid::Position;
use crate::grid::reach_limit;
use crate::shape::Shape;
use crate::shape::no_octants;

verus! {

/// A surface cell's centre with the cell's identifier.
#[derive(Clone, Copy, Debug)]
pub struct Point {
    pub position: Position,
    pub value: usize,
}

/// An octree that hands all of a node's points down to its children once
/// the node holds more than its capacity allows.
#[derive(Debug)]
pub struct Octree {
    /// The eight octants, each absent until a point falls into it.
    pub children: Vec<Option<Octree>>,
    pub center: Center,
    /// The points of a node that has no children; `None` in a node that
    /// only routes to its children.
    pub points: Option<Vec<Point>>,
    pub capacity: usize,
    /// Half the width of the node's cube.
    pub half_width: u32,
    /// The distance to the furthest leaf below this node.
    pub height: usize,
    pub depth: usize,
    /// The child selectors on the way from the root to this node.
    pub octree_index: Vec<u8>,
}

/// The octant of `center` that `p` falls into: one bit per axis, set where
/// the point is not below the centre.
pub open spec fn octant(center: Center, p: Position) -> int {
    (if p.x >= center.x { 1int } else { 0int })
        + (if p.y >= center.y { 2int } else { 0int })
        + (if p.z >= center.z { 4int } else { 0int })
}

/// The centre of octant `i` of a node: a quarter of the node's width away
/// from its centre along each axis, on the side that `i`'s bit names.
pub open spec fn child_center(center: Center, half: int, i: int) -> Center {
    let q = half / 2;
    Center {
        x: (if i % 2 == 1 { center.x + q } else { center.x - q }) as i64,
        y: (if (i / 2) % 2 == 1 { center.y + q } else { center.y - q }) as i64,
        z: (if (i / 4) % 2 == 1 { center.z + q } else { center.z - q }) as i64,
    }
}

/// How many times a half-width can be halved before a node cannot split.
pub open spec fn max_levels(half: nat) -> nat
    decreases half,
{
    if half < 2 {
        0
    } else {
        1 + max_levels(half / 2)
    }
}

/// A half-width cannot be halved more often than it is large.
pub proof fn lemma_max_levels_bound(half: nat)
    ensures
        max_levels(half) <= half,
    decreases half,
{
    if half >= 2 {
        lemma_max_levels_bound(half / 2);
    }
}

/// Two points may be added to a multiset in either order.
pub proof fn lemma_insert_commutes<A>(m: Multiset<A>, a: A, b: A)
    ensures
        m.insert(a).insert(b) == m.insert(b).insert(a),
{
    broadcast use vstd::multiset::group_multiset_axioms;

    assert(m.insert(a).insert(b) =~= m.insert(b).insert(a));
}

/// Adding one value to a multiset leaves the count of every other value.
pub proof fn lemma_insert_keeps_others<A>(m: Multiset<A>, a: A, b: A)
    requires
        a != b,
    ensures
        m.insert(a).count(b) == m.count(b),
        m.insert(a).len() == m.len() + 1,
{
    broadcast use vstd::multiset::group_multiset_axioms;

}

/// Whether a centre with this half-width stays within the reach limit.
pub open spec fn within_reach(center: Center, half: int) -> bool {
    &&& -reach_limit() <= center.x - half
    &&& center.x + half <= reach_limit()
    &&& -reach_limit() <= center.y - half
    &&& center.y + half <= reach_limit()
    &&& -reach_limit() <= center.z - half
    &&& center.z + half <= reach_limit()
}

/// The identifiers of a run of points, in order.
pub open spec fn ids_of(points: Seq<Point>) -> Seq<usize> {
    Seq::new(points.len(), |i: int| points[i].value)
}

impl Octree {
    /// The points below octant slot `slot`.
    pub open spec fn slot_points(slot: Option<Octree>) -> Seq<Point>
        decreases slot,
    {
        match slot {
            Some(k) => k.content(),
            None => Seq::empty(),
        }
    }

    /// The points below the first `n` octants, in octant order.
    pub open spec fn points_upto(children: Seq<Option<Octree>>, n: int) -> Seq<Point>
        decreases children, n,
    {
        if n <= 0 || n > children.len() {
            Seq::empty()
        } else {
            Self::points_upto(children, n - 1) + Self::slot_points(children[n - 1])
        }
    }

    /// Every point of the subtree: a leaf's own points in the order they
    /// came, a router's by octant.
    pub open spec fn content(self) -> Seq<Point>
        decreases self,
    {
        match self.points {
            Some(v) => v@,
            None => Self::points_upto(self.children@, self.children@.len() as int),
        }
    }

    /// The cell identifiers of the subtree, in the order of [`Self::content`].
    pub open spec fn cell_ids(self) -> Seq<usize> {
        ids_of(self.content())
    }

    /// The node that identifier `id` names, seen from this node: the node
    /// itself for its own identifier, and for a longer one the node found
    /// by following the selectors that come after this node's identifier.
    /// `None` where `id` does not continue this node's identifier, where a
    /// selector is no octant, and where the octant it names holds no point.
    pub open spec fn node_at(self, id: Seq<u8>) -> Option<Octree>
        decreases self,
    {
        let own = self.octree_index@;
        if own == id {
            Some(self)
        } else if own.is_prefix_of(id) && id.len() > own.len() {
            let next = id[own.len() as int] as int;
            if next < self.children@.len() {
                match self.children@[next] {
                    Some(k) => k.node_at(id),
                    None => None,
                }
            } else {
                None
            }
        } else {
            None
        }
    }

    /// The cell identifiers of the region that `id` names, if it is realized.
    pub open spec fn region_cells(self, id: Seq<u8>) -> Option<Seq<usize>> {
        match self.node_at(id) {
            Some(node) => Some(node.cell_ids()),
            None => None,
        }
    }

    /// Whether two nodes stand for the same cube under the same identifier.
    pub open spec fn same_frame(self, other: Octree) -> bool {
        &&& self.capacity == other.capacity
        &&& self.center == other.center
        &&& self.half_width == other.half_width
        &&& self.depth == other.depth
        &&& self.octree_index@ == other.octree_index@
    }

    /// Whether a leaf takes one more point itself: it has room, or it
    /// cannot split.
    pub open spec fn takes_point(self) -> bool {
        self.points matches Some(v) && (v@.len() <= self.capacity || !self.splittable())
    }

    /// One more than the greatest height among the first `n` octants; 0
    /// where none of them exists.
    pub open spec fn height_upto(children: Seq<Option<Octree>>, n: int) -> nat
        decreases n,
    {
        if n <= 0 || n > children.len() {
            0
        } else {
            let rest = Self::height_upto(children, n - 1);
            match children[n - 1] {
                Some(k) => if k.height + 1 > rest { (k.height + 1) as nat } else { rest },
                None => rest,
            }
        }
    }

    /// Whether the node can hand its points down: its half-width can still
    /// be halved.
    pub open spec fn splittable(self) -> bool {
        self.half_width >= 2
    }

    /// The shape every node has at all times, whatever it holds: eight
    /// octants; a cube within the reach limit; a height that is one more
    /// than that of its highest child; its points in a leaf only; and
    /// every child well formed, in its place, under its identifier, not
    /// empty, and with points of its octant only.
    pub open spec fn wf_shape(self) -> bool
        decreases self, 0int,
    {
        &&& self.children@.len() == 8
        &&& within_reach(self.center, self.half_width as int)
        &&& self.depth + self.half_width <= usize::MAX
        &&& self.height == Self::height_upto(self.children@, 8)
        &&& self.height <= max_levels(self.half_width as nat)
        &&& self.points is Some ==> forall|i: int| 0 <= i < 8 ==> (#[trigger] self.children@[i]) is None
        &&& self.points is None ==> self.splittable()
        &&& forall|i: int|
            0 <= i < 8 ==> ((#[trigger] self.children@[i]) matches Some(k) ==> {
                &&& k.wf()
                &&& k.capacity == self.capacity
                &&& k.half_width == self.half_width / 2
                &&& k.center == child_center(self.center, self.half_width as int, i)
                &&& k.depth == self.depth + 1
                &&& k.octree_index@ == self.octree_index@.push(i as u8)
                &&& k.content().len() >= 1
                &&& forall|p: Point| #[trigger]
                    k.content().contains(p) ==> octant(self.center, p.position) == i
            })
    }

    /// A well-formed tree: a leaf holds at most `capacity + 1` points unless
    /// it cannot split, a router's subtree more than that, every child is
    /// well formed, lies where its octant says, continues its parent's
    /// identifier by its octant, and holds only points of that octant.
    pub open spec fn wf(self) -> bool
        decreases self, 1int,
    {
        &&& self.wf_shape()
        &&& match self.points {
            Some(v) => v@.len() <= self.capacity + 1 || !self.splittable(),
            None => self.content().len() >= self.capacity + 2,
        }
    }

    /// An empty node.
    pub fn new(
        capacity: usize,
        center: Position,
        half_width: u32,
        depth: usize,
        octree_index: Vec<u8>,
    ) -> (r: Octree)
        requires
            depth + half_width <= usize::MAX,
        ensures
            r.wf(),
            r.content() == Seq::<Point>::empty(),
            r.capacity == capacity,
            r.center == (Center { x: center.x as i64, y: center.y as i64, z: center.z as i64 }),
            r.half_width == half_width,
            r.height == 0,
            r.depth == depth,
            r.octree_index == octree_index,
            r.points is Some,
            r.shape() == Shape::Leaf(Seq::<Point>::empty()),
    {
        let center = Center { x: center.x as i64, y: center.y as i64, z: center.z as i64 };
        Self::empty_node(capacity, center, half_width, depth, octree_index)
    }

    /// An empty node around any centre within the reach limit.
    fn empty_node(
        capacity: usize,
        center: Center,
        half_width: u32,
        depth: usize,
        octree_index: Vec<u8>,
    ) -> (r: Octree)
        requires
            depth + half_width <= usize::MAX,
            within_reach(center, half_width as int),
        ensures
            r.wf(),
            r.content() == Seq::<Point>::empty(),
            r.capacity == capacity,
            r.center == center,
            r.half_width == half_width,
            r.height == 0,
            r.depth == depth,
            r.octree_index == octree_index,
            r.points is Some,
    {
        let mut children: Vec<Option<Octree>> = Vec::new();
        let mut i: usize = 0;
        while i < 8
            invariant
                i <= 8,
                children@.len() == i,
                forall|j: int| 0 <= j < i ==> (#[trigger] children@[j]) is None,
            decreases 8 - i,
        {
            children.push(None);
            i += 1;
        }
        let r = Octree {
            children,
            center,
            points: Some(Vec::new()),
            capacity,
            half_width,
            height: 0,
            depth,
            octree_index,
        };
        proof {
            Self::lemma_height_of_empty(r.children@, 8);
        }
        r
    }

    /// No octant, no height.
    pub proof fn lemma_height_of_empty(children: Seq<Option<Octree>>, n: int)
        requires
            forall|j: int| 0 <= j < children.len() ==> (#[trigger] children[j]) is None,
        ensures
            Self::height_upto(children, n) == 0,
        decreases n,
    {
        if n > 0 && n <= children.len() {
            Self::lemma_height_of_empty(children, n - 1);
        }
    }

    /// The octant of this node that `pos` falls into.
    pub fn pos_to_child(&self, pos: Position) -> (index: usize)
        ensures
            index == octant(self.center, pos),
            index < 8,
    {
        let mut index: usize = 0;
        if pos.x as i64 >= self.center.x {
            index += 1;
        }
        if pos.y as i64 >= self.center.y {
            index += 2;
        }
        if pos.z as i64 >= self.center.z {
            index += 4;
        }
        index
    }

    /// Every cell identifier below this node: a leaf's in the order they
    /// came, a router's by octant.
    pub fn cells(&self) -> (results: Vec<usize>)
        ensures
            results@ == self.cell_ids(),
        decreases self,
    {
        let mut results: Vec<usize> = Vec::new();
        match &self.points {
            Some(points) => {
                let mut j: usize = 0;
                while j < points.len()
                    invariant
                        j <= points@.len(),
                        results@ == ids_of(points@.subrange(0, j as int)),
                    decreases points@.len() - j,
                {
                    results.push(points[j].value);
                    proof {
                        assert(points@.subrange(0, j + 1) =~= points@.subrange(0, j as int).push(
                            points@[j as int],
                        ));
                    }
                    j += 1;
                }
                proof {
                    assert(points@.subrange(0, j as int) =~= points@);
                }
            },
            None => {
                let mut i: usize = 0;
                while i < self.children.len()
                    invariant
                        i <= self.children@.len(),
                        results@ == ids_of(Self::points_upto(self.children@, i as int)),
                    decreases self.children@.len() - i,
                {
                    if let Some(child) = &self.children[i] {
                        let mut sub = child.cells();
                        results.append(&mut sub);
                    }
                    proof {
                        let before = Self::points_upto(self.children@, i as int);
                        let here = Self::slot_points(self.children@[i as int]);
                        assert(ids_of(before + here) =~= ids_of(before) + ids_of(here));
                    }
                    i += 1;
                }
            },
        }
        results
    }

    /// The cells of the region that `index_path` names, or `None` where no
    /// node of this tree has that identifier.
    pub fn get_cells_for_index(&self, index_path: &[u8]) -> (r: Option<Vec<usize>>)
        ensures
            match r {
                Some(cells) => self.region_cells(index_path@) == Some(cells@),
                None => self.region_cells(index_path@) is None,
            },
        decreases self,
    {
        if same_index(self.octree_index.as_slice(), index_path) {
            return Some(self.cells());
        }
        if starts_with(index_path, self.octree_index.as_slice()) && index_path.len()
            > self.octree_index.len() {
            let next_child = index_path[self.octree_index.len()] as usize;
            if next_child < self.children.len() {
                if let Some(child) = &self.children[next_child] {
                    return child.get_cells_for_index(index_path);
                }
            }
            return None;
        }
        None
    }

    /// Adds a point. A leaf with room, or one that cannot split, takes it
    /// itself. Any other node hands it to the octant it falls into; a leaf
    /// that overflows hands the new point down first and then its own, in
    /// the order they came, and is a router from then on. What the tree
    /// holds afterwards, and where, is [`Shape::insert`] of what it held.
    pub fn insert(&mut self, point: Point)
        requires
            old(self).wf(),
        ensures
            final(self).wf(),
            final(self).same_frame(*old(self)),
            final(self).content().to_multiset() == old(self).content().to_multiset().insert(point),
            final(self).content().len() == old(self).content().len() + 1,
            old(self).takes_point() ==> (final(self).points matches Some(v) && v@ == old(self).content().push(point)),
            !old(self).takes_point() ==> final(self).points is None,
            final(self).points is Some ==> final(self).height == 0,
            final(self).points is None ==> final(self).height >= 1,
            final(self).shape() == old(self).shape().insert(
                old(self).capacity as int,
                old(self).center,
                old(self).half_width as int,
                point,
            ),
        decreases old(self).half_width, 1int,
    {
        broadcast use vstd::seq_lib::group_to_multiset_ensures;
        broadcast use vstd::multiset::group_multiset_axioms;

        let room = match &self.points {
            Some(v) => v.len() <= self.capacity || self.half_width < 2,
            None => false,
        };
        if room {
            match &mut self.points {
                Some(v) => {
                    v.push(point);
                },
                None => {},
            }
            proof {
                vstd::seq_lib::to_multiset_build(old(self).content(), point);
                assert(self.children@ == old(self).children@);
                Self::lemma_height_of_empty(self.children@, 8);
            }
            return ;
        }
        let taken = self.points.take();
        let ghost all = seq![point] + old(self).content();
        proof {
            if taken is Some {
                Self::lemma_points_of_empty(self.children@, 8);
                Self::lemma_height_of_empty(self.children@, 8);
                Self::lemma_shapes_upto(self.children@, 8);
                assert(Self::shapes_upto(self.children@, 8) =~= no_octants());
            }
        }
        let ghost bare = self.shape();
        self.route(point);
        proof {
            if taken is Some {
                let cap = self.capacity as int;
                let half = self.half_width as int;
                assert(all[0] == point);
                assert(bare.route_all(cap, self.center, half, all, 0) == bare);
                assert(self.shape() == bare.route_all(cap, self.center, half, all, 1));
            }
        }
        match taken {
            Some(own) => {
                let mut j: usize = 0;
                assert(own@.subrange(0, 0) =~= Seq::<Point>::empty());
                while j < own.len()
                    invariant
                        j <= own@.len(),
                        self.wf_shape(),
                        self.points is None,
                        self.same_frame(*old(self)),
                        self.content().to_multiset() == own@.subrange(0, j as int).to_multiset().insert(
                            point,
                        ),
                        all == seq![point] + own@,
                        bare == Shape::Router(no_octants()),
                        self.shape() == bare.route_all(
                            self.capacity as int,
                            self.center,
                            self.half_width as int,
                            all,
                            j + 1,
                        ),
                    decreases own@.len() - j,
                {
                    let p = own[j];
                    self.route(p);
                    proof {
                        assert(all[j + 1] == p);
                        let before = own@.subrange(0, j as int);
                        assert(own@.subrange(0, j + 1) =~= before.push(p));
                        lemma_insert_commutes(before.to_multiset(), point, p);
                        vstd::seq_lib::to_multiset_build(before, p);
                    }
                    j += 1;
                }
                proof {
                    assert(own@.subrange(0, j as int) =~= own@);
                }
            },
            None => {},
        }
        proof {
            let before = old(self).content();
            let after = self.content();
            vstd::seq_lib::to_multiset_len(before);
            vstd::seq_lib::to_multiset_len(after);
            assert(before.to_multiset().insert(point).len() == before.to_multiset().len() + 1);
            if self.height == 0 {
                Self::lemma_height_without_children(self.children@, 8);
                Self::lemma_points_of_empty(self.children@, 8);
            }
        }
    }

    /// Octants without height are absent.
    pub proof fn lemma_height_without_children(children: Seq<Option<Octree>>, n: int)
        requires
            0 <= n <= children.len(),
            Self::height_upto(children, n) == 0,
        ensures
            forall|j: int| 0 <= j < n ==> (#[trigger] children[j]) is None,
        decreases n,
    {
        if n > 0 {
            Self::lemma_height_without_children(children, n - 1);
        }
    }

    /// Hands a point to the octant it falls into, which is made if it is
    /// not there yet, and brings the height up to date.
    fn route(&mut self, point: Point)
        requires
            old(self).wf_shape(),
            old(self).points is None,
        ensures
            final(self).wf_shape(),
            final(self).points is None,
            final(self).same_frame(*old(self)),
            final(self).content().to_multiset() == old(self).content().to_multiset().insert(point),
            final(self).shape() == old(self).shape().route(
                old(self).capacity as int,
                old(self).center,
                old(self).half_width as int,
                point,
            ),
        decreases old(self).half_width, 0int,
    {
        broadcast use vstd::seq_lib::group_to_multiset_ensures;
        broadcast use vstd::multiset::group_multiset_axioms;

        let index = self.pos_to_child(point.position);
        let ghost kids0 = self.children@;
        if self.children[index].is_none() {
            let center = self.child_center_of(index);
            let mut octree_index = self.octree_index.clone();
            octree_index.push(index as u8);
            let child = Self::empty_node(
                self.capacity,
                center,
                self.half_width / 2,
                self.depth + 1,
                octree_index,
            );
            self.children[index] = Some(child);
        }
        let ghost kids1 = self.children@;
        assert(Self::slot_points(kids1[index as int]) =~= Self::slot_points(kids0[index as int]));
        match &mut self.children[index] {
            Some(ot) => {
                ot.insert(point);
            },
            None => {},
        }
        let ghost kids2 = self.children@;
        proof {
            Self::lemma_shapes_upto(kids0, 8);
            Self::lemma_shapes_upto(kids2, 8);
            let was = Self::shapes_upto(kids0, 8);
            let child = match was[index as int] {
                Some(k) => k,
                None => Shape::Leaf(Seq::empty()),
            };
            assert(kids1[index as int]->0.shape() == child);
            assert(Self::shapes_upto(kids2, 8) =~= was.update(
                index as int,
                Self::slot_shape(kids2[index as int]),
            )) by {
                assert forall|j: int| 0 <= j < 8 implies Self::shapes_upto(kids2, 8)[j]
                    == was.update(index as int, Self::slot_shape(kids2[index as int]))[j] by {
                    if j != index {
                        assert(kids2[j] == kids0[j]);
                    }
                }
            }
            assert(kids1 =~= kids0.update(index as int, kids1[index as int]));
            assert(kids2 =~= kids0.update(index as int, kids2[index as int]));
            Self::lemma_points_after_insert(kids0, index as int, kids2[index as int], point, 8);
        }
        proof {
            lemma_max_levels_bound(self.half_width as nat);
            assert forall|j: int| 0 <= j < 8 implies ((#[trigger] kids2[j]) matches Some(k)
                ==> k.height < max_levels(self.half_width as nat)) by {
                if j != index {
                    assert(kids2[j] == kids0[j]);
                }
                if let Some(k) = kids2[j] {
                    assert(k.wf());
                    assert(k.wf_shape());
                    assert(k.half_width == self.half_width / 2);
                    assert(max_levels(self.half_width as nat) == 1 + max_levels(
                        (self.half_width / 2) as nat,
                    ));
                }
            }
        }
        let mut height: usize = 0;
        let mut i: usize = 0;
        while i < 8
            invariant
                i <= 8,
                self.children@ == kids2,
                kids2.len() == 8,
                height == Self::height_upto(kids2, i as int),
                forall|j: int|
                    0 <= j < 8 ==> ((#[trigger] kids2[j]) matches Some(k) ==> k.height < max_levels(
                        self.half_width as nat,
                    )),
                height <= max_levels(self.half_width as nat),
                max_levels(self.half_width as nat) <= usize::MAX,
            decreases 8 - i,
        {
            if let Some(child) = &self.children[i] {
                if child.height + 1 > height {
                    height = child.height + 1;
                }
            }
            i += 1;
        }
        self.height = height;
        proof {
            let k = kids2[index as int]->0;
            assert forall|p: Point| #[trigger] k.content().contains(p) implies octant(
                self.center,
                p.position,
            ) == index by {
                let was = kids1[index as int]->0.content();
                assert(k.content().to_multiset().count(p) > 0);
                if p != point {
                    lemma_insert_keeps_others(was.to_multiset(), point, p);
                    assert(was.contains(p));
                }
            }
        }
    }

    /// The centre of octant `index`.
    fn child_center_of(&self, index: usize) -> (c: Center)
        requires
            index < 8,
            within_reach(self.center, self.half_width as int),
        ensures
            c == child_center(self.center, self.half_width as int, index as int),
            within_reach(c, (self.half_width / 2) as int),
    {
        let q: i64 = (self.half_width / 2) as i64;
        Center {
            x: if index % 2 == 1 { self.center.x + q } else { self.center.x - q },
            y: if (index / 2) % 2 == 1 { self.center.y + q } else { self.center.y - q },
            z: if (index / 4) % 2 == 1 { self.center.z + q } else { self.center.z - q },
        }
    }

    /// No octant, no point.
    pub proof fn lemma_points_of_empty(children: Seq<Option<Octree>>, n: int)
        requires
            forall|j: int| 0 <= j < children.len() ==> (#[trigger] children[j]) is None,
        ensures
            Self::points_upto(children, n) == Seq::<Point>::empty(),
        decreases n,
    {
        if n > 0 && n <= children.len() {
            Self::lemma_points_of_empty(children, n - 1);
            assert(Self::slot_points(children[n - 1]) =~= Seq::<Point>::empty());
            assert(Self::points_upto(children, n) =~= Seq::<Point>::empty());
        }
    }

    /// Where one octant gains a point, the octants together gain that
    /// point, whatever order its own points then have.
    pub proof fn lemma_points_after_insert(
        children: Seq<Option<Octree>>,
        i: int,
        slot: Option<Octree>,
        point: Point,
        n: int,
    )
        requires
            0 <= i < children.len(),
            0 <= n <= children.len(),
            Self::slot_points(slot).to_multiset() == Self::slot_points(
                children[i],
            ).to_multiset().insert(point),
        ensures
            Self::points_upto(children.update(i, slot), n).to_multiset() == if n > i {
                Self::points_upto(children, n).to_multiset().insert(point)
            } else {
                Self::points_upto(children, n).to_multiset()
            },
        decreases n,
    {
        broadcast use vstd::seq_lib::group_to_multiset_ensures;
        broadcast use vstd::multiset::group_multiset_axioms;

        let after = children.update(i, slot);
        if n > 0 {
            Self::lemma_points_after_insert(children, i, slot, point, n - 1);
            vstd::seq_lib::lemma_multiset_commutative(
                Self::points_upto(after, n - 1),
                Self::slot_points(after[n - 1]),
            );
            vstd::seq_lib::lemma_multiset_commutative(
                Self::points_upto(children, n - 1),
                Self::slot_points(children[n - 1]),
            );
            assert(Self::points_upto(after, n).to_multiset() =~= if n > i {
                Self::points_upto(children, n).to_multiset().insert(point)
            } else {
                Self::points_upto(children, n).to_multiset()
            });
        } else {
            assert(Self::points_upto(after, n) =~= Self::points_upto(children, n));
        }
    }
}

} // verus!
