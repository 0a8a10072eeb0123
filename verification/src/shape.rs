use vstd::prelude::*;
use crate::grid::Center;
use crate::octree::Octree;
use crate::octree::Point;
use crate::octree::child_center;
use crate::octree::octant;

verus! {

/// What an octree holds and how: the points of each leaf in their order,
/// and the octants of each router.
pub enum Shape {
    Leaf(Seq<Point>),
    Router(Seq<Option<Shape>>),
}

/// Eight absent octants.
pub open spec fn no_octants() -> Seq<Option<Shape>> {
    seq![None, None, None, None, None, None, None, None]
}

impl Shape {
    /// The shape after `p` has been added to a node of this shape with
    /// the given capacity, centre and half-width. A leaf with room, or one
    /// that cannot split, takes the point behind its own. A router hands
    /// it to the octant it falls into. A leaf that overflows becomes a
    /// router to which the new point is handed first and then the leaf's
    /// own points in their order.
    pub open spec fn insert(self, capacity: int, center: Center, half: int, p: Point) -> Shape
        decreases half, 2int, 0int,
    {
        match self {
            Shape::Leaf(own) => if own.len() <= capacity || half < 2 {
                Shape::Leaf(own.push(p))
            } else {
                let all = seq![p] + own;
                Shape::Router(no_octants()).route_all(capacity, center, half, all, all.len() as int)
            },
            Shape::Router(_) => self.route(capacity, center, half, p),
        }
    }

    /// The shape after `p` has been handed to the octant of a router that
    /// it falls into.
    pub open spec fn route(self, capacity: int, center: Center, half: int, p: Point) -> Shape
        decreases half, 0int, 0int,
    {
        match self {
            Shape::Router(octants) => {
                let i = octant(center, p.position);
                if half >= 2 && octants.len() == 8 {
                    let child = match octants[i] {
                        Some(k) => k,
                        None => Shape::Leaf(Seq::empty()),
                    };
                    Shape::Router(
                        octants.update(
                            i,
                            Some(child.insert(capacity, child_center(center, half, i), half / 2, p)),
                        ),
                    )
                } else {
                    self
                }
            },
            Shape::Leaf(_) => self,
        }
    }

    /// The shape after the first `n` of `points` have been handed to a
    /// router one after the other.
    pub open spec fn route_all(
        self,
        capacity: int,
        center: Center,
        half: int,
        points: Seq<Point>,
        n: int,
    ) -> Shape
        decreases half, 1int, n,
    {
        if n <= 0 || n > points.len() {
            self
        } else {
            self.route_all(capacity, center, half, points, n - 1).route(
                capacity,
                center,
                half,
                points[n - 1],
            )
        }
    }
}

impl Shape {
    /// The points below the first `n` octants, in octant order.
    pub open spec fn points_upto(octants: Seq<Option<Shape>>, n: int) -> Seq<Point>
        decreases octants, n,
    {
        if n <= 0 || n > octants.len() {
            Seq::empty()
        } else {
            Self::points_upto(octants, n - 1) + (match octants[n - 1] {
                Some(k) => k.points(),
                None => Seq::empty(),
            })
        }
    }

    /// Every point of the shape: a leaf's in their order, a router's by
    /// octant.
    pub open spec fn points(self) -> Seq<Point>
        decreases self,
    {
        match self {
            Shape::Leaf(own) => own,
            Shape::Router(octants) => Self::points_upto(octants, octants.len() as int),
        }
    }

    /// The shape of the tree that grows from an empty leaf with the given
    /// capacity, centre and half-width when the first `n` of `points`
    /// are added one after the other.
    pub open spec fn grown(
        points: Seq<Point>,
        n: int,
        capacity: int,
        center: Center,
        half: int,
    ) -> Shape
        decreases n,
    {
        if n <= 0 || n > points.len() {
            Shape::Leaf(Seq::empty())
        } else {
            Self::grown(points, n - 1, capacity, center, half).insert(
                capacity,
                center,
                half,
                points[n - 1],
            )
        }
    }
}

impl Octree {
    /// The shape below octant slot `slot`.
    pub open spec fn slot_shape(slot: Option<Octree>) -> Option<Shape>
        decreases slot,
    {
        match slot {
            Some(k) => Some(k.shape()),
            None => None,
        }
    }

    /// The shapes below the first `n` octants.
    pub open spec fn shapes_upto(children: Seq<Option<Octree>>, n: int) -> Seq<Option<Shape>>
        decreases children, n,
    {
        if n <= 0 || n > children.len() {
            Seq::empty()
        } else {
            Self::shapes_upto(children, n - 1).push(Self::slot_shape(children[n - 1]))
        }
    }

    /// The shapes below the first `n` octants are `n`, one for each.
    pub proof fn lemma_shapes_upto(children: Seq<Option<Octree>>, n: int)
        requires
            0 <= n <= children.len(),
        ensures
            Self::shapes_upto(children, n).len() == n,
            forall|j: int|
                0 <= j < n ==> #[trigger] Self::shapes_upto(children, n)[j] == Self::slot_shape(
                    children[j],
                ),
        decreases n,
    {
        if n > 0 {
            Self::lemma_shapes_upto(children, n - 1);
        }
    }

    /// The points of the first `n` octants are those of their shapes.
    pub proof fn lemma_shape_points_upto(children: Seq<Option<Octree>>, n: int)
        requires
            0 <= n <= children.len(),
        ensures
            Self::points_upto(children, n) == Shape::points_upto(
                Self::shapes_upto(children, children.len() as int),
                n,
            ),
        decreases children, n,
    {
        Self::lemma_shapes_upto(children, children.len() as int);
        if n > 0 {
            let shapes = Self::shapes_upto(children, children.len() as int);
            Self::lemma_shape_points_upto(children, n - 1);
            assert(shapes[n - 1] == Self::slot_shape(children[n - 1]));
            match children[n - 1] {
                Some(k) => {
                    k.lemma_shape_points();
                    assert(Self::slot_points(children[n - 1]) == k.shape().points());
                },
                None => {
                    assert(Self::slot_points(children[n - 1]) == Seq::<Point>::empty());
                },
            }
        }
    }

    /// The shape of a tree holds the tree's points, in their order.
    pub proof fn lemma_shape_points(self)
        ensures
            self.content() == self.shape().points(),
        decreases self,
    {
        if self.points is None {
            Self::lemma_shapes_upto(self.children@, self.children@.len() as int);
            Self::lemma_shape_points_upto(self.children@, self.children@.len() as int);
        }
    }

    /// The shape of the tree.
    pub open spec fn shape(self) -> Shape
        decreases self,
    {
        match self.points {
            Some(v) => Shape::Leaf(v@),
            None => Shape::Router(Self::shapes_upto(self.children@, self.children@.len() as int)),
        }
    }
}

} // verus!
