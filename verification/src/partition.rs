use vstd::prelude::*;
use crate::chunk_index::disjoint;
use crate::chunk_index::is_strict_prefix;
use crate::grid::Position;
use crate::grid::UNIT;
use crate::octree::Octree;
use crate::octree::Point;
use crate::octree::ids_of;

verus! {

/// Whether no identifier of the list lies in or above another one.
pub open spec fn exclusive(ids: Seq<Seq<u8>>) -> bool {
    forall|i: int, j: int|
        0 <= i < ids.len() && 0 <= j < ids.len() && i != j ==> !(#[trigger] ids[i]).is_prefix_of(
            #[trigger] ids[j],
        )
}

/// Whether every identifier of the list continues `base` with a selector
/// from `lo` up to, not including, `hi`.
pub open spec fn all_under(ids: Seq<Seq<u8>>, base: Seq<u8>, lo: int, hi: int) -> bool {
    forall|j: int|
        0 <= j < ids.len() ==> is_strict_prefix(base, #[trigger] ids[j]) && lo <= ids[j][base.len() as int]
            < hi
}

/// The identifiers of two runs together are exclusive where those of each
/// run are and the two runs continue one identifier by different
/// selectors.
pub proof fn lemma_exclusive_concat(a: Seq<Seq<u8>>, b: Seq<Seq<u8>>, base: Seq<u8>, m: int)
    requires
        exclusive(a),
        exclusive(b),
        all_under(a, base, 0, m),
        all_under(b, base, m, m + 1),
    ensures
        exclusive(a + b),
        all_under(a + b, base, 0, m + 1),
{
    let all = a + b;
    assert forall|i: int, j: int|
        0 <= i < all.len() && 0 <= j < all.len() && i != j implies !(#[trigger] all[i]).is_prefix_of(
        #[trigger] all[j],
    ) by {
        let x = all[i];
        let y = all[j];
        if i < a.len() && j < a.len() {
            assert(x == a[i] && y == a[j]);
        } else if i >= a.len() && j >= a.len() {
            assert(x == b[i - a.len()] && y == b[j - a.len()]);
        } else {
            if i < a.len() {
                assert(x == a[i] && y == b[j - a.len()]);
            } else {
                assert(x == b[i - a.len()] && y == a[j]);
            }
            assert(x[base.len() as int] != y[base.len() as int]);
            if x.is_prefix_of(y) {
                assert(y.subrange(0, x.len() as int)[base.len() as int] == y[base.len() as int]);
            }
        }
    }
    assert forall|j: int| 0 <= j < all.len() implies is_strict_prefix(base, #[trigger] all[j]) && 0
        <= all[j][base.len() as int] < m + 1 by {
        if j < a.len() {
            assert(all[j] == a[j]);
        } else {
            assert(all[j] == b[j - a.len()]);
        }
    }
}

impl Octree {
    /// The cells of the regions `ids`, one region after the other; a
    /// region that is not realized adds none.
    pub open spec fn cells_of_regions(self, ids: Seq<Seq<u8>>) -> Seq<usize>
        decreases ids.len(),
    {
        if ids.len() == 0 {
            Seq::empty()
        } else {
            self.cells_of_regions(ids.drop_last()) + (match self.region_cells(ids.last()) {
                Some(cells) => cells,
                None => Seq::empty(),
            })
        }
    }

    /// The cells of two runs of regions are those of the first run and
    /// then those of the second.
    pub proof fn lemma_cells_of_concat(self, a: Seq<Seq<u8>>, b: Seq<Seq<u8>>)
        ensures
            self.cells_of_regions(a + b) == self.cells_of_regions(a) + self.cells_of_regions(b),
        decreases b.len(),
    {
        if b.len() == 0 {
            assert(a + b =~= a);
            assert(self.cells_of_regions(a) + self.cells_of_regions(b) =~= self.cells_of_regions(a));
        } else {
            self.lemma_cells_of_concat(a, b.drop_last());
            assert((a + b).drop_last() =~= a + b.drop_last());
            assert((a + b).last() == b.last());
            let tail = match self.region_cells(b.last()) {
                Some(cells) => cells,
                None => Seq::empty(),
            };
            assert(self.cells_of_regions(a + b) =~= self.cells_of_regions(a) + (
            self.cells_of_regions(b.drop_last()) + tail));
        }
    }

    /// Two trees that agree on each region of a run agree on the run.
    pub proof fn lemma_cells_of_same_regions(self, other: Octree, ids: Seq<Seq<u8>>)
        requires
            forall|j: int|
                0 <= j < ids.len() ==> self.region_cells(#[trigger] ids[j]) == other.region_cells(
                    ids[j],
                ),
        ensures
            self.cells_of_regions(ids) == other.cells_of_regions(ids),
        decreases ids.len(),
    {
        if ids.len() > 0 {
            let rest = ids.drop_last();
            assert forall|j: int| 0 <= j < rest.len() implies self.region_cells(#[trigger] rest[j])
                == other.region_cells(rest[j]) by {
                assert(rest[j] == ids[j]);
            }
            self.lemma_cells_of_same_regions(other, rest);
            assert(ids.last() == ids[ids.len() - 1]);
        }
    }

    /// A child answers for every identifier that continues its own as its
    /// parent does.
    pub proof fn lemma_node_at_child(self, i: int, id: Seq<u8>)
        requires
            self.wf_shape(),
            0 <= i < 8,
            self.children@[i] is Some,
            self.children@[i]->0.octree_index@.is_prefix_of(id),
        ensures
            self.node_at(id) == self.children@[i]->0.node_at(id),
    {
        let k = self.children@[i]->0;
        let own = self.octree_index@;
        assert(k.octree_index@ == own.push(i as u8));
        assert(id.subrange(0, k.octree_index@.len() as int)[own.len() as int] == id[own.len() as int]);
        assert(id[own.len() as int] == i as u8);
        assert(own =~= id.subrange(0, own.len() as int)) by {
            assert forall|j: int| 0 <= j < own.len() implies own[j] == id[j] by {
                assert(id.subrange(0, k.octree_index@.len() as int)[j] == id[j]);
                assert(k.octree_index@[j] == own[j]);
            }
        }
    }

    /// The points of a slot among the first `n` are points of those `n`.
    pub proof fn lemma_slot_within(children: Seq<Option<Octree>>, i: int, n: int, p: Point)
        requires
            0 <= i < n <= children.len(),
            Self::slot_points(children[i]).contains(p),
        ensures
            Self::points_upto(children, n).contains(p),
        decreases n,
    {
        let before = Self::points_upto(children, n - 1);
        let here = Self::slot_points(children[n - 1]);
        if i < n - 1 {
            Self::lemma_slot_within(children, i, n - 1, p);
            let at = choose|at: int| 0 <= at < before.len() && before[at] == p;
            assert((before + here)[at] == p);
        } else {
            let at = choose|at: int| 0 <= at < here.len() && here[at] == p;
            assert((before + here)[before.len() + at] == p);
        }
    }

    /// Every point of a region is a point of the tree.
    pub proof fn lemma_region_within(self, id: Seq<u8>, p: Point)
        requires
            self.wf(),
            self.node_at(id) is Some,
            self.node_at(id)->0.content().contains(p),
        ensures
            self.content().contains(p),
        decreases self,
    {
        let own = self.octree_index@;
        if own != id {
            let next = id[own.len() as int] as int;
            let k = self.children@[next]->0;
            k.lemma_region_within(id, p);
            Self::lemma_slot_within(self.children@, next, 8, p);
        }
    }

    /// What holds of the regions chosen below a node: each continues the
    /// node's identifier, none lies in or above another, each is realized
    /// under its own identifier, and their cells together are the node's.
    pub proof fn lemma_chunk_indices(self, target: Position, detail: int)
        requires
            self.wf(),
        ensures
            forall|j: int|
                0 <= j < self.chunk_indices(target, detail).len() ==> self.octree_index@.is_prefix_of(
                    #[trigger] self.chunk_indices(target, detail)[j],
                ),
            exclusive(self.chunk_indices(target, detail)),
            forall|j: int|
                0 <= j < self.chunk_indices(target, detail).len() ==> (self.node_at(
                    #[trigger] self.chunk_indices(target, detail)[j],
                ) matches Some(node) && node.octree_index@ == self.chunk_indices(target, detail)[j]),
            self.cells_of_regions(self.chunk_indices(target, detail)) == self.cell_ids(),
        decreases self, 9int,
    {
        let ids = self.chunk_indices(target, detail);
        if self.coarse_enough(target, detail) {
            assert(ids.len() == 1);
            assert(ids[0] == self.octree_index@);
            assert(ids.drop_last() =~= Seq::<Seq<u8>>::empty());
            assert(self.cells_of_regions(ids.drop_last()) =~= Seq::<usize>::empty());
            assert(self.cells_of_regions(ids) =~= self.cell_ids());
        } else {
            if self.points is Some {
                Self::lemma_height_of_empty(self.children@, 8);
            }
            self.lemma_indices_upto(8, target, detail);
            assert forall|j: int| 0 <= j < ids.len() implies self.octree_index@.is_prefix_of(
                #[trigger] ids[j],
            ) by {
                assert(is_strict_prefix(self.octree_index@, ids[j]));
            }
        }
    }

    /// What holds of the regions chosen below the first `n` octants of a
    /// node that is not coarse enough itself.
    pub proof fn lemma_indices_upto(self, n: int, target: Position, detail: int)
        requires
            self.wf(),
            0 <= n <= 8,
        ensures
            all_under(
                Self::indices_upto(self.children@, n, target, detail),
                self.octree_index@,
                0,
                n,
            ),
            exclusive(Self::indices_upto(self.children@, n, target, detail)),
            forall|j: int|
                0 <= j < Self::indices_upto(self.children@, n, target, detail).len() ==> (
                self.node_at(
                    #[trigger] Self::indices_upto(self.children@, n, target, detail)[j],
                ) matches Some(node) && node.octree_index@ == Self::indices_upto(
                    self.children@,
                    n,
                    target,
                    detail,
                )[j]),
            self.cells_of_regions(Self::indices_upto(self.children@, n, target, detail)) == ids_of(
                Self::points_upto(self.children@, n),
            ),
        decreases self, n,
    {
        let own = self.octree_index@;
        let ids = Self::indices_upto(self.children@, n, target, detail);
        if n == 0 {
            assert(self.cells_of_regions(ids) =~= ids_of(Self::points_upto(self.children@, n)));
        } else {
            self.lemma_indices_upto(n - 1, target, detail);
            let before = Self::indices_upto(self.children@, n - 1, target, detail);
            let slot = self.children@[n - 1];
            let here = Self::slot_indices(slot, target, detail);
            assert(ids == before + here);
            match slot {
                Some(k) => {
                    k.lemma_chunk_indices(target, detail);
                    assert(k.octree_index@ == own.push((n - 1) as u8));
                    assert forall|j: int| 0 <= j < here.len() implies is_strict_prefix(
                        own,
                        #[trigger] here[j],
                    ) && n - 1 <= here[j][own.len() as int] < n by {
                        let id = here[j];
                        assert(k.octree_index@.is_prefix_of(id));
                        assert(id.subrange(0, k.octree_index@.len() as int)[own.len() as int]
                            == id[own.len() as int]);
                        assert(own =~= id.subrange(0, own.len() as int)) by {
                            assert forall|t: int| 0 <= t < own.len() implies own[t] == id[t] by {
                                assert(id.subrange(0, k.octree_index@.len() as int)[t] == id[t]);
                                assert(k.octree_index@[t] == own[t]);
                            }
                        }
                    }
                    assert forall|j: int| 0 <= j < here.len() implies self.region_cells(
                        #[trigger] here[j],
                    ) == k.region_cells(here[j]) by {
                        self.lemma_node_at_child(n - 1, here[j]);
                    }
                    self.lemma_cells_of_same_regions(k, here);
                },
                None => {},
            }
            lemma_exclusive_concat(before, here, own, n - 1);
            self.lemma_cells_of_concat(before, here);
            assert forall|j: int| 0 <= j < ids.len() implies (self.node_at(#[trigger] ids[j]) matches Some(
                node,
            ) && node.octree_index@ == ids[j]) by {
                if j < before.len() {
                    assert(ids[j] == before[j]);
                } else {
                    assert(ids[j] == here[j - before.len()]);
                    self.lemma_node_at_child(n - 1, ids[j]);
                }
            }
            let a = Self::points_upto(self.children@, n - 1);
            let b = Self::slot_points(slot);
            assert(ids_of(a + b) =~= ids_of(a) + ids_of(b));
        }
    }

    /// The cells of the regions of a run, region by region.
    pub open spec fn cells_by_region(self, ids: Seq<Seq<u8>>) -> Seq<Seq<usize>> {
        Seq::new(
            ids.len(),
            |j: int|
                match self.region_cells(ids[j]) {
                    Some(cells) => cells,
                    None => Seq::empty(),
                },
        )
    }

    /// The chunks below the first `n` octants are the cells of the
    /// regions chosen below them.
    pub proof fn lemma_chunks_upto(self, n: int, target: Position, detail: int)
        requires
            self.wf(),
            0 <= n <= 8,
        ensures
            Self::chunks_upto(self.children@, n, target, detail) == self.cells_by_region(
                Self::indices_upto(self.children@, n, target, detail),
            ),
        decreases self, n,
    {
        if n == 0 {
            assert(Self::chunks_upto(self.children@, n, target, detail) =~= self.cells_by_region(
                Self::indices_upto(self.children@, n, target, detail),
            ));
        } else {
            self.lemma_chunks_upto(n - 1, target, detail);
            let before = Self::indices_upto(self.children@, n - 1, target, detail);
            let slot = self.children@[n - 1];
            let here = Self::slot_indices(slot, target, detail);
            match slot {
                Some(k) => {
                    k.lemma_chunks(target, detail);
                    k.lemma_chunk_indices(target, detail);
                    assert forall|j: int| 0 <= j < here.len() implies self.region_cells(
                        #[trigger] here[j],
                    ) == k.region_cells(here[j]) by {
                        self.lemma_node_at_child(n - 1, here[j]);
                    }
                    assert(k.cells_by_region(here) =~= self.cells_by_region(here));
                    assert(Self::slot_chunks(slot, target, detail) == self.cells_by_region(here));
                },
                None => {
                    assert(Self::slot_chunks(slot, target, detail) =~= self.cells_by_region(here));
                },
            }
            assert(self.cells_by_region(before + here) =~= self.cells_by_region(before)
                + self.cells_by_region(here));
            assert(Self::indices_upto(self.children@, n, target, detail) == before + here);
        }
    }

    /// The chunks of a tree are the cells of its chosen regions, region
    /// by region.
    pub proof fn lemma_chunks(self, target: Position, detail: int)
        requires
            self.wf(),
        ensures
            self.chunks(target, detail) == self.cells_by_region(
                self.chunk_indices(target, detail),
            ),
        decreases self, 9int,
    {
        if self.coarse_enough(target, detail) {
            assert(self.chunks(target, detail) =~= self.cells_by_region(
                self.chunk_indices(target, detail),
            ));
        } else {
            self.lemma_chunks_upto(8, target, detail);
        }
    }

    /// The regions chosen for a point of view cover every point of the
    /// tree once: their cells, one region after the other, are the cells
    /// of the tree.
    pub proof fn lemma_partition_complete(self, target: Position, detail: int)
        requires
            self.wf(),
        ensures
            self.cells_of_regions(self.chunk_indices(target, detail)) == self.cell_ids(),
            forall|j: int|
                0 <= j < self.chunk_indices(target, detail).len() ==> self.region_cells(
                    #[trigger] self.chunk_indices(target, detail)[j],
                ) is Some,
    {
        self.lemma_chunk_indices(target, detail);
    }

    /// No region chosen for a point of view lies in or above another
    /// chosen region, and none is chosen twice.
    pub proof fn lemma_regions_exclusive(self, target: Position, detail: int, i: int, j: int)
        requires
            self.wf(),
            0 <= i < self.chunk_indices(target, detail).len(),
            0 <= j < self.chunk_indices(target, detail).len(),
            i != j,
        ensures
            disjoint(self.chunk_indices(target, detail)[i], self.chunk_indices(target, detail)[j]),
    {
        self.lemma_chunk_indices(target, detail);
    }

    /// Let `r` be a chosen region or a region above one. Then every chosen
    /// region is `r` itself, lies strictly inside `r`, or lies apart from
    /// `r`: none lies strictly above `r`.
    pub proof fn lemma_prefix_invariant(
        self,
        target: Position,
        detail: int,
        r: Seq<u8>,
        i: int,
        j: int,
    )
        requires
            self.wf(),
            0 <= i < self.chunk_indices(target, detail).len(),
            0 <= j < self.chunk_indices(target, detail).len(),
            r.is_prefix_of(self.chunk_indices(target, detail)[j]),
        ensures
            ({
                let id = self.chunk_indices(target, detail)[i];
                id == r || is_strict_prefix(r, id) || disjoint(id, r)
            }),
    {
        self.lemma_chunk_indices(target, detail);
        let ids = self.chunk_indices(target, detail);
        let id = ids[i];
        if is_strict_prefix(id, r) {
            assert(id.is_prefix_of(ids[j])) by {
                assert(id =~= ids[j].subrange(0, id.len() as int)) by {
                    assert forall|t: int| 0 <= t < id.len() implies id[t] == ids[j][t] by {
                        assert(r.subrange(0, id.len() as int)[t] == r[t]);
                        assert(ids[j].subrange(0, r.len() as int)[t] == ids[j][t]);
                    }
                }
            }
            assert(i != j);
        } else if id.is_prefix_of(r) {
            assert(id =~= r);
        }
    }

    /// Levels are reached in order: what reaches a level reaches every
    /// level below it.
    pub proof fn lemma_levels_in_order(self, target: Position, detail: int, lower: int, level: int)
        requires
            0 <= lower <= level,
            self.level_reached(target, detail, level),
        ensures
            self.level_reached(target, detail, lower),
    {
        let span = self.half_width * UNIT;
        let need = (10 * level + 1) * self.half_width * UNIT;
        let need_lower = (10 * lower + 1) * self.half_width * UNIT;
        assert(0 <= need_lower <= need) by (nonlinear_arith)
            requires
                need == (10 * level + 1) * self.half_width * UNIT,
                need_lower == (10 * lower + 1) * self.half_width * UNIT,
                0 <= lower <= level,
                0 <= self.half_width,
                0 <= UNIT,
        ;
        assert(need_lower * need_lower <= need * need) by (nonlinear_arith)
            requires
                0 <= need_lower <= need,
        ;
    }

    /// A larger detail radius never asks for finer regions: a node that
    /// is coarse enough stays so as the radius grows.
    pub proof fn lemma_coarser_with_radius(self, target: Position, detail: int, larger: int)
        requires
            0 <= detail <= larger,
            self.coarse_enough(target, detail),
        ensures
            self.coarse_enough(target, larger),
    {
        if self.height != 0 {
            let steps = self.steps();
            let offset = crate::grid::offset_squared(target, self.center);
            let scale = 10 * steps * detail;
            let scale_larger = 10 * steps * larger;
            assert(0 <= scale <= scale_larger) by (nonlinear_arith)
                requires
                    scale == 10 * steps * detail,
                    scale_larger == 10 * steps * larger,
                    0 <= detail <= larger,
                    1 <= steps,
            ;
            assert(offset >= 0) by (nonlinear_arith)
                requires
                    offset == crate::grid::offset_squared(target, self.center),
            ;
            assert(scale * scale * offset <= scale_larger * scale_larger * offset) by (nonlinear_arith)
                requires
                    0 <= scale <= scale_larger,
                    offset >= 0,
            ;
        }
    }

    /// Regions grow coarser with distance: of two nodes of one size and
    /// height, the one that lies farther from the target is coarse enough
    /// where the nearer one is.
    pub proof fn lemma_coarser_with_distance(
        self,
        farther: Octree,
        target: Position,
        detail: int,
    )
        requires
            self.height == farther.height,
            self.half_width == farther.half_width,
            crate::grid::offset_squared(target, self.center) <= crate::grid::offset_squared(
                target,
                farther.center,
            ),
            self.coarse_enough(target, detail),
        ensures
            farther.coarse_enough(target, detail),
    {
        if self.height != 0 {
            let scale = 10 * self.steps() * detail;
            let near = crate::grid::offset_squared(target, self.center);
            let far = crate::grid::offset_squared(target, farther.center);
            assert(scale * scale * near <= scale * scale * far) by (nonlinear_arith)
                requires
                    near <= far,
            ;
        }
    }
}

} // verus!
