use vstd::prelude::*;
use vstd::arithmetic::power2::lemma2_to64;
use vstd::arithmetic::power2::lemma_pow2_unfold;
use vstd::arithmetic::power2::pow2;
use crate::chunk_index::ChunkIndex;
use crate::chunk_index::index_views;
use crate::grid::Position;
use crate::grid::UNIT;
use crate::grid::offset_squared;
use crate::grid::offset_squared_of;
use crate::octree::Octree;
use crate::octree::max_levels;

verus! {

/// A half-width below `2^(k+1)` can be halved at most `k` times.
pub proof fn lemma_levels_below(half: nat, k: nat)
    requires
        half < pow2(k + 1),
    ensures
        max_levels(half) <= k,
    decreases k,
{
    lemma_pow2_unfold(k + 1);
    if half >= 2 {
        if k == 0 {
            lemma2_to64();
        } else {
            lemma_levels_below(half / 2, (k - 1) as nat);
        }
    }
}

/// No node is more than 31 levels above its furthest leaf.
pub proof fn lemma_levels_of_u32(half: u32)
    ensures
        max_levels(half as nat) <= 31,
{
    lemma2_to64();
    lemma_levels_below(half as nat, 31);
}

/// Whether `a * g` is at least `b` can be told from `a` and the quotient
/// of `b` by `g`, rounded up.
pub proof fn lemma_compare_by_quotient(a: int, g: int, b: int)
    requires
        0 <= a,
        0 < g,
        0 <= b,
    ensures
        a * g >= b <==> a >= (b + g - 1) / g,
{
    let x = b + g - 1;
    let c = x / g;
    vstd::arithmetic::div_mod::lemma_fundamental_div_mod(x, g);
    vstd::arithmetic::div_mod::lemma_mod_bound(x, g);
    assert(x == g * c + x % g);
    if a >= c {
        assert(a * g >= c * g) by (nonlinear_arith)
            requires
                a >= c,
                g > 0,
        ;
        assert(c * g == g * c) by (nonlinear_arith);
    } else {
        assert(a * g <= (c - 1) * g) by (nonlinear_arith)
            requires
                a <= c - 1,
                g > 0,
        ;
        assert((c - 1) * g == g * c - g) by (nonlinear_arith);
    }
}

impl Octree {
    /// The number of steps that the node's half-width is divided into: its
    /// height, and one step for a leaf.
    pub open spec fn steps(self) -> int {
        if self.height < 1 {
            1
        } else {
            self.height as int
        }
    }

    /// Whether the point of view is far enough from the node to reach
    /// `level`. The distance counted is that from `target` to the node's
    /// centre, multiplied by the detail radius in units; a step is the
    /// node's half-width divided by its steps; and `level` is reached
    /// where the distance is at least `level` steps and a tenth of a step.
    /// Both sides are multiplied out and squared, so that the rule is
    /// exact on integers.
    pub open spec fn level_reached(self, target: Position, detail: int, level: int) -> bool {
        let scale = 10 * self.steps() * detail;
        let need = (10 * level + 1) * self.half_width * UNIT;
        scale * scale * offset_squared(target, self.center) >= need * need
    }

    /// Whether the node stands for its whole region. The desired depth of
    /// a node is the number of levels 0, 1, 2, ... that the point of view
    /// reaches; levels are reached in order, so the desired depth is at
    /// least the node's height exactly where the level below the height is
    /// reached. A node without children always stands for itself.
    pub open spec fn coarse_enough(self, target: Position, detail: int) -> bool {
        self.height == 0 || self.level_reached(target, detail, self.height - 1)
    }

    /// The identifiers chosen below octant slot `slot`.
    pub open spec fn slot_indices(slot: Option<Octree>, target: Position, detail: int) -> Seq<
        Seq<u8>,
    >
        decreases slot,
    {
        match slot {
            Some(k) => k.chunk_indices(target, detail),
            None => Seq::empty(),
        }
    }

    /// The identifiers chosen below the first `n` octants, in octant order.
    pub open spec fn indices_upto(
        children: Seq<Option<Octree>>,
        n: int,
        target: Position,
        detail: int,
    ) -> Seq<Seq<u8>>
        decreases children, n,
    {
        if n <= 0 || n > children.len() {
            Seq::empty()
        } else {
            Self::indices_upto(children, n - 1, target, detail) + Self::slot_indices(
                children[n - 1],
                target,
                detail,
            )
        }
    }

    /// The regions that cover this subtree for a point of view: the node's
    /// own identifier where the node is coarse enough, the regions chosen
    /// by its children otherwise. The coarsest region that is coarse enough
    /// wins: nothing below it is looked at.
    pub open spec fn chunk_indices(self, target: Position, detail: int) -> Seq<Seq<u8>>
        decreases self,
    {
        if self.coarse_enough(target, detail) {
            seq![self.octree_index@]
        } else {
            Self::indices_upto(self.children@, self.children@.len() as int, target, detail)
        }
    }

    /// Decides [`Self::coarse_enough`].
    pub fn is_coarse_enough(&self, target: Position, detail_radius: u32) -> (r: bool)
        requires
            self.wf_shape(),
        ensures
            r == self.coarse_enough(target, detail_radius as int),
    {
        if self.height == 0 {
            return true;
        }
        proof {
            lemma_levels_of_u32(self.half_width);
        }
        let steps: u128 = self.height as u128;
        let tenths: u128 = 10 * (steps - 1) + 1;
        let half: u128 = self.half_width as u128;
        let detail: u128 = detail_radius as u128;
        assert(0 <= tenths * half <= 301 * 0xffff_ffff) by (nonlinear_arith)
            requires
                0 <= tenths <= 301,
                0 <= half <= 0xffff_ffff,
        ;
        assert(0 <= 10 * steps * detail <= 310 * 0xffff_ffff) by (nonlinear_arith)
            requires
                0 <= steps <= 31,
                0 <= detail <= 0xffff_ffff,
        ;
        let span: u128 = tenths * half;
        assert(UNIT == 1_048_576);
        let need: u128 = span * (UNIT as u128);
        let scale: u128 = 10 * steps * detail;
        assert(need == (10 * (self.height - 1) + 1) * self.half_width * UNIT);
        assert(scale == 10 * self.steps() * detail_radius);
        assert(0 <= need * need <= 0x12d0_0000_0000_0000 * 0x12d0_0000_0000_0000) by (nonlinear_arith)
            requires
                0 <= need <= 0x12d0_0000_0000_0000,
        ;
        assert(0 <= scale * scale <= 0x136_0000_0000 * 0x136_0000_0000) by (nonlinear_arith)
            requires
                0 <= scale <= 0x136_0000_0000,
        ;
        assert(need == 0 ==> need * need == 0) by (nonlinear_arith);
        assert(need * need >= need) by (nonlinear_arith)
            requires
                need >= 0,
        ;
        let wanted: u128 = need * need;
        let reach: u128 = scale * scale;
        let offset: u128 = offset_squared_of(target, self.center);
        if offset == 0 {
            proof {
                assert(reach * offset == 0) by (nonlinear_arith)
                    requires
                        offset == 0,
                ;
            }
            return need == 0;
        }
        proof {
            lemma_compare_by_quotient(reach as int, offset as int, wanted as int);
        }
        reach >= (wanted + (offset - 1)) / offset
    }

    /// The regions that cover the surface for a point of view: finer near
    /// `target`, coarser far from it, and coarser everywhere as
    /// `detail_radius` grows. A radius of one unit counts every distance
    /// as it is; with a radius of 0 every leaf is a region of its own.
    pub fn get_chunk_indices(&self, target: Position, detail_radius: u32) -> (results: Vec<
        ChunkIndex,
    >)
        requires
            self.wf(),
        ensures
            index_views(results@) == self.chunk_indices(target, detail_radius as int),
        decreases self,
    {
        let mut results: Vec<ChunkIndex> = Vec::new();
        if self.is_coarse_enough(target, detail_radius) {
            results.push(self.octree_index.clone());
            proof {
                assert(index_views(results@) =~= seq![self.octree_index@]);
            }
        } else {
            let mut i: usize = 0;
            proof {
                assert(index_views(results@) =~= Seq::<Seq<u8>>::empty());
            }
            while i < self.children.len()
                invariant
                    self.wf(),
                    i <= self.children@.len(),
                    index_views(results@) == Self::indices_upto(
                        self.children@,
                        i as int,
                        target,
                        detail_radius as int,
                    ),
                decreases self.children@.len() - i,
            {
                let ghost before = results@;
                if let Some(child) = &self.children[i] {
                    let mut sub = child.get_chunk_indices(target, detail_radius);
                    let ghost added = sub@;
                    results.append(&mut sub);
                    proof {
                        assert(index_views(before + added) =~= index_views(before) + index_views(
                            added,
                        ));
                    }
                }
                proof {
                    assert(index_views(results@) =~= Self::indices_upto(
                        self.children@,
                        i as int,
                        target,
                        detail_radius as int,
                    ) + Self::slot_indices(self.children@[i as int], target, detail_radius as int));
                }
                i += 1;
            }
        }
        results
    }
}

/// The runs of cells that a list of cell lists stands for.
pub open spec fn cell_views(lists: Seq<Vec<usize>>) -> Seq<Seq<usize>> {
    Seq::new(lists.len(), |i: int| lists[i]@)
}

impl Octree {
    /// The cells of the regions chosen below octant slot `slot`.
    pub open spec fn slot_chunks(slot: Option<Octree>, target: Position, detail: int) -> Seq<
        Seq<usize>,
    >
        decreases slot,
    {
        match slot {
            Some(k) => k.chunks(target, detail),
            None => Seq::empty(),
        }
    }

    /// The cells of the regions chosen below the first `n` octants.
    pub open spec fn chunks_upto(
        children: Seq<Option<Octree>>,
        n: int,
        target: Position,
        detail: int,
    ) -> Seq<Seq<usize>>
        decreases children, n,
    {
        if n <= 0 || n > children.len() {
            Seq::empty()
        } else {
            Self::chunks_upto(children, n - 1, target, detail) + Self::slot_chunks(
                children[n - 1],
                target,
                detail,
            )
        }
    }

    /// The cells of each region of [`Self::chunk_indices`], region by
    /// region.
    pub open spec fn chunks(self, target: Position, detail: int) -> Seq<Seq<usize>>
        decreases self,
    {
        if self.coarse_enough(target, detail) {
            seq![self.cell_ids()]
        } else {
            Self::chunks_upto(self.children@, self.children@.len() as int, target, detail)
        }
    }

    /// The cells of the regions that cover the surface for a point of
    /// view, one list for each region.
    pub fn get_chunks(&self, target: Position, detail_radius: u32) -> (results: Vec<Vec<usize>>)
        requires
            self.wf(),
        ensures
            cell_views(results@) == self.chunks(target, detail_radius as int),
        decreases self,
    {
        let mut results: Vec<Vec<usize>> = Vec::new();
        if self.is_coarse_enough(target, detail_radius) {
            results.push(self.cells());
            proof {
                assert(cell_views(results@) =~= seq![self.cell_ids()]);
            }
        } else {
            let mut i: usize = 0;
            proof {
                assert(cell_views(results@) =~= Seq::<Seq<usize>>::empty());
            }
            while i < self.children.len()
                invariant
                    self.wf(),
                    i <= self.children@.len(),
                    cell_views(results@) == Self::chunks_upto(
                        self.children@,
                        i as int,
                        target,
                        detail_radius as int,
                    ),
                decreases self.children@.len() - i,
            {
                let ghost before = results@;
                if let Some(child) = &self.children[i] {
                    let mut sub = child.get_chunks(target, detail_radius);
                    let ghost added = sub@;
                    results.append(&mut sub);
                    proof {
                        assert(cell_views(before + added) =~= cell_views(before) + cell_views(added));
                    }
                }
                proof {
                    assert(cell_views(results@) =~= Self::chunks_upto(
                        self.children@,
                        i as int,
                        target,
                        detail_radius as int,
                    ) + Self::slot_chunks(self.children@[i as int], target, detail_radius as int));
                }
                i += 1;
            }
        }
        results
    }
}

} // verus!
