//! The aggregation index of one peer.

use vstd::prelude::*;
use crate::aggregate::GridPoint;
use crate::coords::Topology;
use crate::fenwick::Fenwick2;
use crate::op::Op;
use crate::aggregate::lemma_in_bounds;
use crate::region::{RegionBounds, RegionData, data_of};

verus! {

/// Aggregates of every rectangle of the grid, over the operations added so far.
pub struct Tree {
    topo: Topology,
    tree: Fenwick2,
}

impl View for Tree {
    type V = Seq<GridPoint>;

    /// The grid points of the operations added so far, in the order of their arrival.
    closed spec fn view(&self) -> Seq<GridPoint> {
        self.tree@
    }
}

impl Tree {
    /// The topology by which operations are placed on the grid.
    pub closed spec fn topology(&self) -> Topology {
        self.topo
    }

    /// The index is consistent and its topology is usable.
    pub closed spec fn wf(&self) -> bool {
        self.topo.wf() && self.tree.wf()
    }

    /// A tree holds fewer than `2^32` operations.
    pub proof fn lemma_len_bounded(&self)
        requires
            self.wf(),
        ensures
            self@.len() <= u32::MAX,
    {
        self.tree.lemma_len_bounded();
    }

    /// The topology of a tree is usable.
    pub proof fn lemma_topology_wf(&self)
        requires
            self.wf(),
        ensures
            self.topology().wf(),
    {
    }

    /// A tree without operations.
    pub fn new(topo: Topology) -> (r: Tree)
        requires
            topo.wf(),
        ensures
            r.wf(),
            r.topology() == topo,
            r@ == Seq::<GridPoint>::empty(),
    {
        Tree { topo, tree: Fenwick2::new() }
    }

    /// The topology by which operations are placed on the grid.
    pub fn topo(&self) -> (r: &Topology)
        ensures
            *r == self.topology(),
    {
        &self.topo
    }

    /// Adds an operation to the aggregates of every rectangle that holds its grid point.
    pub fn add_op(&mut self, op: Op)
        requires
            old(self).wf(),
            old(self)@.len() < u32::MAX,
        ensures
            final(self).wf(),
            final(self).topology() == old(self).topology(),
            final(self)@ == old(self)@.push(op.point(old(self).topology())),
    {
        let p = op.to_point(&self.topo);
        self.tree.update(p);
    }

    /// Count and total size of the operations whose grid points lie in `region`.
    pub fn lookup(&self, region: &RegionBounds) -> (r: RegionData)
        requires
            self.wf(),
        ensures
            r.count == region.count(self@),
            r.size == region.size(self@),
            r == data_of(self@, *region),
            (forall|i: int| 0 <= i < self@.len() ==> !region.contains(#[trigger] self@[i])) ==> r.count
                == 0 && r.size == 0,
    {
        proof {
            self.lemma_len_bounded();
            lemma_in_bounds(
                self@,
                region.x.0 as int,
                region.x.1 as int,
                region.t.0 as int,
                region.t.1 as int,
            );
            if forall|i: int| 0 <= i < self@.len() ==> !region.contains(#[trigger] self@[i]) {
                region.lemma_nothing_inside(self@);
            }
        }
        self.tree.query((region.x.0, region.t.0), (region.x.1, region.t.1))
    }

    /// Count and total size of the operations whose grid points lie at or
    /// before `point` on both axes.
    pub fn prefix_sum(&self, point: (u32, u32)) -> (r: RegionData)
        requires
            self.wf(),
        ensures
            r.count == (RegionBounds { x: (0, point.0), t: (0, point.1) }).count(self@),
            r.size == (RegionBounds { x: (0, point.0), t: (0, point.1) }).size(self@),
    {
        self.tree.prefix_sum(point)
    }
}

} // verus!
